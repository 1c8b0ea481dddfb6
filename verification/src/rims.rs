//! Why the boundary of a face closes: on a consistently wound surface as many boundary steps leave
//! every vertex as arrive there.

use vstd::prelude::*;

use crate::first_seen::{firsts, Key};
use crate::mesh::{consistent, proper, runs, side_of, EdgeTable, Tri};
use crate::topo::{backwards, bounds, bounds_by, face_steps, members, rim, starts, step_key, stops, unmatched, Topo};
use crate::trails::{balanced, left, returns_home};

verus! {

/// How many entries satisfy `p`.
spec fn tally(s: Seq<Key>, p: spec_fn(Key) -> bool) -> nat
    decreases s.len(),
{
    if s.len() == 0 {
        0
    } else {
        tally(s.drop_last(), p) + if p(s.last()) { 1nat } else { 0nat }
    }
}

proof fn tally_push(s: Seq<Key>, k: Key, p: spec_fn(Key) -> bool)
    ensures
        tally(s.push(k), p) == tally(s, p) + (if p(k) { 1nat } else { 0nat }),
{
    assert(s.push(k).drop_last() =~= s);
}

proof fn tally_set(s: Seq<Key>, p: spec_fn(Key) -> bool)
    requires
        s.no_duplicates(),
    ensures
        s.to_set().filter(p).finite(),
        tally(s, p) == s.to_set().filter(p).len(),
    decreases s.len(),
{
    if s.len() == 0 {
        assert(s.to_set().filter(p) =~= Set::<Key>::empty());
    } else {
        let t = s.drop_last();
        let k = s.last();
        assert(t.no_duplicates());
        tally_set(t, p);
        assert(!t.contains(k)) by {
            if t.contains(k) {
                let j = choose|j: int| 0 <= j < t.len() && t[j] == k;
                assert(s[j] == s[s.len() - 1]);
            }
        }
        assert(s =~= t.push(k));
        assert(s.to_set() =~= t.to_set().insert(k)) by {
            assert forall|x: Key| s.to_set().contains(x) <==> t.to_set().insert(k).contains(x) by {
                if s.contains(x) {
                    let j = choose|j: int| 0 <= j < s.len() && s[j] == x;
                    if j < t.len() {
                        assert(t[j] == x);
                    }
                }
                if t.contains(x) {
                    let j = choose|j: int| 0 <= j < t.len() && t[j] == x;
                    assert(s[j] == x);
                }
                assert(s[s.len() - 1] == k);
            }
        }
        if p(k) {
            assert(s.to_set().filter(p) =~= t.to_set().filter(p).insert(k));
        } else {
            assert(s.to_set().filter(p) =~= t.to_set().filter(p));
        }
    }
}

proof fn tally_split(s: Seq<Key>, p: spec_fn(Key) -> bool, q: spec_fn(Key) -> bool)
    ensures
        tally(s, p) == tally(s, |k: Key| p(k) && q(k)) + tally(s, |k: Key| p(k) && !q(k)),
    decreases s.len(),
{
    if s.len() > 0 {
        tally_split(s.drop_last(), p, q);
    }
}

/// Among steps that are also walked backwards, as many leave `v` as arrive there.
proof fn matched_steps_balance(s: Seq<Key>, v: i128)
    requires
        s.no_duplicates(),
    ensures
        tally(s, |k: Key| k.x == v && s.contains(backwards(k))) == tally(s, |k: Key| k.y == v && s.contains(backwards(k))),
{
    let p = |k: Key| k.x == v && s.contains(backwards(k));
    let q = |k: Key| k.y == v && s.contains(backwards(k));
    tally_set(s, p);
    tally_set(s, q);
    let a = s.to_set().filter(p);
    let b = s.to_set().filter(q);
    let f = |k: Key| backwards(k);
    assert(a.map(f) =~= b) by {
        assert forall|k: Key| a.map(f).contains(k) <==> b.contains(k) by {
            if a.map(f).contains(k) {
                let j = choose|j: Key| a.contains(j) && f(j) == k;
                assert(s.contains(backwards(j)));
                assert(backwards(k) == j);
            }
            if b.contains(k) {
                let j = backwards(k);
                assert(backwards(j) == k);
                assert(a.contains(j));
                assert(f(j) == k);
            }
        }
    }
    assert forall|x: Key, y: Key| #[trigger] f(x) == #[trigger] f(y) implies x == y by {
        assert(backwards(backwards(x)) == x && backwards(backwards(y)) == y);
    }
    assert(vstd::relations::injective(f));
    vstd::set_lib::lemma_map_size(a, b, f);
}

/// A triangle leaves each of its corners once and arrives there once.
proof fn corners_balance(tris: Seq<Tri>, on: Seq<usize>, v: i128)
    ensures
        tally(face_steps(tris, on), |k: Key| k.x == v) == tally(face_steps(tris, on), |k: Key| k.y == v),
    decreases on.len(),
{
    let s = face_steps(tris, on);
    if on.len() > 0 {
        let rest = on.drop_last();
        let r = face_steps(tris, rest);
        corners_balance(tris, rest, v);
        let t = tris[on.last() as int];
        let (k0, k1, k2) = (step_key(t.a, t.b), step_key(t.b, t.c), step_key(t.c, t.a));
        let n = on.len() as int - 1;
        assert((3 * n) / 3 == n && (3 * n) % 3 == 0);
        assert((3 * n + 1) / 3 == n && (3 * n + 1) % 3 == 1);
        assert((3 * n + 2) / 3 == n && (3 * n + 2) % 3 == 2);
        assert(s =~= r.push(k0).push(k1).push(k2)) by {
            assert forall|h: int| 0 <= h < r.len() implies s[h] == r[h] by {
                assert(on[h / 3] == rest[h / 3]);
            }
        }
        let (x, y) = (|k: Key| k.x == v, |k: Key| k.y == v);
        tally_push(r, k0, x);
        tally_push(r.push(k0), k1, x);
        tally_push(r.push(k0).push(k1), k2, x);
        tally_push(r, k0, y);
        tally_push(r.push(k0), k1, y);
        tally_push(r.push(k0).push(k1), k2, y);
    }
}

proof fn firsts_of_distinct(s: Seq<Key>)
    requires
        s.no_duplicates(),
    ensures
        firsts(s) == s,
    decreases s.len(),
{
    if s.len() > 0 {
        let t = s.drop_last();
        firsts_of_distinct(t);
        if t.contains(s.last()) {
            let j = choose|j: int| 0 <= j < t.len() && t[j] == s.last();
            assert(s[j] == s[s.len() - 1]);
        }
        assert(s =~= t.push(s.last()));
    } else {
        assert(s =~= Seq::<Key>::empty());
    }
}

/// On a consistently wound surface no directed side occurs twice.
pub proof fn consistent_sides_differ(tris: Seq<Tri>, on: Seq<usize>)
    requires
        consistent(tris),
        forall|t: int| 0 <= t < tris.len() ==> proper(#[trigger] tris[t]),
        on.no_duplicates(),
        forall|k: int| 0 <= k < on.len() ==> (#[trigger] on[k]) < tris.len(),
    ensures
        face_steps(tris, on).no_duplicates(),
{
    let s = face_steps(tris, on);
    assert forall|h: int, g: int| 0 <= h < s.len() && 0 <= g < s.len() && h != g implies s[h] != s[g] by {
        let (t, u) = (on[h / 3] as int, on[g / 3] as int);
        let (p, q) = (side_of(tris[t], h % 3), side_of(tris[u], g % 3));
        assert(proper(tris[t]));
        if s[h] == s[g] {
            assert(p == q);
            if h / 3 == g / 3 {
                assert(h % 3 != g % 3);
            } else {
                assert(t != u);
                assert(runs(tris[t], p.0, p.1));
                assert(runs(tris[u], p.0, p.1));
            }
        }
    }
}

/// The numbers in the keys are vertex numbers.
spec fn vertex_keys(s: Seq<Key>) -> bool {
    forall|k: int| 0 <= k < s.len() ==> 0 <= (#[trigger] s[k]).x <= usize::MAX && 0 <= s[k].y <= usize::MAX
}

proof fn rim_tally(list: Seq<Key>, all: Seq<Key>, v: usize)
    requires
        vertex_keys(list),
    ensures
        ({
            let steps = unmatched(list, all);
            let none = Seq::new(steps.len(), |i: int| false);
            &&& left(starts(steps), none, v) == tally(list, |k: Key| k.x == v && !all.contains(backwards(k)))
            &&& left(stops(steps), none, v) == tally(list, |k: Key| k.y == v && !all.contains(backwards(k)))
        }),
    decreases list.len(),
{
    let steps = unmatched(list, all);
    let none = Seq::new(steps.len(), |i: int| false);
    if list.len() > 0 {
        let rest = list.drop_last();
        assert forall|k: int| 0 <= k < rest.len() implies 0 <= (#[trigger] rest[k]).x <= usize::MAX && 0 <= rest[k].y <= usize::MAX by {
            assert(rest[k] == list[k]);
        }
        rim_tally(rest, all, v);
        let fewer = unmatched(rest, all);
        let key = list.last();
        assert(list[list.len() - 1] == key);
        if !all.contains(backwards(key)) {
            assert(starts(steps).drop_last() =~= starts(fewer));
            assert(stops(steps).drop_last() =~= stops(fewer));
            assert(none.drop_last() =~= Seq::new(fewer.len(), |i: int| false));
        }
    }
}

/// On a consistently wound surface the boundary of every set of triangles is balanced, so that the
/// loops around a face all close.
pub proof fn consistent_rims_balance(tris: Seq<Tri>, on: Seq<usize>)
    requires
        consistent(tris),
        forall|t: int| 0 <= t < tris.len() ==> proper(#[trigger] tris[t]),
        on.no_duplicates(),
        forall|k: int| 0 <= k < on.len() ==> (#[trigger] on[k]) < tris.len(),
    ensures
        balanced(starts(rim(tris, on)), stops(rim(tris, on))),
{
    let s = face_steps(tris, on);
    consistent_sides_differ(tris, on);
    firsts_of_distinct(s);
    let steps = rim(tris, on);
    let none = Seq::new(starts(steps).len(), |i: int| false);
    assert forall|v: usize| #[trigger] left(starts(steps), none, v) == left(stops(steps), none, v) by {
        let w = v as i128;
        rim_tally(s, s, v);
        assert(none =~= Seq::new(steps.len(), |i: int| false));
        matched_steps_balance(s, w);
        corners_balance(tris, on, w);
        let (x, y, m) = (|k: Key| k.x == w, |k: Key| k.y == w, |k: Key| s.contains(backwards(k)));
        tally_split(s, x, m);
        tally_split(s, y, m);
        assert((|k: Key| x(k) && m(k)) =~= (|k: Key| k.x == w && s.contains(backwards(k))));
        assert((|k: Key| y(k) && m(k)) =~= (|k: Key| k.y == w && s.contains(backwards(k))));
        assert((|k: Key| x(k) && !m(k)) =~= (|k: Key| k.x == v && !s.contains(backwards(k))));
        assert((|k: Key| y(k) && !m(k)) =~= (|k: Key| k.y == v && !s.contains(backwards(k))));
    }
}

/// The triangles of a face are listed once each.
pub proof fn members_distinct(face: Seq<usize>, f: int, n: int)
    requires
        0 <= n <= face.len() <= usize::MAX,
    ensures
        members(face, f, n).no_duplicates(),
        forall|k: int| 0 <= k < members(face, f, n).len() ==> (#[trigger] members(face, f, n)[k]) < n,
    decreases n,
{
    if n > 0 {
        members_distinct(face, f, n - 1);
    }
}

/// The loops are the vertices along a tour of the steps, and every one of them leads back to its
/// start.
pub open spec fn encloses(loops: Seq<Vec<usize>>, steps: Seq<(usize, usize)>) -> bool {
    exists|trails: Seq<Vec<usize>>| #[trigger]
        bounds_by(loops, steps, trails) && forall|l: int|
            0 <= l < trails.len() ==> returns_home(starts(steps), stops(steps), (#[trigger] trails[l])@)
}

/// On a consistently wound surface the loops of every face are closed.
pub proof fn face_loops_close(topo: Topo, et: EdgeTable, smooth: Seq<bool>, f: int)
    requires
        topo.describes(et, smooth),
        topo.wf(),
        consistent(topo.tris@),
        0 <= f < topo.faces@.len(),
    ensures
        encloses(topo.faces@[f].loops@, rim(topo.tris@, topo.faces@[f].tris@)),
{
    let on = topo.faces@[f].tris@;
    let n = topo.tris.len();
    assert(n == topo.tris@.len());
    members_distinct(topo.tri_face@, f, n as int);
    assert(on == members(topo.tri_face@, f, n as int));
    consistent_rims_balance(topo.tris@, on);
    assert(bounds(topo.faces@[f].loops@, rim(topo.tris@, on)));
}

} // verus!
