//! Triangles over numbered vertices: their edges, who shares them, and which way they run.

use vstd::prelude::*;

use crate::counting::{truths, truths_bound, truths_set};
use crate::first_seen::{firsts, firsts_distinct, Key, KeyTable};

verus! {

/// A triangle, by the numbers of its corners in order.
#[derive(Clone, Copy, PartialEq, Eq, Structural, Debug)]
pub struct Tri {
    pub a: usize,
    pub b: usize,
    pub c: usize,
}

/// The `k`-th directed side: a to b, b to c, c to a.
pub open spec fn side_of(t: Tri, k: int) -> (usize, usize) {
    if k == 0 {
        (t.a, t.b)
    } else if k == 1 {
        (t.b, t.c)
    } else {
        (t.c, t.a)
    }
}

/// The key of an edge, whichever way it is walked: smaller end first.
pub open spec fn edge_key(p: usize, q: usize) -> Key {
    if p < q {
        Key { x: p as i128, y: q as i128, z: 0 }
    } else {
        Key { x: q as i128, y: p as i128, z: 0 }
    }
}

/// The edge key of side number `h`: side `h % 3` of triangle `h / 3`.
pub open spec fn side_key(tris: Seq<Tri>, h: int) -> Key {
    let s = side_of(tris[h / 3], h % 3);
    edge_key(s.0, s.1)
}

/// The keys of all sides, triangle by triangle.
pub open spec fn side_keys(tris: Seq<Tri>) -> Seq<Key> {
    Seq::new(3 * tris.len(), |h: int| side_key(tris, h))
}

/// The triangles whose sides among the first `n` lie on the edge `key`, in order.
pub open spec fn users(tris: Seq<Tri>, key: Key, n: int) -> Seq<usize>
    decreases n,
{
    if n <= 0 {
        Seq::empty()
    } else if side_key(tris, n - 1) == key {
        users(tris, key, n - 1).push(((n - 1) / 3) as usize)
    } else {
        users(tris, key, n - 1)
    }
}

/// The triangles on the edge between `p` and `q`, each once for every side it has there.
pub open spec fn edge_users(tris: Seq<Tri>, p: usize, q: usize) -> Seq<usize> {
    users(tris, edge_key(p, q), 3 * tris.len() as int)
}

/// The edge key, to compute with.
pub fn key_of(p: usize, q: usize) -> (k: Key)
    ensures
        k == edge_key(p, q),
{
    if p < q {
        Key { x: p as i128, y: q as i128, z: 0 }
    } else {
        Key { x: q as i128, y: p as i128, z: 0 }
    }
}

/// The `k`-th directed side, to compute with.
pub fn side(t: Tri, k: usize) -> (s: (usize, usize))
    ensures
        s == side_of(t, k as int),
{
    if k == 0 {
        (t.a, t.b)
    } else if k == 1 {
        (t.b, t.c)
    } else {
        (t.c, t.a)
    }
}

/// The edges of a list of triangles in the order of their first use, each with the triangles that
/// use it.
pub struct EdgeTable {
    pub table: KeyTable,
    /// The two ends of each edge, smaller number first.
    pub ends: Vec<(usize, usize)>,
    pub uses: Vec<Vec<usize>>,
}

impl EdgeTable {
    /// This is the table of the edges of `tris`.
    pub open spec fn describes(&self, tris: Seq<Tri>) -> bool {
        &&& self.table.wf()
        &&& self.table.keys() == firsts(side_keys(tris))
        &&& self.uses@.len() == self.table.keys().len()
        &&& self.ends@.len() == self.table.keys().len()
        &&& forall|e: int|
            0 <= e < self.ends@.len() ==> {
                &&& (#[trigger] self.ends@[e]).0 <= self.ends@[e].1
                &&& edge_key(self.ends@[e].0, self.ends@[e].1) == self.table.keys()[e]
            }
        &&& forall|e: int|
            0 <= e < self.uses@.len() ==> (#[trigger] self.uses@[e])@ == users(tris, self.table.keys()[e], 3 * tris.len() as int)
    }
}

proof fn key_is_a_side(tris: Seq<Tri>, k: Key)
    requires
        firsts(side_keys(tris)).contains(k),
    ensures
        exists|h: int| 0 <= h < 3 * tris.len() && #[trigger] side_key(tris, h) == k,
{
    firsts_distinct(side_keys(tris));
    assert(side_keys(tris).contains(k));
    let h = choose|h: int| 0 <= h < side_keys(tris).len() && side_keys(tris)[h] == k;
    assert(side_key(tris, h) == k);
}

/// Every side of every triangle has its edge in the list.
pub proof fn side_is_listed(tris: Seq<Tri>, t: int, k: int)
    requires
        0 <= t < tris.len(),
        0 <= k < 3,
    ensures
        ({
            let s = side_of(tris[t], k);
            firsts(side_keys(tris)).contains(edge_key(s.0, s.1))
        }),
{
    let h = 3 * t + k;
    firsts_distinct(side_keys(tris));
    assert(h / 3 == t && h % 3 == k);
    assert(side_keys(tris)[h] == side_key(tris, h));
    let s = side_of(tris[t], k);
    assert(side_keys(tris).contains(edge_key(s.0, s.1)));
}

/// List the edges of `tris`, each with the triangles that use it.
pub fn edge_table(tris: &Vec<Tri>) -> (et: EdgeTable)
    ensures
        et.describes(tris@),
{
    let mut table: KeyTable = KeyTable::new(tris.len());
    let mut uses: Vec<Vec<usize>> = Vec::new();
    let mut ends: Vec<(usize, usize)> = Vec::new();
    let ghost all = side_keys(tris@);
    assert(all.take(0) =~= Seq::<Key>::empty());
    let mut t: usize = 0;
    while t < tris.len()
        invariant
            t <= tris@.len(),
            all == side_keys(tris@),
            table.wf(),
            table.keys() == firsts(all.take(3 * t as int)),
            uses@.len() == table.keys().len(),
            ends@.len() == table.keys().len(),
            forall|e: int|
                0 <= e < ends@.len() ==> (#[trigger] ends@[e]).0 <= ends@[e].1 && edge_key(ends@[e].0, ends@[e].1) == table.keys()[e],
            forall|e: int| 0 <= e < uses@.len() ==> (#[trigger] uses@[e])@ == users(tris@, table.keys()[e], 3 * t as int),
        decreases tris@.len() - t,
    {
        let mut k: usize = 0;
        while k < 3
            invariant
                t < tris@.len(),
                k <= 3,
                all == side_keys(tris@),
                table.wf(),
                table.keys() == firsts(all.take(3 * t as int + k)),
                uses@.len() == table.keys().len(),
                ends@.len() == table.keys().len(),
                forall|e: int|
                    0 <= e < ends@.len() ==> (#[trigger] ends@[e]).0 <= ends@[e].1 && edge_key(ends@[e].0, ends@[e].1) == table.keys()[e],
                forall|e: int| 0 <= e < uses@.len() ==> (#[trigger] uses@[e])@ == users(tris@, table.keys()[e], 3 * t as int + k),
            decreases 3 - k,
        {
            let (p, q) = side(tris[t], k);
            let ghost h = 3 * t as int + k;
            let ghost seen = table.keys();
            let ghost uses0 = uses@;
            let ghost ends0 = ends@;
            let key: Key = key_of(p, q);
            proof {
                assert(h / 3 == t && h % 3 == k);
                assert(all[h] == key);
                assert(all.take(h + 1).drop_last() =~= all.take(h));
                assert(side_key(tris@, h) == key);
                firsts_distinct(all.take(h));
                firsts_distinct(all.take(h + 1));
            }
            let e: usize = table.id_of(key);
            if e == uses.len() {
                let mut fresh: Vec<usize> = Vec::new();
                fresh.push(t);
                proof {
                    assert(!seen.contains(key));
                    unused(tris@, key, h);
                    assert(fresh@ =~= users(tris@, key, h + 1));
                }
                uses.push(fresh);
                ends.push(if p < q { (p, q) } else { (q, p) });
            } else {
                proof {
                    assert(e < uses0.len());
                    if !seen.contains(key) {
                        assert(table.keys()[seen.len() as int] == key);
                    }
                    assert(seen[e as int] == key);
                }
                uses[e].push(t);
            }
            proof {
                assert forall|d: int| 0 <= d < uses@.len() implies (#[trigger] uses@[d])@ == users(tris@, table.keys()[d], h + 1) by {
                    if d != e {
                        assert(table.keys()[d] != key);
                        assert(seen[d] == table.keys()[d]);
                    }
                }
                assert(forall|d: int| 0 <= d < ends0.len() ==> #[trigger] ends@[d] == ends0[d] && table.keys()[d] == seen[d]);
            }
            k = k + 1;
        }
        t = t + 1;
    }
    assert(all.take(3 * t as int) =~= all);
    EdgeTable { table, ends, uses }
}

/// An edge that none of the first `n` sides lies on has no users among them.
proof fn unused(tris: Seq<Tri>, key: Key, n: int)
    requires
        0 <= n <= 3 * tris.len(),
        !firsts(side_keys(tris).take(n)).contains(key),
    ensures
        users(tris, key, n) == Seq::<usize>::empty(),
    decreases n,
{
    if n > 0 {
        let all = side_keys(tris);
        firsts_distinct(all.take(n));
        firsts_distinct(all.take(n - 1));
        assert(all.take(n)[n - 1] == side_key(tris, n - 1));
        assert(all.take(n).contains(side_key(tris, n - 1)));
        assert forall|x: Key| all.take(n - 1).contains(x) implies all.take(n).contains(x) by {
            let short = all.take(n - 1);
            let j = choose|j: int| 0 <= j < short.len() && short[j] == x;
            assert(all.take(n)[j] == x);
        }
        unused(tris, key, n - 1);
    }
}

/// Every edge has exactly two sides on it: the triangles bound a volume without gaps.
pub open spec fn closed_surface(tris: Seq<Tri>) -> bool {
    &&& tris.len() > 0
    &&& forall|t: int, k: int|
        0 <= t < tris.len() && 0 <= k < 3 ==> edge_users(tris, (#[trigger] side_of(tris[t], k)).0, side_of(tris[t], k).1).len() == 2
}

/// Does every edge belong to exactly two sides?
pub fn is_closed(tris: &Vec<Tri>) -> (b: bool)
    ensures
        b == closed_surface(tris@),
{
    if tris.len() == 0 {
        return false;
    }
    let et: EdgeTable = edge_table(tris);
    let mut e: usize = 0;
    while e < et.uses.len()
        invariant
            e <= et.uses@.len(),
            et.describes(tris@),
            tris@.len() > 0,
            forall|d: int| 0 <= d < e ==> (#[trigger] et.uses@[d])@.len() == 2,
        decreases et.uses@.len() - e,
    {
        if et.uses[e].len() != 2 {
            proof {
                let k = et.table.keys()[e as int];
                assert(firsts(side_keys(tris@)).contains(k));
                key_is_a_side(tris@, k);
                let h = choose|h: int| 0 <= h < 3 * tris@.len() && #[trigger] side_key(tris@, h) == k;
                let s = side_of(tris@[h / 3], h % 3);
                assert(edge_users(tris@, s.0, s.1) == et.uses@[e as int]@);
            }
            return false;
        }
        e = e + 1;
    }
    proof {
        assert forall|t: int, k: int| 0 <= t < tris@.len() && 0 <= k < 3 implies edge_users(
            tris@,
            (#[trigger] side_of(tris@[t], k)).0,
            side_of(tris@[t], k).1,
        ).len() == 2 by {
            side_is_listed(tris@, t, k);
            let s = side_of(tris@[t], k);
            let key = edge_key(s.0, s.1);
            let d = choose|d: int| 0 <= d < et.table.keys().len() && et.table.keys()[d] == key;
            assert(et.uses@[d]@ == users(tris@, key, 3 * tris@.len() as int));
        }
    }
    true
}

/// How many edges have a number of sides on them that `wanted` accepts.
pub open spec fn edges_with(tris: Seq<Tri>, wanted: spec_fn(nat) -> bool) -> nat {
    let keys = firsts(side_keys(tris));
    truths(Seq::new(keys.len(), |e: int| wanted(users(tris, keys[e], 3 * tris.len() as int).len())))
}

/// The edges with a single side on them, and those with more than two.
pub fn edge_stats(tris: &Vec<Tri>) -> (r: (usize, usize))
    ensures
        r.0 == edges_with(tris@, |n: nat| n == 1),
        r.1 == edges_with(tris@, |n: nat| n > 2),
{
    let et: EdgeTable = edge_table(tris);
    let ghost keys = firsts(side_keys(tris@));
    let ghost one = Seq::new(keys.len(), |e: int| users(tris@, keys[e], 3 * tris@.len() as int).len() == 1);
    let ghost many = Seq::new(keys.len(), |e: int| users(tris@, keys[e], 3 * tris@.len() as int).len() > 2);
    let mut boundary: usize = 0;
    let mut crowded: usize = 0;
    let mut e: usize = 0;
    while e < et.uses.len()
        invariant
            e <= et.uses@.len(),
            et.describes(tris@),
            keys == firsts(side_keys(tris@)),
            one == Seq::new(keys.len(), |e: int| users(tris@, keys[e], 3 * tris@.len() as int).len() == 1),
            many == Seq::new(keys.len(), |e: int| users(tris@, keys[e], 3 * tris@.len() as int).len() > 2),
            boundary == truths(one.take(e as int)),
            crowded == truths(many.take(e as int)),
            boundary <= e,
            crowded <= e,
        decreases et.uses@.len() - e,
    {
        assert(one.take(e + 1).drop_last() =~= one.take(e as int));
        assert(many.take(e + 1).drop_last() =~= many.take(e as int));
        let n: usize = et.uses[e].len();
        if n == 1 {
            boundary = boundary + 1;
        } else if n > 2 {
            crowded = crowded + 1;
        }
        e = e + 1;
    }
    proof {
        assert(one.take(e as int) =~= one);
        assert(many.take(e as int) =~= many);
        assert(one =~= Seq::new(keys.len(), |e: int| (|n: nat| n == 1)(users(tris@, keys[e], 3 * tris@.len() as int).len())));
        assert(many =~= Seq::new(keys.len(), |e: int| (|n: nat| n > 2)(users(tris@, keys[e], 3 * tris@.len() as int).len())));
    }
    (boundary, crowded)
}

/// The corners are three different vertices.
pub open spec fn proper(t: Tri) -> bool {
    t.a != t.b && t.b != t.c && t.c != t.a
}

/// A flat index list as triangles; an incomplete last one is left out.
pub open spec fn triples(indices: Seq<u32>) -> Seq<Tri> {
    Seq::new(
        indices.len() / 3,
        |t: int| Tri { a: indices[3 * t] as usize, b: indices[3 * t + 1] as usize, c: indices[3 * t + 2] as usize },
    )
}

/// Group a flat index list into triangles.
pub fn triangles(indices: &Vec<u32>) -> (tris: Vec<Tri>)
    ensures
        tris@ == triples(indices@),
{
    let total: usize = indices.len();
    let n: usize = total / 3;
    let mut tris: Vec<Tri> = Vec::with_capacity(n);
    let mut t: usize = 0;
    while t < n
        invariant
            total == indices@.len(),
            n == total / 3,
            t <= n,
            tris@ =~= triples(indices@).take(t as int),
        decreases n - t,
    {
        assert(3 * t + 2 < total);
        tris.push(Tri { a: indices[3 * t] as usize, b: indices[3 * t + 1] as usize, c: indices[3 * t + 2] as usize });
        t = t + 1;
    }
    tris
}

/// The triangle with its corners renumbered.
pub open spec fn renumbered(t: Tri, remap: Seq<usize>) -> Tri {
    Tri { a: remap[t.a as int], b: remap[t.b as int], c: remap[t.c as int] }
}

/// The triangles over renumbered vertices, without those that lose a corner.
pub open spec fn collapsed(tris: Seq<Tri>, remap: Seq<usize>) -> Seq<Tri>
    decreases tris.len(),
{
    if tris.len() == 0 {
        Seq::empty()
    } else {
        let t = renumbered(tris.last(), remap);
        if proper(t) {
            collapsed(tris.drop_last(), remap).push(t)
        } else {
            collapsed(tris.drop_last(), remap)
        }
    }
}

/// Carry triangles over to welded vertices and drop those that collapse.
pub fn weld_triangles(tris: &Vec<Tri>, remap: &Vec<usize>) -> (out: Vec<Tri>)
    requires
        forall|t: int|
            0 <= t < tris@.len() ==> (#[trigger] tris@[t]).a < remap@.len() && tris@[t].b < remap@.len() && tris@[t].c < remap@.len(),
    ensures
        out@ == collapsed(tris@, remap@),
        forall|t: int| 0 <= t < out@.len() ==> proper(#[trigger] out@[t]),
{
    let mut out: Vec<Tri> = Vec::new();
    let mut t: usize = 0;
    assert(tris@.take(0) =~= Seq::<Tri>::empty());
    while t < tris.len()
        invariant
            t <= tris@.len(),
            forall|t: int|
                0 <= t < tris@.len() ==> (#[trigger] tris@[t]).a < remap@.len() && tris@[t].b < remap@.len() && tris@[t].c < remap@.len(),
            out@ == collapsed(tris@.take(t as int), remap@),
            forall|m: int| 0 <= m < out@.len() ==> proper(#[trigger] out@[m]),
        decreases tris@.len() - t,
    {
        assert(tris@.take(t + 1).drop_last() =~= tris@.take(t as int));
        let u: Tri = tris[t];
        let w: Tri = Tri { a: remap[u.a], b: remap[u.b], c: remap[u.c] };
        if w.a != w.b && w.b != w.c && w.c != w.a {
            out.push(w);
        }
        t = t + 1;
    }
    assert(tris@.take(t as int) =~= tris@);
    out
}

/// One of the triangle's directed sides leads from `p` to `q`.
pub open spec fn runs(t: Tri, p: usize, q: usize) -> bool {
    exists|k: int| 0 <= k < 3 && #[trigger] side_of(t, k) == (p, q)
}

/// The triangle has an edge between `p` and `q`.
pub open spec fn has_edge(t: Tri, p: usize, q: usize) -> bool {
    runs(t, p, q) || runs(t, q, p)
}

/// The triangle wound the other way.
pub open spec fn turned(t: Tri) -> Tri {
    Tri { a: t.a, b: t.c, c: t.b }
}

/// `t`, turned where `flip` says so.
pub open spec fn turned_if(t: Tri, flip: bool) -> Tri {
    if flip {
        turned(t)
    } else {
        t
    }
}

/// `tris` with some triangles turned.
pub open spec fn turned_by(tris: Seq<Tri>, flips: Seq<bool>) -> Seq<Tri> {
    Seq::new(tris.len(), |t: int| turned_if(tris[t], flips[t]))
}

/// Two triangles share an edge.
pub open spec fn neighbours(tris: Seq<Tri>, s: int, t: int) -> bool {
    exists|p: usize, q: usize| #[trigger] has_edge(tris[s], p, q) && has_edge(tris[t], p, q)
}

/// No two triangles walk a shared edge in the same direction.
pub open spec fn consistent(tris: Seq<Tri>) -> bool {
    forall|s: int, t: int, p: usize, q: usize|
        0 <= s < tris.len() && 0 <= t < tris.len() && s != t && #[trigger] runs(tris[s], p, q) ==> !#[trigger] runs(tris[t], p, q)
}

/// Some choice of turns makes the triangles consistent.
pub open spec fn orientable(tris: Seq<Tri>) -> bool {
    exists|flips: Seq<bool>| flips.len() == tris.len() && consistent(#[trigger] turned_by(tris, flips))
}

/// Turning a triangle reverses each of its sides.
pub proof fn turning_reverses(t: Tri, p: usize, q: usize)
    ensures
        runs(turned(t), p, q) <==> runs(t, q, p),
        turned(turned(t)) == t,
{
    let u = turned(t);
    assert(side_of(u, 0) == (t.a, t.c) && side_of(u, 1) == (t.c, t.b) && side_of(u, 2) == (t.b, t.a));
    assert(side_of(t, 0) == (t.a, t.b) && side_of(t, 1) == (t.b, t.c) && side_of(t, 2) == (t.c, t.a));
    if runs(u, p, q) {
        let k = choose|k: int| 0 <= k < 3 && #[trigger] side_of(u, k) == (p, q);
        assert(side_of(t, 2 - k) == (q, p));
    }
    if runs(t, q, p) {
        let k = choose|k: int| 0 <= k < 3 && #[trigger] side_of(t, k) == (q, p);
        assert(side_of(u, 2 - k) == (p, q));
    }
}

/// A triangle with three different corners walks an edge one way only.
proof fn one_way(t: Tri, p: usize, q: usize)
    requires
        proper(t),
        runs(t, p, q),
    ensures
        !runs(t, q, p),
        p != q,
{
    assert(side_of(t, 0) == (t.a, t.b) && side_of(t, 1) == (t.b, t.c) && side_of(t, 2) == (t.c, t.a));
    if runs(t, q, p) {
        let k = choose|k: int| 0 <= k < 3 && #[trigger] side_of(t, k) == (q, p);
        let j = choose|j: int| 0 <= j < 3 && #[trigger] side_of(t, j) == (p, q);
    }
}

/// Two triangles that walk their shared edge in opposite directions are turned alike by every
/// consistent choice of turns.
proof fn turned_alike(tris: Seq<Tri>, now: Seq<bool>, good: Seq<bool>, s: int, t: int, p: usize, q: usize)
    requires
        now.len() == tris.len() == good.len(),
        consistent(turned_by(tris, good)),
        forall|k: int| 0 <= k < tris.len() ==> proper(#[trigger] tris[k]),
        0 <= s < tris.len(),
        0 <= t < tris.len(),
        s != t,
        runs(turned_if(tris[s], now[s]), p, q),
        runs(turned_if(tris[t], now[t]), q, p),
    ensures
        (now[s] != good[s]) == (now[t] != good[t]),
{
    turning_reverses(tris[s], p, q);
    turning_reverses(tris[s], q, p);
    turning_reverses(tris[t], p, q);
    turning_reverses(tris[t], q, p);
    let fixed = turned_by(tris, good);
    if runs(tris[s], p, q) {
        one_way(tris[s], p, q);
    } else {
        one_way(tris[s], q, p);
    }
    if runs(tris[t], p, q) {
        one_way(tris[t], p, q);
    } else {
        one_way(tris[t], q, p);
    }
    assert(fixed[s] == turned_if(tris[s], good[s]));
    assert(fixed[t] == turned_if(tris[t], good[t]));
    assert(runs(fixed[s], p, q) ==> !runs(fixed[t], p, q));
    assert(runs(fixed[s], q, p) ==> !runs(fixed[t], q, p));
}

/// Turned alike relative to a consistent choice, two triangles never clash.
proof fn alike_do_not_clash(tris: Seq<Tri>, now: Seq<bool>, good: Seq<bool>, s: int, t: int, p: usize, q: usize)
    requires
        now.len() == tris.len() == good.len(),
        consistent(turned_by(tris, good)),
        0 <= s < tris.len(),
        0 <= t < tris.len(),
        s != t,
        (now[s] != good[s]) == (now[t] != good[t]),
        runs(turned_if(tris[s], now[s]), p, q),
    ensures
        !runs(turned_if(tris[t], now[t]), p, q),
{
    let fixed = turned_by(tris, good);
    turning_reverses(tris[s], p, q);
    turning_reverses(tris[s], q, p);
    turning_reverses(tris[t], p, q);
    turning_reverses(tris[t], q, p);
    assert(fixed[s] == turned_if(tris[s], good[s]));
    assert(fixed[t] == turned_if(tris[t], good[t]));
    assert(runs(fixed[s], p, q) ==> !runs(fixed[t], p, q));
    assert(runs(fixed[s], q, p) ==> !runs(fixed[t], q, p));
}

/// Does the triangle walk from `p` to `q`?
pub fn walks(t: Tri, p: usize, q: usize) -> (b: bool)
    ensures
        b == runs(t, p, q),
{
    let b: bool = (t.a == p && t.b == q) || (t.b == p && t.c == q) || (t.c == p && t.a == q);
    proof {
        assert(side_of(t, 0) == (t.a, t.b) && side_of(t, 1) == (t.b, t.c) && side_of(t, 2) == (t.c, t.a));
    }
    b
}

proof fn users_share_the_edge(tris: Seq<Tri>, p: usize, q: usize, n: int, m: int)
    requires
        0 <= n <= 3 * tris.len(),
        tris.len() <= usize::MAX,
        0 <= m < users(tris, edge_key(p, q), n).len(),
    ensures
        ({
            let t = users(tris, edge_key(p, q), n)[m];
            t < tris.len() && has_edge(tris[t as int], p, q)
        }),
    decreases n,
{
    if n > 0 {
        let h = n - 1;
        let list = users(tris, edge_key(p, q), n);
        let rest = users(tris, edge_key(p, q), n - 1);
        if side_key(tris, h) == edge_key(p, q) && m == rest.len() {
            let s = side_of(tris[h / 3], h % 3);
            assert(s == (p, q) || s == (q, p));
            assert(runs(tris[h / 3], s.0, s.1));
        } else {
            users_share_the_edge(tris, p, q, n - 1, m);
        }
    }
}

proof fn sharing_makes_a_user(tris: Seq<Tri>, p: usize, q: usize, n: int, t: int, k: int)
    requires
        0 <= t < tris.len(),
        0 <= k < 3,
        3 * t + k < n <= 3 * tris.len(),
        side_of(tris[t], k) == (p, q) || side_of(tris[t], k) == (q, p),
        tris.len() <= usize::MAX,
    ensures
        users(tris, edge_key(p, q), n).contains(t as usize),
    decreases n,
{
    let h = n - 1;
    let list = users(tris, edge_key(p, q), n);
    let rest = users(tris, edge_key(p, q), n - 1);
    if 3 * t + k == h {
        assert(h / 3 == t && h % 3 == k);
        assert(list[rest.len() as int] == t);
    } else {
        sharing_makes_a_user(tris, p, q, n - 1, t, k);
        let j = choose|j: int| 0 <= j < rest.len() && rest[j] == t as usize;
        assert(list[j] == t as usize);
    }
}

/// The triangles listed at an edge are exactly those that have it.
pub proof fn users_have_the_edge(tris: Seq<Tri>, p: usize, q: usize, t: usize)
    requires
        t < tris.len(),
        tris.len() <= usize::MAX,
    ensures
        edge_users(tris, p, q).contains(t) <==> has_edge(tris[t as int], p, q),
{
    let n = 3 * tris.len() as int;
    let list = edge_users(tris, p, q);
    if list.contains(t) {
        let m = choose|m: int| 0 <= m < list.len() && list[m] == t;
        users_share_the_edge(tris, p, q, n, m);
    }
    if has_edge(tris[t as int], p, q) {
        if runs(tris[t as int], p, q) {
            let k = choose|k: int| 0 <= k < 3 && #[trigger] side_of(tris[t as int], k) == (p, q);
            sharing_makes_a_user(tris, p, q, n, t as int, k);
        } else {
            let k = choose|k: int| 0 <= k < 3 && #[trigger] side_of(tris[t as int], k) == (q, p);
            sharing_makes_a_user(tris, p, q, n, t as int, k);
        }
    }
}

/// Two triangles walk some edge in opposite directions.
pub open spec fn opposed(s: Tri, t: Tri) -> bool {
    exists|p: usize, q: usize| #[trigger] runs(s, p, q) && runs(t, q, p)
}

/// How far the winding has spread: the triangles as they are, which of them are settled, and those
/// whose neighbours are still to be seen to.
#[verifier::ext_equal]
pub struct Winding {
    pub tris: Seq<Tri>,
    pub settled: Seq<bool>,
    pub waiting: Seq<usize>,
}

/// Triangle `t` is settled, if it was not before: turned where it walks from `p` to `q`.
pub open spec fn wind_one(w: Winding, p: usize, q: usize, t: usize) -> Winding {
    if w.settled[t as int] {
        w
    } else {
        Winding {
            tris: w.tris.update(t as int, turned_if(w.tris[t as int], runs(w.tris[t as int], p, q))),
            settled: w.settled.update(t as int, true),
            waiting: w.waiting.push(t),
        }
    }
}

/// The first `n` triangles of a list are settled against the step from `p` to `q`.
pub open spec fn wind_list(w: Winding, p: usize, q: usize, list: Seq<usize>, n: int) -> Winding
    decreases n,
{
    if n <= 0 {
        w
    } else {
        wind_one(wind_list(w, p, q, list, n - 1), p, q, list[n - 1])
    }
}

/// The triangles at the first `n` sides of `t` are settled against it.
pub open spec fn wind_sides(tris: Seq<Tri>, w: Winding, t: Tri, n: int) -> Winding
    decreases n,
{
    if n <= 0 {
        w
    } else {
        let (p, q) = side_of(t, n - 1);
        let list = edge_users(tris, p, q);
        wind_list(wind_sides(tris, w, t, n - 1), p, q, list, list.len() as int)
    }
}

/// The winding spreads from the triangles that wait, the last one first, until none does, in at most
/// `rounds` rounds.
pub open spec fn wind_piece(tris: Seq<Tri>, w: Winding, rounds: nat) -> Winding
    decreases rounds,
{
    if rounds == 0 || w.waiting.len() == 0 {
        w
    } else {
        let t = w.waiting.last();
        let rest = Winding { tris: w.tris, settled: w.settled, waiting: w.waiting.drop_last() };
        wind_piece(tris, wind_sides(tris, rest, w.tris[t as int], 3), (rounds - 1) as nat)
    }
}

/// The winding has spread from each of the first `n` triangles that nothing before it settled.
pub open spec fn wound(tris: Seq<Tri>, n: int) -> Winding
    decreases n,
{
    if n <= 0 {
        Winding { tris, settled: Seq::new(tris.len(), |t: int| false), waiting: Seq::empty() }
    } else {
        let w = wound(tris, n - 1);
        if w.settled[n - 1] {
            w
        } else {
            let start = Winding { tris: w.tris, settled: w.settled.update(n - 1, true), waiting: seq![(n - 1) as usize] };
            wind_piece(tris, start, tris.len())
        }
    }
}

/// Mark and stack every unmarked neighbour of `ti`, turned so as to walk the shared edge the other
/// way.
fn spread(
    et: &EdgeTable,
    tris: &mut Vec<Tri>,
    seen: &mut Vec<bool>,
    stack: &mut Vec<usize>,
    ti: usize,
    Ghost(orig): Ghost<Seq<Tri>>,
    Ghost(flips0): Ghost<Seq<bool>>,
) -> (r: Ghost<Seq<bool>>)
    requires
        et.describes(orig),
        orig.len() <= usize::MAX,
        forall|k: int| 0 <= k < orig.len() ==> proper(#[trigger] orig[k]),
        flips0.len() == orig.len(),
        old(tris)@ == turned_by(orig, flips0),
        old(seen)@.len() == orig.len(),
        ti < orig.len(),
        old(seen)@[ti as int],
        forall|t: int| 0 <= t < orig.len() && !old(seen)@[t] ==> !#[trigger] flips0[t],
    ensures
        r@.len() == orig.len(),
        final(tris)@ == turned_by(orig, r@),
        final(seen)@.len() == orig.len(),
        forall|t: int| 0 <= t < orig.len() && old(seen)@[t] ==> #[trigger] final(seen)@[t] && r@[t] == flips0[t],
        forall|t: int| 0 <= t < orig.len() && !(#[trigger] final(seen)@[t]) ==> !r@[t],
        forall|t: int|
            0 <= t < orig.len() && #[trigger] final(seen)@[t] && !old(seen)@[t] ==> {
                &&& neighbours(orig, ti as int, t)
                &&& opposed(turned_if(orig[ti as int], r@[ti as int]), turned_if(orig[t], r@[t]))
                &&& final(stack)@.contains(t as usize)
            },
        forall|t: int| 0 <= t < orig.len() && #[trigger] neighbours(orig, ti as int, t) ==> final(seen)@[t],
        old(stack)@.len() <= final(stack)@.len(),
        forall|m: int| 0 <= m < old(stack)@.len() ==> #[trigger] final(stack)@[m] == old(stack)@[m],
        forall|m: int|
            old(stack)@.len() <= m < final(stack)@.len() ==> (#[trigger] final(stack)@[m]) < orig.len()
                && final(seen)@[final(stack)@[m] as int] && !old(seen)@[final(stack)@[m] as int],
        truths(final(seen)@) + old(stack)@.len() == truths(old(seen)@) + final(stack)@.len(),
        (Winding { tris: final(tris)@, settled: final(seen)@, waiting: final(stack)@ }) == wind_sides(
            orig,
            (Winding { tris: old(tris)@, settled: old(seen)@, waiting: old(stack)@ }),
            old(tris)@[ti as int],
            3,
        ),
{
    let ghost mut flips = flips0;
    let ghost w0 = Winding { tris: tris@, settled: seen@, waiting: stack@ };
    let ghost seen0 = seen@;
    let ghost stack0 = stack@;
    let t: Tri = tris[ti];
    let mut k: usize = 0;
    while k < 3
        invariant
            et.describes(orig),
            orig.len() <= usize::MAX,
            forall|k: int| 0 <= k < orig.len() ==> proper(#[trigger] orig[k]),
            k <= 3,
            ti < orig.len(),
            t == turned_if(orig[ti as int], flips0[ti as int]),
            seen0[ti as int],
            seen0.len() == orig.len(),
            stack0 == old(stack)@,
            seen0 == old(seen)@,
            flips.len() == orig.len(),
            flips0.len() == orig.len(),
            tris@ == turned_by(orig, flips),
            seen@.len() == orig.len(),
            forall|t: int| 0 <= t < orig.len() && seen0[t] ==> #[trigger] seen@[t] && flips[t] == flips0[t],
            forall|t: int| 0 <= t < orig.len() && !(#[trigger] seen@[t]) ==> !flips[t],
            forall|u: int|
                0 <= u < orig.len() && #[trigger] seen@[u] && !seen0[u] ==> {
                    &&& neighbours(orig, ti as int, u)
                    &&& opposed(t, turned_if(orig[u], flips[u]))
                    &&& stack@.contains(u as usize)
                },
            forall|j: int, u: int|
                0 <= j < k && 0 <= u < orig.len() && #[trigger] has_edge(orig[u], side_of(t, j).0, side_of(t, j).1) ==> seen@[u],
            stack0.len() <= stack@.len(),
            forall|m: int| 0 <= m < stack0.len() ==> #[trigger] stack@[m] == stack0[m],
            forall|m: int|
                stack0.len() <= m < stack@.len() ==> (#[trigger] stack@[m]) < orig.len() && seen@[stack@[m] as int]
                    && !seen0[stack@[m] as int],
            truths(seen@) + stack0.len() == truths(seen0) + stack@.len(),
            w0 == (Winding { tris: old(tris)@, settled: old(seen)@, waiting: old(stack)@ }),
            t == w0.tris[ti as int],
            (Winding { tris: tris@, settled: seen@, waiting: stack@ }) == wind_sides(orig, w0, t, k as int),
        decreases 3 - k,
    {
        let (p, q) = side(t, k);
        let ghost w1 = Winding { tris: tris@, settled: seen@, waiting: stack@ };
        proof {
            let o = orig[ti as int];
            turning_reverses(o, p, q);
            assert(side_of(t, k as int) == (p, q));
            assert(runs(t, p, q));
            assert(has_edge(o, p, q));
            if runs(o, p, q) {
                let j = choose|j: int| 0 <= j < 3 && #[trigger] side_of(o, j) == (p, q);
                side_is_listed(orig, ti as int, j);
            } else {
                let j = choose|j: int| 0 <= j < 3 && #[trigger] side_of(o, j) == (q, p);
                side_is_listed(orig, ti as int, j);
            }
        }
        let found: Option<usize> = et.table.find(key_of(p, q));
        let e: usize = found.unwrap();
        let list: &Vec<usize> = &et.uses[e];
        assert(list@ == edge_users(orig, p, q));
        let mut m: usize = 0;
        while m < list.len()
            invariant
                m <= list@.len(),
                list@ == edge_users(orig, p, q),
                k < 3,
                side_of(t, k as int) == (p, q),
                runs(t, p, q),
                orig.len() <= usize::MAX,
                forall|k: int| 0 <= k < orig.len() ==> proper(#[trigger] orig[k]),
                ti < orig.len(),
                t == turned_if(orig[ti as int], flips0[ti as int]),
                seen0[ti as int],
                seen0.len() == orig.len(),
                has_edge(orig[ti as int], p, q),
                flips.len() == orig.len(),
                flips0.len() == orig.len(),
                tris@ == turned_by(orig, flips),
                seen@.len() == orig.len(),
                forall|t: int| 0 <= t < orig.len() && seen0[t] ==> #[trigger] seen@[t] && flips[t] == flips0[t],
                forall|t: int| 0 <= t < orig.len() && !(#[trigger] seen@[t]) ==> !flips[t],
                forall|u: int|
                    0 <= u < orig.len() && #[trigger] seen@[u] && !seen0[u] ==> {
                        &&& neighbours(orig, ti as int, u)
                        &&& opposed(t, turned_if(orig[u], flips[u]))
                        &&& stack@.contains(u as usize)
                    },
                forall|j: int, u: int|
                    0 <= j < k && 0 <= u < orig.len() && #[trigger] has_edge(orig[u], side_of(t, j).0, side_of(t, j).1) ==> seen@[u],
                forall|j: int| 0 <= j < m ==> (#[trigger] list@[j]) < orig.len() && seen@[list@[j] as int],
                stack0.len() <= stack@.len(),
                forall|m: int| 0 <= m < stack0.len() ==> #[trigger] stack@[m] == stack0[m],
                forall|m: int|
                    stack0.len() <= m < stack@.len() ==> (#[trigger] stack@[m]) < orig.len() && seen@[stack@[m] as int]
                        && !seen0[stack@[m] as int],
                truths(seen@) + stack0.len() == truths(seen0) + stack@.len(),
                (Winding { tris: tris@, settled: seen@, waiting: stack@ }) == wind_list(w1, p, q, list@, m as int),
            decreases list@.len() - m,
        {
            let nb: usize = list[m];
            let ghost w2 = Winding { tris: tris@, settled: seen@, waiting: stack@ };
            proof {
                users_share_the_edge(orig, p, q, 3 * orig.len() as int, m as int);
            }
            if !seen[nb] {
                let ghost seen1 = seen@;
                let ghost stack1 = stack@;
                let ghost flips1 = flips;
                proof {
                    truths_set(seen@, nb as int);
                    turning_reverses(orig[nb as int], p, q);
                    turning_reverses(orig[nb as int], q, p);
                    assert(neighbours(orig, ti as int, nb as int));
                }
                if walks(tris[nb], p, q) {
                    let u: Tri = tris[nb];
                    tris.set(nb, Tri { a: u.a, b: u.c, c: u.b });
                    proof {
                        flips = flips.update(nb as int, true);
                    }
                }
                seen.set(nb, true);
                stack.push(nb);
                proof {
                    assert(tris@ =~= turned_by(orig, flips));
                    assert(runs(turned_if(orig[nb as int], flips[nb as int]), q, p));
                    assert(runs(t, p, q) && runs(turned_if(orig[nb as int], flips[nb as int]), q, p));
                    assert(stack@[stack1.len() as int] == nb);
                    assert forall|u: int| 0 <= u < orig.len() && #[trigger] seen@[u] && !seen0[u] implies {
                        &&& neighbours(orig, ti as int, u)
                        &&& opposed(t, turned_if(orig[u], flips[u]))
                        &&& stack@.contains(u as usize)
                    } by {
                        if u != nb {
                            assert(seen1[u]);
                            assert(flips[u] == flips1[u]);
                            let s = choose|s: int| 0 <= s < stack1.len() && stack1[s] == u as usize;
                            assert(stack@[s] == u as usize);
                        }
                    }
                    assert forall|t: int| 0 <= t < orig.len() && seen0[t] implies #[trigger] seen@[t] && flips[t] == flips0[t] by {
                        assert(seen1[t]);
                        assert(flips1[t] == flips0[t]);
                    }
                }
            }
            assert((Winding { tris: tris@, settled: seen@, waiting: stack@ }) =~= wind_one(w2, p, q, nb));
            m = m + 1;
        }
        proof {
            assert forall|j: int, u: int|
                0 <= j < k + 1 && 0 <= u < orig.len() && #[trigger] has_edge(orig[u], side_of(t, j).0, side_of(t, j).1) implies seen@[u] by {
                if j == k {
                    users_have_the_edge(orig, p, q, u as usize);
                    let i = choose|i: int| 0 <= i < list@.len() && list@[i] == u as usize;
                    assert(seen@[list@[i] as int]);
                }
            }
        }
        k = k + 1;
    }
    proof {
        assert(seen@[ti as int]);
        assert forall|u: int| 0 <= u < orig.len() && #[trigger] neighbours(orig, ti as int, u) implies seen@[u] by {
            let (p, q) = choose|p: usize, q: usize| #[trigger] has_edge(orig[ti as int], p, q) && has_edge(orig[u], p, q);
            turning_reverses(orig[ti as int], p, q);
            turning_reverses(orig[ti as int], q, p);
            assert(has_edge(t, p, q));
            if runs(t, p, q) {
                let j = choose|j: int| 0 <= j < 3 && #[trigger] side_of(t, j) == (p, q);
                assert(has_edge(orig[u], side_of(t, j).0, side_of(t, j).1));
            } else {
                let j = choose|j: int| 0 <= j < 3 && #[trigger] side_of(t, j) == (q, p);
                assert(has_edge(orig[u], side_of(t, j).0, side_of(t, j).1));
            }
        }
    }
    Ghost(flips)
}

/// A chain of triangles in which each shares an edge with the next.
pub open spec fn is_strip(tris: Seq<Tri>, path: Seq<int>) -> bool {
    &&& path.len() >= 1
    &&& forall|k: int| 0 <= k < path.len() ==> 0 <= #[trigger] path[k] < tris.len()
    &&& forall|k: int| 0 <= k < path.len() - 1 ==> neighbours(tris, #[trigger] path[k], path[k + 1])
}

/// A chain leads from triangle `s` to triangle `t`.
pub open spec fn connected(tris: Seq<Tri>, s: int, t: int) -> bool {
    exists|path: Seq<int>| is_strip(tris, path) && path.first() == s && path.last() == t
}

proof fn connected_itself(tris: Seq<Tri>, s: int)
    requires
        0 <= s < tris.len(),
    ensures
        connected(tris, s, s),
{
    let path = seq![s];
    assert(is_strip(tris, path) && path.first() == s && path.last() == s);
}

proof fn connected_step(tris: Seq<Tri>, s: int, t: int, u: int)
    requires
        connected(tris, s, t),
        neighbours(tris, t, u),
        0 <= u < tris.len(),
    ensures
        connected(tris, s, u),
{
    let path = choose|path: Seq<int>| is_strip(tris, path) && path.first() == s && path.last() == t;
    let more = path.push(u);
    assert forall|k: int| 0 <= k < more.len() - 1 implies neighbours(tris, #[trigger] more[k], more[k + 1]) by {
        if k < path.len() - 1 {
            assert(neighbours(tris, path[k], path[k + 1]));
        }
    }
    assert forall|k: int| 0 <= k < more.len() implies 0 <= #[trigger] more[k] < tris.len() by {
        if k < path.len() {
            assert(0 <= path[k] < tris.len());
        }
    }
    assert(is_strip(tris, more) && more.first() == s && more.last() == u);
}

/// Sharing an edge goes both ways.
pub proof fn neighbours_symmetric(tris: Seq<Tri>, s: int, t: int)
    requires
        neighbours(tris, s, t),
    ensures
        neighbours(tris, t, s),
{
    let (p, q) = choose|p: usize, q: usize| #[trigger] has_edge(tris[s], p, q) && has_edge(tris[t], p, q);
    assert(has_edge(tris[t], p, q) && has_edge(tris[s], p, q));
}

/// No triangle before `t` is connected to it.
pub open spec fn leads(tris: Seq<Tri>, t: int) -> bool {
    forall|s: int| 0 <= s < t ==> !#[trigger] connected(tris, s, t)
}

/// `flips` agrees with `good` on all of the piece or on none of it.
spec fn agree(orig: Seq<Tri>, flips: Seq<bool>, good: Seq<bool>, s: int, t: int) -> bool {
    consistent(turned_by(orig, good)) ==> (flips[s] != good[s]) == (flips[t] != good[t])
}

/// Everything marked has all its neighbours marked, and turned to match it.
spec fn settled(orig: Seq<Tri>, seen: Seq<bool>, flips: Seq<bool>, good: Seq<bool>) -> bool {
    &&& seen.len() == flips.len() == good.len() == orig.len()
    &&& forall|t: int| 0 <= t < orig.len() && !(#[trigger] seen[t]) ==> !flips[t]
    &&& forall|t: int| 0 <= t < orig.len() && #[trigger] flips[t] ==> !leads(orig, t)
    &&& forall|s: int, t: int|
        0 <= s < orig.len() && 0 <= t < orig.len() && seen[s] && #[trigger] neighbours(orig, s, t) ==> seen[t] && agree(
            orig,
            flips,
            good,
            s,
            t,
        )
}

/// Triangle `t` walks an edge against one of lower rank.
pub open spec fn follows(now: Seq<Tri>, rank: Seq<nat>, t: int) -> bool {
    exists|s: int| 0 <= s < now.len() && #[trigger] rank[s] < rank[t] && opposed(now[s], now[t])
}

/// The winding spread from the triangles that lead their pieces: every other one walks an edge
/// against one of lower rank, and so on back to one that leads.
pub open spec fn spreads_from_leaders(orig: Seq<Tri>, now: Seq<Tri>, rank: Seq<nat>) -> bool {
    forall|t: int| 0 <= t < orig.len() && !leads(orig, t) ==> #[trigger] follows(now, rank, t)
}

/// Triangle `t` walks an edge against one of lower rank that is marked.
spec fn hangs_on(now: Seq<Tri>, seen: Seq<bool>, rank: Seq<nat>, t: int) -> bool {
    exists|s: int| 0 <= s < now.len() && seen[s] && #[trigger] rank[s] < rank[t] && opposed(now[s], now[t])
}

/// Every triangle that is marked leads its piece, or walks an edge against one of lower rank.
spec fn hangs_together(orig: Seq<Tri>, now: Seq<Tri>, seen: Seq<bool>, rank: Seq<nat>) -> bool {
    &&& rank.len() == orig.len()
    &&& forall|t: int| 0 <= t < orig.len() && #[trigger] seen[t] && !leads(orig, t) ==> hangs_on(now, seen, rank, t)
}

proof fn marks_fill_a_strip(orig: Seq<Tri>, seen: Seq<bool>, path: Seq<int>, k: int)
    requires
        forall|s: int, t: int| 0 <= s < orig.len() && 0 <= t < orig.len() && seen[s] && #[trigger] neighbours(orig, s, t) ==> seen[t],
        is_strip(orig, path),
        0 <= k < path.len(),
        seen[path[0]],
    ensures
        seen[path[k]],
    decreases k,
{
    if k > 0 {
        marks_fill_a_strip(orig, seen, path, k - 1);
        assert(0 <= path[k - 1] < orig.len() && 0 <= path[k] < orig.len());
        assert(neighbours(orig, path[k - 1], path[k - 1 + 1]));
    }
}

/// The first triangle that is not marked leads its piece, where whole pieces have been marked.
proof fn first_unmarked_leads(orig: Seq<Tri>, seen: Seq<bool>, t: int)
    requires
        forall|s: int, t: int| 0 <= s < orig.len() && 0 <= t < orig.len() && seen[s] && #[trigger] neighbours(orig, s, t) ==> seen[t],
        0 <= t < orig.len(),
        !seen[t],
        forall|s: int| 0 <= s < t ==> #[trigger] seen[s],
    ensures
        leads(orig, t),
{
    assert forall|s: int| 0 <= s < t implies !#[trigger] connected(orig, s, t) by {
        if connected(orig, s, t) {
            let path = choose|path: Seq<int>| is_strip(orig, path) && path.first() == s && path.last() == t;
            assert(seen[s]);
            marks_fill_a_strip(orig, seen, path, path.len() - 1);
        }
    }
}

/// Mark and turn the whole piece that `start` belongs to.
#[verifier::loop_isolation(false)]
fn settle_piece(
    et: &EdgeTable,
    tris: &mut Vec<Tri>,
    seen: &mut Vec<bool>,
    start: usize,
    Ghost(orig): Ghost<Seq<Tri>>,
    Ghost(flips1): Ghost<Seq<bool>>,
    Ghost(good): Ghost<Seq<bool>>,
    Ghost(rank1): Ghost<Seq<nat>>,
) -> (r: (Ghost<Seq<bool>>, Ghost<Seq<nat>>))
    requires
        et.describes(orig),
        orig.len() <= usize::MAX,
        forall|t: int| 0 <= t < orig.len() ==> proper(#[trigger] orig[t]),
        old(tris)@ == turned_by(orig, flips1),
        hangs_together(orig, old(tris)@, old(seen)@, rank1),
        settled(orig, old(seen)@, flips1, good),
        start < orig.len(),
        !old(seen)@[start as int],
        forall|t: int| 0 <= t < start ==> #[trigger] old(seen)@[t],
    ensures
        final(tris)@ == turned_by(orig, r.0@),
        settled(orig, final(seen)@, r.0@, good),
        hangs_together(orig, final(tris)@, final(seen)@, r.1@),
        (Winding { tris: final(tris)@, settled: final(seen)@, waiting: Seq::empty() }) == wind_piece(
            orig,
            (Winding { tris: old(tris)@, settled: old(seen)@.update(start as int, true), waiting: seq![start] }),
            orig.len(),
        ),
        final(seen)@[start as int],
        forall|t: int| 0 <= t < start ==> #[trigger] final(seen)@[t],
{
    let ghost n = orig.len();
    let ghost mut flips = flips1;
    let ghost base = seen@;
    let ghost lead = flips[start as int] != good[start as int];
    let ghost mut rank = rank1;
    let ghost mut rounds = n;
    proof {
        first_unmarked_leads(orig, base, start as int);
        truths_set(base, start as int);
        truths_bound(base.update(start as int, true));
    }
    let ghost goal = wind_piece(orig, Winding { tris: tris@, settled: seen@.update(start as int, true), waiting: seq![start] }, n);
    seen.set(start, true);
    let mut stack: Vec<usize> = Vec::new();
    stack.push(start);
    proof {
        connected_itself(orig, start as int);
        assert(stack@[0] == start);
        assert(stack@.contains(start));
        assert(stack@ =~= seq![start]);
        assert forall|t: int| 0 <= t < n && #[trigger] seen@[t] && !leads(orig, t) implies hangs_on(tris@, seen@, rank, t) by {
            assert(base[t]);
            let s = choose|s: int| 0 <= s < n && base[s] && #[trigger] rank[s] < rank[t] && opposed(tris@[s], tris@[t]);
            assert(seen@[s] && rank[s] < rank[t]);
        }
    }
    while stack.len() > 0
        invariant
            flips.len() == n,
            seen@.len() == n,
            tris@ == turned_by(orig, flips),
            hangs_together(orig, tris@, seen@, rank),
            goal == wind_piece(orig, Winding { tris: tris@, settled: seen@, waiting: stack@ }, rounds),
            stack@.len() + n - truths(seen@) <= rounds,
            truths(seen@) <= n,
            forall|t: int| 0 <= t < n && base[t] ==> #[trigger] seen@[t] && flips[t] == flips1[t],
            forall|t: int| 0 <= t < n && !(#[trigger] seen@[t]) ==> !flips[t],
            forall|t: int| 0 <= t < n && #[trigger] flips[t] ==> !leads(orig, t),
            seen@[start as int],
            !flips[start as int],
            forall|m: int| 0 <= m < stack@.len() ==> (#[trigger] stack@[m]) < n && seen@[stack@[m] as int] && !base[stack@[m] as int],
            forall|t: int|
                0 <= t < n && #[trigger] seen@[t] && !base[t] ==> {
                    &&& t >= start
                    &&& connected(orig, start as int, t)
                    &&& consistent(turned_by(orig, good)) ==> (flips[t] != good[t]) == lead
                },
            forall|s: int, t: int|
                0 <= s < n && 0 <= t < n && seen@[s] && !base[s] && !stack@.contains(s as usize) && #[trigger] neighbours(
                    orig,
                    s,
                    t,
                ) ==> seen@[t],
        decreases n - truths(seen@), stack@.len(),
    {
        let ghost stack0 = stack@;
        let ghost seen0 = seen@;
        let ghost flips0 = flips;
        let ghost tris0 = tris@;
        let ti: usize = stack.pop().unwrap();
        assert(stack0[stack0.len() - 1] == ti);
        assert(forall|m: int| 0 <= m < stack@.len() ==> #[trigger] stack@[m] == stack0[m]);
        let ghost rest = stack@;
        assert(seen0[ti as int] && !base[ti as int]);
        let fresh = spread(et, tris, seen, &mut stack, ti, Ghost(orig), Ghost(flips));
        proof {
            flips = fresh@;
            truths_bound(seen@);
            assert(stack0.drop_last() =~= rest);
            rounds = (rounds - 1) as nat;
            assert(seen@[ti as int]);
            assert(flips[ti as int] == flips0[ti as int]);
            assert(seen@[start as int]);
            assert(flips[start as int] == flips0[start as int]);
            assert forall|t: int| 0 <= t < n && #[trigger] seen@[t] && !seen0[t] implies {
                &&& !base[t]
                &&& t >= start
                &&& connected(orig, start as int, t)
                &&& consistent(turned_by(orig, good)) ==> (flips[t] != good[t]) == lead
            } by {
                connected_step(orig, start as int, ti as int, t);
                let (p, q) = choose|p: usize, q: usize|
                    #[trigger] runs(turned_if(orig[ti as int], flips[ti as int]), p, q) && runs(turned_if(orig[t], flips[t]), q, p);
                if consistent(turned_by(orig, good)) {
                    turned_alike(orig, flips, good, ti as int, t, p, q);
                }
                if t < start {
                    assert(base[t]);
                }
            }
            let rank0 = rank;
            rank = Seq::new(n, |t: int| if seen@[t] && !seen0[t] { rank0[ti as int] + 1 } else { rank0[t] });
            assert forall|t: int| 0 <= t < n && #[trigger] seen@[t] && !leads(orig, t) implies hangs_on(tris@, seen@, rank, t) by {
                assert(tris@[t] == turned_if(orig[t], flips[t]));
                if seen0[t] {
                    assert(tris0[t] == turned_if(orig[t], flips0[t]));
                    assert(hangs_on(tris0, seen0, rank0, t));
                    let s = choose|s: int| 0 <= s < n && seen0[s] && #[trigger] rank0[s] < rank0[t] && opposed(tris0[s], tris0[t]);
                    assert(seen@[s] && flips[s] == flips0[s] && flips[t] == flips0[t]);
                    assert(tris@[s] == tris0[s]);
                    assert(rank[s] < rank[t]);
                } else {
                    assert(tris@[ti as int] == turned_if(orig[ti as int], flips[ti as int]));
                    assert(rank[ti as int] < rank[t]);
                }
            }
            assert forall|t: int| 0 <= t < n && #[trigger] flips[t] implies !leads(orig, t) by {
                assert(seen@[t]);
                if seen0[t] {
                    assert(flips0[t]);
                } else {
                    assert(connected(orig, start as int, t));
                    assert(t != start);
                }
            }
            assert forall|s: int, t: int|
                0 <= s < n && 0 <= t < n && seen@[s] && !base[s] && !stack@.contains(s as usize) && #[trigger] neighbours(
                    orig,
                    s,
                    t,
                ) implies seen@[t] by {
                if s != ti {
                    if seen0[s] {
                        if stack0.contains(s as usize) {
                            let m = choose|m: int| 0 <= m < stack0.len() && stack0[m] == s as usize;
                            assert(rest[m] == s as usize);
                            assert(stack@[m] == s as usize);
                        }
                        assert(seen0[t]);
                    } else {
                        assert(stack@.contains(s as usize));
                    }
                }
            }
            assert forall|m: int| 0 <= m < stack@.len() implies (#[trigger] stack@[m]) < n && seen@[stack@[m] as int]
                && !base[stack@[m] as int] by {
                if m < rest.len() {
                    assert(stack@[m] == rest[m]);
                    assert(rest[m] == stack0[m]);
                    assert(seen0[stack0[m] as int]);
                }
            }
        }
    }
    proof {
        assert forall|s: int, t: int| 0 <= s < n && 0 <= t < n && seen@[s] && #[trigger] neighbours(orig, s, t) implies seen@[t]
            && agree(orig, flips, good, s, t) by {
            if base[s] {
                assert(base[t]);
                assert(seen@[t]);
                assert(agree(orig, flips1, good, s, t));
            } else {
                assert(!stack@.contains(s as usize));
                assert(seen@[t]);
                if base[t] {
                    neighbours_symmetric(orig, s, t);
                    assert(base[s]);
                }
            }
        }
    }
    assert(stack@ =~= Seq::<usize>::empty());
    (Ghost(flips), Ghost(rank))
}

/// Turn triangles until no two that are connected walk a shared edge in the same direction. The
/// first triangle of each connected piece stays as it is and decides for the others: the winding
/// spreads from it over shared edges. Every other triangle walks an edge against one that was settled
/// before it, also where the surface cannot be wound one way.
pub fn orient_consistently(tris: &mut Vec<Tri>)
    requires
        forall|t: int| 0 <= t < old(tris)@.len() ==> proper(#[trigger] old(tris)@[t]),
    ensures
        final(tris)@.len() == old(tris)@.len(),
        forall|t: int|
            0 <= t < final(tris)@.len() ==> #[trigger] final(tris)@[t] == old(tris)@[t] || final(tris)@[t] == turned(old(tris)@[t]),
        forall|t: int| 0 <= t < final(tris)@.len() && leads(old(tris)@, t) ==> #[trigger] final(tris)@[t] == old(tris)@[t],
        orientable(old(tris)@) ==> consistent(final(tris)@),
        exists|rank: Seq<nat>| #[trigger] spreads_from_leaders(old(tris)@, final(tris)@, rank),
        final(tris)@ == wound(old(tris)@, old(tris)@.len() as int).tris,
{
    let ghost orig = tris@;
    let ghost mut rank: Seq<nat> = Seq::new(orig.len(), |t: int| 0nat);
    let n: usize = tris.len();
    let ghost good = if orientable(orig) {
        choose|flips: Seq<bool>| flips.len() == orig.len() && consistent(#[trigger] turned_by(orig, flips))
    } else {
        Seq::new(n as nat, |t: int| false)
    };
    let et: EdgeTable = edge_table(tris);
    let ghost mut flips: Seq<bool> = Seq::new(n as nat, |t: int| false);
    let mut seen: Vec<bool> = vec![false; n];
    let mut start: usize = 0;
    assert(tris@ =~= turned_by(orig, flips));
    assert((Winding { tris: tris@, settled: seen@, waiting: Seq::empty() }) =~= wound(orig, 0));
    while start < n
        invariant
            start <= n,
            n == orig.len(),
            et.describes(orig),
            forall|t: int| 0 <= t < orig.len() ==> proper(#[trigger] orig[t]),
            tris@ == turned_by(orig, flips),
            settled(orig, seen@, flips, good),
            hangs_together(orig, tris@, seen@, rank),
            (Winding { tris: tris@, settled: seen@, waiting: Seq::empty() }) == wound(orig, start as int),
            forall|t: int| 0 <= t < start ==> #[trigger] seen@[t],
        decreases n - start,
    {
        if !seen[start] {
            let (fresh, order) = settle_piece(&et, tris, &mut seen, start, Ghost(orig), Ghost(flips), Ghost(good), Ghost(rank));
            proof {
                flips = fresh@;
                rank = order@;
            }
        }
        start = start + 1;
    }
    proof {
        assert forall|t: int| 0 <= t < orig.len() && !leads(orig, t) implies #[trigger] follows(tris@, rank, t) by {
            assert(seen@[t]);
            assert(hangs_on(tris@, seen@, rank, t));
        }
        assert(spreads_from_leaders(orig, tris@, rank));
        assert forall|t: int| 0 <= t < n implies #[trigger] tris@[t] == orig[t] || tris@[t] == turned(orig[t]) by {
            assert(tris@[t] == turned_if(orig[t], flips[t]));
        }
        assert forall|t: int| 0 <= t < n && leads(orig, t) implies #[trigger] tris@[t] == orig[t] by {
            assert(tris@[t] == turned_if(orig[t], flips[t]));
        }
        if orientable(orig) {
            assert forall|s: int, t: int, p: usize, q: usize|
                0 <= s < n && 0 <= t < n && s != t && #[trigger] runs(tris@[s], p, q) implies !#[trigger] runs(tris@[t], p, q) by {
                if runs(tris@[t], p, q) {
                    turning_reverses(orig[s], p, q);
                    turning_reverses(orig[t], p, q);
                    assert(has_edge(orig[s], p, q) && has_edge(orig[t], p, q));
                    assert(neighbours(orig, s, t));
                    assert(seen@[s]);
                    alike_do_not_clash(orig, flips, good, s, t, p, q);
                }
            }
        }
    }
}

/// Turn every triangle.
pub fn turn_all(tris: &mut Vec<Tri>)
    ensures
        final(tris)@ == old(tris)@.map_values(|t: Tri| turned(t)),
{
    let n: usize = tris.len();
    let mut i: usize = 0;
    while i < n
        invariant
            n == tris@.len() == old(tris)@.len(),
            i <= n,
            forall|k: int| 0 <= k < i ==> #[trigger] tris@[k] == turned(old(tris)@[k]),
            forall|k: int| i <= k < n ==> #[trigger] tris@[k] == old(tris)@[k],
        decreases n - i,
    {
        let t: Tri = tris[i];
        tris.set(i, Tri { a: t.a, b: t.c, c: t.b });
        i = i + 1;
    }
    assert(tris@ =~= old(tris)@.map_values(|t: Tri| turned(t)));
}

/// Turning everything keeps a consistent surface consistent.
pub proof fn turning_all_keeps_consistency(tris: Seq<Tri>)
    requires
        consistent(tris),
    ensures
        consistent(tris.map_values(|t: Tri| turned(t))),
{
    let all = tris.map_values(|t: Tri| turned(t));
    assert forall|s: int, t: int, p: usize, q: usize|
        0 <= s < all.len() && 0 <= t < all.len() && s != t && #[trigger] runs(all[s], p, q) implies !#[trigger] runs(all[t], p, q) by {
        turning_reverses(tris[s], p, q);
        turning_reverses(tris[t], p, q);
        assert(runs(tris[s], q, p) ==> !runs(tris[t], q, p));
    }
}

/// The triangles listed at an edge exist, and the ends of an edge of proper triangles are two
/// different vertices of theirs.
pub proof fn table_in_range(et: EdgeTable, tris: Seq<Tri>, verts: int)
    requires
        et.describes(tris),
        tris.len() <= usize::MAX,
        forall|t: int| 0 <= t < tris.len() ==> proper(#[trigger] tris[t]),
        forall|t: int| 0 <= t < tris.len() ==> (#[trigger] tris[t]).a < verts && tris[t].b < verts && tris[t].c < verts,
    ensures
        forall|e: int, k: int| 0 <= e < et.uses@.len() && 0 <= k < et.uses@[e]@.len() ==> (#[trigger] et.uses@[e]@[k]) < tris.len(),
        forall|e: int| 0 <= e < et.ends@.len() ==> (#[trigger] et.ends@[e]).0 < et.ends@[e].1 && et.ends@[e].1 < verts,
        forall|e: int, k: int|
            0 <= e < et.uses@.len() && 0 <= k < et.uses@[e]@.len() ==> has_edge(
                tris[#[trigger] et.uses@[e]@[k] as int],
                et.ends@[e].0,
                et.ends@[e].1,
            ),
{
    let n = 3 * tris.len() as int;
    assert forall|e: int, k: int| 0 <= e < et.uses@.len() && 0 <= k < et.uses@[e]@.len() implies (#[trigger] et.uses@[e]@[k])
        < tris.len() && has_edge(tris[et.uses@[e]@[k] as int], et.ends@[e].0, et.ends@[e].1) by {
        let pq = et.ends@[e];
        users_share_the_edge(tris, pq.0, pq.1, n, k);
    }
    assert forall|e: int| 0 <= e < et.ends@.len() implies (#[trigger] et.ends@[e]).0 < et.ends@[e].1 && et.ends@[e].1 < verts by {
        let pq = et.ends@[e];
        let key = et.table.keys()[e];
        assert(firsts(side_keys(tris)).contains(key));
        key_is_a_side(tris, key);
        let h = choose|h: int| 0 <= h < 3 * tris.len() && #[trigger] side_key(tris, h) == key;
        let t = tris[h / 3];
        let s = side_of(t, h % 3);
        assert(edge_key(s.0, s.1) == edge_key(pq.0, pq.1));
    }
}

/// Some triangle walks from `q` to `p`.
pub open spec fn met(tris: Seq<Tri>, p: usize, q: usize) -> bool {
    exists|u: int| 0 <= u < tris.len() && #[trigger] runs(tris[u], q, p)
}

/// Every directed side occurs once, and its reverse occurs once.
pub open spec fn watertight(tris: Seq<Tri>) -> bool {
    &&& consistent(tris)
    &&& forall|t: int| 0 <= t < tris.len() ==> proper(#[trigger] tris[t])
    &&& forall|t: int, k: int|
        0 <= t < tris.len() && 0 <= k < 3 ==> met(tris, (#[trigger] side_of(tris[t], k)).0, side_of(tris[t], k).1)
}

/// The users of an edge are listed in rising order: a proper triangle has one side there at most.
proof fn users_rise(tris: Seq<Tri>, p: usize, q: usize, n: int)
    requires
        0 <= n <= 3 * tris.len(),
        tris.len() <= usize::MAX,
        p != q,
        forall|t: int| 0 <= t < tris.len() ==> proper(#[trigger] tris[t]),
    ensures
        forall|i: int, j: int|
            0 <= i < j < users(tris, edge_key(p, q), n).len() ==> #[trigger] users(tris, edge_key(p, q), n)[i] < #[trigger] users(
                tris,
                edge_key(p, q),
                n,
            )[j],
        forall|i: int| 0 <= i < users(tris, edge_key(p, q), n).len() ==> #[trigger] users(tris, edge_key(p, q), n)[i] <= (n - 1) / 3,
        forall|i: int|
            0 <= i < users(tris, edge_key(p, q), n).len() ==> exists|h: int|
                0 <= h < n && h / 3 == #[trigger] users(tris, edge_key(p, q), n)[i] && #[trigger] side_key(tris, h) == edge_key(p, q),
    decreases n,
{
    if n > 0 {
        users_rise(tris, p, q, n - 1);
        let key = edge_key(p, q);
        let list = users(tris, key, n);
        let rest = users(tris, key, n - 1);
        let h = n - 1;
        if side_key(tris, h) == key {
            assert forall|i: int| 0 <= i < rest.len() implies (#[trigger] rest[i]) < h / 3 by {
                let g = choose|g: int| 0 <= g < n - 1 && g / 3 == rest[i] && #[trigger] side_key(tris, g) == key;
                if g / 3 == h / 3 {
                    assert(proper(tris[h / 3]));
                    let (s, r) = (side_of(tris[h / 3], h % 3), side_of(tris[g / 3], g % 3));
                    assert(g % 3 != h % 3);
                }
            }
        }
        assert forall|i: int| 0 <= i < list.len() implies exists|g: int|
            0 <= g < n && g / 3 == #[trigger] list[i] && #[trigger] side_key(tris, g) == key by {
            if i < rest.len() {
                assert(list[i] == rest[i]);
                let g = choose|g: int| 0 <= g < n - 1 && g / 3 == rest[i] && #[trigger] side_key(tris, g) == key;
                assert(g / 3 == list[i] && side_key(tris, g) == key);
            } else {
                assert(h / 3 == list[i] && side_key(tris, h) == key);
            }
        }
    }
}

/// A watertight surface is closed: every edge has exactly two triangles on it.
pub proof fn watertight_is_closed(tris: Seq<Tri>)
    requires
        watertight(tris),
        0 < tris.len() <= usize::MAX,
    ensures
        closed_surface(tris),
{
    let n = 3 * tris.len() as int;
    assert forall|t: int, k: int| 0 <= t < tris.len() && 0 <= k < 3 implies edge_users(
        tris,
        (#[trigger] side_of(tris[t], k)).0,
        side_of(tris[t], k).1,
    ).len() == 2 by {
        let (p, q) = side_of(tris[t], k);
        assert(runs(tris[t], p, q));
        one_way(tris[t], p, q);
        assert(met(tris, p, q));
        let u = choose|u: int| 0 <= u < tris.len() && #[trigger] runs(tris[u], q, p);
        assert(u != t);
        let list = edge_users(tris, p, q);
        users_rise(tris, p, q, n);
        users_have_the_edge(tris, p, q, t as usize);
        users_have_the_edge(tris, p, q, u as usize);
        assert(has_edge(tris[t], p, q) && has_edge(tris[u], p, q));
        let i = choose|i: int| 0 <= i < list.len() && list[i] == t as usize;
        let j = choose|j: int| 0 <= j < list.len() && list[j] == u as usize;
        assert forall|m: int| 0 <= m < list.len() implies #[trigger] list[m] == t || list[m] == u by {
            users_share_the_edge(tris, p, q, n, m);
            let w = list[m] as int;
            if runs(tris[w], p, q) {
                assert(w == t);
            } else {
                assert(w == u);
            }
        }
        assert(i != j);
        assert(list.len() <= 2) by {
            if list.len() > 2 {
                assert(list[0] < list[1] && list[1] < list[2] && list[0] < list[2]);
            }
        }
    }
}

// ---- counting and welding ----

/// The key of an edge does not depend on the way it is walked, and different edges have different
/// keys.
pub proof fn keys_name_edges(p: usize, q: usize, r: usize, s: usize)
    ensures
        edge_key(p, q) == edge_key(q, p),
        edge_key(p, q) == edge_key(r, s) <==> p == r && q == s || p == s && q == r,
{
}

/// The triangles at an edge come side by side in order, one for each side that lies on it.
#[verifier::spinoff_prover]
#[verifier::rlimit(50)]
pub proof fn users_are_the_sides_on_the_edge(tris: Seq<Tri>, key: Key, n: int)
    requires
        0 <= n <= 3 * tris.len(),
    ensures
        users(tris, key, n) == Seq::new(n as nat, |h: int| h).filter(
            |h: int|
                {
                    let t = tris[h / 3];
                    key == if h % 3 == 0 {
                        edge_key(t.a, t.b)
                    } else if h % 3 == 1 {
                        edge_key(t.b, t.c)
                    } else {
                        edge_key(t.c, t.a)
                    }
                },
        ).map_values(|h: int| (h / 3) as usize),
    decreases n,
{
    reveal(Seq::filter);
    let test = |h: int|
        {
            let t = tris[h / 3];
            key == if h % 3 == 0 {
                edge_key(t.a, t.b)
            } else if h % 3 == 1 {
                edge_key(t.b, t.c)
            } else {
                edge_key(t.c, t.a)
            }
        };
    let made = |h: int| (h / 3) as usize;
    let all = Seq::new(n as nat, |h: int| h);
    if n > 0 {
        users_are_the_sides_on_the_edge(tris, key, n - 1);
        let rest = Seq::new((n - 1) as nat, |h: int| h);
        assert(all.drop_last() =~= rest);
        assert(all.last() == n - 1);
        let kept = rest.filter(test);
        assert(kept.push(n - 1).map_values(made) =~= kept.map_values(made).push(made(n - 1)));
        assert(users(tris, key, n) =~= all.filter(test).map_values(made));
    } else {
        assert(users(tris, key, n) =~= all.filter(test).map_values(made));
    }
}

proof fn none_counted(s: Seq<bool>)
    ensures
        truths(s) == 0 <==> forall|i: int| 0 <= i < s.len() ==> !#[trigger] s[i],
    decreases s.len(),
{
    if s.len() > 0 {
        let r = s.drop_last();
        none_counted(r);
        if truths(s) == 0 {
            assert forall|i: int| 0 <= i < s.len() implies !#[trigger] s[i] by {
                if i < r.len() {
                    assert(!r[i]);
                }
            }
        }
        if forall|i: int| 0 <= i < s.len() ==> !#[trigger] s[i] {
            assert forall|i: int| 0 <= i < r.len() implies !#[trigger] r[i] by {
                assert(!s[i]);
            }
            assert(!s[s.len() - 1]);
        }
    }
}

/// A surface is closed exactly where there is one and it has neither a loose nor a crowded edge.
#[verifier::spinoff_prover]
#[verifier::rlimit(50)]
pub proof fn closed_surfaces_have_no_loose_edges(tris: Seq<Tri>)
    requires
        tris.len() <= usize::MAX,
    ensures
        closed_surface(tris) <==> tris.len() > 0 && edges_with(tris, |n: nat| n == 1) == 0 && edges_with(tris, |n: nat| n > 2) == 0,
{
    let keys = firsts(side_keys(tris));
    let m = 3 * tris.len() as int;
    let one = Seq::new(keys.len(), |e: int| (|n: nat| n == 1)(users(tris, keys[e], m).len()));
    let many = Seq::new(keys.len(), |e: int| (|n: nat| n > 2)(users(tris, keys[e], m).len()));
    none_counted(one);
    none_counted(many);
    if closed_surface(tris) {
        assert forall|e: int| 0 <= e < keys.len() implies !#[trigger] one[e] && !many[e] by {
            assert(keys.contains(keys[e]));
            key_is_a_side(tris, keys[e]);
            let h = choose|h: int| 0 <= h < 3 * tris.len() && #[trigger] side_key(tris, h) == keys[e];
            let s = side_of(tris[h / 3], h % 3);
            assert(edge_users(tris, s.0, s.1).len() == 2);
        }
        assert forall|e: int| 0 <= e < keys.len() implies !#[trigger] many[e] by {
            assert(!one[e]);
        }
    }
    if tris.len() > 0 && edges_with(tris, |n: nat| n == 1) == 0 && edges_with(tris, |n: nat| n > 2) == 0 {
        assert forall|t: int, k: int| 0 <= t < tris.len() && 0 <= k < 3 implies edge_users(
            tris,
            (#[trigger] side_of(tris[t], k)).0,
            side_of(tris[t], k).1,
        ).len() == 2 by {
            let s = side_of(tris[t], k);
            side_is_listed(tris, t, k);
            let e = choose|e: int| 0 <= e < keys.len() && keys[e] == edge_key(s.0, s.1);
            assert(!one[e] && !many[e]);
            sharing_makes_a_user(tris, s.0, s.1, m, t, k);
        }
    }
}

/// Welding renumbers every corner and drops the triangles of which two corners became one; the others
/// keep their order and their winding.
pub proof fn welding_keeps_proper_triangles(tris: Seq<Tri>, remap: Seq<usize>)
    ensures
        collapsed(tris, remap) == tris.map_values(
            |t: Tri| Tri { a: remap[t.a as int], b: remap[t.b as int], c: remap[t.c as int] },
        ).filter(|t: Tri| t.a != t.b && t.b != t.c && t.a != t.c),
    decreases tris.len(),
{
    reveal(Seq::filter);
    let made = |t: Tri| Tri { a: remap[t.a as int], b: remap[t.b as int], c: remap[t.c as int] };
    if tris.len() > 0 {
        welding_keeps_proper_triangles(tris.drop_last(), remap);
        assert(tris.map_values(made).drop_last() =~= tris.drop_last().map_values(made));
        assert(tris.map_values(made).last() == made(tris.last()));
    } else {
        assert(tris.map_values(made) =~= Seq::<Tri>::empty());
    }
}

/// Every three indices make a triangle, in order; one or two that are left over make none.
pub proof fn triangles_take_three_indices(indices: Seq<u32>, t: int)
    requires
        0 <= t,
        3 * t + 3 <= indices.len(),
    ensures
        t < triples(indices).len(),
        triples(indices)[t].a == indices[3 * t],
        triples(indices)[t].b == indices[3 * t + 1],
        triples(indices)[t].c == indices[3 * t + 2],
        3 * triples(indices).len() <= indices.len() < 3 * triples(indices).len() + 3,
{
}

} // verus!
