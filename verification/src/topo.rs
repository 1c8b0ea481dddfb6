//! The flat faces of a triangle mesh: which triangles form them, the loops that bound them, the
//! edges where two of them meet, and what meets at each vertex.

use vstd::prelude::*;

use crate::first_seen::{firsts, firsts_distinct, noted, Key, KeyTable};
use crate::linking::linked;
use crate::mesh::{proper, side, side_of, table_in_range, EdgeTable, Tri};
use crate::trails::{all_empty, balanced, empty_stacks, is_tour, is_trail, points_of, returns_home, tour, trail_points};
use crate::union_find::{partitions, partitions_nothing, partitions_push, Uf};

verus! {

/// A flat face: its triangles, and the loops of vertices that bound it.
#[derive(Clone, Debug)]
pub struct Face {
    pub tris: Vec<usize>,
    pub loops: Vec<Vec<usize>>,
}

/// An edge of the model: the vertices it joins and the faces that meet there.
#[derive(Clone, Debug)]
pub struct TopoEdge {
    pub a: usize,
    pub b: usize,
    pub faces: Vec<usize>,
}

/// The pairs of triangles that the first `n` edges join into one face: an edge joins the two
/// triangles on it where it is smooth and has no third.
pub open spec fn joined(uses: Seq<Vec<usize>>, smooth: Seq<bool>, n: int) -> Seq<(usize, usize)>
    decreases n,
{
    if n <= 0 {
        Seq::empty()
    } else if uses[n - 1]@.len() == 2 && smooth[n - 1] {
        joined(uses, smooth, n - 1).push((uses[n - 1]@[0], uses[n - 1]@[1]))
    } else {
        joined(uses, smooth, n - 1)
    }
}

/// Triangles are on one face exactly where smooth edges link them, and the faces are numbered in
/// the order of their first triangles.
pub open spec fn faces_numbered(face: Seq<usize>, count: int, uses: Seq<Vec<usize>>, smooth: Seq<bool>) -> bool {
    &&& firsts(face) == Seq::new(count as nat, |i: int| i as usize)
    &&& forall|s: usize, t: usize|
        s < face.len() && t < face.len() ==> (#[trigger] face[s as int] == #[trigger] face[t as int] <==> linked(
            joined(uses, smooth, uses.len() as int),
            s,
            t,
        ))
}

/// Sort the triangles into faces: the face of each, and how many faces there are.
#[verifier::loop_isolation(false)]
pub fn group_faces(tris: usize, uses: &Vec<Vec<usize>>, smooth: &Vec<bool>) -> (r: (Vec<usize>, usize))
    requires
        smooth@.len() == uses@.len(),
        forall|e: int, k: int| 0 <= e < uses@.len() && 0 <= k < uses@[e]@.len() ==> (#[trigger] uses@[e]@[k]) < tris,
    ensures
        r.0@.len() == tris,
        r.1 <= tris,
        faces_numbered(r.0@, r.1 as int, uses@, smooth@),
        forall|t: int| 0 <= t < tris ==> (#[trigger] r.0@[t]) < r.1,
{
    let mut uf: Uf = Uf::new(tris);
    proof {
        partitions_nothing(uf.roots());
    }
    let mut e: usize = 0;
    while e < uses.len()
        invariant
            e <= uses@.len(),
            uf.wf(),
            uf.roots().len() == tris,
            partitions(uf.roots(), joined(uses@, smooth@, e as int)),
        decreases uses@.len() - e,
    {
        if uses[e].len() == 2 && smooth[e] {
            let (s, t) = (uses[e][0], uses[e][1]);
            proof {
                assert(uses@[e as int]@[0] < tris && uses@[e as int]@[1] < tris);
                partitions_push(uf.roots(), joined(uses@, smooth@, e as int), s, t);
            }
            uf.union(s, t);
        }
        e = e + 1;
    }
    let ghost roots = uf.roots();
    let mut items: Vec<usize> = Vec::with_capacity(tris);
    let mut t: usize = 0;
    while t < tris
        invariant
            t <= tris,
            items@ =~= Seq::new(t as nat, |i: int| i as usize),
        decreases tris - t,
    {
        items.push(t);
        t = t + 1;
    }
    let (face, count) = uf.number_classes(&items);
    proof {
        assert forall|s: usize, u: usize| s < face@.len() && u < face@.len() implies (#[trigger] face@[s as int] == #[trigger] face@[u as int]
            <==> linked(joined(uses@, smooth@, uses@.len() as int), s, u)) by {
            assert(face@[s as int] == face@[u as int] <==> roots[items@[s as int] as int] == roots[items@[u as int] as int]);
            assert(roots[s as int] == roots[u as int] <==> linked(joined(uses@, smooth@, uses@.len() as int), s, u));
        }
    }
    (face, count)
}

/// The triangles among the first `n` that lie on face `f`, in order.
pub open spec fn members(face: Seq<usize>, f: int, n: int) -> Seq<usize>
    decreases n,
{
    if n <= 0 {
        Seq::empty()
    } else if face[n - 1] == f {
        members(face, f, n - 1).push((n - 1) as usize)
    } else {
        members(face, f, n - 1)
    }
}

/// Every member is a triangle on the face.
pub proof fn members_are_on_the_face(face: Seq<usize>, f: int, n: int)
    requires
        0 <= n <= face.len() <= usize::MAX,
    ensures
        forall|k: int|
            0 <= k < members(face, f, n).len() ==> (#[trigger] members(face, f, n)[k]) < n && face[members(face, f, n)[k] as int] == f,
        forall|t: int| 0 <= t < n && face[t] == f ==> #[trigger] members(face, f, n).contains(t as usize),
    decreases n,
{
    if n > 0 {
        members_are_on_the_face(face, f, n - 1);
        let list = members(face, f, n);
        let rest = members(face, f, n - 1);
        assert forall|t: int| 0 <= t < n && face[t] == f implies #[trigger] list.contains(t as usize) by {
            if t == n - 1 {
                assert(list[rest.len() as int] == t as usize);
            } else {
                assert(rest.contains(t as usize));
                let k = choose|k: int| 0 <= k < rest.len() && rest[k] == t as usize;
                assert(list[k] == t as usize);
            }
        }
    }
}

/// List the triangles of each face.
#[verifier::loop_isolation(false)]
pub fn face_members(face: &Vec<usize>, count: usize) -> (lists: Vec<Vec<usize>>)
    requires
        forall|t: int| 0 <= t < face@.len() ==> (#[trigger] face@[t]) < count,
    ensures
        lists@.len() == count,
        forall|f: int| 0 <= f < count ==> (#[trigger] lists@[f])@ == members(face@, f, face@.len() as int),
{
    let mut lists: Vec<Vec<usize>> = empty_stacks(count);
    let mut t: usize = 0;
    assert forall|f: int| 0 <= f < count implies (#[trigger] lists@[f])@ == members(face@, f, 0) by {
        assert(lists@[f]@ =~= Seq::<usize>::empty());
    }
    while t < face.len()
        invariant
            t <= face@.len(),
            lists@.len() == count,
            forall|f: int| 0 <= f < count ==> (#[trigger] lists@[f])@ == members(face@, f, t as int),
        decreases face@.len() - t,
    {
        let ghost lists0 = lists@;
        let f: usize = face[t];
        lists[f].push(t);
        proof {
            assert forall|g: int| 0 <= g < count implies (#[trigger] lists@[g])@ == members(face@, g, t + 1) by {
                assert(lists0[g]@ == members(face@, g, t as int));
            }
        }
        t = t + 1;
    }
    lists
}

/// A directed step from one vertex to another, as a key.
pub open spec fn step_key(p: usize, q: usize) -> Key {
    Key { x: p as i128, y: q as i128, z: 1 }
}

/// The same step walked backwards.
pub open spec fn backwards(k: Key) -> Key {
    Key { x: k.y, y: k.x, z: k.z }
}

/// The directed sides of a face's triangles, triangle by triangle.
pub open spec fn face_steps(tris: Seq<Tri>, on: Seq<usize>) -> Seq<Key> {
    Seq::new(
        3 * on.len(),
        |h: int|
            {
                let s = side_of(tris[on[h / 3] as int], h % 3);
                step_key(s.0, s.1)
            },
    )
}

/// The steps of `list` that `all` does not hold backwards as well, as pairs of vertices.
pub open spec fn unmatched(list: Seq<Key>, all: Seq<Key>) -> Seq<(usize, usize)>
    decreases list.len(),
{
    if list.len() == 0 {
        Seq::empty()
    } else if all.contains(backwards(list.last())) {
        unmatched(list.drop_last(), all)
    } else {
        unmatched(list.drop_last(), all).push((list.last().x as usize, list.last().y as usize))
    }
}

/// The boundary of a face: the directed sides of its triangles, each once, without those that
/// another of its triangles walks the other way.
pub open spec fn rim(tris: Seq<Tri>, on: Seq<usize>) -> Seq<(usize, usize)> {
    unmatched(firsts(face_steps(tris, on)), face_steps(tris, on))
}

pub open spec fn starts(steps: Seq<(usize, usize)>) -> Seq<usize> {
    steps.map_values(|s: (usize, usize)| s.0)
}

pub open spec fn stops(steps: Seq<(usize, usize)>) -> Seq<usize> {
    steps.map_values(|s: (usize, usize)| s.1)
}

/// `loops` are the vertices along a tour of `steps`. Where as many steps leave every vertex as
/// arrive there, every loop is closed.
pub open spec fn bounds(loops: Seq<Vec<usize>>, steps: Seq<(usize, usize)>) -> bool {
    exists|trails: Seq<Vec<usize>>| #[trigger] bounds_by(loops, steps, trails)
}

pub open spec fn bounds_by(loops: Seq<Vec<usize>>, steps: Seq<(usize, usize)>, trails: Seq<Vec<usize>>) -> bool {
    let (src, dst) = (starts(steps), stops(steps));
    &&& is_tour(src, dst, trails)
    &&& balanced(src, dst) ==> forall|l: int| 0 <= l < trails.len() ==> returns_home(src, dst, (#[trigger] trails[l])@)
    &&& loops.len() == trails.len()
    &&& forall|l: int| 0 <= l < loops.len() ==> (#[trigger] loops[l])@ == trail_points(src, dst, trails[l]@)
}

/// The starting points and the end points of a face's boundary steps.
#[verifier::loop_isolation(false)]
fn rim_steps(tris: &Vec<Tri>, on: &Vec<usize>, Ghost(verts): Ghost<usize>) -> (r: (Vec<usize>, Vec<usize>))
    requires
        forall|k: int| 0 <= k < on@.len() ==> (#[trigger] on@[k]) < tris@.len(),
        forall|t: int| 0 <= t < tris@.len() ==> (#[trigger] tris@[t]).a < verts && tris@[t].b < verts && tris@[t].c < verts,
    ensures
        r.0@ == starts(rim(tris@, on@)),
        r.1@ == stops(rim(tris@, on@)),
        forall|i: int| 0 <= i < r.0@.len() ==> (#[trigger] r.0@[i]) < verts,
        forall|i: int| 0 <= i < r.1@.len() ==> (#[trigger] r.1@[i]) < verts,
{
    let mut table: KeyTable = KeyTable::new(on.len());
    let ghost all = face_steps(tris@, on@);
    assert(all.take(0) =~= Seq::<Key>::empty());
    let mut m: usize = 0;
    while m < on.len()
        invariant
            m <= on@.len(),
            table.wf(),
            table.keys() == firsts(all.take(3 * m as int)),
        decreases on@.len() - m,
    {
        let t: Tri = tris[on[m]];
        let mut k: usize = 0;
        while k < 3
            invariant
                k <= 3,
                table.wf(),
                table.keys() == firsts(all.take(3 * m as int + k)),
            decreases 3 - k,
        {
            let (p, q) = side(t, k);
            let ghost h = 3 * m as int + k;
            proof {
                assert(h / 3 == m && h % 3 == k);
                assert(all[h] == step_key(p, q));
                assert(all.take(h + 1).drop_last() =~= all.take(h));
            }
            let id: usize = table.id_of(Key { x: p as i128, y: q as i128, z: 1 });
            k = k + 1;
        }
        m = m + 1;
    }
    assert(all.take(3 * m as int) =~= all);
    proof {
        firsts_distinct(all);
        assert forall|e: int| 0 <= e < table.keys().len() implies {
            &&& 0 <= (#[trigger] table.keys()[e]).x < verts
            &&& 0 <= table.keys()[e].y < verts
        } by {
            assert(firsts(all).contains(table.keys()[e]));
            let h = choose|h: int| 0 <= h < all.len() && all[h] == table.keys()[e];
            let t = tris@[on@[h / 3] as int];
        }
    }
    let mut src: Vec<usize> = Vec::new();
    let mut dst: Vec<usize> = Vec::new();
    let ghost list = table.keys();
    let mut e: usize = 0;
    assert(starts(unmatched(list.take(0), all)) =~= Seq::<usize>::empty());
    assert(stops(unmatched(list.take(0), all)) =~= Seq::<usize>::empty());
    while e < table.len()
        invariant
            e <= list.len(),
            src@ == starts(unmatched(list.take(e as int), all)),
            dst@ == stops(unmatched(list.take(e as int), all)),
            forall|i: int| 0 <= i < src@.len() ==> (#[trigger] src@[i]) < verts,
            forall|i: int| 0 <= i < dst@.len() ==> (#[trigger] dst@[i]) < verts,
        decreases list.len() - e,
    {
        let key: Key = table.key(e);
        let ghost before = unmatched(list.take(e as int), all);
        assert(list.take(e + 1).drop_last() =~= list.take(e as int));
        let back: Option<usize> = table.find(Key { x: key.y, y: key.x, z: key.z });
        match back {
            None => {
                src.push(key.x as usize);
                dst.push(key.y as usize);
                proof {
                    let more = before.push((key.x as usize, key.y as usize));
                    assert(src@ =~= starts(more));
                    assert(dst@ =~= stops(more));
                }
            },
            Some(i) => {
                assert(table.keys()[i as int] == backwards(key));
                assert(firsts(all).contains(backwards(key)));
            },
        }
        e = e + 1;
    }
    assert(list.take(e as int) =~= list);
    (src, dst)
}

/// The loops that bound a face. `scratch` holds one empty stack for each vertex and is handed back
/// in that state.
fn boundary_loops(tris: &Vec<Tri>, on: &Vec<usize>, scratch: &mut Vec<Vec<usize>>) -> (loops: Vec<Vec<usize>>)
    requires
        forall|k: int| 0 <= k < on@.len() ==> (#[trigger] on@[k]) < tris@.len(),
        forall|t: int|
            0 <= t < tris@.len() ==> (#[trigger] tris@[t]).a < old(scratch)@.len() && tris@[t].b < old(scratch)@.len() && tris@[t].c
                < old(scratch)@.len(),
        all_empty(old(scratch)@),
    ensures
        final(scratch)@.len() == old(scratch)@.len(),
        all_empty(final(scratch)@),
        bounds(loops@, rim(tris@, on@)),
        loops_in_range(loops@, old(scratch)@.len() as int),
{
    let ghost verts = scratch.len();
    let (src, dst) = rim_steps(tris, on, Ghost(verts));
    let trails: Vec<Vec<usize>> = tour(&src, &dst, scratch);
    let mut loops: Vec<Vec<usize>> = Vec::with_capacity(trails.len());
    let mut l: usize = 0;
    while l < trails.len()
        invariant
            l <= trails@.len(),
            src@.len() == dst@.len(),
            forall|k: int| 0 <= k < trails@.len() ==> is_trail(src@, dst@, (#[trigger] trails@[k])@),
            loops@.len() == l,
            forall|k: int| 0 <= k < l ==> (#[trigger] loops@[k])@ == trail_points(src@, dst@, trails@[k]@),
        decreases trails@.len() - l,
    {
        let points: Vec<usize> = points_of(&src, &dst, &trails[l]);
        loops.push(points);
        l = l + 1;
    }
    assert(bounds_by(loops@, rim(tris@, on@), trails@));
    assert forall|l: int, k: int| 0 <= l < loops@.len() && 0 <= k < loops@[l]@.len() implies (#[trigger] loops@[l]@[k]) < verts by {
        let trail = trails@[l]@;
        assert(is_trail(src@, dst@, trail));
        assert(loops@[l]@ == trail_points(src@, dst@, trail));
        if k < trail.len() {
            assert(loops@[l]@[k] == src@[trail[k] as int]);
        } else {
            assert(loops@[l]@[k] == dst@[trail.last() as int]);
        }
    }
    loops
}

/// One of the triangles `on` lies on face `f`.
pub open spec fn lies_on_face(on: Seq<usize>, face: Seq<usize>, f: usize) -> bool {
    exists|k: int| 0 <= k < on.len() && face[#[trigger] on[k] as int] == f
}

/// `list` holds the faces of the triangles `on`, each once, in rising order.
pub open spec fn is_face_list(list: Seq<usize>, on: Seq<usize>, face: Seq<usize>) -> bool {
    &&& forall|j: int, k: int| 0 <= j < k < list.len() ==> #[trigger] list[j] < #[trigger] list[k]
    &&& forall|j: int| 0 <= j < list.len() ==> lies_on_face(on, face, #[trigger] list[j])
    &&& forall|k: int| 0 <= k < on.len() ==> list.contains(face[#[trigger] on[k] as int])
}

/// The faces of the triangles `on`, each once, in rising order.
#[verifier::loop_isolation(false)]
fn faces_of(on: &Vec<usize>, face: &Vec<usize>) -> (list: Vec<usize>)
    requires
        forall|k: int| 0 <= k < on@.len() ==> (#[trigger] on@[k]) < face@.len(),
    ensures
        is_face_list(list@, on@, face@),
{
    let mut list: Vec<usize> = Vec::new();
    let mut k: usize = 0;
    while k < on.len()
        invariant
            k <= on@.len(),
            is_face_list(list@, on@.take(k as int), face@),
        decreases on@.len() - k,
    {
        let f: usize = face[on[k]];
        let mut at: usize = 0;
        while at < list.len() && list[at] < f
            invariant
                at <= list@.len(),
                forall|j: int| 0 <= j < at ==> #[trigger] list@[j] < f,
            decreases list@.len() - at,
        {
            at = at + 1;
        }
        let ghost list0 = list@;
        let ghost on0 = on@.take(k as int);
        let ghost on1 = on@.take(k + 1);
        if at == list.len() || list[at] != f {
            list.insert(at, f);
            proof {
                assert(list@[at as int] == f);
                assert forall|i: int, j: int| 0 <= i < j < list@.len() implies #[trigger] list@[i] < #[trigger] list@[j] by {
                    let (i0, j0) = (if i < at { i } else { i - 1 }, if j < at { j } else { j - 1 });
                    if i != at && j != at {
                        assert(list0[i0] < list0[j0]);
                    } else if i == at {
                        if at < j - 1 {
                            assert(list0[at as int] < list0[j - 1]);
                        }
                    }
                }
            }
        }
        proof {
            assert(list@.contains(f)) by {
                assert(list@[at as int] == f);
            }
            assert forall|j: int| 0 <= j < list@.len() implies lies_on_face(on1, face@, #[trigger] list@[j]) by {
                if list@[j] == f {
                    assert(face@[on1[k as int] as int] == f);
                } else {
                    let j0 = if list@ == list0 || j < at { j } else { j - 1 };
                    assert(list0[j0] == list@[j]);
                    let i = choose|i: int| 0 <= i < on0.len() && face@[#[trigger] on0[i] as int] == list0[j0];
                    assert(on1[i] == on0[i]);
                }
            }
            assert forall|i: int| 0 <= i < on1.len() implies list@.contains(face@[#[trigger] on1[i] as int]) by {
                if i < k {
                    assert(on1[i] == on0[i]);
                    let g = face@[on0[i] as int];
                    assert(list0.contains(g));
                    let j = choose|j: int| 0 <= j < list0.len() && list0[j] == g;
                    if list@ == list0 || j < at {
                        assert(list@[j] == g);
                    } else {
                        assert(list@[j + 1] == g);
                    }
                }
            }
        }
        k = k + 1;
    }
    assert(on@.take(k as int) =~= on@);
    list
}

/// Two of the triangles `on` lie on different faces.
pub open spec fn parts_faces(on: Seq<usize>, face: Seq<usize>) -> bool {
    exists|j: int, k: int|
        0 <= j < on.len() && 0 <= k < on.len() && face[#[trigger] on[j] as int] != face[#[trigger] on[k] as int]
}

/// The mesh edges among the first `n` where different faces meet, in order.
pub open spec fn model_edges(uses: Seq<Vec<usize>>, face: Seq<usize>, n: int) -> Seq<int>
    decreases n,
{
    if n <= 0 {
        Seq::empty()
    } else if parts_faces(uses[n - 1]@, face) {
        model_edges(uses, face, n - 1).push(n - 1)
    } else {
        model_edges(uses, face, n - 1)
    }
}

/// `edge` is the model edge on mesh edge `e`.
pub open spec fn is_model_edge(edge: TopoEdge, e: int, et: EdgeTable, face: Seq<usize>) -> bool {
    &&& edge.a == et.ends@[e].0
    &&& edge.b == et.ends@[e].1
    &&& is_face_list(edge.faces@, et.uses@[e]@, face)
}

/// A rising list of faces is longer than one exactly where two of the triangles part.
proof fn long_lists_part(list: Seq<usize>, on: Seq<usize>, face: Seq<usize>)
    requires
        is_face_list(list, on, face),
    ensures
        list.len() >= 2 <==> parts_faces(on, face),
{
    if list.len() >= 2 {
        assert(lies_on_face(on, face, list[0]) && lies_on_face(on, face, list[1]));
        assert(list[0] < list[1]);
        let j = choose|j: int| 0 <= j < on.len() && face[#[trigger] on[j] as int] == list[0];
        let k = choose|k: int| 0 <= k < on.len() && face[#[trigger] on[k] as int] == list[1];
        assert(face[on[j] as int] != face[on[k] as int]);
    }
    if parts_faces(on, face) {
        let (j, k) = choose|j: int, k: int|
            0 <= j < on.len() && 0 <= k < on.len() && face[#[trigger] on[j] as int] != face[#[trigger] on[k] as int];
        assert(list.contains(face[on[j] as int]) && list.contains(face[on[k] as int]));
    }
}

/// The edges where different faces meet.
fn find_model_edges(et: &EdgeTable, face: &Vec<usize>) -> (edges: Vec<TopoEdge>)
    requires
        et.ends@.len() == et.uses@.len(),
        forall|e: int, k: int| 0 <= e < et.uses@.len() && 0 <= k < et.uses@[e]@.len() ==> (#[trigger] et.uses@[e]@[k]) < face@.len(),
    ensures
        edges@.len() == model_edges(et.uses@, face@, et.uses@.len() as int).len(),
        forall|m: int|
            0 <= m < edges@.len() ==> is_model_edge(
                #[trigger] edges@[m],
                model_edges(et.uses@, face@, et.uses@.len() as int)[m],
                *et,
                face@,
            ),
{
    let mut edges: Vec<TopoEdge> = Vec::new();
    let mut e: usize = 0;
    while e < et.uses.len()
        invariant
            e <= et.uses@.len(),
            et.ends@.len() == et.uses@.len(),
            forall|e: int, k: int|
                0 <= e < et.uses@.len() && 0 <= k < et.uses@[e]@.len() ==> (#[trigger] et.uses@[e]@[k]) < face@.len(),
            edges@.len() == model_edges(et.uses@, face@, e as int).len(),
            forall|m: int|
                0 <= m < edges@.len() ==> is_model_edge(#[trigger] edges@[m], model_edges(et.uses@, face@, e as int)[m], *et, face@),
        decreases et.uses@.len() - e,
    {
        let ghost edges0 = edges@;
        let list: Vec<usize> = faces_of(&et.uses[e], face);
        proof {
            long_lists_part(list@, et.uses@[e as int]@, face@);
        }
        if list.len() >= 2 {
            let (a, b) = et.ends[e];
            edges.push(TopoEdge { a, b, faces: list });
        }
        assert(forall|m: int| 0 <= m < edges0.len() ==> #[trigger] edges@[m] == edges0[m]);
        e = e + 1;
    }
    edges
}

/// The edges among the first `n` that end at vertex `v`, in order.
pub open spec fn edges_at(edges: Seq<TopoEdge>, v: int, n: int) -> Seq<usize>
    decreases n,
{
    if n <= 0 {
        Seq::empty()
    } else if edges[n - 1].a == v || edges[n - 1].b == v {
        edges_at(edges, v, n - 1).push((n - 1) as usize)
    } else {
        edges_at(edges, v, n - 1)
    }
}

/// The edges at each vertex.
#[verifier::loop_isolation(false)]
fn vertex_edges(edges: &Vec<TopoEdge>, verts: usize) -> (stars: Vec<Vec<usize>>)
    requires
        forall|m: int| 0 <= m < edges@.len() ==> (#[trigger] edges@[m]).a < edges@[m].b && edges@[m].b < verts,
    ensures
        stars@.len() == verts,
        forall|v: int| 0 <= v < verts ==> (#[trigger] stars@[v])@ == edges_at(edges@, v, edges@.len() as int),
{
    let mut stars: Vec<Vec<usize>> = empty_stacks(verts);
    let mut m: usize = 0;
    assert forall|v: int| 0 <= v < verts implies (#[trigger] stars@[v])@ == edges_at(edges@, v, 0) by {
        assert(stars@[v]@ =~= Seq::<usize>::empty());
    }
    while m < edges.len()
        invariant
            m <= edges@.len(),
            stars@.len() == verts,
            forall|v: int| 0 <= v < verts ==> (#[trigger] stars@[v])@ == edges_at(edges@, v, m as int),
        decreases edges@.len() - m,
    {
        let ghost stars0 = stars@;
        assert(edges@[m as int].a < edges@[m as int].b && edges@[m as int].b < verts);
        let (a, b) = (edges[m].a, edges[m].b);
        stars[a].push(m);
        stars[b].push(m);
        proof {
            assert forall|v: int| 0 <= v < verts implies (#[trigger] stars@[v])@ == edges_at(edges@, v, m + 1) by {
                assert(stars0[v]@ == edges_at(edges@, v, m as int));
            }
        }
        m = m + 1;
    }
    stars
}

/// Vertex `v` is a corner of the triangle.
pub open spec fn has_corner(t: Tri, v: int) -> bool {
    t.a == v || t.b == v || t.c == v
}

/// A triangle of face `f` among the first `n` has `v` as a corner.
pub open spec fn face_touches(tris: Seq<Tri>, on: Seq<usize>, n: int, v: int) -> bool {
    exists|k: int| 0 <= k < n && has_corner(tris[#[trigger] on[k] as int], v)
}

/// `list` holds the faces that touch vertex `v`, each once, in rising order.
pub open spec fn is_vertex_faces(list: Seq<usize>, tris: Seq<Tri>, lists: Seq<Vec<usize>>, v: int) -> bool {
    &&& forall|j: int, k: int| 0 <= j < k < list.len() ==> #[trigger] list[j] < #[trigger] list[k]
    &&& forall|f: int|
        0 <= f < lists.len() ==> (#[trigger] list.contains(f as usize) <==> face_touches(tris, lists[f]@, lists[f]@.len() as int, v))
    &&& forall|j: int| 0 <= j < list.len() ==> (#[trigger] list[j]) < lists.len()
}

/// Part way through face `f`: `list` holds the earlier faces that touch `v`, and `f` itself once one
/// of its first `n` triangles does.
spec fn collects(list: Seq<usize>, tris: Seq<Tri>, lists: Seq<Vec<usize>>, f: int, n: int, v: int) -> bool {
    &&& forall|j: int, k: int| 0 <= j < k < list.len() ==> #[trigger] list[j] < #[trigger] list[k]
    &&& forall|g: int|
        0 <= g < f ==> (#[trigger] list.contains(g as usize) <==> face_touches(tris, lists[g]@, lists[g]@.len() as int, v))
    &&& list.contains(f as usize) <==> face_touches(tris, lists[f]@, n, v)
    &&& forall|j: int| 0 <= j < list.len() ==> (#[trigger] list[j]) <= f
}

/// Add face `f` to the list of vertex `v`, unless it is there already.
fn note_face(stars: &mut Vec<Vec<usize>>, v: usize, f: usize)
    requires
        v < old(stars)@.len(),
        forall|j: int| 0 <= j < old(stars)@[v as int]@.len() ==> (#[trigger] old(stars)@[v as int]@[j]) <= f,
        forall|j: int, k: int|
            0 <= j < k < old(stars)@[v as int]@.len() ==> #[trigger] old(stars)@[v as int]@[j] < #[trigger] old(stars)@[v as int]@[k],
    ensures
        final(stars)@.len() == old(stars)@.len(),
        forall|w: int| 0 <= w < final(stars)@.len() && w != v ==> #[trigger] final(stars)@[w] == old(stars)@[w],
        final(stars)@[v as int]@ == noted(old(stars)@[v as int]@, f),
{
    let n: usize = stars[v].len();
    let ghost list = stars@[v as int]@;
    if n == 0 || stars[v][n - 1] != f {
        proof {
            if list.contains(f) {
                let j = choose|j: int| 0 <= j < list.len() && list[j] == f;
                assert(list[j] < list[n - 1]);
            }
        }
        stars[v].push(f);
    } else {
        assert(list[n - 1] == f);
    }
}

/// The faces at each vertex.
#[verifier::loop_isolation(false)]
fn vertex_faces(tris: &Vec<Tri>, lists: &Vec<Vec<usize>>, verts: usize) -> (stars: Vec<Vec<usize>>)
    requires
        forall|t: int| 0 <= t < tris@.len() ==> (#[trigger] tris@[t]).a < verts && tris@[t].b < verts && tris@[t].c < verts,
        forall|f: int, k: int| 0 <= f < lists@.len() && 0 <= k < lists@[f]@.len() ==> (#[trigger] lists@[f]@[k]) < tris@.len(),
    ensures
        stars@.len() == verts,
        forall|v: int| 0 <= v < verts ==> is_vertex_faces((#[trigger] stars@[v])@, tris@, lists@, v),
{
    let mut stars: Vec<Vec<usize>> = empty_stacks(verts);
    let mut f: usize = 0;
    while f < lists.len()
        invariant
            f <= lists@.len(),
            stars@.len() == verts,
            forall|v: int| 0 <= v < verts ==> is_vertex_faces((#[trigger] stars@[v])@, tris@, lists@.take(f as int), v),
        decreases lists@.len() - f,
    {
        assert forall|v: int| 0 <= v < verts implies collects((#[trigger] stars@[v])@, tris@, lists@, f as int, 0, v) by {
            let list = stars@[v]@;
            assert(is_vertex_faces(list, tris@, lists@.take(f as int), v));
            assert forall|g: int| 0 <= g < f implies (#[trigger] list.contains(g as usize) <==> face_touches(
                tris@,
                lists@[g]@,
                lists@[g]@.len() as int,
                v,
            )) by {
                assert(lists@.take(f as int)[g] == lists@[g]);
            }
            if list.contains(f) {
                let j = choose|j: int| 0 <= j < list.len() && list[j] == f;
                assert(list[j] < f);
            }
        }
        let mut k: usize = 0;
        while k < lists[f].len()
            invariant
                k <= lists@[f as int]@.len(),
                stars@.len() == verts,
                forall|v: int| 0 <= v < verts ==> collects((#[trigger] stars@[v])@, tris@, lists@, f as int, k as int, v),
            decreases lists@[f as int]@.len() - k,
        {
            assert(lists@[f as int]@[k as int] < tris@.len());
            let t: Tri = tris[lists[f][k]];
            let ghost stars0 = stars@;
            assert(tris@[lists@[f as int]@[k as int] as int] == t);
            proof {
                assert(collects(stars0[t.a as int]@, tris@, lists@, f as int, k as int, t.a as int));
                assert(collects(stars0[t.b as int]@, tris@, lists@, f as int, k as int, t.b as int));
                assert(collects(stars0[t.c as int]@, tris@, lists@, f as int, k as int, t.c as int));
                note_ordered(stars0[t.a as int]@, f);
                note_ordered(stars0[t.b as int]@, f);
                note_ordered(stars0[t.c as int]@, f);
                noting_twice(stars0[t.c as int]@, f);
            }
            note_face(&mut stars, t.a, f);
            assert(stars@[t.b as int]@ == stars0[t.b as int]@ || stars@[t.b as int]@ == noted(stars0[t.b as int]@, f));
            note_face(&mut stars, t.b, f);
            assert(stars@[t.c as int]@ == stars0[t.c as int]@ || stars@[t.c as int]@ == noted(stars0[t.c as int]@, f));
            note_face(&mut stars, t.c, f);
            proof {
                let on = lists@[f as int]@;
                assert forall|v: int| 0 <= v < verts implies collects((#[trigger] stars@[v])@, tris@, lists@, f as int, k + 1, v) by {
                    let list0 = stars0[v]@;
                    let list = stars@[v]@;
                    assert(collects(list0, tris@, lists@, f as int, k as int, v));
                    note_ordered(list0, f);
                    noting_twice(list0, f);
                    if has_corner(t, v) {
                        assert(list == noted(list0, f));
                        assert(on[k as int] == on[k as int]);
                        assert(face_touches(tris@, on, k + 1, v));
                    } else {
                        assert(list == list0);
                        if face_touches(tris@, on, k + 1, v) {
                            let j = choose|j: int| 0 <= j < k + 1 && has_corner(tris@[#[trigger] on[j] as int], v);
                            assert(j < k);
                            assert(face_touches(tris@, on, k as int, v));
                        }
                        if face_touches(tris@, on, k as int, v) {
                            let j = choose|j: int| 0 <= j < k && has_corner(tris@[#[trigger] on[j] as int], v);
                            assert(has_corner(tris@[on[j] as int], v));
                        }
                    }
                }
            }
            k = k + 1;
        }
        proof {
            let now = lists@.take(f + 1);
            assert forall|v: int| 0 <= v < verts implies is_vertex_faces((#[trigger] stars@[v])@, tris@, now, v) by {
                let list = stars@[v]@;
                assert(collects(list, tris@, lists@, f as int, lists@[f as int]@.len() as int, v));
                assert forall|g: int| 0 <= g < now.len() implies (#[trigger] list.contains(g as usize) <==> face_touches(
                    tris@,
                    now[g]@,
                    now[g]@.len() as int,
                    v,
                )) by {
                    assert(now[g] == lists@[g]);
                }
            }
        }
        f = f + 1;
    }
    assert(lists@.take(f as int) =~= lists@);
    stars
}

/// Noting a face keeps the list rising.
proof fn note_ordered(list: Seq<usize>, f: usize)
    requires
        forall|j: int, k: int| 0 <= j < k < list.len() ==> #[trigger] list[j] < #[trigger] list[k],
        forall|j: int| 0 <= j < list.len() ==> (#[trigger] list[j]) <= f,
    ensures
        forall|j: int, k: int| 0 <= j < k < noted(list, f).len() ==> #[trigger] noted(list, f)[j] < #[trigger] noted(list, f)[k],
        forall|j: int| 0 <= j < noted(list, f).len() ==> (#[trigger] noted(list, f)[j]) <= f,
        forall|g: usize| #[trigger] noted(list, f).contains(g) <==> list.contains(g) || g == f,
{
    let more = noted(list, f);
    if !list.contains(f) {
        assert forall|j: int| 0 <= j < list.len() implies (#[trigger] list[j]) < f by {
            assert(list.contains(list[j]));
        }
        assert(more[list.len() as int] == f);
        assert forall|g: usize| #[trigger] more.contains(g) <==> list.contains(g) || g == f by {
            if list.contains(g) {
                let j = choose|j: int| 0 <= j < list.len() && list[j] == g;
                assert(more[j] == g);
            }
        }
    }
}

proof fn noting_twice(list: Seq<usize>, f: usize)
    ensures
        noted(noted(list, f), f) == noted(list, f),
{
    if !list.contains(f) {
        assert(list.push(f)[list.len() as int] == f);
    }
}

/// The flat-face topology of a mesh.
#[derive(Clone, Debug)]
pub struct Topo {
    /// How many vertices there are.
    pub verts: usize,
    pub tris: Vec<Tri>,
    pub faces: Vec<Face>,
    /// The face that each triangle lies on.
    pub tri_face: Vec<usize>,
    /// The edges where different faces meet.
    pub edges: Vec<TopoEdge>,
    /// The edges that end at each vertex.
    pub vert_edges: Vec<Vec<usize>>,
    /// The faces that touch each vertex.
    pub vert_faces: Vec<Vec<usize>>,
}

/// The triangle's corners are vertices below `verts`, all different.
pub open spec fn sound(tris: Seq<Tri>, verts: int) -> bool {
    &&& forall|t: int| 0 <= t < tris.len() ==> proper(#[trigger] tris[t])
    &&& forall|t: int| 0 <= t < tris.len() ==> (#[trigger] tris[t]).a < verts && tris[t].b < verts && tris[t].c < verts
}

impl Topo {
    /// This is the topology of the triangles of `et`, with smooth edges as marked.
    pub open spec fn describes(&self, et: EdgeTable, smooth: Seq<bool>) -> bool {
        let n = et.uses@.len() as int;
        &&& self.tri_face@.len() == self.tris@.len()
        &&& faces_numbered(self.tri_face@, self.faces@.len() as int, et.uses@, smooth)
        &&& forall|f: int|
            0 <= f < self.faces@.len() ==> {
                &&& (#[trigger] self.faces@[f]).tris@ == members(self.tri_face@, f, self.tris@.len() as int)
                &&& bounds(self.faces@[f].loops@, rim(self.tris@, self.faces@[f].tris@))
            }
        &&& self.edges@.len() == model_edges(et.uses@, self.tri_face@, n).len()
        &&& forall|m: int|
            0 <= m < self.edges@.len() ==> is_model_edge(
                #[trigger] self.edges@[m],
                model_edges(et.uses@, self.tri_face@, n)[m],
                et,
                self.tri_face@,
            )
        &&& self.vert_edges@.len() == self.verts
        &&& forall|v: int| 0 <= v < self.verts ==> (#[trigger] self.vert_edges@[v])@ == edges_at(self.edges@, v, self.edges@.len() as int)
        &&& self.vert_faces@.len() == self.verts
        &&& forall|v: int|
            0 <= v < self.verts ==> is_vertex_faces(
                (#[trigger] self.vert_faces@[v])@,
                self.tris@,
                Seq::new(self.faces@.len(), |f: int| self.faces@[f].tris),
                v,
            )
    }

    /// The numbers in the lists point at things that exist.
    pub open spec fn wf(&self) -> bool {
        &&& sound(self.tris@, self.verts as int)
        &&& self.tri_face@.len() == self.tris@.len()
        &&& self.vert_edges@.len() == self.verts
        &&& self.vert_faces@.len() == self.verts
        &&& forall|m: int| 0 <= m < self.edges@.len() ==> (#[trigger] self.edges@[m]).a < self.edges@[m].b && self.edges@[m].b < self.verts
        &&& forall|v: int, k: int|
            0 <= v < self.verts && 0 <= k < self.vert_edges@[v]@.len() ==> (#[trigger] self.vert_edges@[v]@[k]) < self.edges@.len()
        &&& forall|v: int, k: int|
            0 <= v < self.verts && 0 <= k < self.vert_faces@[v]@.len() ==> (#[trigger] self.vert_faces@[v]@[k]) < self.faces@.len()
        &&& forall|m: int| 0 <= m < self.edges@.len() ==> (#[trigger] self.edges@[m]).faces@.len() >= 2
        &&& forall|f: int| 0 <= f < self.faces@.len() ==> loops_in_range((#[trigger] self.faces@[f]).loops@, self.verts as int)
    }
}

/// The loops run over vertices.
pub open spec fn loops_in_range(loops: Seq<Vec<usize>>, verts: int) -> bool {
    forall|l: int, k: int| 0 <= l < loops.len() && 0 <= k < loops[l]@.len() ==> (#[trigger] loops[l]@[k]) < verts
}

proof fn edges_at_in_range(edges: Seq<TopoEdge>, v: int, n: int)
    requires
        0 <= n <= edges.len() <= usize::MAX,
    ensures
        forall|k: int| 0 <= k < edges_at(edges, v, n).len() ==> (#[trigger] edges_at(edges, v, n)[k]) < n,
        forall|k: int|
            0 <= k < edges_at(edges, v, n).len() ==> edges[#[trigger] edges_at(edges, v, n)[k] as int].a == v || edges[edges_at(
                edges,
                v,
                n,
            )[k] as int].b == v,
        forall|e: int|
            0 <= e < n && ((#[trigger] edges[e]).a == v || edges[e].b == v) ==> edges_at(edges, v, n).contains(e as usize),
    decreases n,
{
    if n > 0 {
        edges_at_in_range(edges, v, n - 1);
        let list = edges_at(edges, v, n);
        let rest = edges_at(edges, v, n - 1);
        assert forall|e: int| 0 <= e < n && ((#[trigger] edges[e]).a == v || edges[e].b == v) implies list.contains(e as usize) by {
            if e == n - 1 {
                assert(list[rest.len() as int] == e as usize);
            } else {
                assert(rest.contains(e as usize));
                let k = choose|k: int| 0 <= k < rest.len() && rest[k] == e as usize;
                assert(list[k] == e as usize);
            }
        }
    }
}

proof fn model_edges_in_range(uses: Seq<Vec<usize>>, face: Seq<usize>, n: int)
    requires
        0 <= n <= uses.len(),
    ensures
        forall|m: int|
            0 <= m < model_edges(uses, face, n).len() ==> 0 <= (#[trigger] model_edges(uses, face, n)[m]) < n && parts_faces(
                uses[model_edges(uses, face, n)[m]]@,
                face,
            ),
    decreases n,
{
    if n > 0 {
        model_edges_in_range(uses, face, n - 1);
        let list = model_edges(uses, face, n);
        let rest = model_edges(uses, face, n - 1);
        assert forall|m: int| 0 <= m < list.len() implies 0 <= (#[trigger] list[m]) < n && parts_faces(uses[list[m]]@, face) by {
            if m < rest.len() {
                assert(list[m] == rest[m]);
            }
        }
    }
}

/// Rebuild the flat faces of a mesh from its triangles, their edge table, and a mark for each edge
/// that the surface runs flat across.
#[verifier::loop_isolation(false)]
pub fn build_topo(verts: usize, tris: Vec<Tri>, et: &EdgeTable, smooth: &Vec<bool>) -> (topo: Topo)
    requires
        et.describes(tris@),
        smooth@.len() == et.uses@.len(),
        sound(tris@, verts as int),
    ensures
        topo.verts == verts,
        topo.tris@ == tris@,
        topo.describes(*et, smooth@),
        topo.wf(),
{
    let total: usize = tris.len();
    proof {
        table_in_range(*et, tris@, verts as int);
    }
    let (tri_face, count) = group_faces(total, &et.uses, smooth);
    let lists: Vec<Vec<usize>> = face_members(&tri_face, count);
    let mut faces: Vec<Face> = Vec::with_capacity(count);
    let mut scratch: Vec<Vec<usize>> = empty_stacks(verts);
    assert forall|f: int, k: int| 0 <= f < lists@.len() && 0 <= k < lists@[f]@.len() implies (#[trigger] lists@[f]@[k]) < total by {
        members_are_on_the_face(tri_face@, f, total as int);
    }
    let vert_faces: Vec<Vec<usize>> = vertex_faces(&tris, &lists, verts);
    let ghost lists0 = lists@;
    let mut f: usize = 0;
    while f < count
        invariant
            f <= count,
            faces@.len() == f,
            scratch@.len() == verts,
            all_empty(scratch@),
            forall|g: int|
                0 <= g < f ==> {
                    &&& (#[trigger] faces@[g]).tris@ == members(tri_face@, g, total as int)
                    &&& bounds(faces@[g].loops@, rim(tris@, faces@[g].tris@))
                    &&& loops_in_range(faces@[g].loops@, verts as int)
                },
        decreases count - f,
    {
        let on: Vec<usize> = lists[f].clone();
        assert(on@ =~= lists@[f as int]@);
        assert(forall|k: int| 0 <= k < on@.len() ==> (#[trigger] on@[k]) < total) by {
            assert(forall|k: int| 0 <= k < on@.len() ==> (#[trigger] on@[k]) == lists@[f as int]@[k]);
        }
        let loops: Vec<Vec<usize>> = boundary_loops(&tris, &on, &mut scratch);
        faces.push(Face { tris: on, loops });
        f = f + 1;
    }
    let edges: Vec<TopoEdge> = find_model_edges(et, &tri_face);
    proof {
        let ids = model_edges(et.uses@, tri_face@, et.uses@.len() as int);
        model_edges_in_range(et.uses@, tri_face@, et.uses@.len() as int);
        assert forall|m: int| 0 <= m < edges@.len() implies (#[trigger] edges@[m]).a < edges@[m].b && edges@[m].b < verts by {
            assert(is_model_edge(edges@[m], ids[m], *et, tri_face@));
            assert(et.ends@[ids[m]].0 < et.ends@[ids[m]].1);
        }
        assert forall|m: int| 0 <= m < edges@.len() implies (#[trigger] edges@[m]).faces@.len() >= 2 by {
            assert(is_model_edge(edges@[m], ids[m], *et, tri_face@));
            long_lists_part(edges@[m].faces@, et.uses@[ids[m]]@, tri_face@);
        }
    }
    let vert_edges: Vec<Vec<usize>> = vertex_edges(&edges, verts);
    let m: usize = edges.len();
    proof {
        assert forall|v: int, k: int| 0 <= v < verts && 0 <= k < vert_edges@[v]@.len() implies (#[trigger] vert_edges@[v]@[k])
            < edges@.len() by {
            edges_at_in_range(edges@, v, m as int);
        }
        let by_face = Seq::new(faces@.len(), |f: int| faces@[f].tris);
        assert forall|v: int| 0 <= v < verts implies is_vertex_faces((#[trigger] vert_faces@[v])@, tris@, by_face, v) by {
            assert(is_vertex_faces(vert_faces@[v]@, tris@, lists@, v));
            assert forall|f: int| 0 <= f < by_face.len() implies (#[trigger] vert_faces@[v]@.contains(f as usize) <==> face_touches(
                tris@,
                by_face[f]@,
                by_face[f]@.len() as int,
                v,
            )) by {
                assert(faces@[f].tris@ == lists@[f]@);
            }
        }
    }
    Topo { verts, tris, faces, tri_face, edges, vert_edges, vert_faces }
}

/// The edge joins `a` and `b`.
pub open spec fn joins(e: TopoEdge, a: usize, b: usize) -> bool {
    (e.a == a && e.b == b) || (e.a == b && e.b == a)
}

impl Topo {
    /// The first edge at `a` that joins it to `b`, if there is one.
    pub fn edge_between(&self, a: usize, b: usize) -> (found: Option<usize>)
        requires
            self.wf(),
            a < self.verts,
        ensures
            found matches Some(e) ==> exists|k: int|
                0 <= k < self.vert_edges@[a as int]@.len() && #[trigger] self.vert_edges@[a as int]@[k] == e && joins(
                    self.edges@[e as int],
                    a,
                    b,
                ) && forall|j: int| 0 <= j < k ==> !joins(self.edges@[#[trigger] self.vert_edges@[a as int]@[j] as int], a, b),
            found is None ==> forall|j: int|
                0 <= j < self.vert_edges@[a as int]@.len() ==> !joins(
                    self.edges@[#[trigger] self.vert_edges@[a as int]@[j] as int],
                    a,
                    b,
                ),
    {
        let star: &Vec<usize> = &self.vert_edges[a];
        let mut k: usize = 0;
        while k < star.len()
            invariant
                self.wf(),
                a < self.verts,
                star@ == self.vert_edges@[a as int]@,
                k <= star@.len(),
                forall|j: int| 0 <= j < k ==> !joins(self.edges@[#[trigger] self.vert_edges@[a as int]@[j] as int], a, b),
            decreases star@.len() - k,
        {
            let ei: usize = star[k];
            assert(self.vert_edges@[a as int]@[k as int] == ei);
            let e: &TopoEdge = &self.edges[ei];
            if (e.a == a && e.b == b) || (e.a == b && e.b == a) {
                return Some(ei);
            }
            k = k + 1;
        }
        None
    }
}

/// Whether an edge is found between two vertices does not depend on which one is asked first.
pub proof fn edges_join_both_ways(topo: Topo, et: EdgeTable, smooth: Seq<bool>, a: usize, b: usize)
    requires
        topo.wf(),
        topo.describes(et, smooth),
        topo.edges@.len() <= usize::MAX,
        a < topo.verts,
        b < topo.verts,
    ensures
        (exists|j: int|
            0 <= j < topo.vert_edges@[a as int]@.len() && joins(topo.edges@[#[trigger] topo.vert_edges@[a as int]@[j] as int], a, b))
            <==> (exists|m: int| 0 <= m < topo.edges@.len() && joins(#[trigger] topo.edges@[m], b, a)),
{
    let n = topo.edges@.len() as int;
    edges_at_in_range(topo.edges@, a as int, n);
    let star = topo.vert_edges@[a as int]@;
    assert(star == edges_at(topo.edges@, a as int, n));
    if exists|m: int| 0 <= m < topo.edges@.len() && joins(#[trigger] topo.edges@[m], b, a) {
        let m = choose|m: int| 0 <= m < topo.edges@.len() && joins(#[trigger] topo.edges@[m], b, a);
        assert(topo.edges@[m].a == a || topo.edges@[m].b == a);
        assert(star.contains(m as usize));
        let j = choose|j: int| 0 <= j < star.len() && star[j] == m as usize;
        assert(joins(topo.edges@[topo.vert_edges@[a as int]@[j] as int], a, b));
    }
    if exists|j: int| 0 <= j < star.len() && joins(topo.edges@[#[trigger] topo.vert_edges@[a as int]@[j] as int], a, b) {
        let j = choose|j: int| 0 <= j < star.len() && joins(topo.edges@[#[trigger] topo.vert_edges@[a as int]@[j] as int], a, b);
        let m = star[j] as int;
        assert(joins(topo.edges@[m], b, a));
    }
}

/// Two triangles are joined by every smooth edge that has just these two, in the order of the edges.
pub proof fn only_smooth_edges_join(uses: Seq<Vec<usize>>, smooth: Seq<bool>, n: int)
    requires
        0 <= n <= uses.len(),
    ensures
        joined(uses, smooth, n) == Seq::new(n as nat, |i: int| i).filter(|e: int| smooth[e] && uses[e]@.len() == 2).map_values(|e: int| (uses[e]@[0], uses[e]@[1])),
    decreases n,
{
    reveal(Seq::filter);
    let (test, made) = (|e: int| smooth[e] && uses[e]@.len() == 2, |e: int| (uses[e]@[0], uses[e]@[1]));
    let all = Seq::new(n as nat, |i: int| i);
    if n > 0 {
        only_smooth_edges_join(uses, smooth, n - 1);
        let rest = Seq::new((n - 1) as nat, |i: int| i);
        assert(all.drop_last() =~= rest);
        assert(all.last() == n - 1);
        let kept = rest.filter(test);
        assert(kept.push(n - 1).map_values(made) =~= kept.map_values(made).push(made(n - 1)));
        assert(joined(uses, smooth, n) =~= all.filter(test).map_values(made));
    } else {
        assert(joined(uses, smooth, n) =~= all.filter(test).map_values(made));
    }
}

/// A face lists its triangles in order, and no others.
pub proof fn faces_list_their_triangles(face: Seq<usize>, f: int, n: int)
    requires
        0 <= n <= face.len(),
    ensures
        members(face, f, n) == Seq::new(n as nat, |i: int| i).filter(|t: int| face[t] == f).map_values(|t: int| t as usize),
    decreases n,
{
    reveal(Seq::filter);
    let (test, made) = (|t: int| face[t] == f, |t: int| t as usize);
    let all = Seq::new(n as nat, |i: int| i);
    if n > 0 {
        faces_list_their_triangles(face, f, n - 1);
        let rest = Seq::new((n - 1) as nat, |i: int| i);
        assert(all.drop_last() =~= rest);
        assert(all.last() == n - 1);
        let kept = rest.filter(test);
        assert(kept.push(n - 1).map_values(made) =~= kept.map_values(made).push(made(n - 1)));
        assert(members(face, f, n) =~= all.filter(test).map_values(made));
    } else {
        assert(members(face, f, n) =~= all.filter(test).map_values(made));
    }
}

/// The model has an edge wherever two triangles on one mesh edge lie on different faces, in order.
pub proof fn model_edges_part_faces(uses: Seq<Vec<usize>>, face: Seq<usize>, n: int)
    requires
        0 <= n <= uses.len(),
    ensures
        model_edges(uses, face, n) == Seq::new(n as nat, |i: int| i).filter(|e: int| exists|j: int, k: int| 0 <= j < k < uses[e]@.len() && face[#[trigger] uses[e]@[j] as int] != face[#[trigger] uses[e]@[k] as int]).map_values(|e: int| e),
    decreases n,
{
    reveal(Seq::filter);
    let (test, made) = (|e: int| exists|j: int, k: int| 0 <= j < k < uses[e]@.len() && face[#[trigger] uses[e]@[j] as int] != face[#[trigger] uses[e]@[k] as int], |e: int| e);
    let all = Seq::new(n as nat, |i: int| i);
    if n > 0 {
        model_edges_part_faces(uses, face, n - 1);
        parting_either_way(uses[n - 1]@, face);
        assert(test(n - 1) == parts_faces(uses[n - 1]@, face));
        let rest = Seq::new((n - 1) as nat, |i: int| i);
        assert(all.drop_last() =~= rest);
        assert(all.last() == n - 1);
        let kept = rest.filter(test);
        assert(kept.push(n - 1).map_values(made) =~= kept.map_values(made).push(made(n - 1)));
        assert(model_edges(uses, face, n) =~= all.filter(test).map_values(made));
    } else {
        assert(model_edges(uses, face, n) =~= all.filter(test).map_values(made));
    }
}

/// A vertex lists the edges that end there, in order.
pub proof fn stars_list_the_edges_at_a_vertex(edges: Seq<TopoEdge>, v: int, n: int)
    requires
        0 <= n <= edges.len(),
    ensures
        edges_at(edges, v, n) == Seq::new(n as nat, |i: int| i).filter(|e: int| edges[e].a == v || edges[e].b == v).map_values(|e: int| e as usize),
    decreases n,
{
    reveal(Seq::filter);
    let (test, made) = (|e: int| edges[e].a == v || edges[e].b == v, |e: int| e as usize);
    let all = Seq::new(n as nat, |i: int| i);
    if n > 0 {
        stars_list_the_edges_at_a_vertex(edges, v, n - 1);
        let rest = Seq::new((n - 1) as nat, |i: int| i);
        assert(all.drop_last() =~= rest);
        assert(all.last() == n - 1);
        let kept = rest.filter(test);
        assert(kept.push(n - 1).map_values(made) =~= kept.map_values(made).push(made(n - 1)));
        assert(edges_at(edges, v, n) =~= all.filter(test).map_values(made));
    } else {
        assert(edges_at(edges, v, n) =~= all.filter(test).map_values(made));
    }
}

proof fn parting_either_way(on: Seq<usize>, face: Seq<usize>)
    ensures
        parts_faces(on, face) <==> exists|j: int, k: int|
            0 <= j < k < on.len() && face[#[trigger] on[j] as int] != face[#[trigger] on[k] as int],
{
    if parts_faces(on, face) {
        let (j, k) = choose|j: int, k: int|
            0 <= j < on.len() && 0 <= k < on.len() && face[#[trigger] on[j] as int] != face[#[trigger] on[k] as int];
        if j < k {
            assert(face[on[j] as int] != face[on[k] as int]);
        } else {
            assert(face[on[k] as int] != face[on[j] as int]);
        }
    }
}

/// The boundary of a face is made of the sides that one of its triangles walks and none walks back.
#[verifier::spinoff_prover]
#[verifier::rlimit(50)]
pub proof fn rims_are_walked_one_way(tris: Seq<Tri>, on: Seq<usize>, p: usize, q: usize)
    ensures
        rim(tris, on).contains((p, q)) <==> (exists|k: int| 0 <= k < on.len() && crate::mesh::runs(tris[#[trigger] on[k] as int], p, q)) && !(
        exists|k: int| 0 <= k < on.len() && crate::mesh::runs(tris[#[trigger] on[k] as int], q, p)),
{
    let all = face_steps(tris, on);
    firsts_distinct(all);
    steps_are_sides(tris, on, p, q);
    steps_are_sides(tris, on, q, p);
    assert forall|i: int| 0 <= i < firsts(all).len() implies is_step(#[trigger] firsts(all)[i]) by {
        assert(firsts(all).contains(firsts(all)[i]));
        let h = choose|h: int| 0 <= h < all.len() && all[h] == firsts(all)[i];
    }
    unmatched_members(firsts(all), all, p, q);
    assert(backwards(step_key(p, q)) == step_key(q, p));
}

/// The key is that of a step between vertices.
pub open spec fn is_step(k: Key) -> bool {
    exists|p: usize, q: usize| k == #[trigger] step_key(p, q)
}

proof fn steps_are_sides(tris: Seq<Tri>, on: Seq<usize>, p: usize, q: usize)
    ensures
        face_steps(tris, on).contains(step_key(p, q)) <==> exists|k: int|
            0 <= k < on.len() && crate::mesh::runs(tris[#[trigger] on[k] as int], p, q),
{
    let all = face_steps(tris, on);
    if all.contains(step_key(p, q)) {
        let h = choose|h: int| 0 <= h < all.len() && all[h] == step_key(p, q);
        let s = side_of(tris[on[h / 3] as int], h % 3);
        assert(s == (p, q));
        assert(crate::mesh::runs(tris[on[h / 3] as int], p, q));
    }
    if exists|k: int| 0 <= k < on.len() && crate::mesh::runs(tris[#[trigger] on[k] as int], p, q) {
        let k = choose|k: int| 0 <= k < on.len() && crate::mesh::runs(tris[#[trigger] on[k] as int], p, q);
        let c = choose|c: int| 0 <= c < 3 && #[trigger] side_of(tris[on[k] as int], c) == (p, q);
        let h = 3 * k + c;
        assert(h / 3 == k && h % 3 == c);
        assert(all[h] == step_key(p, q));
    }
}

#[verifier::spinoff_prover]
#[verifier::rlimit(50)]
proof fn unmatched_members(list: Seq<Key>, all: Seq<Key>, p: usize, q: usize)
    requires
        forall|i: int| 0 <= i < list.len() ==> is_step(#[trigger] list[i]),
    ensures
        unmatched(list, all).contains((p, q)) <==> list.contains(step_key(p, q)) && !all.contains(backwards(step_key(p, q))),
    decreases list.len(),
{
    let found = unmatched(list, all);
    if list.len() > 0 {
        let short = list.drop_last();
        let last = list.last();
        assert forall|i: int| 0 <= i < short.len() implies is_step(#[trigger] short[i]) by {
            assert(short[i] == list[i]);
        }
        unmatched_members(short, all, p, q);
        let rest = unmatched(short, all);
        assert(is_step(list[list.len() - 1]));
        let (x, y) = choose|x: usize, y: usize| last == #[trigger] step_key(x, y);
        if rest.contains((p, q)) {
            let k = choose|k: int| 0 <= k < rest.len() && rest[k] == (p, q);
            assert(found[k] == (p, q));
        }
        if short.contains(step_key(p, q)) {
            let k = choose|k: int| 0 <= k < short.len() && short[k] == step_key(p, q);
            assert(list[k] == step_key(p, q));
        }
        if list.contains(step_key(p, q)) && !short.contains(step_key(p, q)) {
            let k = choose|k: int| 0 <= k < list.len() && list[k] == step_key(p, q);
            if k < short.len() {
                assert(short[k] == step_key(p, q));
            }
            assert(x == p && y == q);
        }
        if last == step_key(p, q) {
            assert(list[list.len() - 1] == step_key(p, q));
            if !all.contains(backwards(last)) {
                assert(found[rest.len() as int] == (p, q));
            }
        }
        if found.contains((p, q)) {
            let k = choose|k: int| 0 <= k < found.len() && found[k] == (p, q);
            if k < rest.len() {
                assert(rest[k] == (p, q));
            } else {
                assert(last == step_key(p, q));
            }
        }
    }
}

} // verus!
