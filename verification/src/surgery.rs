//! The combinatorics of rounding edges by mesh surgery: what happens at each corner, which faces
//! get a notch, and how the strips, wedges and patches are triangulated.

use vstd::prelude::*;

use crate::topo::{Topo, TopoEdge};

verus! {

/// Past this many selected edges a folded result is kept rather than rebuilt by booleans, which
/// would take too long.
pub const CSG_ROUND_MAX_EDGES: usize = 4;

/// The entries of `star` that are marked in `selected`, in order.
pub open spec fn chosen(star: Seq<usize>, selected: Seq<bool>) -> Seq<usize>
    decreases star.len(),
{
    if star.len() == 0 {
        Seq::empty()
    } else if selected[star.last() as int] {
        chosen(star.drop_last(), selected).push(star.last())
    } else {
        chosen(star.drop_last(), selected)
    }
}

/// The marks fit the edges of the topology.
pub open spec fn marks(topo: Topo, selected: Seq<bool>) -> bool {
    topo.wf() && selected.len() == topo.edges@.len()
}

/// The selected edges at vertex `v`.
pub fn selected_at(topo: &Topo, selected: &Vec<bool>, v: usize) -> (list: Vec<usize>)
    requires
        marks(*topo, selected@),
        v < topo.verts,
    ensures
        list@ == chosen(topo.vert_edges@[v as int]@, selected@),
        forall|k: int| 0 <= k < list@.len() ==> (#[trigger] list@[k]) < topo.edges@.len() && selected@[list@[k] as int],
{
    let star: &Vec<usize> = &topo.vert_edges[v];
    let mut list: Vec<usize> = Vec::new();
    let mut k: usize = 0;
    assert(star@.take(0) =~= Seq::<usize>::empty());
    while k < star.len()
        invariant
            k <= star@.len(),
            marks(*topo, selected@),
            v < topo.verts,
            star@ == topo.vert_edges@[v as int]@,
            list@ == chosen(star@.take(k as int), selected@),
            forall|j: int| 0 <= j < list@.len() ==> (#[trigger] list@[j]) < topo.edges@.len() && selected@[list@[j] as int],
        decreases star@.len() - k,
    {
        assert(star@.take(k + 1).drop_last() =~= star@.take(k as int));
        assert(topo.vert_edges@[v as int]@[k as int] < topo.edges@.len());
        let e: usize = star[k];
        if selected[e] {
            list.push(e);
        }
        k = k + 1;
    }
    assert(star@.take(k as int) =~= star@);
    list
}

/// How many edges are selected.
pub fn count_selected(selected: &Vec<bool>) -> (n: usize)
    ensures
        n == crate::counting::truths(selected@),
{
    let mut n: usize = 0;
    let mut k: usize = 0;
    while k < selected.len()
        invariant
            k <= selected@.len(),
            n <= k,
            n == crate::counting::truths(selected@.take(k as int)),
        decreases selected@.len() - k,
    {
        assert(selected@.take(k + 1).drop_last() =~= selected@.take(k as int));
        if selected[k] {
            n = n + 1;
        }
        k = k + 1;
    }
    assert(selected@.take(k as int) =~= selected@);
    n
}

/// Is the job handed to the boolean kernel? It is where the insets fold a face over itself, few
/// enough edges are selected for the kernel to finish, and handing over is enabled.
pub fn hands_over(folded: bool, selected: &Vec<bool>, enabled: bool) -> (yes: bool)
    ensures
        yes == (folded && enabled && crate::counting::truths(selected@) <= CSG_ROUND_MAX_EDGES),
        yes == (folded && enabled && selected@.filter(|b: bool| b).len() <= 4),
{
    proof {
        crate::counting::truths_are_counted(selected@);
    }
    folded && count_selected(selected) <= CSG_ROUND_MAX_EDGES && enabled
}

/// Is any edge selected at all?
pub fn any_selected(selected: &Vec<bool>) -> (yes: bool)
    ensures
        yes == exists|e: int| 0 <= e < selected@.len() && #[trigger] selected@[e],
{
    let mut k: usize = 0;
    while k < selected.len()
        invariant
            k <= selected@.len(),
            forall|e: int| 0 <= e < k ==> !#[trigger] selected@[e],
        decreases selected@.len() - k,
    {
        if selected[k] {
            return true;
        }
        k = k + 1;
    }
    false
}

/// Some loop of the face passes vertex `v`.
pub open spec fn on_a_loop(loops: Seq<Vec<usize>>, v: usize) -> bool {
    exists|l: int| 0 <= l < loops.len() && (#[trigger] loops[l])@.contains(v)
}

/// A fillet along edge `e` ends at `v` squarely against face `fs`: `e` is the only selected edge
/// there, `fs` is the only face there besides the two that `e` joins, `v` lies on its boundary, and
/// every other edge at `v` borders it.
pub open spec fn ends_against(topo: Topo, selected: Seq<bool>, v: usize, e: usize, fs: usize) -> bool {
    let edge = topo.edges@[e as int];
    &&& chosen(topo.vert_edges@[v as int]@, selected) == seq![e]
    &&& edge.faces@.len() == 2
    &&& forall|f: usize|
        #[trigger] topo.vert_faces@[v as int]@.contains(f) && f != edge.faces@[0] && f != edge.faces@[1] ==> f == fs
    &&& topo.vert_faces@[v as int]@.contains(fs)
    &&& fs != edge.faces@[0]
    &&& fs != edge.faces@[1]
    &&& on_a_loop(topo.faces@[fs as int].loops@, v)
    &&& forall|k: int|
        0 <= k < topo.vert_edges@[v as int]@.len() && #[trigger] topo.vert_edges@[v as int]@[k] != e
            ==> topo.edges@[topo.vert_edges@[v as int]@[k] as int].faces@.contains(fs)
}

fn contains(list: &Vec<usize>, x: usize) -> (yes: bool)
    ensures
        yes == list@.contains(x),
{
    let mut k: usize = 0;
    while k < list.len()
        invariant
            k <= list@.len(),
            forall|j: int| 0 <= j < k ==> #[trigger] list@[j] != x,
        decreases list@.len() - k,
    {
        if list[k] == x {
            return true;
        }
        k = k + 1;
    }
    false
}

fn some_loop_passes(loops: &Vec<Vec<usize>>, v: usize) -> (yes: bool)
    ensures
        yes == on_a_loop(loops@, v),
{
    let mut l: usize = 0;
    while l < loops.len()
        invariant
            l <= loops@.len(),
            forall|j: int| 0 <= j < l ==> !(#[trigger] loops@[j])@.contains(v),
        decreases loops@.len() - l,
    {
        if contains(&loops[l], v) {
            return true;
        }
        l = l + 1;
    }
    false
}

/// The edge and the face of a fillet that ends squarely at `v`, if one does.
#[verifier::loop_isolation(false)]
pub fn terminal_splice(topo: &Topo, selected: &Vec<bool>, v: usize) -> (found: Option<(usize, usize)>)
    requires
        marks(*topo, selected@),
        v < topo.verts,
    ensures
        found matches Some(r) ==> ends_against(*topo, selected@, v, r.0, r.1),
        found is None ==> forall|e: usize, fs: usize| !#[trigger] ends_against(*topo, selected@, v, e, fs),
{
    let sel: Vec<usize> = selected_at(topo, selected, v);
    if sel.len() != 1 {
        return None;
    }
    let e: usize = sel[0];
    assert(sel@ =~= seq![e]);
    assert forall|d: usize, fs: usize| #[trigger] ends_against(*topo, selected@, v, d, fs) implies d == e by {
        assert(seq![d][0] == d && sel@[0] == e);
    }
    let edge: &TopoEdge = &topo.edges[e];
    if edge.faces.len() != 2 {
        return None;
    }
    let (fa, fb) = (edge.faces[0], edge.faces[1]);
    let around: &Vec<usize> = &topo.vert_faces[v];
    let mut other: Option<usize> = None;
    let mut k: usize = 0;
    while k < around.len()
        invariant
            k <= around@.len(),
            other is None ==> forall|j: int| 0 <= j < k ==> #[trigger] around@[j] == fa || around@[j] == fb,
            other matches Some(f) ==> {
                &&& f != fa
                &&& f != fb
                &&& around@.contains(f)
                &&& forall|j: int| 0 <= j < k ==> #[trigger] around@[j] == fa || around@[j] == fb || around@[j] == f
            },
        decreases around@.len() - k,
    {
        let f: usize = around[k];
        if f != fa && f != fb {
            match other {
                None => {
                    other = Some(f);
                },
                Some(g) => {
                    if g != f {
                        assert forall|d: usize, fs: usize| !#[trigger] ends_against(*topo, selected@, v, d, fs) by {
                            assert(around@.contains(f) && around@.contains(g));
                        }
                        return None;
                    }
                },
            }
        }
        k = k + 1;
    }
    match other {
        None => {
            assert forall|d: usize, fs: usize| !#[trigger] ends_against(*topo, selected@, v, d, fs) by {
                if around@.contains(fs) {
                    let j = choose|j: int| 0 <= j < around@.len() && around@[j] == fs;
                }
            }
            None
        },
        Some(fs) => {
            assert forall|d: usize, g: usize| #[trigger] ends_against(*topo, selected@, v, d, g) implies d == e && g == fs by {
                assert(around@.contains(fs));
            }
            let j0 = Ghost(choose|j: int| 0 <= j < around@.len() && around@[j] == fs);
            assert(topo.vert_faces@[v as int]@[j0@] < topo.faces@.len());
            if !some_loop_passes(&topo.faces[fs].loops, v) {
                return None;
            }
            let star: &Vec<usize> = &topo.vert_edges[v];
            let mut m: usize = 0;
            while m < star.len()
                invariant
                    m <= star@.len(),
                    forall|j: int|
                        0 <= j < m && #[trigger] star@[j] != e ==> topo.edges@[star@[j] as int].faces@.contains(fs),
                decreases star@.len() - m,
            {
                let d: usize = star[m];
                assert(topo.vert_edges@[v as int]@[m as int] < topo.edges@.len());
                if d != e && !contains(&topo.edges[d].faces, fs) {
                    return None;
                }
                m = m + 1;
            }
            assert forall|f: usize| #[trigger] around@.contains(f) && f != fa && f != fb implies f == fs by {
                let j = choose|j: int| 0 <= j < around@.len() && around@[j] == f;
            }
            Some((e, fs))
        },
    }
}

/// The two selected edges of a corner where exactly two meet.
pub fn weld_pair(topo: &Topo, selected: &Vec<bool>, v: usize) -> (found: Option<(usize, usize)>)
    requires
        marks(*topo, selected@),
        v < topo.verts,
    ensures
        found is Some <==> chosen(topo.vert_edges@[v as int]@, selected@).len() == 2,
        found matches Some(r) ==> chosen(topo.vert_edges@[v as int]@, selected@) == seq![r.0, r.1],
{
    let sel: Vec<usize> = selected_at(topo, selected, v);
    if sel.len() == 2 {
        assert(sel@ =~= seq![sel@[0], sel@[1]]);
        Some((sel[0], sel[1]))
    } else {
        None
    }
}

/// A point on the outline of a notched face.
#[derive(Clone, Copy, PartialEq, Eq, Structural, Debug)]
pub enum Spot {
    /// The face's own inset corner at a vertex.
    Corner(usize),
    /// A point of the arc that ends at a vertex, by its place on the arc.
    Arc(usize, usize),
}

/// The arc of `seg` pieces that replaces a corner, in its own order or backwards.
pub open spec fn arc_spots(v: usize, seg: int, forward: bool) -> Seq<Spot> {
    Seq::new((seg + 1) as nat, |j: int| Spot::Arc(v, if forward { j as usize } else { (seg - j) as usize }))
}

/// What stands for vertex `v` on the outline of face `f`.
pub open spec fn spots_at(v: usize, f: usize, splice: Seq<Option<usize>>, forward: Seq<bool>, seg: int) -> Seq<Spot> {
    if splice[v as int] == Some(f) {
        arc_spots(v, seg, forward[v as int])
    } else {
        seq![Spot::Corner(v)]
    }
}

/// The outline of face `f` along a loop, with the arcs spliced in.
pub open spec fn outline(lp: Seq<usize>, f: usize, splice: Seq<Option<usize>>, forward: Seq<bool>, seg: int) -> Seq<Spot>
    decreases lp.len(),
{
    if lp.len() == 0 {
        Seq::empty()
    } else {
        outline(lp.drop_last(), f, splice, forward, seg) + spots_at(lp.last(), f, splice, forward, seg)
    }
}

/// Walk a loop of face `f` and replace each vertex where a fillet ends against that face by the
/// arc of the fillet. `splice` gives the face of each such vertex, `forward` whether its arc runs
/// the way the loop does.
#[verifier::loop_isolation(false)]
pub fn spliced_loop(lp: &Vec<usize>, f: usize, splice: &Vec<Option<usize>>, forward: &Vec<bool>, seg: usize) -> (out: Vec<Spot>)
    requires
        splice@.len() == forward@.len(),
        seg < usize::MAX,
        forall|k: int| 0 <= k < lp@.len() ==> (#[trigger] lp@[k]) < splice@.len(),
    ensures
        out@ == outline(lp@, f, splice@, forward@, seg as int),
{
    let mut out: Vec<Spot> = Vec::new();
    let mut k: usize = 0;
    assert(lp@.take(0) =~= Seq::<usize>::empty());
    while k < lp.len()
        invariant
            k <= lp@.len(),
            out@ == outline(lp@.take(k as int), f, splice@, forward@, seg as int),
        decreases lp@.len() - k,
    {
        let v: usize = lp[k];
        assert(lp@.take(k + 1).drop_last() =~= lp@.take(k as int));
        let ghost out0 = out@;
        let spliced: bool = match splice[v] {
            Some(g) => g == f,
            None => false,
        };
        if spliced {
            let ahead: bool = forward[v];
            let mut j: usize = 0;
            while j <= seg
                invariant
                    j <= seg + 1,
                    out@ == out0 + arc_spots(v, seg as int, ahead).take(j as int),
                decreases seg + 1 - j,
            {
                out.push(Spot::Arc(v, if ahead { j } else { seg - j }));
                assert(out@ =~= out0 + arc_spots(v, seg as int, ahead).take(j + 1));
                j = j + 1;
            }
            assert(arc_spots(v, seg as int, ahead).take(j as int) =~= arc_spots(v, seg as int, ahead));
        } else {
            out.push(Spot::Corner(v));
            assert(out@ =~= out0 + seq![Spot::Corner(v)]);
        }
        k = k + 1;
    }
    assert(lp@.take(k as int) =~= lp@);
    out
}

/// Does some loop of face `f` pass a vertex where a fillet ends against it?
pub fn has_splice(loops: &Vec<Vec<usize>>, f: usize, splice: &Vec<Option<usize>>) -> (yes: bool)
    requires
        forall|l: int, k: int| 0 <= l < loops@.len() && 0 <= k < loops@[l]@.len() ==> (#[trigger] loops@[l]@[k]) < splice@.len(),
    ensures
        yes == exists|l: int, k: int|
            0 <= l < loops@.len() && 0 <= k < loops@[l]@.len() && splice@[#[trigger] loops@[l]@[k] as int] == Some(f),
{
    let mut l: usize = 0;
    while l < loops.len()
        invariant
            l <= loops@.len(),
            forall|l: int, k: int| 0 <= l < loops@.len() && 0 <= k < loops@[l]@.len() ==> (#[trigger] loops@[l]@[k]) < splice@.len(),
            forall|m: int, k: int| 0 <= m < l && 0 <= k < loops@[m]@.len() ==> splice@[#[trigger] loops@[m]@[k] as int] != Some(f),
        decreases loops@.len() - l,
    {
        let mut k: usize = 0;
        while k < loops[l].len()
            invariant
                l < loops@.len(),
                k <= loops@[l as int]@.len(),
                forall|l: int, k: int|
                    0 <= l < loops@.len() && 0 <= k < loops@[l]@.len() ==> (#[trigger] loops@[l]@[k]) < splice@.len(),
                forall|j: int| 0 <= j < k ==> splice@[#[trigger] loops@[l as int]@[j] as int] != Some(f),
            decreases loops@[l as int]@.len() - k,
        {
            let v: usize = loops[l][k];
            assert(loops@[l as int]@[k as int] == v);
            match splice[v] {
                Some(g) => {
                    if g == f {
                        return true;
                    }
                },
                None => {},
            }
            k = k + 1;
        }
        l = l + 1;
    }
    false
}

/// The faces whose corners form the two sides of a sharp edge at one of its ends. Where the notch of
/// an ending fillet has rebuilt one of the two faces there, its outline already runs through the
/// other face's corner, and both sides are that corner.
pub open spec fn wedge_side(splice: Option<usize>, f1: usize, f2: usize) -> (usize, usize) {
    if splice == Some(f1) {
        (f2, f2)
    } else if splice == Some(f2) {
        (f1, f1)
    } else {
        (f1, f2)
    }
}

/// The two faces to take the corners of a sharp edge's end from.
pub fn wedge_faces(splice: Option<usize>, f1: usize, f2: usize) -> (r: (usize, usize))
    ensures
        r == wedge_side(splice, f1, f2),
{
    match splice {
        Some(g) => {
            if g == f1 {
                (f2, f2)
            } else if g == f2 {
                (f1, f1)
            } else {
                (f1, f2)
            }
        },
        None => (f1, f2),
    }
}

/// One end of an arc lies on face `f`.
pub open spec fn arc_touches(arc: (usize, usize), f: usize) -> bool {
    arc.0 == f || arc.1 == f
}

/// The face at which a step along an arc starts: its first face when walked forwards.
pub open spec fn entry(arcs: Seq<(usize, usize)>, step: (usize, bool)) -> usize {
    if step.1 {
        arcs[step.0 as int].0
    } else {
        arcs[step.0 as int].1
    }
}

/// The face that a step along an arc leads to.
pub open spec fn exit(arcs: Seq<(usize, usize)>, step: (usize, bool)) -> usize {
    if step.1 {
        arcs[step.0 as int].1
    } else {
        arcs[step.0 as int].0
    }
}

/// The face that the first `k` steps have led to, from the first face of the first arc.
pub open spec fn reached(arcs: Seq<(usize, usize)>, order: Seq<(usize, bool)>, k: int) -> usize {
    if k <= 0 {
        arcs[0].0
    } else {
        exit(arcs, order[k - 1])
    }
}

/// Arc `i` is among the first `k` steps.
pub open spec fn taken(order: Seq<(usize, bool)>, k: int, i: int) -> bool {
    exists|j: int| 0 <= j < k && (#[trigger] order[j]).0 == i
}

/// Step `k` takes the first free arc at the face reached, forwards where the arc starts there.
pub open spec fn is_greedy_step(arcs: Seq<(usize, usize)>, order: Seq<(usize, bool)>, k: int) -> bool {
    let i = order[k].0 as int;
    let cur = reached(arcs, order, k);
    &&& 0 <= i < arcs.len()
    &&& !taken(order, k, i)
    &&& arc_touches(arcs[i], cur)
    &&& forall|j: int| 0 <= j < i && !taken(order, k, j) ==> !arc_touches(#[trigger] arcs[j], cur)
    &&& order[k].1 == (arcs[i].0 == cur)
}

/// Every step is the greedy one.
pub open spec fn is_greedy(arcs: Seq<(usize, usize)>, order: Seq<(usize, bool)>) -> bool {
    forall|k: int| 0 <= k < order.len() ==> #[trigger] is_greedy_step(arcs, order, k)
}

/// The greedy walk has no way on.
pub open spec fn stuck(arcs: Seq<(usize, usize)>, order: Seq<(usize, bool)>) -> bool {
    let n = order.len() as int;
    forall|j: int| 0 <= j < arcs.len() && !taken(order, n, j) ==> !arc_touches(#[trigger] arcs[j], reached(arcs, order, n))
}

/// `order` is the walk of all arcs, face to face and back to the start.
pub open spec fn closes(arcs: Seq<(usize, usize)>, order: Seq<(usize, bool)>) -> bool {
    &&& is_greedy(arcs, order)
    &&& order.len() == arcs.len()
    &&& reached(arcs, order, order.len() as int) == arcs[0].0
}

/// The walk gets stuck, or ends on another face than it started from.
pub open spec fn fails(arcs: Seq<(usize, usize)>, order: Seq<(usize, bool)>) -> bool {
    &&& is_greedy(arcs, order)
    &&& order.len() <= arcs.len()
    &&& if order.len() < arcs.len() {
        stuck(arcs, order)
    } else {
        reached(arcs, order, order.len() as int) != arcs[0].0
    }
}

/// Chain the arcs around a corner face to face into one closed ring: the order in which to take
/// them, and for each whether it is walked forwards.
#[verifier::loop_isolation(false)]
pub fn chain_arcs(arcs: &Vec<(usize, usize)>) -> (found: Option<Vec<(usize, bool)>>)
    requires
        arcs@.len() >= 1,
    ensures
        found matches Some(order) ==> closes(arcs@, order@),
        found is None ==> exists|order: Seq<(usize, bool)>| #[trigger] fails(arcs@, order),
{
    let n: usize = arcs.len();
    let start: usize = arcs[0].0;
    let mut used: Vec<bool> = vec![false; n];
    let mut order: Vec<(usize, bool)> = Vec::new();
    let mut cur: usize = start;
    let mut k: usize = 0;
    while k < n
        invariant
            k <= n,
            used@.len() == n,
            order@.len() == k,
            is_greedy(arcs@, order@),
            cur == reached(arcs@, order@, k as int),
            forall|i: int| 0 <= i < n ==> (#[trigger] used@[i] <==> taken(order@, k as int, i)),
        decreases n - k,
    {
        let mut i: usize = 0;
        while i < n && (used[i] || !(arcs[i].0 == cur || arcs[i].1 == cur))
            invariant
                i <= n,
                forall|j: int| 0 <= j < i && !used@[j] ==> !arc_touches(#[trigger] arcs@[j], cur),
            decreases n - i,
        {
            i = i + 1;
        }
        if i == n {
            proof {
                assert forall|j: int| 0 <= j < arcs@.len() && !taken(order@, k as int, j) implies !arc_touches(#[trigger] arcs@[j], cur) by {
                    assert(!used@[j]);
                }
                assert(fails(arcs@, order@));
            }
            return None;
        }
        let forward: bool = arcs[i].0 == cur;
        let ghost order0 = order@;
        let ghost used0 = used@;
        used.set(i, true);
        order.push((i, forward));
        proof {
            greedy_prefix(arcs@, order0, order@);
            assert forall|j: int| 0 <= j < n implies (taken(order@, k as int, j) <==> taken(order0, k as int, j)) by {
                taken_prefix(order0, order@, k as int, j);
            }
            assert(is_greedy_step(arcs@, order@, k as int)) by {
                assert(!used0[i as int]);
                assert forall|j: int| 0 <= j < i && !taken(order@, k as int, j) implies !arc_touches(#[trigger] arcs@[j], cur) by {
                    assert(!used0[j]);
                }
                assert(reached(arcs@, order@, k as int) == reached(arcs@, order0, k as int));
            }
            assert forall|j: int| 0 <= j < n implies (#[trigger] used@[j] <==> taken(order@, k + 1, j)) by {
                if j == i {
                    assert(order@[k as int].0 == j);
                } else {
                    assert(used@[j] == used0[j]);
                    if taken(order@, k + 1, j) {
                        let m = choose|m: int| 0 <= m < k + 1 && (#[trigger] order@[m]).0 == j;
                        assert(order0[m].0 == j);
                    }
                    if taken(order0, k as int, j) {
                        let m = choose|m: int| 0 <= m < k && (#[trigger] order0[m]).0 == j;
                        assert(order@[m].0 == j);
                    }
                }
            }
        }
        cur = if forward {
            arcs[i].1
        } else {
            arcs[i].0
        };
        k = k + 1;
    }
    if cur != start {
        assert(fails(arcs@, order@));
        return None;
    }
    Some(order)
}

proof fn taken_prefix(short: Seq<(usize, bool)>, long: Seq<(usize, bool)>, k: int, i: int)
    requires
        0 <= k <= short.len() <= long.len(),
        forall|j: int| 0 <= j < short.len() ==> #[trigger] long[j] == short[j],
    ensures
        taken(long, k, i) <==> taken(short, k, i),
{
    if taken(long, k, i) {
        let j = choose|j: int| 0 <= j < k && (#[trigger] long[j]).0 == i;
        assert(short[j].0 == i);
    }
    if taken(short, k, i) {
        let j = choose|j: int| 0 <= j < k && (#[trigger] short[j]).0 == i;
        assert(long[j].0 == i);
    }
}

proof fn greedy_prefix(arcs: Seq<(usize, usize)>, short: Seq<(usize, bool)>, long: Seq<(usize, bool)>)
    requires
        is_greedy(arcs, short),
        short.len() <= long.len(),
        forall|j: int| 0 <= j < short.len() ==> #[trigger] long[j] == short[j],
    ensures
        forall|k: int| 0 <= k < short.len() ==> #[trigger] is_greedy_step(arcs, long, k),
{
    assert forall|k: int| 0 <= k < short.len() implies #[trigger] is_greedy_step(arcs, long, k) by {
        assert(is_greedy_step(arcs, short, k));
        assert(long[k] == short[k]);
        if k > 0 {
            assert(long[k - 1] == short[k - 1]);
        }
        taken_prefix(short, long, k, long[k].0 as int);
        assert forall|j: int| 0 <= j < long[k].0 && !taken(long, k, j) implies !arc_touches(#[trigger] arcs[j], reached(arcs, long, k)) by {
            taken_prefix(short, long, k, j);
        }
    }
}

/// A greedy walk is determined step by step.
proof fn greedy_unique(arcs: Seq<(usize, usize)>, a: Seq<(usize, bool)>, b: Seq<(usize, bool)>, n: int)
    requires
        is_greedy(arcs, a),
        is_greedy(arcs, b),
        0 <= n <= a.len(),
        n <= b.len(),
    ensures
        forall|k: int| 0 <= k < n ==> #[trigger] a[k] == b[k],
    decreases n,
{
    if n > 0 {
        greedy_unique(arcs, a, b, n - 1);
        let k = n - 1;
        assert(is_greedy_step(arcs, a, k) && is_greedy_step(arcs, b, k));
        let (i, j) = (a[k].0 as int, b[k].0 as int);
        if k > 0 {
            assert(a[k - 1] == b[k - 1]);
        }
        let (sa, sb) = (a.take(k), b.take(k));
        assert(sa =~= sb) by {
            assert forall|m: int| 0 <= m < k implies sa[m] == sb[m] by {
                assert(a[m] == b[m]);
            }
        }
        taken_prefix(sa, a, k, i);
        taken_prefix(sa, a, k, j);
        taken_prefix(sb, b, k, i);
        taken_prefix(sb, b, k, j);
        if i < j {
            assert(!arc_touches(arcs[i], reached(arcs, b, k)));
        }
        if j < i {
            assert(!arc_touches(arcs[j], reached(arcs, a, k)));
        }
    }
}

/// The ring either closes or fails, never both; where it closes, its arcs follow each other face to
/// face and each is walked exactly once.
pub proof fn rings_close_or_fail(arcs: Seq<(usize, usize)>, a: Seq<(usize, bool)>, b: Seq<(usize, bool)>)
    requires
        closes(arcs, a),
        arcs.len() >= 1,
    ensures
        !fails(arcs, b),
        forall|k: int| 0 <= k < a.len() ==> entry(arcs, #[trigger] a[k]) == reached(arcs, a, k),
        forall|j: int, k: int| 0 <= j < k < a.len() ==> (#[trigger] a[j]).0 != (#[trigger] a[k]).0,
        closes(arcs, b) ==> a == b,
{
    assert forall|k: int| 0 <= k < a.len() implies entry(arcs, #[trigger] a[k]) == reached(arcs, a, k) by {
        assert(is_greedy_step(arcs, a, k));
    }
    assert forall|j: int, k: int| 0 <= j < k < a.len() implies (#[trigger] a[j]).0 != (#[trigger] a[k]).0 by {
        assert(is_greedy_step(arcs, a, k));
        if a[j].0 == a[k].0 {
            assert(taken(a, k, a[k].0 as int));
        }
    }
    if fails(arcs, b) {
        let n = b.len() as int;
        greedy_unique(arcs, a, b, n);
        if n > 0 {
            assert(a[n - 1] == b[n - 1]);
        }
        if n < arcs.len() {
            assert(is_greedy_step(arcs, a, n));
            let i = a[n].0 as int;
            assert(b =~= a.take(n));
            taken_prefix(b, a, n, i);
        } else {
            assert(a =~= b);
        }
    }
    if closes(arcs, b) {
        greedy_unique(arcs, a, b, a.len() as int);
        assert(a =~= b);
    }
}

/// What is chosen are the selected edges, in the order of the star.
pub proof fn chosen_are_the_selected(star: Seq<usize>, selected: Seq<bool>)
    ensures
        chosen(star, selected) == star.filter(|e: usize| selected[e as int]),
    decreases star.len(),
{
    reveal(Seq::filter);
    if star.len() > 0 {
        chosen_are_the_selected(star.drop_last(), selected);
    }
}

/// Going round a notched face, each vertex of the loop is passed once and in order: as itself, or
/// where a fillet ends against this face by every place of the arc, rising or falling as the arc runs.
#[verifier::spinoff_prover]
#[verifier::rlimit(50)]
pub proof fn outlines_pass_every_vertex(lp: Seq<usize>, f: usize, splice: Seq<Option<usize>>, forward: Seq<bool>, seg: int)
    ensures
        outline(lp, f, splice, forward, seg) == lp.map_values(
            |v: usize|
                if splice[v as int] != Some(f) {
                    seq![Spot::Corner(v)]
                } else if forward[v as int] {
                    Seq::new((seg + 1) as nat, |j: int| Spot::Arc(v, j as usize))
                } else {
                    Seq::new((seg + 1) as nat, |j: int| Spot::Arc(v, (seg - j) as usize))
                },
        ).flatten(),
    decreases lp.len(),
{
    let g = |v: usize|
        if splice[v as int] != Some(f) {
            seq![Spot::Corner(v)]
        } else if forward[v as int] {
            Seq::new((seg + 1) as nat, |j: int| Spot::Arc(v, j as usize))
        } else {
            Seq::new((seg + 1) as nat, |j: int| Spot::Arc(v, (seg - j) as usize))
        };
    if lp.len() > 0 {
        let v = lp.last();
        outlines_pass_every_vertex(lp.drop_last(), f, splice, forward, seg);
        assert(lp.map_values(g) =~= lp.drop_last().map_values(g).push(g(v)));
        lp.drop_last().map_values(g).lemma_flatten_push(g(v));
        assert(spots_at(v, f, splice, forward, seg) =~= g(v));
    } else {
        assert(lp.map_values(g) =~= Seq::<Seq<Spot>>::empty());
    }
}

/// The two sides of a sharp edge's end are the two faces, in order; a face that was notched there
/// gives no side, and the other takes its place. Which face is named first does not matter.
pub proof fn wedges_avoid_notches(splice: Option<usize>, f1: usize, f2: usize)
    requires
        f1 != f2,
    ensures
        ({
            let w = wedge_side(splice, f1, f2);
            &&& w.0 == f1 || w.0 == f2
            &&& w.1 == f1 || w.1 == f2
            &&& splice != Some(w.0) && splice != Some(w.1)
            &&& splice != Some(f1) ==> w.0 == f1
            &&& splice != Some(f2) ==> w.1 == f2
            &&& wedge_side(splice, f2, f1) == (w.1, w.0)
        }),
{
}

/// In a closed ring of arcs each arc starts at the face that the one before it leads to, the first at
/// the face of the last, and every arc is walked.
pub proof fn rings_run_face_to_face(arcs: Seq<(usize, usize)>, order: Seq<(usize, bool)>)
    requires
        closes(arcs, order),
        arcs.len() >= 1,
    ensures
        order.len() == arcs.len(),
        forall|k: int| 0 <= k < order.len() ==> (#[trigger] order[k]).0 < arcs.len(),
        forall|j: int, k: int| 0 <= j < k < order.len() ==> (#[trigger] order[j]).0 != (#[trigger] order[k]).0,
        forall|j: int, k: int|
            0 <= j < order.len() && 0 <= k < order.len() && (k == j + 1 || j == order.len() - 1 && k == 0) ==> {
                let (p, q) = (arcs[(#[trigger] order[j]).0 as int], arcs[(#[trigger] order[k]).0 as int]);
                (if order[j].1 {
                    p.1
                } else {
                    p.0
                }) == (if order[k].1 {
                    q.0
                } else {
                    q.1
                })
            },
{
    rings_close_or_fail(arcs, order, order);
    assert forall|k: int| 0 <= k < order.len() implies (#[trigger] order[k]).0 < arcs.len() by {
        assert(is_greedy_step(arcs, order, k));
    }
    assert forall|j: int, k: int|
        0 <= j < order.len() && 0 <= k < order.len() && (k == j + 1 || j == order.len() - 1 && k == 0) implies ({
        let (p, q) = (arcs[(#[trigger] order[j]).0 as int], arcs[(#[trigger] order[k]).0 as int]);
        (if order[j].1 {
            p.1
        } else {
            p.0
        }) == (if order[k].1 {
            q.0
        } else {
            q.1
        })
    }) by {
        assert(entry(arcs, order[k]) == reached(arcs, order, k));
    }
}

} // verus!
