//! Putting a bevelled body together: which pieces it is made of, and the rims of its corner patches.

use vstd::prelude::*;

use crate::patterns::{after, next};
use crate::surgery::{chain_arcs, chosen, chosen_are_the_selected, closes, fails, has_splice, marks, selected_at, wedge_faces, wedge_side};
use crate::topo::{joins, loops_in_range, Topo};

verus! {

/// A piece of the bevelled body.
#[derive(Clone, Copy, Debug)]
pub enum Piece {
    /// A flat face, its corners moved in; cut anew where a fillet ends against it.
    Face { face: usize, notched: bool },
    /// The rounded strip along a selected edge.
    Strip { edge: usize },
    /// What closes the gap between the two faces at a sharp edge: for each end the faces to take
    /// the two corners from.
    Wedge { edge: usize, a: (usize, usize), b: (usize, usize) },
    /// The patch over a corner.
    Patch { vertex: usize },
}

/// A fillet ends against face `f` somewhere on these loops.
pub open spec fn notch(loops: Seq<Vec<usize>>, f: usize, splice: Seq<Option<usize>>) -> bool {
    exists|l: int, k: int| 0 <= l < loops.len() && 0 <= k < loops[l]@.len() && splice[#[trigger] loops[l]@[k] as int] == Some(f)
}

pub open spec fn face_pieces(topo: Topo, splice: Seq<Option<usize>>, n: int) -> Seq<Piece>
    decreases n,
{
    if n <= 0 {
        Seq::empty()
    } else {
        let face = (n - 1) as usize;
        face_pieces(topo, splice, n - 1).push(Piece::Face { face, notched: notch(topo.faces@[n - 1].loops@, face, splice) })
    }
}

pub open spec fn strip_pieces(selected: Seq<bool>, ringed: Seq<bool>, n: int) -> Seq<Piece>
    decreases n,
{
    if n <= 0 {
        Seq::empty()
    } else if selected[n - 1] && ringed[n - 1] {
        strip_pieces(selected, ringed, n - 1).push(Piece::Strip { edge: (n - 1) as usize })
    } else {
        strip_pieces(selected, ringed, n - 1)
    }
}

/// The wedge at a sharp edge.
pub open spec fn wedge_of(topo: Topo, splice: Seq<Option<usize>>, e: int) -> Piece {
    let edge = topo.edges@[e];
    let (f1, f2) = (edge.faces@[0], edge.faces@[1]);
    Piece::Wedge {
        edge: e as usize,
        a: wedge_side(splice[edge.a as int], f1, f2),
        b: wedge_side(splice[edge.b as int], f1, f2),
    }
}

pub open spec fn wedge_pieces(topo: Topo, selected: Seq<bool>, splice: Seq<Option<usize>>, gaps: Seq<bool>, n: int) -> Seq<Piece>
    decreases n,
{
    if n <= 0 {
        Seq::empty()
    } else if !selected[n - 1] && topo.edges@[n - 1].faces@.len() == 2 && gaps[n - 1] {
        wedge_pieces(topo, selected, splice, gaps, n - 1).push(wedge_of(topo, splice, n - 1))
    } else {
        wedge_pieces(topo, selected, splice, gaps, n - 1)
    }
}

/// The corner needs a patch: a selected edge meets it, and neither does the fillet there end
/// against a face nor do two strips meet in one arc.
pub open spec fn is_patched(topo: Topo, selected: Seq<bool>, splice: Seq<Option<usize>>, welded: Seq<bool>, v: int) -> bool {
    chosen(topo.vert_edges@[v]@, selected).len() > 0 && splice[v] is None && !welded[v]
}

pub open spec fn patch_pieces(topo: Topo, selected: Seq<bool>, splice: Seq<Option<usize>>, welded: Seq<bool>, n: int) -> Seq<Piece>
    decreases n,
{
    if n <= 0 {
        Seq::empty()
    } else if is_patched(topo, selected, splice, welded, n - 1) {
        patch_pieces(topo, selected, splice, welded, n - 1).push(Piece::Patch { vertex: (n - 1) as usize })
    } else {
        patch_pieces(topo, selected, splice, welded, n - 1)
    }
}

/// Every vertex has its mark, every edge too, and the loops run over vertices.
pub open spec fn prepared(
    topo: Topo,
    selected: Seq<bool>,
    splice: Seq<Option<usize>>,
    welded: Seq<bool>,
    ringed: Seq<bool>,
    gaps: Seq<bool>,
) -> bool {
    &&& marks(topo, selected)
    &&& splice.len() == topo.verts
    &&& welded.len() == topo.verts
    &&& ringed.len() == topo.edges@.len()
    &&& gaps.len() == topo.edges@.len()
}

/// List the pieces of a bevelled body.
///
/// `splice` tells for each vertex the face that a fillet ends against there, `welded` where two
/// strips meet in one arc, `ringed` which edges have an arc at their ends, and `gaps` at which sharp
/// edges the two faces have moved apart.
#[verifier::loop_isolation(false)]
pub fn plan_surgery(
    topo: &Topo,
    selected: &Vec<bool>,
    splice: &Vec<Option<usize>>,
    welded: &Vec<bool>,
    ringed: &Vec<bool>,
    gaps: &Vec<bool>,
) -> (out: Vec<Piece>)
    requires
        prepared(*topo, selected@, splice@, welded@, ringed@, gaps@),
    ensures
        out@ == face_pieces(*topo, splice@, topo.faces@.len() as int) + strip_pieces(selected@, ringed@, topo.edges@.len() as int)
            + wedge_pieces(*topo, selected@, splice@, gaps@, topo.edges@.len() as int) + patch_pieces(
            *topo,
            selected@,
            splice@,
            welded@,
            topo.verts as int,
        ),
        forall|p: Piece| #[trigger] out@.contains(p) <==> belongs(p, *topo, selected@, splice@, welded@, ringed@, gaps@),
        forall|i: int, j: int| 0 <= i < j < out@.len() ==> piece_before(#[trigger] out@[i], #[trigger] out@[j]),
{
    let mut out: Vec<Piece> = Vec::new();
    let mut f: usize = 0;
    while f < topo.faces.len()
        invariant
            f <= topo.faces@.len(),
            out@ == face_pieces(*topo, splice@, f as int),
        decreases topo.faces@.len() - f,
    {
        assert forall|l: int, k: int| 0 <= l < topo.faces@[f as int].loops@.len() && 0 <= k < topo.faces@[f as int].loops@[l]@.len() implies (
        #[trigger] topo.faces@[f as int].loops@[l]@[k]) < splice@.len() by {
            assert(loops_in_range(topo.faces@[f as int].loops@, topo.verts as int));
        }
        let notched: bool = has_splice(&topo.faces[f].loops, f, splice);
        assert(notched == notch(topo.faces@[f as int].loops@, f, splice@));
        out.push(Piece::Face { face: f, notched });
        f = f + 1;
    }
    let ghost faces = out@;
    let n: usize = topo.edges.len();
    let mut e: usize = 0;
    assert(faces + strip_pieces(selected@, ringed@, 0) =~= faces);
    while e < n
        invariant
            e <= n,
            out@ == faces + strip_pieces(selected@, ringed@, e as int),
        decreases n - e,
    {
        if selected[e] && ringed[e] {
            out.push(Piece::Strip { edge: e });
            assert(out@ =~= faces + strip_pieces(selected@, ringed@, e + 1));
        }
        e = e + 1;
    }
    let ghost strips = out@;
    let mut w: usize = 0;
    assert(strips + wedge_pieces(*topo, selected@, splice@, gaps@, 0) =~= strips);
    while w < n
        invariant
            w <= n,
            out@ == strips + wedge_pieces(*topo, selected@, splice@, gaps@, w as int),
        decreases n - w,
    {
        if !selected[w] && topo.edges[w].faces.len() == 2 && gaps[w] {
            let (f1, f2): (usize, usize) = (topo.edges[w].faces[0], topo.edges[w].faces[1]);
            assert(topo.edges@[w as int].a < topo.edges@[w as int].b);
            let a: (usize, usize) = wedge_faces(splice[topo.edges[w].a], f1, f2);
            let b: (usize, usize) = wedge_faces(splice[topo.edges[w].b], f1, f2);
            out.push(Piece::Wedge { edge: w, a, b });
            assert(out@ =~= strips + wedge_pieces(*topo, selected@, splice@, gaps@, w + 1));
        }
        w = w + 1;
    }
    let ghost wedges = out@;
    let mut v: usize = 0;
    assert(wedges + patch_pieces(*topo, selected@, splice@, welded@, 0) =~= wedges);
    while v < topo.verts
        invariant
            v <= topo.verts,
            out@ == wedges + patch_pieces(*topo, selected@, splice@, welded@, v as int),
        decreases topo.verts - v,
    {
        let here: Vec<usize> = selected_at(topo, selected, v);
        if here.len() > 0 && splice[v].is_none() && !welded[v] {
            out.push(Piece::Patch { vertex: v });
            assert(out@ =~= wedges + patch_pieces(*topo, selected@, splice@, welded@, v + 1));
        }
        v = v + 1;
    }
    proof {
        assert(topo.faces.len() == topo.faces@.len() && topo.edges.len() == topo.edges@.len());
        every_piece_is_planned(*topo, selected@, splice@, welded@, ringed@, gaps@, out@);
    }
    out
}

// ---- corner patches ----

/// What an edge contributes to the rim of a corner patch: the faces it leads between, and whether it
/// is rounded there.
#[derive(Clone, Copy, Debug)]
pub struct RimArc {
    pub edge: usize,
    pub faces: (usize, usize),
    pub round: bool,
}

/// A point on the rim of a corner patch.
#[derive(Clone, Copy, Debug)]
pub enum RimSpot {
    /// On the arc at the end of a rounded edge.
    Arc { edge: usize, step: usize },
    /// The corner of a face.
    Corner { face: usize },
}

/// The arcs at a vertex: every edge there, except a selected one that has no arc.
pub open spec fn arcs_of(topo: Topo, selected: Seq<bool>, ringed: Seq<bool>, star: Seq<usize>) -> Seq<RimArc>
    decreases star.len(),
{
    if star.len() == 0 {
        Seq::empty()
    } else {
        let e = star.last();
        let rest = arcs_of(topo, selected, ringed, star.drop_last());
        if selected[e as int] && !ringed[e as int] {
            rest
        } else {
            let on = topo.edges@[e as int].faces@;
            rest.push(RimArc { edge: e, faces: (on[0], on[1]), round: selected[e as int] })
        }
    }
}

pub open spec fn faces_of_arcs(arcs: Seq<RimArc>) -> Seq<(usize, usize)> {
    Seq::new(arcs.len(), |i: int| arcs[i].faces)
}

/// The points of an arc, from its first face to its second or back.
pub open spec fn arc_points(arc: RimArc, seg: int, forward: bool) -> Seq<RimSpot> {
    if arc.round {
        Seq::new(
            (seg + 1) as nat,
            |j: int|
                RimSpot::Arc {
                    edge: arc.edge,
                    step: (if forward {
                        j
                    } else {
                        seg - j
                    }) as usize,
                },
        )
    } else if forward {
        seq![RimSpot::Corner { face: arc.faces.0 }, RimSpot::Corner { face: arc.faces.1 }]
    } else {
        seq![RimSpot::Corner { face: arc.faces.1 }, RimSpot::Corner { face: arc.faces.0 }]
    }
}

/// The points of the first `k` arcs of a walk, each without its first, which the one before it ends
/// in.
pub open spec fn walked_points(arcs: Seq<RimArc>, order: Seq<(usize, bool)>, seg: int, k: int) -> Seq<RimSpot>
    decreases k,
{
    if k <= 0 {
        Seq::empty()
    } else {
        let pts = arc_points(arcs[order[k - 1].0 as int], seg, order[k - 1].1);
        if k == 1 {
            pts
        } else {
            walked_points(arcs, order, seg, k - 1) + pts.drop_first()
        }
    }
}

/// List the arcs at a vertex.
#[verifier::loop_isolation(false)]
pub fn arcs_at(topo: &Topo, selected: &Vec<bool>, ringed: &Vec<bool>, v: usize) -> (arcs: Vec<RimArc>)
    requires
        marks(*topo, selected@),
        ringed@.len() == topo.edges@.len(),
        v < topo.verts,
    ensures
        arcs@ == arcs_of(*topo, selected@, ringed@, topo.vert_edges@[v as int]@),
{
    let star: &Vec<usize> = &topo.vert_edges[v];
    let mut arcs: Vec<RimArc> = Vec::new();
    let mut k: usize = 0;
    assert(star@.take(0) =~= Seq::<usize>::empty());
    while k < star.len()
        invariant
            k <= star@.len(),
            arcs@ == arcs_of(*topo, selected@, ringed@, star@.take(k as int)),
        decreases star@.len() - k,
    {
        assert(topo.vert_edges@[v as int]@[k as int] < topo.edges@.len());
        assert(star@.take(k + 1).drop_last() =~= star@.take(k as int));
        let e: usize = star[k];
        if !selected[e] || ringed[e] {
            assert(topo.edges@[e as int].faces@.len() >= 2);
            let on: &Vec<usize> = &topo.edges[e].faces;
            arcs.push(RimArc { edge: e, faces: (on[0], on[1]), round: selected[e] });
        }
        k = k + 1;
    }
    assert(star@.take(k as int) =~= star@);
    arcs
}

#[verifier::loop_isolation(false)]
fn put_arc(out: &mut Vec<RimSpot>, arc: RimArc, seg: usize, forward: bool, skip: bool)
    requires
        seg < usize::MAX,
    ensures
        final(out)@ == old(out)@ + if skip {
            arc_points(arc, seg as int, forward).drop_first()
        } else {
            arc_points(arc, seg as int, forward)
        },
{
    let ghost before = out@;
    let ghost pts = arc_points(arc, seg as int, forward);
    let start: usize = if skip {
        1
    } else {
        0
    };
    if arc.round {
        let mut j: usize = start;
        assert(before + pts.subrange(start as int, start as int) =~= before);
        while j <= seg
            invariant
                start <= j <= seg + 1,
                out@ == before + pts.subrange(start as int, j as int),
            decreases seg + 1 - j,
        {
            let step: usize = if forward {
                j
            } else {
                seg - j
            };
            out.push(RimSpot::Arc { edge: arc.edge, step });
            j = j + 1;
            assert(out@ =~= before + pts.subrange(start as int, j as int));
        }
        assert(pts.subrange(start as int, j as int) =~= if skip {
            pts.drop_first()
        } else {
            pts
        });
    } else {
        let (x, y): (usize, usize) = if forward {
            (arc.faces.0, arc.faces.1)
        } else {
            (arc.faces.1, arc.faces.0)
        };
        if !skip {
            out.push(RimSpot::Corner { face: x });
        }
        out.push(RimSpot::Corner { face: y });
        assert(out@ =~= before + if skip {
            pts.drop_first()
        } else {
            pts
        });
    }
}

/// The rim is that of the patch over a vertex: the arcs there, chained face to face into a ring.
pub open spec fn is_rim_of(rim: Seq<RimSpot>, arcs: Seq<RimArc>, order: Seq<(usize, bool)>, seg: int) -> bool {
    &&& closes(faces_of_arcs(arcs), order)
    &&& rim == walked_points(arcs, order, seg, order.len() as int).drop_last()
}

/// The rim is that of the patch over a corner with these arcs.
pub open spec fn is_rim(rim: Seq<RimSpot>, arcs: Seq<RimArc>, seg: int) -> bool {
    exists|order: Seq<(usize, bool)>| #[trigger] is_rim_of(rim, arcs, order, seg)
}

/// Find the rim of the patch over a corner. There is none with fewer than two arcs, or where they do
/// not chain into a ring.
#[verifier::loop_isolation(false)]
pub fn patch_rim(arcs: &Vec<RimArc>, seg: usize) -> (rim: Option<Vec<RimSpot>>)
    requires
        seg < usize::MAX,
    ensures
        rim matches Some(r) ==> arcs@.len() >= 2 && is_rim(r@, arcs@, seg as int),
        rim is None ==> arcs@.len() < 2 || exists|order: Seq<(usize, bool)>| #[trigger] fails(faces_of_arcs(arcs@), order),
{
    if arcs.len() < 2 {
        return None;
    }
    let mut pairs: Vec<(usize, usize)> = Vec::new();
    let mut i: usize = 0;
    while i < arcs.len()
        invariant
            i <= arcs@.len(),
            pairs@ == faces_of_arcs(arcs@).take(i as int),
        decreases arcs@.len() - i,
    {
        pairs.push(arcs[i].faces);
        i = i + 1;
        assert(pairs@ =~= faces_of_arcs(arcs@).take(i as int));
    }
    assert(pairs@ =~= faces_of_arcs(arcs@));
    match chain_arcs(&pairs) {
        None => None,
        Some(order) => {
            let mut out: Vec<RimSpot> = Vec::new();
            let mut k: usize = 0;
            while k < order.len()
                invariant
                    k <= order@.len(),
                    out@ == walked_points(arcs@, order@, seg as int, k as int),
                    k > 0 ==> out@.len() > 0,
                decreases order@.len() - k,
            {
                assert(crate::surgery::is_greedy_step(pairs@, order@, k as int));
                let (a, forward): (usize, bool) = order[k];
                put_arc(&mut out, arcs[a], seg, forward, k > 0);
                k = k + 1;
            }
            let ghost all = out@;
            out.pop();
            assert(out@ =~= all.drop_last());
            assert(is_rim_of(out@, arcs@, order@, seg as int));
            assert(is_rim(out@, arcs@, seg as int));
            Some(out)
        },
    }
}

/// The patch is a dome: every arc is rounded, and three faces meet.
pub fn is_domed(arcs: &Vec<RimArc>, faces: usize, seg: usize) -> (dome: bool)
    ensures
        dome == (faces == 3 && seg >= 2 && forall|i: int| 0 <= i < arcs@.len() ==> (#[trigger] arcs@[i]).round),
{
    let mut i: usize = 0;
    while i < arcs.len()
        invariant
            i <= arcs@.len(),
            forall|j: int| 0 <= j < i ==> (#[trigger] arcs@[j]).round,
        decreases arcs@.len() - i,
    {
        if !arcs[i].round {
            return false;
        }
        i = i + 1;
    }
    faces == 3 && seg >= 2
}

/// The rounded arcs among the first `n`.
pub open spec fn round_arcs(arcs: Seq<RimArc>, n: int) -> Seq<RimArc>
    decreases n,
{
    if n <= 0 {
        Seq::empty()
    } else if arcs[n - 1].round {
        round_arcs(arcs, n - 1).push(arcs[n - 1])
    } else {
        round_arcs(arcs, n - 1)
    }
}

/// The first face of `a` that `b` also leads to.
pub open spec fn face_in_common(a: (usize, usize), b: (usize, usize)) -> Option<usize> {
    if a.0 == b.0 || a.0 == b.1 {
        Some(a.0)
    } else if a.1 == b.0 || a.1 == b.1 {
        Some(a.1)
    } else {
        None
    }
}

/// The face whose corner the patch is fanned from: the one that exactly two rounded arcs share.
#[verifier::loop_isolation(false)]
pub fn apex_face(arcs: &Vec<RimArc>, seg: usize) -> (face: Option<usize>)
    ensures
        ({
            let full = round_arcs(arcs@, arcs@.len() as int);
            face == if seg >= 2 && full.len() == 2 {
                face_in_common(full[0].faces, full[1].faces)
            } else {
                None
            }
        }),
{
    let mut full: Vec<RimArc> = Vec::new();
    let mut i: usize = 0;
    while i < arcs.len()
        invariant
            i <= arcs@.len(),
            full@ == round_arcs(arcs@, i as int),
        decreases arcs@.len() - i,
    {
        if arcs[i].round {
            full.push(arcs[i]);
        }
        i = i + 1;
    }
    if seg < 2 || full.len() != 2 {
        return None;
    }
    let (a, b): ((usize, usize), (usize, usize)) = (full[0].faces, full[1].faces);
    if a.0 == b.0 || a.0 == b.1 {
        Some(a.0)
    } else if a.1 == b.0 || a.1 == b.1 {
        Some(a.1)
    } else {
        None
    }
}

// ---- sides of faces ----

/// The first edge between `a` and `b` is selected.
pub open spec fn side_selected(topo: Topo, selected: Seq<bool>, a: usize, b: usize) -> bool {
    let star = topo.vert_edges@[a as int]@;
    exists|k: int|
        0 <= k < star.len() && joins(topo.edges@[(#[trigger] star[k]) as int], a, b) && selected[star[k] as int] && forall|j: int|
            0 <= j < k ==> !joins(topo.edges@[#[trigger] star[j] as int], a, b)
}

/// The selected sides of the first `n` steps of a loop of face `f`.
pub open spec fn loop_sides(topo: Topo, selected: Seq<bool>, f: usize, lp: Seq<usize>, n: int) -> Seq<(usize, usize, usize)>
    decreases n,
{
    if n <= 0 {
        Seq::empty()
    } else {
        let (a, b) = (lp[n - 1], lp[after(n - 1, lp.len() as int)]);
        if side_selected(topo, selected, a, b) {
            loop_sides(topo, selected, f, lp, n - 1).push((f, a, b))
        } else {
            loop_sides(topo, selected, f, lp, n - 1)
        }
    }
}

/// The selected sides of the first `n` loops of face `f`.
pub open spec fn face_sides(topo: Topo, selected: Seq<bool>, f: usize, loops: Seq<Vec<usize>>, n: int) -> Seq<(usize, usize, usize)>
    decreases n,
{
    if n <= 0 {
        Seq::empty()
    } else {
        face_sides(topo, selected, f, loops, n - 1) + loop_sides(topo, selected, f, loops[n - 1]@, loops[n - 1]@.len() as int)
    }
}

/// The selected sides of the first `n` faces: face, from, to.
pub open spec fn feature_sides_of(topo: Topo, selected: Seq<bool>, n: int) -> Seq<(usize, usize, usize)>
    decreases n,
{
    if n <= 0 {
        Seq::empty()
    } else {
        feature_sides_of(topo, selected, n - 1) + face_sides(
            topo,
            selected,
            (n - 1) as usize,
            topo.faces@[n - 1].loops@,
            topo.faces@[n - 1].loops@.len() as int,
        )
    }
}

fn is_side_selected(topo: &Topo, selected: &Vec<bool>, a: usize, b: usize) -> (yes: bool)
    requires
        marks(*topo, selected@),
        a < topo.verts,
    ensures
        yes == side_selected(*topo, selected@, a, b),
{
    let ghost star = topo.vert_edges@[a as int]@;
    match topo.edge_between(a, b) {
        Some(e) => {
            proof {
                let k = choose|k: int|
                    0 <= k < star.len() && #[trigger] star[k] == e && joins(topo.edges@[e as int], a, b) && forall|j: int|
                        0 <= j < k ==> !joins(topo.edges@[#[trigger] star[j] as int], a, b);
                assert(topo.vert_edges@[a as int]@[k] < topo.edges@.len());
                if selected@[e as int] {
                    assert(joins(topo.edges@[star[k] as int], a, b) && selected@[star[k] as int]);
                }
                if side_selected(*topo, selected@, a, b) {
                    let m = choose|m: int|
                        0 <= m < star.len() && joins(topo.edges@[(#[trigger] star[m]) as int], a, b) && selected@[star[m] as int]
                            && forall|j: int| 0 <= j < m ==> !joins(topo.edges@[#[trigger] star[j] as int], a, b);
                    if m < k {
                        assert(!joins(topo.edges@[star[m] as int], a, b));
                    }
                    if k < m {
                        assert(!joins(topo.edges@[star[k] as int], a, b));
                    }
                }
            }
            selected[e]
        },
        None => {
            proof {
                if side_selected(*topo, selected@, a, b) {
                    let m = choose|m: int|
                        0 <= m < star.len() && joins(topo.edges@[(#[trigger] star[m]) as int], a, b) && selected@[star[m] as int]
                            && forall|j: int| 0 <= j < m ==> !joins(topo.edges@[#[trigger] star[j] as int], a, b);
                    assert(!joins(topo.edges@[topo.vert_edges@[a as int]@[m] as int], a, b));
                }
            }
            false
        },
    }
}

/// The sides of faces along selected edges, which stay visible on the bevelled body: one for each
/// face at each of them.
#[verifier::loop_isolation(false)]
pub fn feature_sides(topo: &Topo, selected: &Vec<bool>) -> (out: Vec<(usize, usize, usize)>)
    requires
        marks(*topo, selected@),
    ensures
        out@ == feature_sides_of(*topo, selected@, topo.faces@.len() as int),
{
    let mut out: Vec<(usize, usize, usize)> = Vec::new();
    let mut f: usize = 0;
    while f < topo.faces.len()
        invariant
            f <= topo.faces@.len(),
            out@ == feature_sides_of(*topo, selected@, f as int),
        decreases topo.faces@.len() - f,
    {
        let ghost before = out@;
        let loops: &Vec<Vec<usize>> = &topo.faces[f].loops;
        let mut l: usize = 0;
        assert(before + face_sides(*topo, selected@, f, loops@, 0) =~= before);
        while l < loops.len()
            invariant
                l <= loops@.len(),
                out@ == before + face_sides(*topo, selected@, f, loops@, l as int),
            decreases loops@.len() - l,
        {
            let ghost now = out@;
            let lp: &Vec<usize> = &loops[l];
            let m: usize = lp.len();
            let mut k: usize = 0;
            assert(now + loop_sides(*topo, selected@, f, lp@, 0) =~= now);
            while k < m
                invariant
                    k <= m,
                    out@ == now + loop_sides(*topo, selected@, f, lp@, k as int),
                decreases m - k,
            {
                let j: usize = next(k, m);
                assert(loops_in_range(topo.faces@[f as int].loops@, topo.verts as int));
                assert(topo.faces@[f as int].loops@[l as int]@[k as int] < topo.verts);
                let (a, b): (usize, usize) = (lp[k], lp[j]);
                if is_side_selected(topo, selected, a, b) {
                    out.push((f, a, b));
                    assert(out@ =~= now + loop_sides(*topo, selected@, f, lp@, k + 1));
                }
                k = k + 1;
            }
            l = l + 1;
            assert(out@ =~= before + face_sides(*topo, selected@, f, loops@, l as int));
        }
        f = f + 1;
    }
    out
}

/// The side `i` of loop `l` runs between `a` and `b`, one way or the other.
pub open spec fn side_between(loops: Seq<Vec<usize>>, l: int, i: int, a: usize, b: usize) -> bool {
    let lp = loops[l]@;
    let (x, y) = (lp[i], lp[after(i, lp.len() as int)]);
    (x == a && y == b) || (x == b && y == a)
}

/// Which way a face runs along an edge between `a` and `b`: the first side of its loops there.
#[verifier::loop_isolation(false)]
pub fn loop_dir(loops: &Vec<Vec<usize>>, a: usize, b: usize) -> (found: Option<(usize, usize)>)
    ensures
        found is None <==> forall|l: int, i: int| 0 <= l < loops@.len() && 0 <= i < loops@[l]@.len() ==> !#[trigger] side_between(loops@, l, i, a, b),
        found matches Some(s) ==> exists|l: int, i: int|
            0 <= l < loops@.len() && 0 <= i < loops@[l]@.len() && #[trigger] side_between(loops@, l, i, a, b) && is_first_side(loops@, l, i, a, b)
                && s == (loops@[l]@[i], loops@[l]@[after(i, loops@[l]@.len() as int)]),
{
    let mut l: usize = 0;
    while l < loops.len()
        invariant
            l <= loops@.len(),
            forall|m: int, i: int| 0 <= m < l && 0 <= i < loops@[m]@.len() ==> !#[trigger] side_between(loops@, m, i, a, b),
        decreases loops@.len() - l,
    {
        let lp: &Vec<usize> = &loops[l];
        let n: usize = lp.len();
        let mut i: usize = 0;
        while i < n
            invariant
                i <= n,
                forall|j: int| 0 <= j < i ==> !#[trigger] side_between(loops@, l as int, j, a, b),
            decreases n - i,
        {
            let j: usize = next(i, n);
            let (x, y): (usize, usize) = (lp[i], lp[j]);
            if (x == a && y == b) || (x == b && y == a) {
                assert(side_between(loops@, l as int, i as int, a, b));
                assert(is_first_side(loops@, l as int, i as int, a, b));
                return Some((x, y));
            }
            assert(!side_between(loops@, l as int, i as int, a, b));
            i = i + 1;
        }
        l = l + 1;
    }
    None
}

/// No side before it runs there.
pub open spec fn is_first_side(loops: Seq<Vec<usize>>, l: int, i: int, a: usize, b: usize) -> bool {
    &&& forall|m: int, j: int| 0 <= m < l && 0 <= j < loops[m]@.len() ==> !#[trigger] side_between(loops, m, j, a, b)
    &&& forall|j: int| 0 <= j < i ==> !#[trigger] side_between(loops, l, j, a, b)
}

// ---- what the pieces and rims hold ----

/// The bevelled body has this piece: every face, notched where a fillet ends against it; a strip for
/// every selected edge that has an arc; a wedge for every sharp edge between two faces that have moved
/// apart; and a patch for every corner that a selected edge meets, unless the fillet ends there
/// against a face or two strips meet in one arc.
pub open spec fn belongs(
    p: Piece,
    topo: Topo,
    selected: Seq<bool>,
    splice: Seq<Option<usize>>,
    welded: Seq<bool>,
    ringed: Seq<bool>,
    gaps: Seq<bool>,
) -> bool {
    match p {
        Piece::Face { face, notched } => {
            &&& face < topo.faces@.len()
            &&& notched == exists|l: int, k: int|
                0 <= l < topo.faces@[face as int].loops@.len() && 0 <= k < topo.faces@[face as int].loops@[l]@.len() && splice[
                    #[trigger] topo.faces@[face as int].loops@[l]@[k] as int] == Some(face)
        },
        Piece::Strip { edge } => edge < topo.edges@.len() && selected[edge as int] && ringed[edge as int],
        Piece::Wedge { edge, a, b } => {
            &&& edge < topo.edges@.len() && !selected[edge as int] && gaps[edge as int]
            &&& topo.edges@[edge as int].faces@.len() == 2
            &&& a == wedge_side(splice[topo.edges@[edge as int].a as int], topo.edges@[edge as int].faces@[0], topo.edges@[edge as int].faces@[1])
            &&& b == wedge_side(splice[topo.edges@[edge as int].b as int], topo.edges@[edge as int].faces@[0], topo.edges@[edge as int].faces@[1])
        },
        Piece::Patch { vertex } => {
            &&& vertex < topo.verts && splice[vertex as int] is None && !welded[vertex as int]
            &&& exists|k: int| 0 <= k < topo.vert_edges@[vertex as int]@.len() && selected[#[trigger] topo.vert_edges@[vertex as int]@[k] as int]
        },
    }
}

/// Faces come first, then strips, wedges and patches, each by number.
pub open spec fn piece_before(p: Piece, q: Piece) -> bool {
    match (p, q) {
        (Piece::Face { face: x, .. }, Piece::Face { face: y, .. }) => x < y,
        (Piece::Face { .. }, _) => true,
        (Piece::Strip { edge: x }, Piece::Strip { edge: y }) => x < y,
        (Piece::Strip { .. }, Piece::Wedge { .. }) => true,
        (Piece::Strip { .. }, Piece::Patch { .. }) => true,
        (Piece::Wedge { edge: x, .. }, Piece::Wedge { edge: y, .. }) => x < y,
        (Piece::Wedge { .. }, Piece::Patch { .. }) => true,
        (Piece::Patch { vertex: x }, Piece::Patch { vertex: y }) => x < y,
        _ => false,
    }
}

proof fn faces_listed(topo: Topo, splice: Seq<Option<usize>>, n: int)
    requires
        0 <= n <= topo.faces@.len(),
        topo.faces@.len() <= usize::MAX,
    ensures
        face_pieces(topo, splice, n).len() == n,
        forall|i: int|
            0 <= i < n ==> #[trigger] face_pieces(topo, splice, n)[i] == (Piece::Face {
                face: i as usize,
                notched: notch(topo.faces@[i].loops@, i as usize, splice),
            }),
    decreases n,
{
    if n > 0 {
        faces_listed(topo, splice, n - 1);
    }
}

#[verifier::spinoff_prover]
#[verifier::rlimit(50)]
proof fn strips_listed(selected: Seq<bool>, ringed: Seq<bool>, n: int)
    requires
        0 <= n <= usize::MAX,
    ensures
        forall|i: int|
            0 <= i < strip_pieces(selected, ringed, n).len() ==> {
                let p = #[trigger] strip_pieces(selected, ringed, n)[i];
                p is Strip && p->Strip_edge < n && selected[p->Strip_edge as int] && ringed[p->Strip_edge as int]
            },
        forall|i: int, j: int|
            0 <= i < j < strip_pieces(selected, ringed, n).len() ==> piece_before(
                #[trigger] strip_pieces(selected, ringed, n)[i],
                #[trigger] strip_pieces(selected, ringed, n)[j],
            ),
        forall|e: usize|
            e < n && selected[e as int] && ringed[e as int] ==> #[trigger] strip_pieces(selected, ringed, n).contains(Piece::Strip { edge: e }),
    decreases n,
{
    if n > 0 {
        strips_listed(selected, ringed, n - 1);
        let (rest, all) = (strip_pieces(selected, ringed, n - 1), strip_pieces(selected, ringed, n));
        assert(forall|i: int| 0 <= i < rest.len() ==> #[trigger] all[i] == rest[i]);
        assert forall|e: usize| e < n && selected[e as int] && ringed[e as int] implies #[trigger] all.contains(Piece::Strip { edge: e }) by {
            if e < n - 1 {
                assert(rest.contains(Piece::Strip { edge: e }));
                let k = choose|k: int| 0 <= k < rest.len() && rest[k] == (Piece::Strip { edge: e });
                assert(all[k] == rest[k]);
            } else {
                assert(all[rest.len() as int] == (Piece::Strip { edge: e }));
            }
        }
    }
}

#[verifier::spinoff_prover]
#[verifier::rlimit(50)]
proof fn wedges_listed(topo: Topo, selected: Seq<bool>, splice: Seq<Option<usize>>, gaps: Seq<bool>, n: int)
    requires
        0 <= n <= topo.edges@.len(),
        topo.edges@.len() <= usize::MAX,
    ensures
        forall|i: int|
            0 <= i < wedge_pieces(topo, selected, splice, gaps, n).len() ==> {
                let p = #[trigger] wedge_pieces(topo, selected, splice, gaps, n)[i];
                let e = p->Wedge_edge as int;
                p is Wedge && e < n && !selected[e] && topo.edges@[e].faces@.len() == 2 && gaps[e] && p == wedge_of(topo, splice, e)
            },
        forall|i: int, j: int|
            0 <= i < j < wedge_pieces(topo, selected, splice, gaps, n).len() ==> piece_before(
                #[trigger] wedge_pieces(topo, selected, splice, gaps, n)[i],
                #[trigger] wedge_pieces(topo, selected, splice, gaps, n)[j],
            ),
        forall|e: int|
            0 <= e < n && !selected[e] && topo.edges@[e].faces@.len() == 2 && gaps[e] ==> wedge_pieces(topo, selected, splice, gaps, n).contains(
                #[trigger] wedge_of(topo, splice, e),
            ),
    decreases n,
{
    if n > 0 {
        wedges_listed(topo, selected, splice, gaps, n - 1);
        let (rest, all) = (wedge_pieces(topo, selected, splice, gaps, n - 1), wedge_pieces(topo, selected, splice, gaps, n));
        assert(forall|i: int| 0 <= i < rest.len() ==> #[trigger] all[i] == rest[i]);
        assert forall|e: int| 0 <= e < n && !selected[e] && topo.edges@[e].faces@.len() == 2 && gaps[e] implies all.contains(
            #[trigger] wedge_of(topo, splice, e),
        ) by {
            if e < n - 1 {
                assert(rest.contains(wedge_of(topo, splice, e)));
                let k = choose|k: int| 0 <= k < rest.len() && rest[k] == wedge_of(topo, splice, e);
                assert(all[k] == rest[k]);
            } else {
                assert(all[rest.len() as int] == wedge_of(topo, splice, e));
            }
        }
    }
}

#[verifier::spinoff_prover]
#[verifier::rlimit(50)]
proof fn patches_listed(topo: Topo, selected: Seq<bool>, splice: Seq<Option<usize>>, welded: Seq<bool>, n: int)
    requires
        0 <= n <= usize::MAX,
    ensures
        forall|i: int|
            0 <= i < patch_pieces(topo, selected, splice, welded, n).len() ==> {
                let p = #[trigger] patch_pieces(topo, selected, splice, welded, n)[i];
                p is Patch && p->vertex < n && is_patched(topo, selected, splice, welded, p->vertex as int)
            },
        forall|i: int, j: int|
            0 <= i < j < patch_pieces(topo, selected, splice, welded, n).len() ==> piece_before(
                #[trigger] patch_pieces(topo, selected, splice, welded, n)[i],
                #[trigger] patch_pieces(topo, selected, splice, welded, n)[j],
            ),
        forall|v: usize|
            v < n && is_patched(topo, selected, splice, welded, v as int) ==> #[trigger] patch_pieces(topo, selected, splice, welded, n).contains(
                Piece::Patch { vertex: v },
            ),
    decreases n,
{
    if n > 0 {
        patches_listed(topo, selected, splice, welded, n - 1);
        let (rest, all) = (patch_pieces(topo, selected, splice, welded, n - 1), patch_pieces(topo, selected, splice, welded, n));
        assert(forall|i: int| 0 <= i < rest.len() ==> #[trigger] all[i] == rest[i]);
        assert forall|v: usize| v < n && is_patched(topo, selected, splice, welded, v as int) implies #[trigger] all.contains(
            Piece::Patch { vertex: v },
        ) by {
            if v < n - 1 {
                assert(rest.contains(Piece::Patch { vertex: v }));
                let k = choose|k: int| 0 <= k < rest.len() && rest[k] == (Piece::Patch { vertex: v });
                assert(all[k] == rest[k]);
            } else {
                assert(all[rest.len() as int] == (Piece::Patch { vertex: v }));
            }
        }
    }
}

proof fn patched_where_met(topo: Topo, selected: Seq<bool>, splice: Seq<Option<usize>>, welded: Seq<bool>, v: usize)
    ensures
        is_patched(topo, selected, splice, welded, v as int) <==> splice[v as int] is None && !welded[v as int] && exists|k: int|
            0 <= k < topo.vert_edges@[v as int]@.len() && selected[#[trigger] topo.vert_edges@[v as int]@[k] as int],
{
    let star = topo.vert_edges@[v as int]@;
    let test = |e: usize| selected[e as int];
    chosen_are_the_selected(star, selected);
    let list = star.filter(test);
    star.filter_lemma(test);
    if list.len() > 0 {
        assert(test(list[0]));
        assert(star.contains(list[0])) by {
            star.lemma_filter_contains_rev(test, list[0]);
        }
        let k = choose|k: int| 0 <= k < star.len() && star[k] == list[0];
        assert(selected[star[k] as int]);
    }
    if exists|k: int| 0 <= k < star.len() && selected[#[trigger] star[k] as int] {
        let k = choose|k: int| 0 <= k < star.len() && selected[#[trigger] star[k] as int];
        assert(test(star[k]));
        assert(list.contains(star[k]));
    }
}

/// A bevelled body is made of every piece that belongs to it, each once, and of nothing else.
#[verifier::spinoff_prover]
#[verifier::rlimit(50)]
pub proof fn every_piece_is_planned(
    topo: Topo,
    selected: Seq<bool>,
    splice: Seq<Option<usize>>,
    welded: Seq<bool>,
    ringed: Seq<bool>,
    gaps: Seq<bool>,
    plan: Seq<Piece>,
)
    requires
        prepared(topo, selected, splice, welded, ringed, gaps),
        plan == face_pieces(topo, splice, topo.faces@.len() as int) + strip_pieces(selected, ringed, topo.edges@.len() as int) + wedge_pieces(
            topo,
            selected,
            splice,
            gaps,
            topo.edges@.len() as int,
        ) + patch_pieces(topo, selected, splice, welded, topo.verts as int),
        topo.faces@.len() <= usize::MAX,
        topo.edges@.len() <= usize::MAX,
    ensures
        forall|i: int, j: int| 0 <= i < j < plan.len() ==> piece_before(#[trigger] plan[i], #[trigger] plan[j]),
        forall|p: Piece| #[trigger] plan.contains(p) <==> belongs(p, topo, selected, splice, welded, ringed, gaps),
{
    let (nf, ne, nv) = (topo.faces@.len() as int, topo.edges@.len() as int, topo.verts as int);
    faces_listed(topo, splice, nf);
    strips_listed(selected, ringed, ne);
    wedges_listed(topo, selected, splice, gaps, ne);
    patches_listed(topo, selected, splice, welded, nv);
    let (a, b, c, d) = (
        face_pieces(topo, splice, nf),
        strip_pieces(selected, ringed, ne),
        wedge_pieces(topo, selected, splice, gaps, ne),
        patch_pieces(topo, selected, splice, welded, nv),
    );
    assert forall|i: int| 0 <= i < plan.len() implies #[trigger] plan[i] == (if i < a.len() {
        a[i]
    } else if i < a.len() + b.len() {
        b[i - a.len()]
    } else if i < a.len() + b.len() + c.len() {
        c[i - a.len() - b.len()]
    } else {
        d[i - a.len() - b.len() - c.len()]
    }) by {}
    assert forall|p: Piece| #[trigger] plan.contains(p) implies belongs(p, topo, selected, splice, welded, ringed, gaps) by {
        let i = choose|i: int| 0 <= i < plan.len() && plan[i] == p;
        if p is Patch {
            patched_where_met(topo, selected, splice, welded, p->vertex);
        }
    }
    assert forall|p: Piece| belongs(p, topo, selected, splice, welded, ringed, gaps) implies #[trigger] plan.contains(p) by {
        match p {
            Piece::Face { face, notched } => {
                assert(a[face as int] == p);
                assert(plan[face as int] == p);
            },
            Piece::Strip { edge } => {
                assert(b.contains(Piece::Strip { edge }));
                let k = choose|k: int| 0 <= k < b.len() && b[k] == p;
                assert(plan[a.len() + k] == p);
            },
            Piece::Wedge { edge, .. } => {
                assert(p == wedge_of(topo, splice, edge as int));
                assert(c.contains(wedge_of(topo, splice, edge as int)));
                let k = choose|k: int| 0 <= k < c.len() && c[k] == p;
                assert(plan[a.len() + b.len() + k] == p);
            },
            Piece::Patch { vertex } => {
                patched_where_met(topo, selected, splice, welded, vertex);
                assert(d.contains(Piece::Patch { vertex }));
                let k = choose|k: int| 0 <= k < d.len() && d[k] == p;
                assert(plan[a.len() + b.len() + c.len() + k] == p);
            },
        }
    }
}

/// The arcs of a corner are its edges, without the selected ones that have no arc, each between its
/// first two faces and round where it is selected.
pub proof fn arcs_are_the_edges(topo: Topo, selected: Seq<bool>, ringed: Seq<bool>, star: Seq<usize>)
    ensures
        arcs_of(topo, selected, ringed, star) == star.filter(|e: usize| selected[e as int] ==> ringed[e as int]).map_values(
            |e: usize| RimArc { edge: e, faces: (topo.edges@[e as int].faces@[0], topo.edges@[e as int].faces@[1]), round: selected[e as int] },
        ),
    decreases star.len(),
{
    reveal(Seq::filter);
    if star.len() > 0 {
        arcs_are_the_edges(topo, selected, ringed, star.drop_last());
        let keep = |e: usize| selected[e as int] ==> ringed[e as int];
        let made = |e: usize|
            RimArc { edge: e, faces: (topo.edges@[e as int].faces@[0], topo.edges@[e as int].faces@[1]), round: selected[e as int] };
        let rest = star.drop_last().filter(keep);
        assert(rest.push(star.last()).map_values(made) =~= rest.map_values(made).push(made(star.last())));
        assert(arcs_of(topo, selected, ringed, star) =~= star.filter(keep).map_values(made));
    } else {
        assert(arcs_of(topo, selected, ringed, star) =~= star.filter(|e: usize| selected[e as int] ==> ringed[e as int]).map_values(
            |e: usize| RimArc { edge: e, faces: (topo.edges@[e as int].faces@[0], topo.edges@[e as int].faces@[1]), round: selected[e as int] },
        ));
    }
}

/// An arc is walked from the face it starts at to the one it leads to, a rounded one over every step;
/// walked the other way it passes the same points backwards.
pub proof fn arcs_run_between_their_faces(arc: RimArc, seg: int)
    requires
        0 <= seg < usize::MAX,
    ensures
        arc_points(arc, seg, false) == arc_points(arc, seg, true).reverse(),
        arc.round ==> arc_points(arc, seg, true).len() == seg + 1 && forall|j: int|
            0 <= j <= seg ==> #[trigger] arc_points(arc, seg, true)[j] == (RimSpot::Arc { edge: arc.edge, step: j as usize }),
        !arc.round ==> arc_points(arc, seg, true) == seq![RimSpot::Corner { face: arc.faces.0 }, RimSpot::Corner { face: arc.faces.1 }],
{
    assert(arc_points(arc, seg, false) =~= arc_points(arc, seg, true).reverse());
}

/// Walking arcs passes the first point of the first, and then the points of each but its first.
#[verifier::spinoff_prover]
#[verifier::rlimit(50)]
pub proof fn walks_pass_every_arc(arcs: Seq<RimArc>, order: Seq<(usize, bool)>, seg: int, k: int)
    requires
        0 < k <= order.len(),
        0 <= seg,
    ensures
        walked_points(arcs, order, seg, k).len() > 0,
        walked_points(arcs, order, seg, k)[0] == arc_points(arcs[order[0].0 as int], seg, order[0].1)[0],
        walked_points(arcs, order, seg, k).drop_first() == Seq::new(
            k as nat,
            |i: int| arc_points(arcs[order[i].0 as int], seg, order[i].1).drop_first(),
        ).flatten(),
    decreases k,
{
    let f = |i: int| arc_points(arcs[order[i].0 as int], seg, order[i].1).drop_first();
    let all = walked_points(arcs, order, seg, k);
    assert(Seq::new(k as nat, f) =~= Seq::new((k - 1) as nat, f).push(f(k - 1)));
    Seq::new((k - 1) as nat, f).lemma_flatten_push(f(k - 1));
    if k > 1 {
        walks_pass_every_arc(arcs, order, seg, k - 1);
        let rest = walked_points(arcs, order, seg, k - 1);
        assert(all =~= rest + f(k - 1));
        assert(all.drop_first() =~= rest.drop_first() + f(k - 1));
    } else {
        assert(Seq::new(0, f) =~= Seq::<Seq<RimSpot>>::empty());
        assert(Seq::new(0, f).flatten() =~= Seq::<RimSpot>::empty());
        assert(all.drop_first() =~= f(0));
    }
}

/// The rounded arcs, in order.
pub proof fn round_arcs_are_round(arcs: Seq<RimArc>, n: int)
    requires
        0 <= n <= arcs.len(),
    ensures
        round_arcs(arcs, n) == arcs.take(n).filter(|a: RimArc| a.round),
    decreases n,
{
    reveal(Seq::filter);
    if n > 0 {
        round_arcs_are_round(arcs, n - 1);
        assert(arcs.take(n).drop_last() =~= arcs.take(n - 1));
        assert(arcs.take(n).last() == arcs[n - 1]);
    }
}

/// The face in common is one that both lead to, the first of the first arc where both are; there is
/// none only where they share none.
pub proof fn common_faces_are_shared(a: (usize, usize), b: (usize, usize))
    ensures
        match face_in_common(a, b) {
            Some(f) => (f == a.0 || f == a.1) && (f == b.0 || f == b.1) && (a.0 == b.0 || a.0 == b.1 ==> f == a.0),
            None => a.0 != b.0 && a.0 != b.1 && a.1 != b.0 && a.1 != b.1,
        },
{
}

/// The sides of faces along selected edges: face by face and loop by loop, each step that runs along
/// one.
#[verifier::spinoff_prover]
#[verifier::rlimit(50)]
pub proof fn sides_run_along_selected_edges(topo: Topo, selected: Seq<bool>, n: int, s: (usize, usize, usize))
    requires
        0 <= n <= topo.faces@.len(),
        topo.faces@.len() <= usize::MAX,
    ensures
        feature_sides_of(topo, selected, n).contains(s) <==> exists|l: int, i: int|
            s.0 < n && 0 <= l < topo.faces@[s.0 as int].loops@.len() && 0 <= i < topo.faces@[s.0 as int].loops@[l]@.len()
                && #[trigger] topo.faces@[s.0 as int].loops@[l]@[i] == s.1 && topo.faces@[s.0 as int].loops@[l]@[if i + 1
                == topo.faces@[s.0 as int].loops@[l]@.len() {
                0
            } else {
                i + 1
            }] == s.2 && side_selected(topo, selected, s.1, s.2),
        forall|i: int, j: int|
            0 <= i < j < feature_sides_of(topo, selected, n).len() ==> (#[trigger] feature_sides_of(topo, selected, n)[i]).0 <= (
            #[trigger] feature_sides_of(topo, selected, n)[j]).0,
        forall|i: int| 0 <= i < feature_sides_of(topo, selected, n).len() ==> (#[trigger] feature_sides_of(topo, selected, n)[i]).0 < n,
    decreases n,
{
    if n > 0 {
        sides_run_along_selected_edges(topo, selected, n - 1, s);
        let f = (n - 1) as usize;
        let loops = topo.faces@[n - 1].loops@;
        let (rest, here) = (feature_sides_of(topo, selected, n - 1), face_sides(topo, selected, f, loops, loops.len() as int));
        let all = feature_sides_of(topo, selected, n);
        sides_of_face(topo, selected, f, loops, loops.len() as int, s);
        assert(all == rest + here);
        if rest.contains(s) {
            let k = choose|k: int| 0 <= k < rest.len() && rest[k] == s;
            assert(all[k] == s);
        }
        if here.contains(s) {
            let k = choose|k: int| 0 <= k < here.len() && here[k] == s;
            assert(all[rest.len() + k] == s);
            let (l, i) = choose|l: int, i: int| 0 <= l < loops.len() && #[trigger] runs_along(topo, selected, f, loops, l, i, s);
            assert(topo.faces@[s.0 as int].loops@[l]@[i] == s.1);
        }
        if all.contains(s) {
            let k = choose|k: int| 0 <= k < all.len() && all[k] == s;
            if k < rest.len() {
                assert(rest[k] == s);
            } else {
                assert(here[k - rest.len()] == s);
            }
        }
        if s.0 == f && !here.contains(s) {
            assert forall|l: int, i: int|
                0 <= l < loops.len() && 0 <= i < loops[l]@.len() && #[trigger] loops[l]@[i] == s.1 && loops[l]@[if i + 1 == loops[l]@.len() {
                    0
                } else {
                    i + 1
                }] == s.2 implies !side_selected(topo, selected, s.1, s.2) by {
                assert(!runs_along(topo, selected, f, loops, l, i, s));
            }
        }
    }
}

/// Step `i` of loop `l` is this side, and runs along a selected edge.
pub open spec fn runs_along(
    topo: Topo,
    selected: Seq<bool>,
    f: usize,
    loops: Seq<Vec<usize>>,
    l: int,
    i: int,
    s: (usize, usize, usize),
) -> bool {
    let lp = loops[l]@;
    &&& s.0 == f && 0 <= i < lp.len() && lp[i] == s.1 && lp[if i + 1 == lp.len() {
        0
    } else {
        i + 1
    }] == s.2
    &&& side_selected(topo, selected, s.1, s.2)
}

proof fn sides_of_face(topo: Topo, selected: Seq<bool>, f: usize, loops: Seq<Vec<usize>>, n: int, s: (usize, usize, usize))
    requires
        0 <= n <= loops.len(),
    ensures
        face_sides(topo, selected, f, loops, n).contains(s) <==> exists|l: int, i: int|
            0 <= l < n && #[trigger] runs_along(topo, selected, f, loops, l, i, s),
        forall|i: int| 0 <= i < face_sides(topo, selected, f, loops, n).len() ==> (#[trigger] face_sides(topo, selected, f, loops, n)[i]).0 == f,
    decreases n,
{
    let all = face_sides(topo, selected, f, loops, n);
    if n > 0 {
        sides_of_face(topo, selected, f, loops, n - 1, s);
        let lp = loops[n - 1]@;
        let (rest, here) = (face_sides(topo, selected, f, loops, n - 1), loop_sides(topo, selected, f, lp, lp.len() as int));
        sides_of_loop(topo, selected, f, loops, n - 1, lp.len() as int, s);
        assert(all == rest + here);
        if rest.contains(s) {
            let k = choose|k: int| 0 <= k < rest.len() && rest[k] == s;
            assert(all[k] == s);
        }
        if here.contains(s) {
            let k = choose|k: int| 0 <= k < here.len() && here[k] == s;
            assert(all[rest.len() + k] == s);
        }
        if all.contains(s) {
            let k = choose|k: int| 0 <= k < all.len() && all[k] == s;
            if k < rest.len() {
                assert(rest[k] == s);
            } else {
                assert(here[k - rest.len()] == s);
            }
        }
    }
}

proof fn sides_of_loop(topo: Topo, selected: Seq<bool>, f: usize, loops: Seq<Vec<usize>>, l: int, n: int, s: (usize, usize, usize))
    requires
        0 <= l < loops.len(),
        0 <= n <= loops[l]@.len(),
    ensures
        loop_sides(topo, selected, f, loops[l]@, n).contains(s) <==> exists|i: int|
            0 <= i < n && #[trigger] runs_along(topo, selected, f, loops, l, i, s),
        forall|i: int| 0 <= i < loop_sides(topo, selected, f, loops[l]@, n).len() ==> (#[trigger] loop_sides(topo, selected, f, loops[l]@, n)[i]).0 == f,
    decreases n,
{
    let lp = loops[l]@;
    let all = loop_sides(topo, selected, f, lp, n);
    if n > 0 {
        sides_of_loop(topo, selected, f, loops, l, n - 1, s);
        let rest = loop_sides(topo, selected, f, lp, n - 1);
        if rest.contains(s) {
            let k = choose|k: int| 0 <= k < rest.len() && rest[k] == s;
            assert(all[k] == s);
        }
        if runs_along(topo, selected, f, loops, l, n - 1, s) {
            assert(all[rest.len() as int] == s);
        }
        if all.contains(s) {
            let k = choose|k: int| 0 <= k < all.len() && all[k] == s;
            if k < rest.len() {
                assert(rest[k] == s);
            } else {
                assert(runs_along(topo, selected, f, loops, l, n - 1, s));
            }
        }
    }
}

} // verus!
