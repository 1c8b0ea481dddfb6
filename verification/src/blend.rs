//! Rounding and bevelling edges: which edges are treated how, and what material is taken or added.
//!
//! The geometry is probed around each edge; what the probes found decides what is done.

use vstd::prelude::*;

use crate::counting::truths;
use crate::first_seen::{firsts, firsts_push, noted, Key, KeyTable};
use crate::patterns::{after, next};
use crate::rings::{decides, says};

verus! {

/// What lies about an edge, or about a corner.
#[derive(Clone, Copy, PartialEq, Eq, Structural, Debug)]
pub enum Corner {
    /// Material on one side only: it is shaved off.
    Convex,
    /// Air on one side only: it is filled.
    Concave,
}

pub open spec fn corner_by(solid: nat, all: nat) -> Option<Corner> {
    if solid == 1 {
        Some(Corner::Convex)
    } else if solid + 1 == all {
        Some(Corner::Concave)
    } else {
        None
    }
}

/// The kind of edge about which the probes found solid in these quadrants.
pub open spec fn edge_corner(q: Seq<bool>) -> Option<Corner> {
    corner_by(truths(q), 4)
}

/// The kind of vertex about which the probes found solid in these octants.
pub open spec fn vertex_corner(q: Seq<bool>) -> Option<Corner> {
    corner_by(truths(q), 8)
}

proof fn truths_step(q: Seq<bool>, n: int)
    requires
        0 <= n < q.len(),
    ensures
        truths(q.take(n + 1)) == truths(q.take(n)) + if q[n] {
            1nat
        } else {
            0
        },
{
    assert(q.take(n + 1).drop_last() =~= q.take(n));
}

fn count_solid(q: &[bool]) -> (n: usize)
    ensures
        n == truths(q@),
{
    let mut n: usize = 0;
    let mut i: usize = 0;
    assert(q@.take(0) =~= Seq::<bool>::empty());
    while i < q.len()
        invariant
            i <= q@.len(),
            n <= i,
            n == truths(q@.take(i as int)),
        decreases q@.len() - i,
    {
        proof {
            truths_step(q@, i as int);
        }
        if q[i] {
            n = n + 1;
        }
        i = i + 1;
    }
    assert(q@.take(i as int) =~= q@);
    n
}

/// Tell the kind of an edge by the four quadrants about it: one solid makes a ridge, three a notch.
pub fn edge_kind(q: &[bool; 4]) -> (k: Option<Corner>)
    ensures
        k == edge_corner(q@),
{
    let n: usize = count_solid(q);
    if n == 1 {
        Some(Corner::Convex)
    } else if n == 3 {
        Some(Corner::Concave)
    } else {
        None
    }
}

/// Tell the kind of a vertex by the eight octants about it: one solid makes a point, seven a pocket.
pub fn vertex_kind(q: &[bool; 8]) -> (k: Option<Corner>)
    ensures
        k == vertex_corner(q@),
{
    let n: usize = count_solid(q);
    if n == 1 {
        Some(Corner::Convex)
    } else if n == 7 {
        Some(Corner::Concave)
    } else {
        None
    }
}

/// How a circular rim is set up: which way its axis and its wall point, and what kind it is.
#[derive(Clone, Copy, PartialEq, Eq, Structural, Debug)]
pub struct RimCorner {
    /// The axis is to be turned round, so that it points out of the cap.
    pub flip_axis: bool,
    /// The wall faces away from the axis.
    pub wall_out: bool,
    pub kind: Corner,
}

/// The place of a quadrant: below the axis or above it, inside the rim or outside it.
pub open spec fn quadrant(above: bool, outside: bool) -> int {
    (if above {
        2int
    } else {
        0
    }) + (if outside {
        1int
    } else {
        0
    })
}

/// What the probes found, seen along the rim's own axis and wall.
pub open spec fn seen_along(q: Seq<bool>, c: RimCorner, cap: bool, wall: bool) -> bool {
    q[quadrant(cap != c.flip_axis, wall == c.wall_out)]
}

/// The rim is set up right: a convex one has material only behind both its cap and its wall, a
/// concave one air only before both.
pub open spec fn set_up(q: Seq<bool>, c: RimCorner) -> bool {
    match c.kind {
        Corner::Convex => forall|cap: bool, wall: bool| #[trigger] seen_along(q, c, cap, wall) <==> !cap && !wall,
        Corner::Concave => forall|cap: bool, wall: bool| #[trigger] seen_along(q, c, cap, wall) <==> !(cap && wall),
    }
}

proof fn truths_of_four(q: Seq<bool>)
    requires
        q.len() == 4,
    ensures
        truths(q) == (if q[0] {
            1int
        } else {
            0
        }) + (if q[1] {
            1int
        } else {
            0
        }) + (if q[2] {
            1int
        } else {
            0
        }) + (if q[3] {
            1int
        } else {
            0
        }),
{
    reveal_with_fuel(truths, 5);
    assert(q.drop_last().drop_last().drop_last().drop_last() =~= Seq::<bool>::empty());
}

/// Set up a circular rim from the four quadrants about it.
pub fn rim_corner(q: &[bool; 4]) -> (c: Option<RimCorner>)
    ensures
        c is Some <==> edge_corner(q@) is Some,
        c matches Some(x) ==> Some(x.kind) == edge_corner(q@) && set_up(q@, x),
{
    proof {
        truths_of_four(q@);
    }
    let kind: Corner = match edge_kind(q) {
        Some(k) => k,
        None => {
            return None;
        },
    };
    let lone: bool = kind == Corner::Convex;
    let above: bool = q[2] == lone || q[3] == lone;
    let outside: bool = q[1] == lone || q[3] == lone;
    let c: RimCorner = if lone {
        RimCorner { flip_axis: above, wall_out: !outside, kind }
    } else {
        RimCorner { flip_axis: !above, wall_out: outside, kind }
    };
    assert(set_up(q@, c)) by {
        assert forall|cap: bool, wall: bool| lone implies (#[trigger] seen_along(q@, c, cap, wall) <==> !cap && !wall) by {}
        assert forall|cap: bool, wall: bool| !lone implies (#[trigger] seen_along(q@, c, cap, wall) <==> !(cap && wall)) by {}
    }
    Some(c)
}

/// A rim can be set up in one way only.
pub proof fn one_way_to_set_up(q: Seq<bool>, c: RimCorner, d: RimCorner)
    requires
        q.len() == 4,
        set_up(q, c),
        set_up(q, d),
        c.kind == d.kind,
    ensures
        c == d,
{
    let lone = c.kind == Corner::Concave;
    let cap = (lone != c.flip_axis) != d.flip_axis;
    let wall = (lone == c.wall_out) == d.wall_out;
    assert(seen_along(q, c, lone, lone) == seen_along(q, d, cap, wall));
}

/// A boolean at a corner is trusted if it leaves at least half of the triangles and makes no more
/// than four times as many.
pub fn accepts_blend(before: usize, after_it: usize) -> (ok: bool)
    requires
        before <= usize::MAX / 4,
    ensures
        ok == (before / 2 <= after_it <= before * 4),
{
    after_it >= before / 2 && after_it <= before * 4
}

// ---- what is done about each edge ----

/// What the probes found about one stretch of an edge.
#[derive(Clone, Copy, Debug)]
pub struct StretchFacts {
    /// The stretch has a length and two faces that do not lie back to back.
    pub usable: bool,
    /// Which of the four quadrants about it are solid.
    pub solid: [bool; 4],
}

/// What the probes found about one picked edge.
#[derive(Debug)]
pub struct EdgeFacts {
    /// The edge runs round a circle.
    pub circular: bool,
    /// The quadrants about the rim, unless the circle is too small for the blend.
    pub rim: Option<[bool; 4]>,
    pub stretches: Vec<StretchFacts>,
}

/// One cut or fill.
#[derive(Clone, Copy, PartialEq, Eq, Structural, Debug)]
pub enum BlendStep {
    /// Turn a profile about the axis of a rim.
    Rim { edge: usize, corner: RimCorner },
    /// Draw a profile along a straight stretch.
    Straight { edge: usize, stretch: usize, kind: Corner },
}

pub open spec fn step_kind(s: BlendStep) -> Corner {
    match s {
        BlendStep::Rim { edge, corner } => corner.kind,
        BlendStep::Straight { edge, stretch, kind } => kind,
    }
}

/// The steps for the first `n` stretches of an edge.
pub open spec fn stretch_steps(stretches: Seq<StretchFacts>, edge: usize, n: int) -> Seq<BlendStep>
    decreases n,
{
    if n <= 0 {
        Seq::empty()
    } else {
        let f = stretches[n - 1];
        match edge_corner(f.solid@) {
            Some(kind) => if f.usable {
                stretch_steps(stretches, edge, n - 1).push(BlendStep::Straight { edge, stretch: (n - 1) as usize, kind })
            } else {
                stretch_steps(stretches, edge, n - 1)
            },
            None => stretch_steps(stretches, edge, n - 1),
        }
    }
}

/// The steps are right for one edge: for a circle the one that sets up its rim, if it can be; for
/// any other edge those of its stretches.
pub open spec fn blends_edge(steps: Seq<BlendStep>, f: EdgeFacts, edge: usize) -> bool {
    if f.circular {
        match f.rim {
            Some(q) => match edge_corner(q@) {
                Some(kind) => steps.len() == 1 && (steps[0] matches BlendStep::Rim { edge: e, corner } && e == edge && corner.kind
                    == kind && set_up(q@, corner)),
                None => steps.len() == 0,
            },
            None => steps.len() == 0,
        }
    } else {
        steps == stretch_steps(f.stretches@, edge, f.stretches@.len() as int)
    }
}

/// The steps are those of the edges, one edge after the other. `cuts` tells where those of each
/// begin.
pub open spec fn blends(steps: Seq<BlendStep>, facts: Seq<EdgeFacts>, cuts: Seq<int>) -> bool {
    &&& cuts.len() == facts.len() + 1
    &&& cuts[0] == 0
    &&& cuts.last() == steps.len()
    &&& forall|e: int| 0 <= e < facts.len() ==> #[trigger] blends_from(steps, facts, cuts, e)
}

pub open spec fn blends_from(steps: Seq<BlendStep>, facts: Seq<EdgeFacts>, cuts: Seq<int>, e: int) -> bool {
    0 <= cuts[e] <= cuts[e + 1] <= steps.len() && blends_edge(steps.subrange(cuts[e], cuts[e + 1]), facts[e], e as usize)
}

#[verifier::loop_isolation(false)]
fn plan_edge(f: &EdgeFacts, edge: usize) -> (steps: Vec<BlendStep>)
    ensures
        blends_edge(steps@, *f, edge),
{
    let mut steps: Vec<BlendStep> = Vec::new();
    if f.circular {
        match &f.rim {
            Some(q) => {
                match rim_corner(q) {
                    Some(corner) => {
                        steps.push(BlendStep::Rim { edge, corner });
                    },
                    None => {},
                }
            },
            None => {},
        }
        return steps;
    }
    let mut i: usize = 0;
    while i < f.stretches.len()
        invariant
            i <= f.stretches@.len(),
            steps@ == stretch_steps(f.stretches@, edge, i as int),
        decreases f.stretches@.len() - i,
    {
        match edge_kind(&f.stretches[i].solid) {
            Some(kind) => {
                if f.stretches[i].usable {
                    steps.push(BlendStep::Straight { edge, stretch: i, kind });
                }
            },
            None => {},
        }
        i = i + 1;
    }
    steps
}

/// Plan the rounding of picked edges.
#[verifier::loop_isolation(false)]
pub fn plan_fillet(facts: &Vec<EdgeFacts>) -> (steps: Vec<BlendStep>)
    ensures
        exists|cuts: Seq<int>| blends(steps@, facts@, cuts),
        forall|s: BlendStep| #[trigger] steps@.contains(s) <==> wanted(facts@, s),
        forall|i: int, j: int| 0 <= i < j < steps@.len() ==> step_before(#[trigger] steps@[i], #[trigger] steps@[j]),
{
    let mut steps: Vec<BlendStep> = Vec::new();
    let ghost mut cuts: Seq<int> = seq![0int];
    let mut e: usize = 0;
    while e < facts.len()
        invariant
            e <= facts@.len(),
            cuts.len() == e + 1,
            cuts[0] == 0,
            cuts.last() == steps@.len(),
            forall|k: int| 0 <= k < e ==> #[trigger] blends_from(steps@, facts@, cuts, k),
        decreases facts@.len() - e,
    {
        let ghost before = steps@;
        let ghost cuts0 = cuts;
        let mut more: Vec<BlendStep> = plan_edge(&facts[e], e);
        let ghost added = more@;
        steps.append(&mut more);
        proof {
            cuts = cuts.push(steps@.len() as int);
            assert forall|k: int| 0 <= k < e + 1 implies #[trigger] blends_from(steps@, facts@, cuts, k) by {
                if k < e {
                    assert(blends_from(before, facts@, cuts0, k));
                    assert(steps@.subrange(cuts[k], cuts[k + 1]) =~= before.subrange(cuts0[k], cuts0[k + 1]));
                } else {
                    assert(steps@.subrange(cuts[k], cuts[k + 1]) =~= added);
                }
            }
        }
        e = e + 1;
    }
    assert(blends(steps@, facts@, cuts));
    proof {
        assert(facts.len() == facts@.len());
        stretches_fit(facts@);
        every_edge_is_rounded(steps@, facts@, cuts);
    }
    steps
}

/// The steps that take material away.
pub open spec fn shaving(steps: Seq<BlendStep>, n: int) -> Seq<BlendStep>
    decreases n,
{
    if n <= 0 {
        Seq::empty()
    } else if step_kind(steps[n - 1]) == Corner::Convex {
        shaving(steps, n - 1).push(steps[n - 1])
    } else {
        shaving(steps, n - 1)
    }
}

/// Plan the bevelling of picked edges. A bevel adds no material, so only ridges are treated.
#[verifier::loop_isolation(false)]
pub fn plan_chamfer(facts: &Vec<EdgeFacts>) -> (out: Vec<BlendStep>)
    ensures
        exists|steps: Seq<BlendStep>, cuts: Seq<int>| #[trigger]
            blends(steps, facts@, cuts) && out@ == shaving(steps, steps.len() as int),
        forall|s: BlendStep| #[trigger] out@.contains(s) <==> wanted(facts@, s) && (match s {
            BlendStep::Straight { kind, .. } => kind == Corner::Convex,
            BlendStep::Rim { corner, .. } => corner.kind == Corner::Convex,
        }),
        forall|i: int, j: int| 0 <= i < j < out@.len() ==> step_before(#[trigger] out@[i], #[trigger] out@[j]),
{
    let steps: Vec<BlendStep> = plan_fillet(facts);
    let mut out: Vec<BlendStep> = Vec::new();
    let mut i: usize = 0;
    while i < steps.len()
        invariant
            i <= steps@.len(),
            out@ == shaving(steps@, i as int),
        decreases steps@.len() - i,
    {
        let kind: Corner = match steps[i] {
            BlendStep::Rim { edge, corner } => corner.kind,
            BlendStep::Straight { edge, stretch, kind } => kind,
        };
        if kind == Corner::Convex {
            out.push(steps[i]);
        }
        i = i + 1;
    }
    proof {
        let cuts = choose|cuts: Seq<int>| blends(steps@, facts@, cuts);
        assert(facts.len() == facts@.len());
        stretches_fit(facts@);
        every_ridge_is_bevelled(out@, steps@, facts@, cuts);
    }
    out
}

/// A bevel never adds material.
pub proof fn chamfers_only_shave(steps: Seq<BlendStep>, n: int, i: int)
    requires
        0 <= n <= steps.len(),
        0 <= i < shaving(steps, n).len(),
    ensures
        step_kind(shaving(steps, n)[i]) == Corner::Convex,
        steps.contains(shaving(steps, n)[i]),
    decreases n,
{
    if n > 0 {
        let rest = shaving(steps, n - 1);
        if i < rest.len() {
            chamfers_only_shave(steps, n - 1, i);
            assert(shaving(steps, n)[i] == rest[i]);
        } else {
            assert(shaving(steps, n)[i] == steps[n - 1]);
        }
    }
}

/// One of the four quadrants is `lone`, and the three others are not.
pub open spec fn one_of_four(q: Seq<bool>, lone: bool) -> bool {
    exists|i: int| 0 <= i < 4 && #[trigger] q[i] == lone && forall|j: int| 0 <= j < 4 && j != i ==> #[trigger] q[j] != lone
}

/// About a ridge one quadrant is solid, about a notch one is empty.
pub open spec fn looks_like(q: Seq<bool>, kind: Corner) -> bool {
    one_of_four(q, kind == Corner::Convex)
}

proof fn corner_of_four(q: Seq<bool>, kind: Corner)
    requires
        q.len() == 4,
    ensures
        edge_corner(q) == Some(kind) <==> looks_like(q, kind),
{
    truths_of_four(q);
    let lone = kind == Corner::Convex;
    if edge_corner(q) == Some(kind) {
        let i = if q[0] == lone {
            0int
        } else if q[1] == lone {
            1
        } else if q[2] == lone {
            2
        } else {
            3
        };
        assert(q[i] == lone);
        assert forall|j: int| 0 <= j < 4 && j != i implies #[trigger] q[j] != lone by {}
    }
    if looks_like(q, kind) {
        let i = choose|i: int| 0 <= i < 4 && #[trigger] q[i] == lone && forall|j: int| 0 <= j < 4 && j != i ==> #[trigger] q[j] != lone;
        assert(i == 0 || q[0] != lone);
        assert(i == 1 || q[1] != lone);
        assert(i == 2 || q[2] != lone);
        assert(i == 3 || q[3] != lone);
    }
}

/// What is to be done about picked edges: a straight stretch that can be treated and is a ridge or a
/// notch is treated as such; a circular edge is treated as the rim that it is.
pub open spec fn wanted(facts: Seq<EdgeFacts>, step: BlendStep) -> bool {
    match step {
        BlendStep::Straight { edge, stretch, kind } => {
            &&& edge < facts.len()
            &&& !facts[edge as int].circular
            &&& stretch < facts[edge as int].stretches@.len()
            &&& facts[edge as int].stretches@[stretch as int].usable
            &&& looks_like(facts[edge as int].stretches@[stretch as int].solid@, kind)
        },
        BlendStep::Rim { edge, corner } => {
            &&& edge < facts.len()
            &&& facts[edge as int].circular
            &&& facts[edge as int].rim matches Some(q) && looks_like(q@, corner.kind) && set_up(q@, corner)
        },
    }
}

/// Step `s` comes before step `t`: it is for an earlier edge, or for an earlier stretch of the same.
pub open spec fn step_before(s: BlendStep, t: BlendStep) -> bool {
    match (s, t) {
        (BlendStep::Straight { edge: e, stretch: i, .. }, BlendStep::Straight { edge: f, stretch: j, .. }) => e < f || e == f && i < j,
        (BlendStep::Straight { edge: e, .. }, BlendStep::Rim { edge: f, .. }) => e < f,
        (BlendStep::Rim { edge: e, .. }, BlendStep::Straight { edge: f, .. }) => e < f,
        (BlendStep::Rim { edge: e, .. }, BlendStep::Rim { edge: f, .. }) => e < f,
    }
}

pub open spec fn step_edge(s: BlendStep) -> usize {
    match s {
        BlendStep::Rim { edge, .. } => edge,
        BlendStep::Straight { edge, .. } => edge,
    }
}

proof fn stretch_steps_are_wanted(facts: Seq<EdgeFacts>, e: usize, n: int)
    requires
        e < facts.len(),
        !facts[e as int].circular,
        0 <= n <= facts[e as int].stretches@.len() <= usize::MAX,
    ensures
        ({
            let p = stretch_steps(facts[e as int].stretches@, e, n);
            &&& forall|s: BlendStep| #[trigger] p.contains(s) <==> wanted(facts, s) && step_edge(s) == e && s is Straight && s->stretch < n
            &&& forall|i: int, j: int| 0 <= i < j < p.len() ==> step_before(#[trigger] p[i], #[trigger] p[j])
        }),
    decreases n,
{
    let st = facts[e as int].stretches@;
    let p = stretch_steps(st, e, n);
    if n > 0 {
        stretch_steps_are_wanted(facts, e, n - 1);
        let rest = stretch_steps(st, e, n - 1);
        let q = st[n - 1].solid@;
        corner_of_four(q, Corner::Convex);
        corner_of_four(q, Corner::Concave);
        assert forall|s: BlendStep| #[trigger] p.contains(s) <==> wanted(facts, s) && step_edge(s) == e && s is Straight && s->stretch < n by {
            if p.contains(s) {
                let k = choose|k: int| 0 <= k < p.len() && p[k] == s;
                if k < rest.len() {
                    assert(rest.contains(rest[k]));
                }
            }
            if wanted(facts, s) && step_edge(s) == e && s is Straight && s->stretch < n {
                if s->stretch < n - 1 {
                    assert(rest.contains(s));
                    let k = choose|k: int| 0 <= k < rest.len() && rest[k] == s;
                    assert(p[k] == s);
                } else {
                    assert(p[rest.len() as int] == s);
                }
            }
        }
        assert forall|i: int, j: int| 0 <= i < j < p.len() implies step_before(#[trigger] p[i], #[trigger] p[j]) by {
            assert(rest.contains(rest[i]));
            if j < rest.len() {
                assert(step_before(rest[i], rest[j]));
            }
        }
    } else {
        assert forall|s: BlendStep| !#[trigger] p.contains(s) by {}
    }
}

proof fn edge_steps_are_wanted(p: Seq<BlendStep>, facts: Seq<EdgeFacts>, e: usize)
    requires
        e < facts.len(),
        facts[e as int].stretches@.len() <= usize::MAX,
        blends_edge(p, facts[e as int], e),
    ensures
        forall|s: BlendStep| #[trigger] p.contains(s) <==> wanted(facts, s) && step_edge(s) == e,
        forall|i: int, j: int| 0 <= i < j < p.len() ==> step_before(#[trigger] p[i], #[trigger] p[j]),
{
    let f = facts[e as int];
    if f.circular {
        if let Some(q) = f.rim {
            corner_of_four(q@, Corner::Convex);
            corner_of_four(q@, Corner::Concave);
        }
        assert forall|s: BlendStep| #[trigger] p.contains(s) <==> wanted(facts, s) && step_edge(s) == e by {
            if wanted(facts, s) && step_edge(s) == e {
                let q = f.rim->0;
                let c = s->corner;
                let d = p[0]->corner;
                one_way_to_set_up(q@, c, d);
                assert(p[0] == s);
            }
        }
    } else {
        stretch_steps_are_wanted(facts, e, f.stretches@.len() as int);
    }
}

proof fn stretches_fit(facts: Seq<EdgeFacts>)
    ensures
        forall|e: int| 0 <= e < facts.len() ==> (#[trigger] facts[e]).stretches@.len() <= usize::MAX,
{
    assert forall|e: int| 0 <= e < facts.len() implies (#[trigger] facts[e]).stretches@.len() <= usize::MAX by {
        assert(facts[e].stretches.len() == facts[e].stretches@.len());
    }
}

/// The plan for rounding is what is wanted of the picked edges, all of it and nothing else, in the
/// order of the edges and along each.
#[verifier::spinoff_prover]
#[verifier::rlimit(50)]
pub proof fn every_edge_is_rounded(steps: Seq<BlendStep>, facts: Seq<EdgeFacts>, cuts: Seq<int>)
    requires
        blends(steps, facts, cuts),
        facts.len() <= usize::MAX,
        forall|e: int| 0 <= e < facts.len() ==> (#[trigger] facts[e]).stretches@.len() <= usize::MAX,
    ensures
        forall|s: BlendStep| #[trigger] steps.contains(s) <==> wanted(facts, s),
        forall|i: int, j: int| 0 <= i < j < steps.len() ==> step_before(#[trigger] steps[i], #[trigger] steps[j]),
{
    assert forall|s: BlendStep| #[trigger] steps.contains(s) <==> wanted(facts, s) by {
        if steps.contains(s) {
            let k = choose|k: int| 0 <= k < steps.len() && steps[k] == s;
            let e = edge_of_place(steps, facts, cuts, k, facts.len() as int);
            let p = steps.subrange(cuts[e], cuts[e + 1]);
            assert(blends_from(steps, facts, cuts, e));
            assert(facts[e].stretches@.len() <= usize::MAX);
            edge_steps_are_wanted(p, facts, e as usize);
            assert(p[k - cuts[e]] == s);
            assert(p.contains(s));
        }
        if wanted(facts, s) {
            let e = step_edge(s) as int;
            let p = steps.subrange(cuts[e], cuts[e + 1]);
            assert(blends_from(steps, facts, cuts, e));
            assert(facts[e].stretches@.len() <= usize::MAX);
            edge_steps_are_wanted(p, facts, e as usize);
            assert(p.contains(s));
            let k = choose|k: int| 0 <= k < p.len() && p[k] == s;
            assert(steps[cuts[e] + k] == s);
        }
    }
    assert forall|i: int, j: int| 0 <= i < j < steps.len() implies step_before(#[trigger] steps[i], #[trigger] steps[j]) by {
        let e = edge_of_place(steps, facts, cuts, i, facts.len() as int);
        let f = edge_of_place(steps, facts, cuts, j, facts.len() as int);
        let (p, q) = (steps.subrange(cuts[e], cuts[e + 1]), steps.subrange(cuts[f], cuts[f + 1]));
        assert(blends_from(steps, facts, cuts, e) && blends_from(steps, facts, cuts, f));
        assert(facts[e].stretches@.len() <= usize::MAX && facts[f].stretches@.len() <= usize::MAX);
        edge_steps_are_wanted(p, facts, e as usize);
        edge_steps_are_wanted(q, facts, f as usize);
        assert(p[i - cuts[e]] == steps[i] && q[j - cuts[f]] == steps[j]);
        assert(p.contains(steps[i]) && q.contains(steps[j]));
        if e == f {
            assert(step_before(p[i - cuts[e]], p[j - cuts[e]]));
        } else if f < e {
            cuts_rise(steps, facts, cuts, f + 1, e);
        }
    }
}

proof fn cuts_rise(steps: Seq<BlendStep>, facts: Seq<EdgeFacts>, cuts: Seq<int>, a: int, b: int)
    requires
        blends(steps, facts, cuts),
        0 <= a <= b <= facts.len(),
    ensures
        cuts[a] <= cuts[b],
    decreases b - a,
{
    if a < b {
        cuts_rise(steps, facts, cuts, a, b - 1);
        assert(blends_from(steps, facts, cuts, b - 1));
    }
}

/// The edge whose steps include place `k`.
proof fn edge_of_place(steps: Seq<BlendStep>, facts: Seq<EdgeFacts>, cuts: Seq<int>, k: int, n: int) -> (e: int)
    requires
        blends(steps, facts, cuts),
        0 <= n <= facts.len(),
        0 <= k < cuts[n],
    ensures
        0 <= e < n,
        cuts[e] <= k < cuts[e + 1],
    decreases n,
{
    assert(n > 0);
    assert(blends_from(steps, facts, cuts, n - 1));
    if k < cuts[n - 1] {
        edge_of_place(steps, facts, cuts, k, n - 1)
    } else {
        n - 1
    }
}

/// Every ridge is bevelled and nothing else is: a step is in the plan exactly where it is wanted and
/// takes material away, be it on a rim or on a straight stretch, and the plan keeps their order.
#[verifier::spinoff_prover]
#[verifier::rlimit(50)]
pub proof fn every_ridge_is_bevelled(out: Seq<BlendStep>, steps: Seq<BlendStep>, facts: Seq<EdgeFacts>, cuts: Seq<int>)
    requires
        blends(steps, facts, cuts),
        out == shaving(steps, steps.len() as int),
        facts.len() <= usize::MAX,
        forall|e: int| 0 <= e < facts.len() ==> (#[trigger] facts[e]).stretches@.len() <= usize::MAX,
    ensures
        forall|s: BlendStep| #[trigger] out.contains(s) <==> wanted(facts, s) && (match s {
            BlendStep::Straight { kind, .. } => kind == Corner::Convex,
            BlendStep::Rim { corner, .. } => corner.kind == Corner::Convex,
        }),
        forall|i: int, j: int| 0 <= i < j < out.len() ==> step_before(#[trigger] out[i], #[trigger] out[j]),
{
    every_edge_is_rounded(steps, facts, cuts);
    assert forall|s: BlendStep| #[trigger] out.contains(s) <==> wanted(facts, s) && (match s {
        BlendStep::Straight { kind, .. } => kind == Corner::Convex,
        BlendStep::Rim { corner, .. } => corner.kind == Corner::Convex,
    }) by {
        assert(steps.contains(s) <==> wanted(facts, s));
        if out.contains(s) {
            let k = choose|k: int| 0 <= k < out.len() && out[k] == s;
            chamfers_only_shave(steps, steps.len() as int, k);
        }
        if wanted(facts, s) && step_kind(s) == Corner::Convex {
            let k = choose|k: int| 0 <= k < steps.len() && steps[k] == s;
            ridges_are_kept(steps, steps.len() as int, k);
        }
    }
    shaving_in_order(steps, steps.len() as int);
}

/// The bevels are those steps of the rounding that take material away, all of them, in order.
pub proof fn shaving_is_a_filter(steps: Seq<BlendStep>, n: int)
    requires
        0 <= n <= steps.len(),
    ensures
        shaving(steps, n) == steps.take(n).filter(|s: BlendStep| step_kind(s) == Corner::Convex),
    decreases n,
{
    reveal(Seq::filter);
    if n > 0 {
        shaving_is_a_filter(steps, n - 1);
        assert(steps.take(n).drop_last() =~= steps.take(n - 1));
        assert(steps.take(n).last() == steps[n - 1]);
    }
}

proof fn ridges_are_kept(steps: Seq<BlendStep>, n: int, i: int)
    requires
        0 <= i < n <= steps.len(),
        step_kind(steps[i]) == Corner::Convex,
    ensures
        shaving(steps, n).contains(steps[i]),
    decreases n,
{
    let rest = shaving(steps, n - 1);
    if i < n - 1 {
        ridges_are_kept(steps, n - 1, i);
        let k = choose|k: int| 0 <= k < rest.len() && rest[k] == steps[i];
        assert(shaving(steps, n)[k] == steps[i]);
    } else {
        assert(shaving(steps, n)[rest.len() as int] == steps[i]);
    }
}

proof fn shaving_in_order(steps: Seq<BlendStep>, n: int)
    requires
        0 <= n <= steps.len(),
        forall|i: int, j: int| 0 <= i < j < steps.len() ==> step_before(#[trigger] steps[i], #[trigger] steps[j]),
    ensures
        forall|i: int, j: int|
            0 <= i < j < shaving(steps, n).len() ==> step_before(#[trigger] shaving(steps, n)[i], #[trigger] shaving(steps, n)[j]),
        forall|i: int| 0 <= i < shaving(steps, n).len() ==> exists|k: int| 0 <= k < n && #[trigger] steps[k] == #[trigger] shaving(steps, n)[i],
    decreases n,
{
    if n > 0 {
        shaving_in_order(steps, n - 1);
        let (rest, all) = (shaving(steps, n - 1), shaving(steps, n));
        assert forall|i: int| 0 <= i < all.len() implies exists|k: int| 0 <= k < n && #[trigger] steps[k] == #[trigger] all[i] by {
            if i < rest.len() {
                assert(all[i] == rest[i]);
                let k = choose|k: int| 0 <= k < n - 1 && #[trigger] steps[k] == rest[i];
                assert(steps[k] == all[i]);
            } else {
                assert(steps[n - 1] == all[i]);
            }
        }
        assert forall|i: int, j: int| 0 <= i < j < all.len() implies step_before(#[trigger] all[i], #[trigger] all[j]) by {
            if j < rest.len() {
                assert(step_before(rest[i], rest[j]));
            } else {
                assert(all[i] == rest[i]);
                let k = choose|k: int| 0 <= k < n - 1 && #[trigger] steps[k] == rest[i];
                assert(step_before(steps[k], steps[n - 1]));
            }
        }
    }
}

// ---- kinds of picked edges ----

/// How a picked edge is rounded.
#[derive(Clone, Copy, PartialEq, Eq, Structural, Debug)]
pub enum EdgeShape {
    /// As it is: a circle, or a straight edge.
    Whole,
    /// Side by side: a polygon.
    Sides,
    /// As a curve.
    Curved,
}

/// Tell how a picked edge is rounded.
pub fn edge_shape(circular: bool, straight: bool, polygonal: bool) -> (s: EdgeShape)
    ensures
        s == if circular || straight {
            EdgeShape::Whole
        } else if polygonal {
            EdgeShape::Sides
        } else {
            EdgeShape::Curved
        },
{
    if circular || straight {
        EdgeShape::Whole
    } else if polygonal {
        EdgeShape::Sides
    } else {
        EdgeShape::Curved
    }
}

/// A piece of the edges that are rounded by booleans.
#[derive(Clone, Copy, PartialEq, Eq, Structural, Debug)]
pub enum RoundPiece {
    /// An edge as it is.
    Whole { edge: usize },
    /// One straight side of a polygonal edge.
    Side { edge: usize, side: usize },
}

/// The first `m` sides of an edge.
pub open spec fn side_pieces(edge: int, m: int) -> Seq<RoundPiece> {
    Seq::new(m as nat, |i: int| RoundPiece::Side { edge: edge as usize, side: i as usize })
}

/// The pieces of the first `n` edges. `sides` tells how many straight sides each edge has.
pub open spec fn round_pieces(shapes: Seq<EdgeShape>, sides: Seq<usize>, n: int) -> Seq<RoundPiece>
    decreases n,
{
    if n <= 0 {
        Seq::empty()
    } else {
        let rest = round_pieces(shapes, sides, n - 1);
        match shapes[n - 1] {
            EdgeShape::Whole => rest.push(RoundPiece::Whole { edge: (n - 1) as usize }),
            EdgeShape::Sides => rest + side_pieces(n - 1, sides[n - 1] as int),
            EdgeShape::Curved => rest,
        }
    }
}

/// The curves among the first `n` edges.
pub open spec fn curves(shapes: Seq<EdgeShape>, n: int) -> Seq<usize>
    decreases n,
{
    if n <= 0 {
        Seq::empty()
    } else if shapes[n - 1] == EdgeShape::Curved {
        curves(shapes, n - 1).push((n - 1) as usize)
    } else {
        curves(shapes, n - 1)
    }
}

/// Sort picked edges into the pieces that are rounded by booleans, and the curves.
#[verifier::loop_isolation(false)]
pub fn plan_round(shapes: &Vec<EdgeShape>, sides: &Vec<usize>) -> (r: (Vec<RoundPiece>, Vec<usize>))
    requires
        sides@.len() == shapes@.len(),
    ensures
        r.0@ == round_pieces(shapes@, sides@, shapes@.len() as int),
        r.1@ == curves(shapes@, shapes@.len() as int),
{
    let mut pieces: Vec<RoundPiece> = Vec::new();
    let mut curved: Vec<usize> = Vec::new();
    let mut e: usize = 0;
    while e < shapes.len()
        invariant
            e <= shapes@.len(),
            pieces@ == round_pieces(shapes@, sides@, e as int),
            curved@ == curves(shapes@, e as int),
        decreases shapes@.len() - e,
    {
        let ghost rest = pieces@;
        match shapes[e] {
            EdgeShape::Whole => {
                pieces.push(RoundPiece::Whole { edge: e });
            },
            EdgeShape::Sides => {
                let m: usize = sides[e];
                let mut i: usize = 0;
                assert(rest + side_pieces(e as int, 0) =~= rest);
                while i < m
                    invariant
                        i <= m,
                        pieces@ == rest + side_pieces(e as int, i as int),
                    decreases m - i,
                {
                    pieces.push(RoundPiece::Side { edge: e, side: i });
                    i = i + 1;
                    assert(pieces@ =~= rest + side_pieces(e as int, i as int));
                }
            },
            EdgeShape::Curved => {
                curved.push(e);
            },
        }
        e = e + 1;
    }
    (pieces, curved)
}

/// No picked edge is passed over: each is a curve, stands whole among the pieces, or has all of its
/// sides there.
pub proof fn every_edge_is_planned(shapes: Seq<EdgeShape>, sides: Seq<usize>, n: int, e: int)
    requires
        0 <= e < n <= shapes.len() <= usize::MAX,
        sides.len() == shapes.len(),
    ensures
        match shapes[e] {
            EdgeShape::Whole => round_pieces(shapes, sides, n).contains(RoundPiece::Whole { edge: e as usize }),
            EdgeShape::Sides => forall|i: usize|
                i < sides[e] ==> #[trigger] round_pieces(shapes, sides, n).contains(RoundPiece::Side { edge: e as usize, side: i }),
            EdgeShape::Curved => curves(shapes, n).contains(e as usize),
        },
    decreases n,
{
    let (all, turns) = (round_pieces(shapes, sides, n), curves(shapes, n));
    let (rest, left) = (round_pieces(shapes, sides, n - 1), curves(shapes, n - 1));
    assert forall|x: RoundPiece| #[trigger] rest.contains(x) implies all.contains(x) by {
        let k = choose|k: int| 0 <= k < rest.len() && rest[k] == x;
        assert(all[k] == x);
    }
    assert forall|x: usize| #[trigger] left.contains(x) implies turns.contains(x) by {
        let k = choose|k: int| 0 <= k < left.len() && left[k] == x;
        assert(turns[k] == x);
    }
    if e < n - 1 {
        every_edge_is_planned(shapes, sides, n - 1, e);
        assert forall|i: usize| shapes[e] == EdgeShape::Sides && i < sides[e] implies #[trigger] all.contains(
            RoundPiece::Side { edge: e as usize, side: i },
        ) by {
            assert(rest.contains(RoundPiece::Side { edge: e as usize, side: i }));
        }
    } else {
        match shapes[e] {
            EdgeShape::Whole => {
                assert(all[rest.len() as int] == RoundPiece::Whole { edge: e as usize });
            },
            EdgeShape::Sides => {
                assert forall|i: usize| i < sides[e] implies #[trigger] all.contains(RoundPiece::Side { edge: e as usize, side: i }) by {
                    assert(all[rest.len() + i] == RoundPiece::Side { edge: e as usize, side: i });
                }
            },
            EdgeShape::Curved => {
                assert(turns[left.len() as int] == e as usize);
            },
        }
    }
}

/// How far a ring may bend one way without a corner and still pass for straight, in billionths of a
/// radian.
pub const ARC_TOTAL: u64 = 260_000_000;

/// What a ring does at one of its points.
#[derive(Clone, Copy, PartialEq, Eq, Structural, Debug)]
pub enum Turn {
    /// It goes straight on, or stands still.
    Straight,
    /// It turns a corner.
    Corner,
    /// It bends to one side, by this many billionths of a radian.
    Bend { left: bool, angle: u64 },
}

/// The way that a ring has been bending over its first `n` points, and how far, since its last
/// corner or change of side.
pub open spec fn bending(turns: Seq<Turn>, n: int) -> (Option<bool>, int)
    decreases n,
{
    if n <= 0 {
        (None, 0)
    } else {
        let (side, run) = bending(turns, n - 1);
        match turns[n - 1] {
            Turn::Straight => (side, run),
            Turn::Corner => (None, 0),
            Turn::Bend { left, angle } => if side == Some(left) {
                (side, run + angle)
            } else {
                (Some(left), angle as int)
            },
        }
    }
}

/// The ring has three points or more and never bends far without a corner.
pub open spec fn is_polygonal(turns: Seq<Turn>) -> bool {
    turns.len() >= 3 && forall|n: int| 0 <= n <= turns.len() ==> (#[trigger] bending(turns, n)).1 <= ARC_TOTAL
}

proof fn bend_grows(turns: Seq<Turn>, n: int)
    ensures
        bending(turns, n).1 >= 0,
    decreases n,
{
    if n > 0 {
        bend_grows(turns, n - 1);
    }
}

/// Tell whether a ring is made of straight sides. A curve is a bend that goes on, however finely it
/// is divided.
#[verifier::loop_isolation(false)]
pub fn is_piecewise_straight(turns: &Vec<Turn>) -> (yes: bool)
    ensures
        yes == is_polygonal(turns@),
{
    if turns.len() < 3 {
        return false;
    }
    let mut side: Option<bool> = None;
    let mut run: u64 = 0;
    let mut n: usize = 0;
    while n < turns.len()
        invariant
            n <= turns@.len(),
            (side, run as int) == bending(turns@, n as int),
            run <= ARC_TOTAL,
            forall|m: int| 0 <= m <= n ==> (#[trigger] bending(turns@, m)).1 <= ARC_TOTAL,
        decreases turns@.len() - n,
    {
        match turns[n] {
            Turn::Straight => {},
            Turn::Corner => {
                side = None;
                run = 0;
            },
            Turn::Bend { left, angle } => {
                if side != Some(left) {
                    side = Some(left);
                    run = 0;
                }
                if angle > ARC_TOTAL - run {
                    assert(bending(turns@, n + 1).1 > ARC_TOTAL);
                    return false;
                }
                run = run + angle;
            },
        }
        assert(bending(turns@, n + 1) == (side, run as int));
        n = n + 1;
    }
    true
}

/// The bend of the points from `a` up to `b`.
pub open spec fn bend_between(turns: Seq<Turn>, a: int, b: int) -> int
    decreases b - a,
{
    if b <= a {
        0
    } else {
        bend_between(turns, a, b - 1) + match turns[b - 1] {
            Turn::Bend { left, angle } => angle as int,
            _ => 0int,
        }
    }
}

/// A stretch without a corner that bends one way by more than a little makes the ring a curve,
/// whatever the number of points it is divided into.
pub proof fn sustained_bends_are_curves(turns: Seq<Turn>, a: int, b: int, left: bool)
    requires
        0 <= a <= b <= turns.len(),
        forall|i: int| a <= i < b ==> bends_or_not(#[trigger] turns[i], left),
        bend_between(turns, a, b) > ARC_TOTAL,
    ensures
        !is_polygonal(turns),
{
    bend_carries(turns, a, b, left);
    assert(bending(turns, b).1 > ARC_TOTAL);
}

/// The ring goes straight on here, or bends to the given side.
pub open spec fn bends_or_not(t: Turn, left: bool) -> bool {
    match t {
        Turn::Straight => true,
        Turn::Corner => false,
        Turn::Bend { left: l, angle } => l == left,
    }
}

proof fn bend_carries(turns: Seq<Turn>, a: int, b: int, left: bool)
    requires
        0 <= a <= b <= turns.len(),
        forall|i: int| a <= i < b ==> bends_or_not(#[trigger] turns[i], left),
    ensures
        bend_between(turns, a, b) == 0 || (bending(turns, b).0 == Some(left) && bending(turns, b).1 >= bend_between(turns, a, b)),
    decreases b - a,
{
    bend_grows(turns, b);
    if a < b {
        bend_carries(turns, a, b - 1, left);
        bend_grows(turns, b - 1);
        assert(bends_or_not(turns[b - 1], left));
        bend_is_some(turns, a, b - 1);
    }
}

proof fn bend_is_some(turns: Seq<Turn>, a: int, b: int)
    ensures
        bend_between(turns, a, b) >= 0,
    decreases b - a,
{
    if a < b {
        bend_is_some(turns, a, b - 1);
    }
}

/// The sharp corners among the first `n` points of a ring.
pub open spec fn corners_of(sharp: Seq<bool>, n: int) -> Seq<usize>
    decreases n,
{
    if n <= 0 {
        Seq::empty()
    } else if sharp[n - 1] {
        corners_of(sharp, n - 1).push((n - 1) as usize)
    } else {
        corners_of(sharp, n - 1)
    }
}

/// The points of a ring of `n` from `i` to `end`, both included, walking forward.
pub open spec fn arc_from(i: int, end: int, n: int) -> Seq<usize>
    decreases (if i <= end {
        end - i
    } else {
        n - i + end
    }),
    when 0 <= i < n && 0 <= end < n
{
    if i == end {
        seq![i as usize]
    } else {
        seq![i as usize] + arc_from(after(i, n), end, n)
    }
}

/// The straight sides of a ring: from each sharp corner to the next; the whole ring if it has fewer
/// than two.
pub open spec fn is_sides(runs: Seq<Vec<usize>>, sharp: Seq<bool>) -> bool {
    let n = sharp.len() as int;
    let cs = corners_of(sharp, n);
    if cs.len() < 2 {
        runs.len() == 1 && runs[0]@ == Seq::new(n as nat, |i: int| i as usize)
    } else {
        runs.len() == cs.len() && forall|k: int|
            0 <= k < runs.len() ==> (#[trigger] runs[k])@ == arc_from(cs[k] as int, cs[after(k, cs.len() as int)] as int, n)
    }
}

proof fn corners_in_range(sharp: Seq<bool>, n: int)
    requires
        0 <= n <= sharp.len() <= usize::MAX,
    ensures
        forall|k: int| 0 <= k < corners_of(sharp, n).len() ==> (#[trigger] corners_of(sharp, n)[k]) < n && sharp[corners_of(sharp, n)[k] as int],
        forall|j: int, k: int| 0 <= j < k < corners_of(sharp, n).len() ==> #[trigger] corners_of(sharp, n)[j] < #[trigger] corners_of(sharp, n)[k],
        forall|i: int| 0 <= i < n && #[trigger] sharp[i] ==> corners_of(sharp, n).contains(i as usize),
    decreases n,
{
    if n > 0 {
        corners_in_range(sharp, n - 1);
        let rest = corners_of(sharp, n - 1);
        let all = corners_of(sharp, n);
        assert forall|k: int| 0 <= k < all.len() implies (#[trigger] all[k]) < n && sharp[all[k] as int] by {
            if k < rest.len() {
                assert(rest[k] < n - 1);
            }
        }
        assert forall|i: int| 0 <= i < n && #[trigger] sharp[i] implies all.contains(i as usize) by {
            if i < n - 1 {
                assert(rest.contains(i as usize));
                let k = choose|k: int| 0 <= k < rest.len() && rest[k] == i as usize;
                assert(all[k] == i as usize);
            } else {
                assert(all[rest.len() as int] == i as usize);
            }
        }
    }
}

#[verifier::loop_isolation(false)]
fn walk_arc(from: usize, end: usize, n: usize) -> (run: Vec<usize>)
    requires
        from < n,
        end < n,
    ensures
        run@ == arc_from(from as int, end as int, n as int),
{
    let mut run: Vec<usize> = Vec::new();
    let mut i: usize = from;
    assert(run@ + arc_from(from as int, end as int, n as int) =~= arc_from(from as int, end as int, n as int));
    while i != end
        invariant
            i < n,
            run@ + arc_from(i as int, end as int, n as int) == arc_from(from as int, end as int, n as int),
        decreases (if i <= end {
            end - i
        } else {
            n - i + end
        }),
    {
        let ghost rest = arc_from(after(i as int, n as int), end as int, n as int);
        run.push(i);
        assert(run@ + rest =~= run@.drop_last() + (seq![i] + rest));
        i = next(i, n);
    }
    run.push(i);
    run
}

/// Split a polygonal ring into its straight sides, given which of its points are sharp corners.
#[verifier::loop_isolation(false)]
pub fn split_straight_runs(sharp: &Vec<bool>) -> (runs: Vec<Vec<usize>>)
    ensures
        is_sides(runs@, sharp@),
{
    let n: usize = sharp.len();
    let mut corners: Vec<usize> = Vec::new();
    let mut i: usize = 0;
    while i < n
        invariant
            i <= n,
            corners@ == corners_of(sharp@, i as int),
        decreases n - i,
    {
        if sharp[i] {
            corners.push(i);
        }
        i = i + 1;
    }
    let mut runs: Vec<Vec<usize>> = Vec::new();
    if corners.len() < 2 {
        let mut all: Vec<usize> = Vec::new();
        let mut k: usize = 0;
        while k < n
            invariant
                k <= n,
                all@ == Seq::new(k as nat, |i: int| i as usize),
            decreases n - k,
        {
            all.push(k);
            k = k + 1;
            assert(all@ =~= Seq::new(k as nat, |i: int| i as usize));
        }
        runs.push(all);
        return runs;
    }
    proof {
        corners_in_range(sharp@, n as int);
    }
    let c: usize = corners.len();
    let mut k: usize = 0;
    while k < c
        invariant
            k <= c,
            runs@.len() == k,
            forall|j: int| 0 <= j < k ==> (#[trigger] runs@[j])@ == arc_from(corners@[j] as int, corners@[after(j, c as int)] as int, n as int),
        decreases c - k,
    {
        let j: usize = next(k, c);
        assert(corners@[k as int] < n && corners@[j as int] < n);
        runs.push(walk_arc(corners[k], corners[j], n));
        k = k + 1;
    }
    runs
}

/// Step `i` of the ring, from point `i` to the point after it, lies on the run.
pub open spec fn steps_along(run: Seq<usize>, i: int, n: int) -> bool {
    exists|k: int| 0 <= k < run.len() - 1 && #[trigger] run[k] == i && run[k + 1] == after(i, n)
}

proof fn arc_covers(i: int, end: int, n: int, x: int)
    requires
        0 <= i < n,
        0 <= end < n,
        0 <= x < n,
        n <= usize::MAX,
        if i <= end {
            i <= x < end
        } else {
            i <= x || x < end
        },
    ensures
        steps_along(arc_from(i, end, n), x, n),
        arc_from(i, end, n).len() >= 2,
        arc_from(i, end, n)[0] == i,
    decreases (if i <= end {
        end - i
    } else {
        n - i + end
    }),
{
    let run = arc_from(i, end, n);
    let j = after(i, n);
    let rest = arc_from(j, end, n);
    assert(run == seq![i as usize] + rest);
    arc_starts(j, end, n);
    if x == i {
        assert(run[0] == i && run[1] == rest[0]);
    } else {
        arc_covers(j, end, n, x);
        let k = choose|k: int| 0 <= k < rest.len() - 1 && #[trigger] rest[k] == x && rest[k + 1] == after(x, n);
        assert(run[k + 1] == x && run[k + 2] == after(x, n));
    }
}

proof fn arc_starts(i: int, end: int, n: int)
    requires
        0 <= i < n,
        0 <= end < n,
    ensures
        arc_from(i, end, n).len() >= 1,
        arc_from(i, end, n)[0] == i as usize,
{
}

/// Splitting a ring at its corners loses no step of it: every one lies on some side.
pub proof fn sides_cover_the_ring(runs: Seq<Vec<usize>>, sharp: Seq<bool>, x: int)
    requires
        is_sides(runs, sharp),
        corners_of(sharp, sharp.len() as int).len() >= 2,
        0 <= x < sharp.len(),
        sharp.len() <= usize::MAX,
    ensures
        exists|k: int| 0 <= k < runs.len() && steps_along((#[trigger] runs[k])@, x, sharp.len() as int),
{
    let n = sharp.len() as int;
    let cs = corners_of(sharp, n);
    let c = cs.len() as int;
    corners_in_range(sharp, n);
    if x < cs[0] || x >= cs[c - 1] {
        assert(after(c - 1, c) == 0);
        assert(cs[0] < cs[c - 1]);
        arc_covers(cs[c - 1] as int, cs[0] as int, n, x);
        assert(steps_along(runs[c - 1]@, x, n));
    } else {
        let k = corner_before(cs, x, 0);
        assert(cs[k] < cs[k + 1]);
        arc_covers(cs[k] as int, cs[k + 1] as int, n, x);
        assert(steps_along(runs[k]@, x, n));
    }
}

proof fn corner_before(cs: Seq<usize>, x: int, from: int) -> (k: int)
    requires
        0 <= from < cs.len(),
        cs[from] <= x,
        x < cs[cs.len() - 1],
    ensures
        0 <= k < cs.len() - 1,
        cs[k] <= x < cs[k + 1],
    decreases cs.len() - from,
{
    if x < cs[from + 1] {
        from
    } else {
        corner_before(cs, x, from + 1)
    }
}

// ---- faces at the corners ----

/// The events below `n` that stand under a key and are unlike every one before them that was kept.
pub open spec fn unlike_at<F: Fn(usize, usize) -> bool>(keys: Seq<Key>, alike: F, key: Key, n: int) -> Seq<usize>
    decreases n,
{
    if n <= 0 {
        Seq::empty()
    } else {
        let kept = unlike_at(keys, alike, key, n - 1);
        if keys[n - 1] == key && !is_alike(alike, kept, (n - 1) as usize) {
            kept.push((n - 1) as usize)
        } else {
            kept
        }
    }
}

pub open spec fn is_alike<F: Fn(usize, usize) -> bool>(alike: F, kept: Seq<usize>, i: usize) -> bool {
    exists|k: int| 0 <= k < kept.len() && says(alike, #[trigger] kept[k], i)
}

proof fn unlike_nowhere<F: Fn(usize, usize) -> bool>(keys: Seq<Key>, alike: F, key: Key, n: int)
    requires
        0 <= n <= keys.len(),
        !firsts(keys.take(n)).contains(key),
    ensures
        unlike_at(keys, alike, key, n) == Seq::<usize>::empty(),
    decreases n,
{
    if n > 0 {
        firsts_push(keys.take(n - 1), keys[n - 1]);
        assert(keys.take(n) =~= keys.take(n - 1).push(keys[n - 1]));
        let few = firsts(keys.take(n - 1));
        let all = firsts(keys.take(n));
        assert(all == noted(few, keys[n - 1]));
        if few.contains(key) {
            let k = choose|k: int| 0 <= k < few.len() && few[k] == key;
            assert(all[k] == key);
        }
        if keys[n - 1] == key {
            if few.contains(key) {
            } else {
                assert(all[few.len() as int] == key);
            }
        }
        unlike_nowhere(keys, alike, key, n - 1);
    }
}

/// Gather the faces that meet at each corner. Event `i` says that a face meets the corner `keys[i]`;
/// `alike` tells whether two events speak of the same face. The result lists, for each corner in the
/// order in which they come up, the events with a face of its own.
#[verifier::loop_isolation(false)]
pub fn gather_faces<F: Fn(usize, usize) -> bool>(keys: &Vec<Key>, alike: &F) -> (lists: Vec<Vec<usize>>)
    requires
        decides(*alike, keys@.len() as int, keys@.len() as int),
    ensures
        lists@.len() == firsts(keys@).len(),
        forall|c: int| 0 <= c < lists@.len() ==> (#[trigger] lists@[c])@ == unlike_at(keys@, *alike, firsts(keys@)[c], keys@.len() as int),
{
    let n: usize = keys.len();
    let mut table: KeyTable = KeyTable::new(n);
    let mut lists: Vec<Vec<usize>> = Vec::new();
    let mut i: usize = 0;
    assert(keys@.take(0) =~= Seq::<Key>::empty());
    while i < n
        invariant
            i <= n,
            table.wf(),
            table.keys() == firsts(keys@.take(i as int)),
            lists@.len() == table.keys().len(),
            forall|c: int| 0 <= c < lists@.len() ==> (#[trigger] lists@[c])@ == unlike_at(keys@, *alike, table.keys()[c], i as int),
        decreases n - i,
    {
        let ghost keys0 = table.keys();
        let ghost lists0 = lists@;
        let k: Key = keys[i];
        let c: usize = table.id_of(k);
        proof {
            firsts_push(keys@.take(i as int), k);
            assert(keys@.take(i + 1) =~= keys@.take(i as int).push(k));
        }
        if c == lists.len() {
            proof {
                assert(!keys0.contains(k)) by {
                    if keys0.contains(k) {
                        assert(table.keys() == keys0);
                    }
                }
                unlike_nowhere(keys@, *alike, k, i as int);
            }
            let none: Vec<usize> = Vec::new();
            assert(none@ =~= Seq::<usize>::empty());
            lists.push(none);
        }
        assert(table.keys()[c as int] == k);
        assert(lists@[c as int]@ == unlike_at(keys@, *alike, k, i as int)) by {
            if c < lists0.len() {
                assert(keys0[c as int] == k);
                assert(lists0[c as int]@ == unlike_at(keys@, *alike, keys0[c as int], i as int));
            }
        }
        let ghost lists1 = lists@;
        let ghost kept = lists@[c as int]@;
        proof {
            events_below(keys@, *alike, k, i as int);
        }
        let mut known: bool = false;
        let mut m: usize = 0;
        while m < lists[c].len()
            invariant
                m <= kept.len(),
                lists@ == lists1,
                known <==> exists|j: int| 0 <= j < m && says(*alike, #[trigger] kept[j], i),
            decreases kept.len() - m,
        {
            let e: usize = lists[c][m];
            let same: bool = alike(e, i);
            assert(same <==> says(*alike, kept[m as int], i));
            if same {
                known = true;
            }
            m = m + 1;
        }
        assert(known <==> is_alike(*alike, kept, i));
        if !known {
            lists[c].push(i);
        }
        proof {
            let now = table.keys();
            assert forall|d: int| 0 <= d < lists@.len() implies (#[trigger] lists@[d])@ == unlike_at(keys@, *alike, now[d], i + 1) by {
                if d != c {
                    table.keys_differ(d, c as int);
                    assert(d < lists0.len());
                    assert(now[d] == keys0[d]);
                    assert(lists@[d] == lists0[d]);
                    assert(lists0[d]@ == unlike_at(keys@, *alike, keys0[d], i as int));
                }
            }
        }
        i = i + 1;
    }
    assert(keys@.take(n as int) =~= keys@);
    lists
}

proof fn events_below<F: Fn(usize, usize) -> bool>(keys: Seq<Key>, alike: F, key: Key, n: int)
    requires
        0 <= n <= usize::MAX,
    ensures
        forall|k: int| 0 <= k < unlike_at(keys, alike, key, n).len() ==> #[trigger] unlike_at(keys, alike, key, n)[k] < n,
    decreases n,
{
    if n > 0 {
        events_below(keys, alike, key, n - 1);
        let kept = unlike_at(keys, alike, key, n - 1);
        let all = unlike_at(keys, alike, key, n);
        assert forall|k: int| 0 <= k < all.len() implies #[trigger] all[k] < n by {
            if k < kept.len() {
                assert(kept[k] < n - 1);
                assert(all[k] == kept[k]);
            }
        }
    }
}

/// The corners at which three faces or more meet, by the first three of them.
pub open spec fn meetings(lists: Seq<Vec<usize>>, n: int) -> Seq<(usize, usize, usize)>
    decreases n,
{
    if n <= 0 {
        Seq::empty()
    } else if lists[n - 1]@.len() >= 3 {
        let l = lists[n - 1]@;
        meetings(lists, n - 1).push((l[0], l[1], l[2]))
    } else {
        meetings(lists, n - 1)
    }
}

/// Find the corners to round to a sphere: those at which three faces or more meet.
#[verifier::loop_isolation(false)]
pub fn corners_to_round(lists: &Vec<Vec<usize>>) -> (out: Vec<(usize, usize, usize)>)
    ensures
        out@ == meetings(lists@, lists@.len() as int),
{
    let mut out: Vec<(usize, usize, usize)> = Vec::new();
    let mut n: usize = 0;
    while n < lists.len()
        invariant
            n <= lists@.len(),
            out@ == meetings(lists@, n as int),
        decreases lists@.len() - n,
    {
        if lists[n].len() >= 3 {
            out.push((lists[n][0], lists[n][1], lists[n][2]));
        }
        n = n + 1;
    }
    out
}

// ---- walls that trim a fill ----

/// The walls among the first `n` triangles that trim a fill: of those in reach, the first in each
/// plane, if the whole body stays behind it.
pub open spec fn trimming(keys: Seq<Key>, near: Seq<bool>, supports: Seq<bool>, n: int) -> Seq<usize>
    decreases n,
{
    if n <= 0 {
        Seq::empty()
    } else if near[n - 1] && supports[n - 1] && !in_plane_before(keys, near, n - 1) {
        trimming(keys, near, supports, n - 1).push((n - 1) as usize)
    } else {
        trimming(keys, near, supports, n - 1)
    }
}

/// An earlier triangle in reach lies in the same plane.
pub open spec fn in_plane_before(keys: Seq<Key>, near: Seq<bool>, i: int) -> bool {
    exists|j: int| 0 <= j < i && #[trigger] near[j] && keys[j] == keys[i]
}

/// Choose the walls that trim a fill. `keys` tells the plane of each triangle, `near` which of them
/// are in reach and not part of the faces being joined, `supports` which have the whole body behind
/// them.
#[verifier::loop_isolation(false)]
pub fn trimming_walls(keys: &Vec<Key>, near: &Vec<bool>, supports: &Vec<bool>) -> (walls: Vec<usize>)
    requires
        near@.len() == keys@.len(),
        supports@.len() == keys@.len(),
    ensures
        walls@ == trimming(keys@, near@, supports@, keys@.len() as int),
{
    let n: usize = keys.len();
    let mut table: KeyTable = KeyTable::new(n);
    let mut walls: Vec<usize> = Vec::new();
    let mut i: usize = 0;
    while i < n
        invariant
            i <= n,
            table.wf(),
            forall|k: Key| table.keys().contains(k) <==> exists|j: int| 0 <= j < i && #[trigger] near@[j] && keys@[j] == k,
            walls@ == trimming(keys@, near@, supports@, i as int),
        decreases n - i,
    {
        if near[i] {
            let ghost before = table.keys();
            let k: Key = keys[i];
            let known: bool = table.find(k).is_some();
            assert(known ==> before.contains(k));
            assert(known == in_plane_before(keys@, near@, i as int));
            let id: usize = table.id_of(k);
            proof {
                let now = table.keys();
                assert forall|q: Key| now.contains(q) <==> exists|j: int| 0 <= j < i + 1 && #[trigger] near@[j] && keys@[j] == q by {
                    if now.contains(q) {
                        let m = choose|m: int| 0 <= m < now.len() && now[m] == q;
                        if m < before.len() {
                            assert(before[m] == q);
                            assert(before.contains(q));
                        } else {
                            assert(near@[i as int] && keys@[i as int] == q);
                        }
                    }
                    if exists|j: int| 0 <= j < i + 1 && #[trigger] near@[j] && keys@[j] == q {
                        let j = choose|j: int| 0 <= j < i + 1 && #[trigger] near@[j] && keys@[j] == q;
                        if j < i {
                            assert(before.contains(q));
                            let m = choose|m: int| 0 <= m < before.len() && before[m] == q;
                            assert(now[m] == q);
                        } else {
                            assert(now[id as int] == q);
                        }
                    }
                }
            }
            if !known && supports[i] {
                walls.push(i);
            }
        }
        i = i + 1;
    }
    walls
}

// ---- what the kinds and lists say ----

/// A count is one exactly where one entry is true and no other, and none exactly where no entry is.
#[verifier::spinoff_prover]
#[verifier::rlimit(50)]
proof fn counting_to_one(q: Seq<bool>)
    ensures
        truths(q) == 0 <==> forall|i: int| 0 <= i < q.len() ==> !#[trigger] q[i],
        truths(q) == 1 <==> exists|i: int| 0 <= i < q.len() && #[trigger] stands_out(q, i, true),
    decreases q.len(),
{
    if q.len() > 0 {
        let r = q.drop_last();
        let m = r.len() as int;
        counting_to_one(r);
        assert(forall|i: int| 0 <= i < m ==> #[trigger] r[i] == q[i]);
        if truths(q) == 0 {
            assert forall|i: int| 0 <= i < q.len() implies !#[trigger] q[i] by {
                if i < m {
                    assert(!r[i]);
                }
            }
        }
        if forall|i: int| 0 <= i < q.len() ==> !#[trigger] q[i] {
            assert(!q[m]);
            assert forall|i: int| 0 <= i < m implies !#[trigger] r[i] by {
                assert(!q[i]);
            }
        }
        if truths(q) == 1 {
            if q[m] {
                assert forall|j: int| 0 <= j < q.len() && j != m implies #[trigger] q[j] == false by {
                    assert(!r[j]);
                }
                assert(stands_out(q, m, true));
            } else {
                let i = choose|i: int| 0 <= i < m && #[trigger] stands_out(r, i, true);
                assert forall|j: int| 0 <= j < q.len() && j != i implies #[trigger] q[j] == false by {
                    if j < m {
                        assert(r[j] == false);
                    }
                }
                assert(stands_out(q, i, true));
            }
        }
        if exists|i: int| 0 <= i < q.len() && #[trigger] stands_out(q, i, true) {
            let i = choose|i: int| 0 <= i < q.len() && #[trigger] stands_out(q, i, true);
            if i < m {
                assert(q[m] == false);
                assert forall|j: int| 0 <= j < r.len() && j != i implies #[trigger] r[j] == false by {
                    assert(q[j] == false);
                }
                assert(stands_out(r, i, true));
            } else {
                assert forall|j: int| 0 <= j < m implies !#[trigger] r[j] by {
                    assert(q[j] == false);
                }
            }
        }
    }
}

/// Entry `i` alone is as asked.
pub open spec fn stands_out(q: Seq<bool>, i: int, lone: bool) -> bool {
    q[i] == lone && forall|j: int| 0 <= j < q.len() && j != i ==> #[trigger] q[j] == !lone
}

proof fn counting_the_rest(q: Seq<bool>)
    ensures
        truths(q) + truths(q.map_values(|b: bool| !b)) == q.len(),
    decreases q.len(),
{
    if q.len() > 0 {
        counting_the_rest(q.drop_last());
        let neg = q.map_values(|b: bool| !b);
        assert(neg.drop_last() =~= q.drop_last().map_values(|b: bool| !b));
        assert(neg.last() == !q.last());
    }
}

/// An edge or a vertex is a ridge or a point where one quadrant or octant about it is solid and the
/// others are not, a notch or a pocket where one is not and the others are, and of neither kind
/// otherwise.
#[verifier::spinoff_prover]
#[verifier::rlimit(50)]
pub proof fn kinds_have_one_that_stands_out(q: Seq<bool>)
    requires
        q.len() == 4 || q.len() == 8,
    ensures
        ({
            let kind = if q.len() == 4 {
                edge_corner(q)
            } else {
                vertex_corner(q)
            };
            &&& kind == Some(Corner::Convex) <==> exists|i: int| 0 <= i < q.len() && #[trigger] stands_out(q, i, true)
            &&& kind == Some(Corner::Concave) <==> exists|i: int| 0 <= i < q.len() && #[trigger] stands_out(q, i, false)
        }),
{
    let neg = q.map_values(|b: bool| !b);
    counting_to_one(q);
    counting_to_one(neg);
    counting_the_rest(q);
    assert forall|i: int| 0 <= i < q.len() implies #[trigger] stands_out(neg, i, true) == stands_out(q, i, false) by {
        if stands_out(neg, i, true) {
            assert forall|j: int| 0 <= j < q.len() && j != i implies #[trigger] q[j] == true by {
                assert(neg[j] == false);
            }
        }
        if stands_out(q, i, false) {
            assert forall|j: int| 0 <= j < neg.len() && j != i implies #[trigger] neg[j] == false by {
                assert(q[j] == true);
            }
        }
    }
    if exists|i: int| 0 <= i < neg.len() && #[trigger] stands_out(neg, i, true) {
        let i = choose|i: int| 0 <= i < neg.len() && #[trigger] stands_out(neg, i, true);
        assert(stands_out(q, i, false));
    }
    if exists|i: int| 0 <= i < q.len() && #[trigger] stands_out(q, i, false) {
        let i = choose|i: int| 0 <= i < q.len() && #[trigger] stands_out(q, i, false);
        assert(stands_out(neg, i, true));
    }
}

/// The quadrants about a rim are numbered below inside, below outside, above inside, above outside. A
/// convex rim has its one solid quadrant on the side that the axis, once turned, points away from, and
/// on the side that its wall faces away from; a concave rim has its one empty quadrant where both
/// point.
pub proof fn rims_face_the_air(q: Seq<bool>, c: RimCorner, above: bool, outside: bool)
    requires
        q.len() == 4,
        set_up(q, c),
    ensures
        ({
            let here = if above {
                if outside {
                    q[3]
                } else {
                    q[2]
                }
            } else if outside {
                q[1]
            } else {
                q[0]
            };
            let before_cap = above != c.flip_axis;
            let before_wall = outside == c.wall_out;
            here == match c.kind {
                Corner::Convex => !before_cap && !before_wall,
                Corner::Concave => !before_cap || !before_wall,
            }
        }),
{
    let cap = above != c.flip_axis;
    let wall = outside == c.wall_out;
    assert((cap != c.flip_axis) == above && (wall == c.wall_out) == outside);
    let seen = seen_along(q, c, cap, wall);
}

/// The pieces come edge by edge: an edge as it is, all the sides of a polygon in order, and nothing of
/// a curve.
pub proof fn pieces_come_edge_by_edge(shapes: Seq<EdgeShape>, sides: Seq<usize>, n: int)
    requires
        0 <= n <= shapes.len(),
    ensures
        round_pieces(shapes, sides, n) == Seq::new(
            n as nat,
            |e: int|
                if shapes[e] == EdgeShape::Whole {
                    seq![RoundPiece::Whole { edge: e as usize }]
                } else if shapes[e] == EdgeShape::Sides {
                    Seq::new(sides[e] as nat, |i: int| RoundPiece::Side { edge: e as usize, side: i as usize })
                } else {
                    Seq::empty()
                },
        ).flatten(),
    decreases n,
{
    let f = |e: int|
        if shapes[e] == EdgeShape::Whole {
            seq![RoundPiece::Whole { edge: e as usize }]
        } else if shapes[e] == EdgeShape::Sides {
            Seq::new(sides[e] as nat, |i: int| RoundPiece::Side { edge: e as usize, side: i as usize })
        } else {
            Seq::empty()
        };
    if n > 0 {
        pieces_come_edge_by_edge(shapes, sides, n - 1);
        assert(Seq::new(n as nat, f) =~= Seq::new((n - 1) as nat, f).push(f(n - 1)));
        Seq::new((n - 1) as nat, f).lemma_flatten_push(f(n - 1));
        assert(round_pieces(shapes, sides, n) =~= round_pieces(shapes, sides, n - 1) + f(n - 1));
    } else {
        assert(Seq::new(0, f) =~= Seq::<Seq<RoundPiece>>::empty());
        assert(Seq::new(0, f).flatten() =~= Seq::<RoundPiece>::empty());
    }
}

/// The curves are listed apart, in order.
pub proof fn curves_are_kept_apart(shapes: Seq<EdgeShape>, n: int)
    requires
        0 <= n <= shapes.len(),
    ensures
        curves(shapes, n) == Seq::new(n as nat, |i: int| i).filter(|e: int| shapes[e] == EdgeShape::Curved).map_values(|e: int| e as usize),
    decreases n,
{
    reveal(Seq::filter);
    let (test, made) = (|e: int| shapes[e] == EdgeShape::Curved, |e: int| e as usize);
    let all = Seq::new(n as nat, |i: int| i);
    if n > 0 {
        curves_are_kept_apart(shapes, n - 1);
        let rest = Seq::new((n - 1) as nat, |i: int| i);
        assert(all.drop_last() =~= rest);
        assert(all.last() == n - 1);
        let kept = rest.filter(test);
        assert(kept.push(n - 1).map_values(made) =~= kept.map_values(made).push(made(n - 1)));
        assert(curves(shapes, n) =~= all.filter(test).map_values(made));
    } else {
        assert(curves(shapes, n) =~= all.filter(test).map_values(made));
    }
}

/// A ring of three points or more that is no polygon bends somewhere: over some stretch without a
/// corner it bends one way by more than a little.
#[verifier::spinoff_prover]
#[verifier::rlimit(50)]
pub proof fn curves_bend_somewhere(turns: Seq<Turn>) -> (r: (int, int, bool))
    requires
        turns.len() >= 3,
        !is_polygonal(turns),
    ensures
        0 <= r.0 <= r.1 <= turns.len(),
        forall|i: int| r.0 <= i < r.1 ==> bends_or_not(#[trigger] turns[i], r.2),
        bend_between(turns, r.0, r.1) > 260_000_000,
{
    let b = choose|n: int| 0 <= n <= turns.len() && (#[trigger] bending(turns, n)).1 > ARC_TOTAL;
    let a = bend_starts(turns, b);
    (a, b, bending(turns, b).0 == Some(true))
}

proof fn bend_starts(turns: Seq<Turn>, n: int) -> (a: int)
    requires
        0 <= n <= turns.len(),
    ensures
        0 <= a <= n,
        bend_between(turns, a, n) == bending(turns, n).1,
        bending(turns, n).0 matches Some(left) ==> forall|i: int| a <= i < n ==> bends_or_not(#[trigger] turns[i], left),
        bending(turns, n).0 is None ==> bending(turns, n).1 == 0,
    decreases n,
{
    if n == 0 {
        0
    } else {
        let a = bend_starts(turns, n - 1);
        let (side, run) = bending(turns, n - 1);
        match turns[n - 1] {
            Turn::Straight => a,
            Turn::Corner => {
                assert(bend_between(turns, n, n) == 0);
                n
            },
            Turn::Bend { left, angle } => {
                if side == Some(left) {
                    a
                } else {
                    assert(bend_between(turns, n - 1, n - 1) == 0);
                    assert(bend_between(turns, n - 1, n) == angle);
                    n - 1
                }
            },
        }
    }
}

proof fn arc_points(i: int, end: int, n: int, m: int)
    requires
        0 <= i < n <= usize::MAX,
        0 <= end < n,
        0 <= m < arc_from(i, end, n).len(),
    ensures
        arc_from(i, end, n)[0] == i,
        arc_from(i, end, n).last() == end,
        arc_from(i, end, n)[m] < n,
        m + 1 < arc_from(i, end, n).len() ==> arc_from(i, end, n)[m + 1] == after(arc_from(i, end, n)[m] as int, n),
        0 < m < arc_from(i, end, n).len() - 1 ==> {
            let x = arc_from(i, end, n)[m];
            if i <= end {
                i < x < end
            } else {
                x > i || x < end
            }
        },
    decreases (if i <= end {
        end - i
    } else {
        n - i + end
    }),
{
    let run = arc_from(i, end, n);
    if i != end {
        let j = after(i, n);
        let rest = arc_from(j, end, n);
        assert(run == seq![i as usize] + rest);
        arc_starts(j, end, n);
        arc_points(j, end, n, if m > 0 {
            m - 1
        } else {
            0
        });
        assert(run.last() == rest.last());
        if m > 0 {
            assert(run[m] == rest[m - 1]);
            if m + 1 < run.len() {
                assert(run[m + 1] == rest[m]);
            }
        } else {
            assert(run[1] == rest[0]);
        }
    }
}

/// Each side of a ring runs from a sharp corner over points that are not sharp to the next sharp
/// corner, step by step.
#[verifier::spinoff_prover]
#[verifier::rlimit(50)]
pub proof fn sides_run_from_corner_to_corner(runs: Seq<Vec<usize>>, sharp: Seq<bool>, k: int, m: int)
    requires
        is_sides(runs, sharp),
        corners_of(sharp, sharp.len() as int).len() >= 2,
        sharp.len() <= usize::MAX,
        0 <= k < runs.len(),
        0 <= m < runs[k]@.len(),
    ensures
        sharp[runs[k]@[0] as int],
        sharp[runs[k]@.last() as int],
        runs[k]@[m] < sharp.len(),
        sharp[runs[k]@[m] as int] <==> m == 0 || m == runs[k]@.len() - 1,
        m + 1 < runs[k]@.len() ==> runs[k]@[m + 1] == if runs[k]@[m] + 1 == sharp.len() {
            0
        } else {
            runs[k]@[m] + 1
        },
{
    let n = sharp.len() as int;
    let cs = corners_of(sharp, n);
    let c = cs.len() as int;
    corners_in_range(sharp, n);
    let (i, end) = (cs[k] as int, cs[after(k, c)] as int);
    assert(sharp[i] && sharp[end]);
    assert(runs[k]@ == arc_from(i, end, n));
    arc_points(i, end, n, m);
    let x = runs[k]@[m];
    if 0 < m < runs[k]@.len() - 1 && sharp[x as int] {
        assert(cs.contains(x));
        let p = choose|p: int| 0 <= p < cs.len() && cs[p] == x;
        if k + 1 < c {
            if p <= k {
                assert(cs[p] <= cs[k]);
            } else {
                assert(cs[k + 1] <= cs[p]);
            }
        } else {
            assert(cs[0] <= cs[p] <= cs[c - 1]);
        }
    }
}

/// At a corner each event is listed that speaks of a face of its own: no two that are listed are
/// alike, and one that is left out is like one listed before it.
#[verifier::spinoff_prover]
#[verifier::rlimit(50)]
pub proof fn gathered_faces_are_unlike<F: Fn(usize, usize) -> bool>(keys: Seq<Key>, alike: F, key: Key, n: int)
    requires
        0 <= n <= keys.len() <= usize::MAX,
    ensures
        forall|k: int|
            0 <= k < unlike_at(keys, alike, key, n).len() ==> (#[trigger] unlike_at(keys, alike, key, n)[k]) < n && keys[unlike_at(keys, alike, key, n)[k] as int]
                == key,
        forall|j: int, k: int|
            0 <= j < k < unlike_at(keys, alike, key, n).len() ==> {
                let (x, y) = (#[trigger] unlike_at(keys, alike, key, n)[j], #[trigger] unlike_at(keys, alike, key, n)[k]);
                x < y && !says(alike, x, y)
            },
        forall|i: usize|
            i < n && keys[i as int] == key && !#[trigger] unlike_at(keys, alike, key, n).contains(i) ==> exists|k: int|
                0 <= k < unlike_at(keys, alike, key, n).len() && (#[trigger] unlike_at(keys, alike, key, n)[k]) < i && says(
                    alike,
                    unlike_at(keys, alike, key, n)[k],
                    i,
                ),
    decreases n,
{
    if n > 0 {
        gathered_faces_are_unlike(keys, alike, key, n - 1);
        let (rest, all) = (unlike_at(keys, alike, key, n - 1), unlike_at(keys, alike, key, n));
        let m = rest.len() as int;
        let last = (n - 1) as usize;
        assert(forall|k: int| 0 <= k < m ==> #[trigger] all[k] == rest[k]);
        assert forall|j: int, k: int| 0 <= j < k < all.len() implies ({
            let (x, y) = (#[trigger] all[j], #[trigger] all[k]);
            x < y && !says(alike, x, y)
        }) by {
            assert(all[j] == rest[j]);
            if k < m {
                assert(all[k] == rest[k]);
            } else {
                assert(!is_alike(alike, rest, last));
            }
        }
        assert forall|i: usize| i < n && keys[i as int] == key && !#[trigger] all.contains(i) implies exists|k: int|
            0 <= k < all.len() && (#[trigger] all[k]) < i && says(alike, all[k], i) by {
            if i < n - 1 {
                if rest.contains(i) {
                    let k = choose|k: int| 0 <= k < m && rest[k] == i;
                    assert(all[k] == i);
                }
                let k = choose|k: int| 0 <= k < m && (#[trigger] rest[k]) < i && says(alike, rest[k], i);
                assert(all[k] == rest[k]);
            } else {
                if !is_alike(alike, rest, last) {
                    assert(all[m] == i);
                }
                let k = choose|k: int| 0 <= k < m && says(alike, #[trigger] rest[k], i);
                assert(all[k] == rest[k]);
            }
        }
    }
}

/// A corner is rounded where three faces or more meet, by the first three of them, in order.
pub proof fn three_faces_make_a_corner(lists: Seq<Vec<usize>>, n: int)
    requires
        0 <= n <= lists.len(),
    ensures
        meetings(lists, n) == Seq::new(n as nat, |i: int| i).filter(|c: int| lists[c]@.len() > 2).map_values(|c: int| (lists[c]@[0], lists[c]@[1], lists[c]@[2])),
    decreases n,
{
    reveal(Seq::filter);
    let (test, made) = (|c: int| lists[c]@.len() > 2, |c: int| (lists[c]@[0], lists[c]@[1], lists[c]@[2]));
    let all = Seq::new(n as nat, |i: int| i);
    if n > 0 {
        three_faces_make_a_corner(lists, n - 1);
        let rest = Seq::new((n - 1) as nat, |i: int| i);
        assert(all.drop_last() =~= rest);
        assert(all.last() == n - 1);
        let kept = rest.filter(test);
        assert(kept.push(n - 1).map_values(made) =~= kept.map_values(made).push(made(n - 1)));
        assert(meetings(lists, n) =~= all.filter(test).map_values(made));
    } else {
        assert(meetings(lists, n) =~= all.filter(test).map_values(made));
    }
}

/// A wall trims where it is in reach, has the whole body behind it, and is the first in reach in its
/// plane.
pub proof fn walls_trim_once_per_plane(keys: Seq<Key>, near: Seq<bool>, supports: Seq<bool>, n: int)
    requires
        0 <= n <= keys.len(),
    ensures
        trimming(keys, near, supports, n) == Seq::new(n as nat, |i: int| i).filter(|i: int| near[i] && supports[i] && forall|j: int| 0 <= j < i && keys[j] == keys[i] ==> !#[trigger] near[j]).map_values(|i: int| i as usize),
    decreases n,
{
    reveal(Seq::filter);
    let (test, made) = (|i: int| near[i] && supports[i] && forall|j: int| 0 <= j < i && keys[j] == keys[i] ==> !#[trigger] near[j], |i: int| i as usize);
    let all = Seq::new(n as nat, |i: int| i);
    if n > 0 {
        walls_trim_once_per_plane(keys, near, supports, n - 1);
        assert(test(n - 1) == (near[n - 1] && supports[n - 1] && !in_plane_before(keys, near, n - 1)));
        let rest = Seq::new((n - 1) as nat, |i: int| i);
        assert(all.drop_last() =~= rest);
        assert(all.last() == n - 1);
        let kept = rest.filter(test);
        assert(kept.push(n - 1).map_values(made) =~= kept.map_values(made).push(made(n - 1)));
        assert(trimming(keys, near, supports, n) =~= all.filter(test).map_values(made));
    } else {
        assert(trimming(keys, near, supports, n) =~= all.filter(test).map_values(made));
    }
}

} // verus!
