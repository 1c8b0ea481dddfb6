//! Glyph outlines: the strokes of a glyph cut into closed contours.
//!
//! A curve is replaced by points along it. A point on a curve is named by the curve and a step, and
//! placed by the caller.

use vstd::prelude::*;

verus! {

/// How many pieces a quadratic curve is cut into.
pub const QUAD_STEPS: u8 = 8;

/// How many pieces a cubic curve is cut into.
pub const CUBIC_STEPS: u8 = 12;

/// One stroke of the pen.
#[derive(Clone, Copy, Debug)]
pub enum Stroke<P> {
    /// Lift the pen and start anew.
    Move(P),
    Line(P),
    /// A quadratic curve: its control point and its end.
    Quad(P, P),
    /// A cubic curve: its control points and its end.
    Curve(P, P, P),
    /// Close the contour.
    Close,
}

/// A point of a contour.
#[derive(Clone, Copy, Debug)]
pub enum ContourPoint<P> {
    At(P),
    /// On a quadratic curve, `step` of its pieces from its start.
    OnQuad { start: P, control: P, end: P, step: u8 },
    /// On a cubic curve, `step` of its pieces from its start.
    OnCurve { start: P, first: P, second: P, end: P, step: u8 },
}

/// What has been drawn: the contours that are complete, the one under the pen, and the pen.
pub struct Sheet<P> {
    pub done: Seq<Seq<ContourPoint<P>>>,
    pub current: Seq<ContourPoint<P>>,
    pub pen: P,
}

/// The points of a quadratic curve after its start.
pub open spec fn quad_points<P>(start: P, control: P, end: P) -> Seq<ContourPoint<P>> {
    Seq::new(QUAD_STEPS as nat, |i: int| ContourPoint::OnQuad { start, control, end, step: (i + 1) as u8 })
}

/// The points of a cubic curve after its start.
pub open spec fn curve_points<P>(start: P, first: P, second: P, end: P) -> Seq<ContourPoint<P>> {
    Seq::new(CUBIC_STEPS as nat, |i: int| ContourPoint::OnCurve { start, first, second, end, step: (i + 1) as u8 })
}

/// The contour under the pen is completed. One of fewer than three points is dropped.
pub open spec fn flushed<P>(s: Sheet<P>) -> Sheet<P> {
    Sheet { done: if s.current.len() >= 3 { s.done.push(s.current) } else { s.done }, current: Seq::empty(), pen: s.pen }
}

/// What one stroke adds.
pub open spec fn stroked<P>(s: Sheet<P>, stroke: Stroke<P>) -> Sheet<P> {
    match stroke {
        Stroke::Move(p) => Sheet { done: flushed(s).done, current: seq![ContourPoint::At(p)], pen: p },
        Stroke::Line(p) => Sheet { done: s.done, current: s.current.push(ContourPoint::At(p)), pen: p },
        Stroke::Quad(c, p) => Sheet { done: s.done, current: s.current + quad_points(s.pen, c, p), pen: p },
        Stroke::Curve(c, d, p) => Sheet { done: s.done, current: s.current + curve_points(s.pen, c, d, p), pen: p },
        Stroke::Close => flushed(s),
    }
}

/// What the first `n` strokes draw with the pen at `start`.
pub open spec fn drawn<P>(strokes: Seq<Stroke<P>>, start: P, n: int) -> Sheet<P>
    decreases n,
{
    if n <= 0 {
        Sheet { done: Seq::empty(), current: Seq::empty(), pen: start }
    } else {
        stroked(drawn(strokes, start, n - 1), strokes[n - 1])
    }
}

/// The contours of a glyph.
pub open spec fn contours_of<P>(strokes: Seq<Stroke<P>>, start: P) -> Seq<Seq<ContourPoint<P>>> {
    flushed(drawn(strokes, start, strokes.len() as int)).done
}

/// The lists as sequences.
pub open spec fn points_of<P>(lists: Seq<Vec<ContourPoint<P>>>) -> Seq<Seq<ContourPoint<P>>> {
    lists.map_values(|v: Vec<ContourPoint<P>>| v@)
}

/// Complete a contour.
fn flush<P>(done: &mut Vec<Vec<ContourPoint<P>>>, current: Vec<ContourPoint<P>>)
    ensures
        points_of(final(done)@) == (if current@.len() >= 3 { points_of(old(done)@).push(current@) } else { points_of(old(done)@) }),
{
    if current.len() >= 3 {
        let ghost before = done@;
        done.push(current);
        assert(points_of(done@) =~= points_of(before).push(current@));
    }
}

/// Cut the strokes of a glyph into closed contours, with the pen at `start` before the first.
pub fn contours<P: Copy>(strokes: &Vec<Stroke<P>>, start: P) -> (out: Vec<Vec<ContourPoint<P>>>)
    ensures
        points_of(out@) == contours_of(strokes@, start),
{
    let mut done: Vec<Vec<ContourPoint<P>>> = Vec::new();
    let mut current: Vec<ContourPoint<P>> = Vec::new();
    let mut pen: P = start;
    assert(points_of(done@) =~= Seq::empty());
    let mut n: usize = 0;
    while n < strokes.len()
        invariant
            n <= strokes@.len(),
            points_of(done@) == drawn(strokes@, start, n as int).done,
            current@ == drawn(strokes@, start, n as int).current,
            pen == drawn(strokes@, start, n as int).pen,
        decreases strokes@.len() - n,
    {
        let ghost s = drawn(strokes@, start, n as int);
        assert(drawn(strokes@, start, n + 1) == stroked(s, strokes@[n as int]));
        match strokes[n] {
            Stroke::Move(p) => {
                flush(&mut done, current);
                current = Vec::new();
                current.push(ContourPoint::At(p));
                pen = p;
                assert(current@ =~= seq![ContourPoint::At(p)]);
            },
            Stroke::Line(p) => {
                current.push(ContourPoint::At(p));
                pen = p;
            },
            Stroke::Quad(c, p) => {
                let mut i: u8 = 0;
                while i < QUAD_STEPS
                    invariant
                        i <= QUAD_STEPS,
                        pen == s.pen,
                        current@ == s.current + quad_points(s.pen, c, p).take(i as int),
                    decreases QUAD_STEPS - i,
                {
                    current.push(ContourPoint::OnQuad { start: pen, control: c, end: p, step: i + 1 });
                    assert(quad_points(s.pen, c, p).take(i + 1) =~= quad_points(s.pen, c, p).take(i as int).push(current@.last()));
                    i = i + 1;
                }
                pen = p;
                assert(quad_points(s.pen, c, p).take(QUAD_STEPS as int) =~= quad_points(s.pen, c, p));
            },
            Stroke::Curve(c, d, p) => {
                let mut i: u8 = 0;
                while i < CUBIC_STEPS
                    invariant
                        i <= CUBIC_STEPS,
                        pen == s.pen,
                        current@ == s.current + curve_points(s.pen, c, d, p).take(i as int),
                    decreases CUBIC_STEPS - i,
                {
                    current.push(ContourPoint::OnCurve { start: pen, first: c, second: d, end: p, step: i + 1 });
                    assert(curve_points(s.pen, c, d, p).take(i + 1) =~= curve_points(s.pen, c, d, p).take(i as int).push(current@.last()));
                    i = i + 1;
                }
                pen = p;
                assert(curve_points(s.pen, c, d, p).take(CUBIC_STEPS as int) =~= curve_points(s.pen, c, d, p));
            },
            Stroke::Close => {
                flush(&mut done, current);
                current = Vec::new();
                assert(current@ =~= Seq::empty());
            },
        }
        n = n + 1;
    }
    flush(&mut done, current);
    done
}

/// A contour bounds an area: it has three points or more.
pub proof fn contours_bound_areas<P>(strokes: Seq<Stroke<P>>, start: P, c: int)
    requires
        0 <= c < contours_of(strokes, start).len(),
    ensures
        contours_of(strokes, start)[c].len() >= 3,
{
    drawn_contours_bound_areas(strokes, start, strokes.len() as int);
}

proof fn drawn_contours_bound_areas<P>(strokes: Seq<Stroke<P>>, start: P, n: int)
    ensures
        forall|c: int| 0 <= c < drawn(strokes, start, n).done.len() ==> (#[trigger] drawn(strokes, start, n).done[c]).len() >= 3,
    decreases n,
{
    if n > 0 {
        drawn_contours_bound_areas(strokes, start, n - 1);
        let before = drawn(strokes, start, n - 1);
        let after = drawn(strokes, start, n);
        assert(after == stroked(before, strokes[n - 1]));
        assert forall|c: int| 0 <= c < after.done.len() implies (#[trigger] after.done[c]).len() >= 3 by {
            if c < before.done.len() {
                assert(after.done[c] == before.done[c]);
            }
        }
    }
}

/// A stroke that ends at a point leaves the pen there, so that a curve starts where the stroke before
/// it ended.
pub proof fn strokes_join<P>(strokes: Seq<Stroke<P>>, start: P, n: int)
    requires
        0 < n <= strokes.len(),
    ensures
        match strokes[n - 1] {
            Stroke::Move(p) => drawn(strokes, start, n).pen == p,
            Stroke::Line(p) => drawn(strokes, start, n).pen == p,
            Stroke::Quad(_, p) => drawn(strokes, start, n).pen == p,
            Stroke::Curve(_, _, p) => drawn(strokes, start, n).pen == p,
            Stroke::Close => drawn(strokes, start, n).pen == drawn(strokes, start, n - 1).pen,
        },
{
}

/// Where a stroke leaves the pen.
pub open spec fn end_of<P>(stroke: Stroke<P>) -> Option<P> {
    match stroke {
        Stroke::Move(p) => Some(p),
        Stroke::Line(p) => Some(p),
        Stroke::Quad(_, p) => Some(p),
        Stroke::Curve(_, _, p) => Some(p),
        Stroke::Close => None,
    }
}

/// The points that a stroke with the pen down lays from where the stroke before it ended: the end of a
/// line, and along a curve every step up to its end.
pub open spec fn laid<P>(from: P, stroke: Stroke<P>) -> Seq<ContourPoint<P>> {
    match stroke {
        Stroke::Line(p) => seq![ContourPoint::At(p)],
        Stroke::Quad(c, p) => Seq::new(8, |i: int| ContourPoint::OnQuad { start: from, control: c, end: p, step: (i + 1) as u8 }),
        Stroke::Curve(c, d, p) => Seq::new(
            12,
            |i: int| ContourPoint::OnCurve { start: from, first: c, second: d, end: p, step: (i + 1) as u8 },
        ),
        _ => Seq::empty(),
    }
}

/// From stroke `a`, which puts the pen down, to before stroke `b` the pen stays down.
pub open spec fn pen_down<P>(strokes: Seq<Stroke<P>>, a: int, b: int) -> bool {
    &&& 0 <= a < b <= strokes.len()
    &&& strokes[a] is Move
    &&& forall|i: int| a < i < b ==> (#[trigger] strokes[i]) is Line || strokes[i] is Quad || strokes[i] is Curve
}

/// What is drawn while the pen is down.
pub open spec fn run_of<P>(strokes: Seq<Stroke<P>>, a: int, b: int) -> Seq<ContourPoint<P>> {
    seq![ContourPoint::At(strokes[a]->Move_0)] + Seq::new(
        (b - a - 1) as nat,
        |i: int| laid(end_of(strokes[a + i])->0, strokes[a + i + 1]),
    ).flatten()
}

#[verifier::spinoff_prover]
#[verifier::rlimit(50)]
proof fn run_is_drawn<P>(strokes: Seq<Stroke<P>>, start: P, a: int, b: int)
    requires
        pen_down(strokes, a, b),
    ensures
        drawn(strokes, start, b).current == run_of(strokes, a, b),
        drawn(strokes, start, b).done == drawn(strokes, start, a + 1).done,
        Some(drawn(strokes, start, b).pen) == end_of(strokes[b - 1]),
    decreases b - a,
{
    let f = |i: int| laid(end_of(strokes[a + i])->0, strokes[a + i + 1]);
    if b > a + 1 {
        run_is_drawn(strokes, start, a, b - 1);
        assert(strokes[b - 1] is Line || strokes[b - 1] is Quad || strokes[b - 1] is Curve);
        assert(Seq::new((b - a - 1) as nat, f) =~= Seq::new((b - a - 2) as nat, f).push(f(b - a - 2)));
        Seq::new((b - a - 2) as nat, f).lemma_flatten_push(f(b - a - 2));
        assert(a + (b - a - 2) == b - 2);
        assert(drawn(strokes, start, b).current =~= run_of(strokes, a, b));
    } else {
        assert(Seq::new(0, f) =~= Seq::<Seq<ContourPoint<P>>>::empty());
        assert(Seq::new(0, f).flatten() =~= Seq::<ContourPoint<P>>::empty());
        assert(drawn(strokes, start, b).current =~= run_of(strokes, a, b));
    }
}

proof fn done_stays<P>(strokes: Seq<Stroke<P>>, start: P, m: int, n: int)
    requires
        0 <= m <= n,
    ensures
        drawn(strokes, start, m).done.len() <= drawn(strokes, start, n).done.len(),
        forall|c: int|
            0 <= c < drawn(strokes, start, m).done.len() ==> #[trigger] drawn(strokes, start, n).done[c] == drawn(strokes, start, m).done[c],
    decreases n - m,
{
    if m < n {
        done_stays(strokes, start, m, n - 1);
        let (x, y) = (drawn(strokes, start, n - 1), drawn(strokes, start, n));
        assert(forall|c: int| 0 <= c < x.done.len() ==> #[trigger] y.done[c] == x.done[c]);
    }
}

/// What is drawn between putting the pen down and lifting it, or closing, or the last stroke, is a
/// contour, after those completed before; one of fewer than three points is not.
#[verifier::spinoff_prover]
#[verifier::rlimit(50)]
pub proof fn contours_run_from_lift_to_lift<P>(strokes: Seq<Stroke<P>>, start: P, a: int, b: int)
    requires
        pen_down(strokes, a, b),
        b < strokes.len() ==> strokes[b] is Move || strokes[b] is Close,
    ensures
        ({
            let c = drawn(strokes, start, a + 1).done.len() as int;
            let run = run_of(strokes, a, b);
            &&& run.len() >= 3 ==> c < contours_of(strokes, start).len() && contours_of(strokes, start)[c] == run
            &&& b < strokes.len() ==> drawn(strokes, start, b + 1).done.len() == c + if run.len() >= 3 {
                1int
            } else {
                0int
            }
            &&& b == strokes.len() ==> contours_of(strokes, start).len() == c + if run.len() >= 3 {
                1int
            } else {
                0int
            }
        }),
{
    run_is_drawn(strokes, start, a, b);
    if b < strokes.len() {
        let s = drawn(strokes, start, b);
        assert(drawn(strokes, start, b + 1) == stroked(s, strokes[b]));
        done_stays(strokes, start, b + 1, strokes.len() as int);
    }
}

/// Only lifting the pen or closing completes a contour: a stroke with the pen down adds its points to
/// the contour under the pen and leaves the others as they are.
#[verifier::spinoff_prover]
#[verifier::rlimit(50)]
pub proof fn only_lifts_complete_contours<P>(strokes: Seq<Stroke<P>>, start: P, n: int)
    requires
        0 < n <= strokes.len(),
    ensures
        ({
            let (x, y) = (drawn(strokes, start, n - 1), drawn(strokes, start, n));
            &&& strokes[n - 1] is Line || strokes[n - 1] is Quad || strokes[n - 1] is Curve ==> y.done == x.done && y.current == x.current + laid(
                x.pen,
                strokes[n - 1],
            )
            &&& strokes[n - 1] is Move || strokes[n - 1] is Close ==> y.done == if x.current.len() >= 3 {
                x.done.push(x.current)
            } else {
                x.done
            }
            &&& strokes[n - 1] is Close ==> y.current.len() == 0
            &&& strokes[n - 1] is Move ==> y.current == seq![ContourPoint::At(strokes[n - 1]->Move_0)]
        }),
{
    let (x, y) = (drawn(strokes, start, n - 1), drawn(strokes, start, n));
    if strokes[n - 1] is Line || strokes[n - 1] is Quad || strokes[n - 1] is Curve {
        assert(y.current =~= x.current + laid(x.pen, strokes[n - 1]));
    }
}

} // verus!
