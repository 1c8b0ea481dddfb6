//! Turning a tessellated profile ring back into lines and arcs.

use vstd::prelude::*;

verus! {

/// A run of ring edges that were cut from one circle: the first edge, and how many follow it.
#[derive(Clone, Copy, PartialEq, Eq, Structural, Debug)]
pub struct ArcSpan {
    pub first_edge: usize,
    pub count: usize,
}

/// The point that an arc passes on its way.
#[derive(Clone, Copy, PartialEq, Eq, Structural, Debug)]
pub enum Transit {
    /// A vertex of the ring, which lies on the circle.
    Vertex(usize),
    /// The middle of the chord, projected onto the circle of this span.
    Projected(usize),
}

/// A piece of a profile between two vertices of the ring.
#[derive(Clone, Copy, PartialEq, Eq, Structural, Debug)]
pub enum PathSeg {
    Line { a: usize, b: usize },
    Arc { a: usize, b: usize, transit: Transit },
}

/// What the geometry says of the ring's edges and spans.
pub struct RingMarks {
    /// The edge's two ends do not coincide.
    pub apart: Vec<bool>,
    /// The span's two ends do not coincide.
    pub open: Vec<bool>,
    /// The middle of the span's chord lies off its centre, so that it can be projected.
    pub projectable: Vec<bool>,
    /// The span bulges enough to tell it from its chord.
    pub bowed: Vec<bool>,
}

/// How far edge `e` lies behind edge `first` around a ring of `n`.
pub open spec fn offset(e: int, first: int, n: int) -> int {
    if e >= first {
        e - first
    } else {
        e + n - first
    }
}

/// The span covers edge `e` of a ring of `n`.
pub open spec fn covers(span: ArcSpan, e: int, n: int) -> bool {
    offset(e, span.first_edge as int, n) < span.count
}

/// The span starts on the ring and does not run around it more than once.
pub open spec fn fits(span: ArcSpan, n: int) -> bool {
    0 < span.count <= n && span.first_edge < n
}

/// Two of the spans cover the same edge.
pub open spec fn overlap(spans: Seq<ArcSpan>, n: int) -> bool {
    exists|s: int, t: int, e: int|
        0 <= s < t < spans.len() && 0 <= e < n && #[trigger] covers(spans[s], e, n) && #[trigger] covers(spans[t], e, n)
}

/// The spans can be laid out on a ring of `n`.
pub open spec fn laid_out(spans: Seq<ArcSpan>, n: int) -> bool {
    &&& forall|s: int| 0 <= s < spans.len() ==> fits(#[trigger] spans[s], n)
    &&& !overlap(spans, n)
}

/// No span covers edge `e`.
pub open spec fn uncovered(spans: Seq<ArcSpan>, e: int, n: int) -> bool {
    forall|s: int| 0 <= s < spans.len() ==> !covers(#[trigger] spans[s], e, n)
}

/// `owner` gives for each edge the span that covers it.
pub open spec fn owns(owner: Seq<Option<usize>>, spans: Seq<ArcSpan>, n: int) -> bool {
    &&& owner.len() == n
    &&& forall|e: int|
        0 <= e < n ==> (match #[trigger] owner[e] {
            Some(s) => s < spans.len() && covers(spans[s as int], e, n),
            None => uncovered(spans, e, n),
        })
}

/// The edge after `e`, or the vertex that it leads to.
pub open spec fn wrap(e: int, n: int) -> int {
    if e >= n {
        e - n
    } else {
        e
    }
}

/// Find the span that covers each edge, unless the spans cannot be laid out.
#[verifier::loop_isolation(false)]
fn owners(spans: &Vec<ArcSpan>, n: usize) -> (found: Option<Vec<Option<usize>>>)
    requires
        2 * n <= usize::MAX,
    ensures
        found is Some <==> laid_out(spans@, n as int),
        found matches Some(owner) ==> owns(owner@, spans@, n as int),
{
    let mut owner: Vec<Option<usize>> = Vec::with_capacity(n);
    let mut e: usize = 0;
    while e < n
        invariant
            e <= n,
            owner@.len() == e,
            forall|k: int| 0 <= k < e ==> (#[trigger] owner@[k]) is None,
        decreases n - e,
    {
        owner.push(None);
        e = e + 1;
    }
    let mut s: usize = 0;
    assert(spans@.take(0) =~= Seq::<ArcSpan>::empty());
    while s < spans.len()
        invariant
            s <= spans@.len(),
            laid_out(spans@.take(s as int), n as int),
            owns(owner@, spans@.take(s as int), n as int),
        decreases spans@.len() - s,
    {
        let span: ArcSpan = spans[s];
        let ghost before = spans@.take(s as int);
        let ghost now = spans@.take(s + 1);
        if span.count == 0 || span.count > n || span.first_edge >= n {
            assert(!fits(spans@[s as int], n as int));
            return None;
        }
        let ghost owner0 = owner@;
        let mut k: usize = 0;
        while k < span.count
            invariant
                k <= span.count,
                owner@.len() == n,
                forall|e: int|
                    0 <= e < n ==> #[trigger] owner@[e] == (if offset(e, span.first_edge as int, n as int) < k {
                        Some(s)
                    } else {
                        owner0[e]
                    }),
                forall|e: int|
                    0 <= e < n && offset(e, span.first_edge as int, n as int) < k ==> (#[trigger] owner0[e]) is None,
            decreases span.count - k,
        {
            let e: usize = if span.first_edge + k >= n {
                span.first_edge + k - n
            } else {
                span.first_edge + k
            };
            assert(offset(e as int, span.first_edge as int, n as int) == k);
            match owner[e] {
                Some(t) => {
                    proof {
                        assert(owner0[e as int] == Some(t));
                        assert(covers(before[t as int], e as int, n as int));
                        assert(before[t as int] == spans@[t as int]);
                        assert(covers(spans@[t as int], e as int, n as int) && covers(spans@[s as int], e as int, n as int));
                        assert(overlap(spans@, n as int));
                    }
                    return None;
                },
                None => {},
            }
            owner.set(e, Some(s));
            k = k + 1;
        }
        proof {
            assert forall|e: int| 0 <= e < n implies (match #[trigger] owner@[e] {
                Some(t) => t < now.len() && covers(now[t as int], e, n as int),
                None => uncovered(now, e, n as int),
            }) by {
                assert(now[s as int] == span);
                match owner0[e] {
                    Some(t) => {
                        assert(before[t as int] == now[t as int]);
                    },
                    None => {
                        assert forall|t: int| 0 <= t < now.len() && !covers(span, e, n as int) implies !covers(#[trigger] now[t], e, n as int) by {
                            if t < s {
                                assert(before[t] == now[t]);
                                assert(!covers(before[t], e, n as int));
                            }
                        }
                    },
                }
            }
            assert(laid_out(now, n as int)) by {
                assert forall|t: int| 0 <= t < now.len() implies fits(#[trigger] now[t], n as int) by {
                    if t < s {
                        assert(fits(before[t], n as int));
                    }
                }
                if overlap(now, n as int) {
                    let (x, y, e) = choose|x: int, y: int, e: int|
                        0 <= x < y < now.len() && 0 <= e < n && #[trigger] covers(now[x], e, n as int) && #[trigger] covers(
                            now[y],
                            e,
                            n as int,
                        );
                    assert(before[x] == now[x]);
                    if y < s {
                        assert(before[y] == now[y]);
                        assert(covers(before[x], e, n as int) && covers(before[y], e, n as int));
                    } else {
                        assert(owner0[e] is None);
                        assert(!covers(before[x], e, n as int));
                    }
                }
            }
        }
        s = s + 1;
    }
    assert(spans@.take(s as int) =~= spans@);
    Some(owner)
}

/// The piece that stands for span `s`: its chord where it hardly bulges, else an arc over a vertex in
/// its middle, or over its projected chord where it has no vertex inside.
pub open spec fn span_piece(n: int, spans: Seq<ArcSpan>, marks: RingMarks, s: int) -> PathSeg {
    let (first, count) = (spans[s].first_edge as int, spans[s].count as int);
    let (a, b) = (first as usize, wrap(first + count, n) as usize);
    if !marks.bowed@[s] {
        PathSeg::Line { a, b }
    } else if count >= 2 {
        PathSeg::Arc { a, b, transit: Transit::Vertex(wrap(first + count / 2, n) as usize) }
    } else {
        PathSeg::Arc { a, b, transit: Transit::Projected(s as usize) }
    }
}

/// The pieces from place `i` of the walk on that starts at edge `start`, or nothing where a span
/// cannot be turned into a piece.
pub open spec fn pieces_from(
    n: int,
    spans: Seq<ArcSpan>,
    marks: RingMarks,
    owner: Seq<Option<usize>>,
    start: int,
    i: int,
) -> Option<Seq<PathSeg>>
    decreases (if i < n { n - i } else { 0 }),
{
    if i >= n || i < 0 {
        Some(Seq::empty())
    } else {
        let e = wrap(start + i, n);
        match owner[e] {
            None => match pieces_from(n, spans, marks, owner, start, i + 1) {
                None => None,
                Some(rest) => if marks.apart@[e] {
                    Some(seq![PathSeg::Line { a: e as usize, b: wrap(e + 1, n) as usize }] + rest)
                } else {
                    Some(rest)
                },
            },
            Some(s) => {
                let span = spans[s as int];
                if e != span.first_edge || span.count == 0 || !marks.open@[s as int] || (span.count == 1
                    && !marks.projectable@[s as int]) {
                    None
                } else {
                    match pieces_from(n, spans, marks, owner, start, i + span.count) {
                        None => None,
                        Some(rest) => Some(seq![span_piece(n, spans, marks, s as int)] + rest),
                    }
                }
            },
        }
    }
}

/// Edge `e` starts a run: the edge before it has another owner.
pub open spec fn starts_run(owner: Seq<Option<usize>>, e: int) -> bool {
    owner[e] != owner[if e == 0 { owner.len() - 1 } else { e - 1 }]
}

/// The first edge that starts a run, or the first edge of all where none does.
pub open spec fn is_run_start(owner: Seq<Option<usize>>, start: int) -> bool {
    ||| 0 <= start < owner.len() && starts_run(owner, start) && forall|e: int| 0 <= e < start ==> !#[trigger] starts_run(owner, e)
    ||| start == 0 && forall|e: int| 0 <= e < owner.len() ==> !#[trigger] starts_run(owner, e)
}

/// The two half arcs that stand for a ring of `n` cut from a single circle.
pub open spec fn half_arcs(n: int) -> Seq<PathSeg> {
    let h = n / 2;
    seq![
        PathSeg::Arc { a: 0, b: h as usize, transit: Transit::Vertex((h / 2) as usize) },
        PathSeg::Arc { a: h as usize, b: 0, transit: Transit::Vertex((h + (n - h) / 2) as usize) },
    ]
}

/// The marks fit the ring.
pub open spec fn marks_fit(n: int, spans: Seq<ArcSpan>, marks: RingMarks) -> bool {
    &&& marks.apart@.len() == n
    &&& marks.open@.len() == spans.len()
    &&& marks.projectable@.len() == spans.len()
    &&& marks.bowed@.len() == spans.len()
}

/// The pieces of a ring, given a choice of owners and of the edge to start at.
pub open spec fn ring_pieces(
    n: int,
    spans: Seq<ArcSpan>,
    marks: RingMarks,
    owner: Seq<Option<usize>>,
    start: int,
) -> Option<Seq<PathSeg>> {
    match pieces_from(n, spans, marks, owner, start, 0) {
        Some(pieces) => if pieces.len() >= 2 {
            Some(pieces)
        } else {
            None
        },
        None => None,
    }
}

/// Walk the ring from edge `start` and collect its pieces.
#[verifier::loop_isolation(false)]
#[verifier::rlimit(60)]
#[verifier::spinoff_prover]
fn walk_pieces(n: usize, spans: &Vec<ArcSpan>, marks: &RingMarks, owner: &Vec<Option<usize>>, start: usize) -> (found: Option<Vec<PathSeg>>)
    requires
        2 * n <= usize::MAX,
        marks_fit(n as int, spans@, *marks),
        laid_out(spans@, n as int),
        owns(owner@, spans@, n as int),
        start < n,
    ensures
        found matches Some(segs) ==> pieces_from(n as int, spans@, *marks, owner@, start as int, 0) == Some(segs@),
        found is None ==> pieces_from(n as int, spans@, *marks, owner@, start as int, 0) is None,
{
    let mut segs: Vec<PathSeg> = Vec::new();
    let mut i: usize = 0;
    while i < n
        invariant
            i <= n,
            pieces_from(n as int, spans@, *marks, owner@, start as int, 0) == (match pieces_from(
                n as int,
                spans@,
                *marks,
                owner@,
                start as int,
                i as int,
            ) {
                Some(rest) => Some(segs@ + rest),
                None => None,
            }),
        decreases n - i,
    {
        let ghost before = segs@;
        let e: usize = if start + i >= n {
            start + i - n
        } else {
            start + i
        };
        match owner[e] {
            None => {
                let ghost rest = pieces_from(n as int, spans@, *marks, owner@, start as int, i + 1);
                if marks.apart[e] {
                    let b: usize = if e + 1 >= n {
                        e + 1 - n
                    } else {
                        e + 1
                    };
                    segs.push(PathSeg::Line { a: e, b });
                    proof {
                        if rest is Some {
                            assert(before + (seq![PathSeg::Line { a: e, b }] + rest->0) =~= segs@ + rest->0);
                        }
                    }
                }
                i = i + 1;
            },
            Some(s) => {
                let span: ArcSpan = spans[s];
                assert(fits(spans@[s as int], n as int));
                assert(covers(spans@[s as int], e as int, n as int));
                if e != span.first_edge {
                    return None;
                }
                if !marks.open[s] {
                    return None;
                }
                if span.count == 1 && !marks.projectable[s] {
                    return None;
                }
                let b: usize = if e + span.count >= n {
                    e + span.count - n
                } else {
                    e + span.count
                };
                let half: usize = span.count / 2;
                let mid: usize = if e + half >= n {
                    e + half - n
                } else {
                    e + half
                };
                let piece: PathSeg = if !marks.bowed[s] {
                    PathSeg::Line { a: e, b }
                } else if span.count >= 2 {
                    PathSeg::Arc { a: e, b, transit: Transit::Vertex(mid) }
                } else {
                    PathSeg::Arc { a: e, b, transit: Transit::Projected(s) }
                };
                assert(piece == span_piece(n as int, spans@, *marks, s as int));
                segs.push(piece);
                proof {
                    let rest = pieces_from(n as int, spans@, *marks, owner@, start as int, i + span.count);
                    if rest is Some {
                        assert(before + (seq![piece] + rest->0) =~= segs@ + rest->0);
                    }
                }
                if span.count >= n - i {
                    proof {
                        assert(segs@ + Seq::<PathSeg>::empty() =~= segs@);
                    }
                    i = n;
                } else {
                    i = i + span.count;
                }
            },
        }
    }
    assert(segs@ + Seq::<PathSeg>::empty() =~= segs@);
    Some(segs)
}

/// Turn a ring of `n` vertices back into lines and arcs. `None` where it has fewer than three
/// vertices, its spans cannot be laid out, a span cannot be turned into a piece, or fewer than two
/// pieces come out.
#[verifier::loop_isolation(false)]
pub fn ring_to_segs(n: usize, spans: &Vec<ArcSpan>, marks: &RingMarks) -> (found: Option<Vec<PathSeg>>)
    requires
        2 * n <= usize::MAX,
        marks_fit(n as int, spans@, *marks),
    ensures
        n < 3 || !laid_out(spans@, n as int) ==> found is None,
        n >= 3 && laid_out(spans@, n as int) ==> {
            if spans@.len() == 1 && spans@[0].count == n {
                if n < 4 {
                    found is None
                } else {
                    found matches Some(segs) && segs@ == half_arcs(n as int)
                }
            } else {
                exists|owner: Seq<Option<usize>>, start: int|
                    #![trigger owns(owner, spans@, n as int), is_run_start(owner, start)]
                    owns(owner, spans@, n as int) && is_run_start(owner, start) && (match found {
                        Some(segs) => ring_pieces(n as int, spans@, *marks, owner, start) == Some(segs@),
                        None => ring_pieces(n as int, spans@, *marks, owner, start) is None,
                    })
            }
        },
{
    if n < 3 {
        return None;
    }
    let owner: Vec<Option<usize>> = match owners(spans, n) {
        Some(owner) => owner,
        None => {
            return None;
        },
    };
    if spans.len() == 1 && spans[0].count == n {
        if n < 4 {
            return None;
        }
        let h: usize = n / 2;
        let mut out: Vec<PathSeg> = Vec::new();
        out.push(PathSeg::Arc { a: 0, b: h, transit: Transit::Vertex(h / 2) });
        out.push(PathSeg::Arc { a: h, b: 0, transit: Transit::Vertex(h + (n - h) / 2) });
        assert(out@ =~= half_arcs(n as int));
        return Some(out);
    }
    let mut start: usize = 0;
    let mut found: bool = false;
    let mut e: usize = 0;
    while e < n && !found
        invariant
            e <= n,
            !found ==> start == 0 && forall|d: int| 0 <= d < e ==> !#[trigger] starts_run(owner@, d),
            found ==> start < n && starts_run(owner@, start as int) && forall|d: int| 0 <= d < start ==> !#[trigger] starts_run(owner@, d),
        decreases n - e,
    {
        let before: usize = if e == 0 {
            n - 1
        } else {
            e - 1
        };
        let same: bool = match (owner[e], owner[before]) {
            (Some(s), Some(t)) => s == t,
            (None, None) => true,
            _ => false,
        };
        if !same {
            assert(starts_run(owner@, e as int));
            start = e;
            found = true;
        }
        e = e + 1;
    }
    assert(is_run_start(owner@, start as int));
    let walked: Option<Vec<PathSeg>> = walk_pieces(n, spans, marks, &owner, start);
    match walked {
        Some(segs) => {
            if segs.len() >= 2 {
                Some(segs)
            } else {
                None
            }
        },
        None => None,
    }
}

/// The piece walked the other way.
pub open spec fn flipped(seg: PathSeg) -> PathSeg {
    match seg {
        PathSeg::Line { a, b } => PathSeg::Line { a: b, b: a },
        PathSeg::Arc { a, b, transit } => PathSeg::Arc { a: b, b: a, transit },
    }
}

/// The vertex that a piece starts from.
pub open spec fn start_of(seg: PathSeg) -> usize {
    match seg {
        PathSeg::Line { a, b } => a,
        PathSeg::Arc { a, b, transit } => a,
    }
}

/// The vertex that a piece leads to.
pub open spec fn end_of(seg: PathSeg) -> usize {
    match seg {
        PathSeg::Line { a, b } => b,
        PathSeg::Arc { a, b, transit } => b,
    }
}

/// The path walked the other way.
pub open spec fn reversed(segs: Seq<PathSeg>) -> Seq<PathSeg> {
    Seq::new(segs.len(), |k: int| flipped(segs[segs.len() - 1 - k]))
}

/// Reverse a path: the pieces in the opposite order, each the other way round.
pub fn reverse_segs(segs: &Vec<PathSeg>) -> (out: Vec<PathSeg>)
    ensures
        out@ == reversed(segs@),
{
    let n: usize = segs.len();
    let mut out: Vec<PathSeg> = Vec::with_capacity(n);
    let mut k: usize = 0;
    while k < n
        invariant
            n == segs@.len(),
            k <= n,
            out@ =~= reversed(segs@).take(k as int),
        decreases n - k,
    {
        let seg: PathSeg = segs[n - 1 - k];
        out.push(
            match seg {
                PathSeg::Line { a, b } => PathSeg::Line { a: b, b: a },
                PathSeg::Arc { a, b, transit } => PathSeg::Arc { a: b, b: a, transit },
            },
        );
        k = k + 1;
    }
    assert(out@ =~= reversed(segs@));
    out
}

/// The vertices that the pieces start from.
pub fn seg_starts(segs: &Vec<PathSeg>) -> (out: Vec<usize>)
    ensures
        out@ == segs@.map_values(|s: PathSeg| start_of(s)),
{
    let n: usize = segs.len();
    let mut out: Vec<usize> = Vec::with_capacity(n);
    let mut k: usize = 0;
    while k < n
        invariant
            n == segs@.len(),
            k <= n,
            out@ =~= segs@.map_values(|s: PathSeg| start_of(s)).take(k as int),
        decreases n - k,
    {
        out.push(
            match segs[k] {
                PathSeg::Line { a, .. } => a,
                PathSeg::Arc { a, .. } => a,
            },
        );
        k = k + 1;
    }
    assert(out@ =~= segs@.map_values(|s: PathSeg| start_of(s)));
    out
}

/// Each piece starts where the one before it ends, and the first where the last ends.
pub open spec fn is_closed_path(segs: Seq<PathSeg>) -> bool {
    forall|k: int|
        0 <= k < segs.len() ==> end_of(#[trigger] segs[k]) == start_of(segs[if k + 1 == segs.len() { 0 } else { k + 1 }])
}

/// Reversing a path twice gives it back, and a closed path stays closed.
pub proof fn reversing_twice(segs: Seq<PathSeg>)
    ensures
        reversed(reversed(segs)) == segs,
        is_closed_path(segs) ==> is_closed_path(reversed(segs)),
{
    assert(reversed(reversed(segs)) =~= segs);
    if is_closed_path(segs) {
        let r = reversed(segs);
        let n = segs.len() as int;
        assert forall|k: int| 0 <= k < r.len() implies end_of(#[trigger] r[k]) == start_of(r[if k + 1 == r.len() { 0 } else { k + 1 }]) by {
            let j = if k + 1 == n { n - 1 } else { n - 2 - k };
            assert(end_of(segs[j]) == start_of(segs[if j + 1 == n { 0 } else { j + 1 }]));
        }
    }
}

proof fn pieces_chain(
    n: int,
    spans: Seq<ArcSpan>,
    marks: RingMarks,
    owner: Seq<Option<usize>>,
    start: int,
    i: int,
)
    requires
        3 <= n <= usize::MAX,
        laid_out(spans, n),
        owns(owner, spans, n),
        0 <= start < n,
        0 <= i < n,
        forall|e: int| 0 <= e < n ==> #[trigger] marks.apart@[e],
        pieces_from(n, spans, marks, owner, start, i) is Some,
        ends_by(n, spans, owner, start, i),
    ensures
        ({
            let p = pieces_from(n, spans, marks, owner, start, i)->0;
            &&& p.len() >= 1
            &&& start_of(p[0]) == wrap(start + i, n)
            &&& end_of(p.last()) == start
            &&& forall|k: int| 0 <= k < p.len() - 1 ==> end_of(#[trigger] p[k]) == start_of(p[k + 1])
        }),
    decreases n - i,
{
    let e = wrap(start + i, n);
    let p = pieces_from(n, spans, marks, owner, start, i)->0;
    let step: int = match owner[e] {
        None => 1,
        Some(s) => spans[s as int].count as int,
    };
    assert(marks.apart@[e]);
    if owner[e] is Some {
        assert(fits(spans[owner[e]->0 as int], n));
    }
    if i + step < n {
        assert(ends_by(n, spans, owner, start, i + step));
        pieces_chain(n, spans, marks, owner, start, i + step);
        let rest = pieces_from(n, spans, marks, owner, start, i + step)->0;
        assert(p.skip(1) =~= rest);
        assert forall|k: int| 0 <= k < p.len() - 1 implies end_of(#[trigger] p[k]) == start_of(p[k + 1]) by {
            if k > 0 {
                assert(rest[k - 1] == p[k] && rest[k] == p[k + 1]);
            } else {
                assert(rest[0] == p[1]);
            }
        }
        assert(p.last() == rest.last());
    } else {
        assert(p.len() == 1);
    }
}

/// The walk from place `i` on comes out at the end of the ring exactly.
pub open spec fn ends_by(n: int, spans: Seq<ArcSpan>, owner: Seq<Option<usize>>, start: int, i: int) -> bool
    decreases (if i < n { n - i } else { 0 }),
{
    if i < 0 || i >= n {
        i == n
    } else {
        match owner[wrap(start + i, n)] {
            None => ends_by(n, spans, owner, start, i + 1),
            Some(s) => if spans[s as int].count == 0 || spans[s as int].first_edge != wrap(start + i, n) {
                false
            } else {
                ends_by(n, spans, owner, start, i + spans[s as int].count)
            },
        }
    }
}

/// The span that owns an edge is the only one that covers it.
proof fn owner_unique(n: int, spans: Seq<ArcSpan>, owner: Seq<Option<usize>>, s: int, e: int)
    requires
        laid_out(spans, n),
        owns(owner, spans, n),
        0 <= s < spans.len(),
        0 <= e < n,
        covers(spans[s], e, n),
    ensures
        owner[e] == Some(s as usize),
        s <= usize::MAX,
{
    match owner[e] {
        None => {
            assert(uncovered(spans, e, n));
            assert(!covers(spans[s], e, n));
        },
        Some(t) => {
            if t < s {
                assert(covers(spans[t as int], e, n) && covers(spans[s], e, n));
            } else if s < t {
                assert(covers(spans[s], e, n) && covers(spans[t as int], e, n));
            }
        },
    }
}

proof fn in_step(n: int, spans: Seq<ArcSpan>, owner: Seq<Option<usize>>, start: int, i: int)
    requires
        n >= 1,
        laid_out(spans, n),
        owns(owner, spans, n),
        0 <= start < n,
        0 <= i <= n,
        starts_run(owner, start) || uncovered(spans, start, n),
        i < n ==> (owner[wrap(start + i, n)] matches Some(s) ==> spans[s as int].first_edge == wrap(start + i, n)),
    ensures
        ends_by(n, spans, owner, start, i),
    decreases n - i,
{
    if i < n {
        let e = wrap(start + i, n);
        match owner[e] {
            None => {
                if i + 1 < n {
                    let f = wrap(start + i + 1, n);
                    if owner[f] is Some {
                        let s = owner[f]->0 as int;
                        assert(covers(spans[s], f, n));
                        if spans[s].first_edge != f {
                            assert(offset(e, spans[s].first_edge as int, n) == offset(f, spans[s].first_edge as int, n) - 1);
                            owner_unique(n, spans, owner, s, e);
                        }
                    }
                }
                in_step(n, spans, owner, start, i + 1);
            },
            Some(t) => {
                let s = t as int;
                let count = spans[s].count as int;
                assert(fits(spans[s], n));
                assert(covers(spans[s], e, n));
                if i + count > n {
                    let before = if start == 0 { n - 1 } else { start - 1 };
                    assert(offset(start, e, n) == (if i == 0 { 0 } else { n - i }));
                    if i > 0 {
                        owner_unique(n, spans, owner, s, start);
                        assert(offset(before, e, n) == n - 1 - i);
                        owner_unique(n, spans, owner, s, before);
                    }
                    assert(false);
                }
                if i + count < n {
                    let f = wrap(start + i + count, n);
                    let last = wrap(start + i + count - 1, n);
                    assert(offset(last, e, n) == count - 1);
                    owner_unique(n, spans, owner, s, last);
                    if owner[f] is Some {
                        let u = owner[f]->0 as int;
                        assert(covers(spans[u], f, n));
                        assert(offset(f, e, n) == count);
                        if spans[u].first_edge != f {
                            assert(offset(last, spans[u].first_edge as int, n) == offset(f, spans[u].first_edge as int, n) - 1);
                            owner_unique(n, spans, owner, u, last);
                        }
                    }
                }
                in_step(n, spans, owner, start, i + count);
            },
        }
    }
}

/// Started where a run starts, the walk around the ring stays in step with the spans: it never
/// enters one in its middle, and it comes out at the end of the ring exactly.
pub proof fn walk_stays_in_step(n: int, spans: Seq<ArcSpan>, owner: Seq<Option<usize>>, start: int)
    requires
        n >= 1,
        laid_out(spans, n),
        owns(owner, spans, n),
        is_run_start(owner, start),
        !(spans.len() == 1 && spans[0].count == n),
    ensures
        ends_by(n, spans, owner, start, 0),
{
    if starts_run(owner, start) {
        if owner[start] is Some {
            let s = owner[start]->0 as int;
            let before = if start == 0 { n - 1 } else { start - 1 };
            assert(covers(spans[s], start, n));
            if spans[s].first_edge != start {
                assert(offset(before, spans[s].first_edge as int, n) == offset(start, spans[s].first_edge as int, n) - 1);
                owner_unique(n, spans, owner, s, before);
            }
        }
        in_step(n, spans, owner, start, 0);
    } else {
        all_alike(owner, n - 1);
        if owner[0] is Some {
            let s = owner[0]->0 as int;
            let first = spans[s].first_edge as int;
            assert(fits(spans[s], n));
            let last = if first == 0 { n - 1 } else { first - 1 };
            assert(owner[last] == owner[0]);
            assert(covers(spans[s], last, n));
            assert(offset(last, first, n) == n - 1);
            assert(spans[s].count == n);
            let t: int = if s == 0 { 1 } else { 0 };
            assert(spans.len() >= 2);
            assert(fits(spans[t], n));
            let e = spans[t].first_edge as int;
            assert(covers(spans[t], e, n));
            owner_unique(n, spans, owner, t, e);
            assert(owner[e] == owner[0]);
        }
        in_step(n, spans, owner, start, 0);
    }
}

/// Without a run start, every edge has the same owner.
proof fn all_alike(owner: Seq<Option<usize>>, k: int)
    requires
        0 <= k < owner.len(),
        forall|e: int| 0 <= e < owner.len() ==> !#[trigger] starts_run(owner, e),
    ensures
        forall|e: int| 0 <= e <= k ==> #[trigger] owner[e] == owner[0],
    decreases k,
{
    if k > 0 {
        all_alike(owner, k - 1);
        assert(!starts_run(owner, k));
    }
}

/// With no two neighbouring vertices coincident, the pieces of a ring make a closed path.
pub proof fn ring_pieces_close(n: int, spans: Seq<ArcSpan>, marks: RingMarks, owner: Seq<Option<usize>>, start: int)
    requires
        3 <= n <= usize::MAX,
        laid_out(spans, n),
        owns(owner, spans, n),
        is_run_start(owner, start),
        !(spans.len() == 1 && spans[0].count == n),
        forall|e: int| 0 <= e < n ==> #[trigger] marks.apart@[e],
        ring_pieces(n, spans, marks, owner, start) is Some,
    ensures
        is_closed_path(ring_pieces(n, spans, marks, owner, start)->0),
{
    walk_stays_in_step(n, spans, owner, start);
    pieces_chain(n, spans, marks, owner, start, 0);
}

// ---- what the pieces stand for ----

/// The piece joins two different vertices of a ring of `n`, and an arc over a vertex passes one that
/// lies strictly between its ends going round.
pub open spec fn passes_between(seg: PathSeg, n: int) -> bool {
    &&& start_of(seg) < n
    &&& end_of(seg) < n
    &&& start_of(seg) != end_of(seg)
    &&& seg matches PathSeg::Arc { a, b, transit: Transit::Vertex(m) } ==> m < n && 0 < offset(m as int, a as int, n) < offset(
        b as int,
        a as int,
        n,
    )
}

/// No span but a single one runs round the whole ring.
proof fn spans_leave_room(n: int, spans: Seq<ArcSpan>, s: int)
    requires
        laid_out(spans, n),
        0 <= s < spans.len(),
        !(spans.len() == 1 && spans[0].count == n),
    ensures
        0 < spans[s].count < n,
{
    assert(fits(spans[s], n));
    if spans[s].count == n {
        let t: int = if s == 0 {
            1
        } else {
            0
        };
        assert(fits(spans[t], n));
        let e = spans[t].first_edge as int;
        assert(covers(spans[t], e, n) && covers(spans[s], e, n));
        if s < t {
            assert(covers(spans[s], e, n) && covers(spans[t], e, n));
        }
    }
}

proof fn pieces_pass_between(n: int, spans: Seq<ArcSpan>, marks: RingMarks, owner: Seq<Option<usize>>, start: int, i: int)
    requires
        3 <= n <= usize::MAX,
        laid_out(spans, n),
        owns(owner, spans, n),
        0 <= start < n,
        0 <= i,
        !(spans.len() == 1 && spans[0].count == n),
        pieces_from(n, spans, marks, owner, start, i) is Some,
    ensures
        forall|k: int|
            0 <= k < (pieces_from(n, spans, marks, owner, start, i)->0).len() ==> passes_between(
                #[trigger] (pieces_from(n, spans, marks, owner, start, i)->0)[k],
                n,
            ),
    decreases (if i < n { n - i } else { 0 }),
{
    if i < n {
        let e = wrap(start + i, n);
        let p = pieces_from(n, spans, marks, owner, start, i)->0;
        let step: int = match owner[e] {
            None => 1,
            Some(s) => spans[s as int].count as int,
        };
        if owner[e] is Some {
            spans_leave_room(n, spans, owner[e]->0 as int);
        }
        pieces_pass_between(n, spans, marks, owner, start, i + step);
        let rest = pieces_from(n, spans, marks, owner, start, i + step)->0;
        assert forall|k: int| 0 <= k < p.len() implies passes_between(#[trigger] p[k], n) by {
            let m = p.len() - rest.len();
            if k >= m {
                assert(p[k] == rest[k - m]);
            }
        }
    }
}

/// Every piece of a ring joins two different vertices, and its arcs pass a vertex between their ends.
pub proof fn arcs_pass_between_their_ends(n: int, spans: Seq<ArcSpan>, marks: RingMarks, owner: Seq<Option<usize>>, start: int, k: int)
    requires
        3 <= n <= usize::MAX,
        laid_out(spans, n),
        owns(owner, spans, n),
        is_run_start(owner, start),
        !(spans.len() == 1 && spans[0].count == n),
        ring_pieces(n, spans, marks, owner, start) matches Some(p) && 0 <= k < p.len(),
    ensures
        passes_between((ring_pieces(n, spans, marks, owner, start)->0)[k], n),
{
    pieces_pass_between(n, spans, marks, owner, start, 0);
    let p = pieces_from(n, spans, marks, owner, start, 0)->0;
    assert(passes_between(p[k], n));
}

/// A whole circle is cut into two arcs that lead round it once, over a vertex each: as many edges one
/// way as the other, or one more.
pub proof fn half_arcs_make_a_circle(n: int)
    requires
        4 <= n <= usize::MAX,
    ensures
        half_arcs(n).len() == 2,
        is_closed_path(half_arcs(n)),
        forall|k: int| 0 <= k < 2 ==> passes_between(#[trigger] half_arcs(n)[k], n) && half_arcs(n)[k] matches PathSeg::Arc {
            transit: Transit::Vertex(_),
            ..
        },
        ({
            let (p, q) = (half_arcs(n)[0], half_arcs(n)[1]);
            let one = offset(end_of(p) as int, start_of(p) as int, n);
            let two = offset(end_of(q) as int, start_of(q) as int, n);
            start_of(p) == 0 && one + two == n && one <= two <= one + 1
        }),
{
}

/// The piece stands for the span: it leads from the start of the span to its end; a span that bulges
/// is an arc, over the vertex in its middle or over its projected chord where it has none; any other
/// is its chord.
pub open spec fn stands_for(seg: PathSeg, span: ArcSpan, s: int, bowed: bool, n: int) -> bool {
    &&& start_of(seg) == span.first_edge
    &&& offset(end_of(seg) as int, span.first_edge as int, n) == span.count
    &&& match seg {
        PathSeg::Line { .. } => !bowed,
        PathSeg::Arc { transit, .. } => bowed && match transit {
            Transit::Vertex(m) => {
                let (there, back) = (offset(m as int, span.first_edge as int, n), span.count - offset(m as int, span.first_edge as int, n));
                span.count >= 2 && there <= back <= there + 1
            },
            Transit::Projected(t) => span.count == 1 && t == s,
        },
    }
}

proof fn pieces_cover(n: int, spans: Seq<ArcSpan>, marks: RingMarks, owner: Seq<Option<usize>>, start: int, i: int, j: int)
    requires
        3 <= n <= usize::MAX,
        laid_out(spans, n),
        owns(owner, spans, n),
        0 <= start < n,
        0 <= i <= j < n,
        !(spans.len() == 1 && spans[0].count == n),
        pieces_from(n, spans, marks, owner, start, i) is Some,
        owner[wrap(start + j, n)] matches Some(t) ==> spans[t as int].first_edge == wrap(start + j, n),
    ensures
        ({
            let p = pieces_from(n, spans, marks, owner, start, i)->0;
            let e = wrap(start + j, n);
            match owner[e] {
                None => marks.apart@[e] ==> p.contains(PathSeg::Line { a: e as usize, b: wrap(e + 1, n) as usize }),
                Some(t) => exists|k: int|
                    0 <= k < p.len() && stands_for(#[trigger] p[k], spans[t as int], t as int, marks.bowed@[t as int], n),
            }
        }),
    decreases n - i,
{
    let d = wrap(start + i, n);
    let e = wrap(start + j, n);
    let p = pieces_from(n, spans, marks, owner, start, i)->0;
    let step: int = match owner[d] {
        None => 1,
        Some(s) => spans[s as int].count as int,
    };
    if owner[d] is Some {
        spans_leave_room(n, spans, owner[d]->0 as int);
    }
    let rest = pieces_from(n, spans, marks, owner, start, i + step)->0;
    let m = p.len() - rest.len();
    assert(p.skip(m as int) =~= rest);
    if j == i {
        match owner[e] {
            None => {
                if marks.apart@[e] {
                    assert(p[0] == PathSeg::Line { a: e as usize, b: wrap(e + 1, n) as usize });
                }
            },
            Some(t) => {
                assert(p[0] == span_piece(n, spans, marks, t as int));
                assert(stands_for(p[0], spans[t as int], t as int, marks.bowed@[t as int], n));
            },
        }
    } else {
        if j < i + step {
            let s = owner[d]->0 as int;
            assert(offset(e, d, n) == j - i);
            owner_unique(n, spans, owner, s, e);
        }
        pieces_cover(n, spans, marks, owner, start, i + step, j);
        match owner[e] {
            None => {
                if marks.apart@[e] {
                    let k = choose|k: int| 0 <= k < rest.len() && rest[k] == (PathSeg::Line { a: e as usize, b: wrap(e + 1, n) as usize });
                    assert(p[m + k] == rest[k]);
                }
            },
            Some(t) => {
                let k = choose|k: int|
                    0 <= k < rest.len() && stands_for(#[trigger] rest[k], spans[t as int], t as int, marks.bowed@[t as int], n);
                assert(p[m + k] == rest[k]);
            },
        }
    }
}

/// Nothing of a ring is lost: every edge off the spans stays a line, unless its ends coincide, and
/// every span has a piece that stands for it.
#[verifier::spinoff_prover]
#[verifier::rlimit(50)]
pub proof fn every_edge_has_its_piece(n: int, spans: Seq<ArcSpan>, marks: RingMarks, owner: Seq<Option<usize>>, start: int)
    requires
        3 <= n <= usize::MAX,
        laid_out(spans, n),
        owns(owner, spans, n),
        is_run_start(owner, start),
        !(spans.len() == 1 && spans[0].count == n),
        ring_pieces(n, spans, marks, owner, start) is Some,
    ensures
        ({
            let p = ring_pieces(n, spans, marks, owner, start)->0;
            &&& forall|e: int|
                0 <= e < n && #[trigger] uncovered(spans, e, n) && marks.apart@[e] ==> p.contains(
                    PathSeg::Line { a: e as usize, b: (if e == n - 1 { 0 } else { e + 1 }) as usize },
                )
            &&& forall|s: int|
                0 <= s < spans.len() ==> exists|k: int| 0 <= k < p.len() && stands_for(#[trigger] p[k], #[trigger] spans[s], s, marks.bowed@[s], n)
        }),
{
    let p = ring_pieces(n, spans, marks, owner, start)->0;
    assert forall|e: int| 0 <= e < n && #[trigger] uncovered(spans, e, n) && marks.apart@[e] implies p.contains(
        PathSeg::Line { a: e as usize, b: (if e == n - 1 { 0 } else { e + 1 }) as usize },
    ) by {
        if owner[e] is Some {
            assert(covers(spans[owner[e]->0 as int], e, n));
        }
        pieces_cover(n, spans, marks, owner, start, 0, offset(e, start, n));
    }
    assert forall|s: int| 0 <= s < spans.len() implies exists|k: int|
        0 <= k < p.len() && stands_for(#[trigger] p[k], #[trigger] spans[s], s, marks.bowed@[s], n) by {
        assert(fits(spans[s], n));
        let e = spans[s].first_edge as int;
        assert(covers(spans[s], e, n));
        owner_unique(n, spans, owner, s, e);
        pieces_cover(n, spans, marks, owner, start, 0, offset(e, start, n));
    }
}

/// Walked the other way, a path leads back from where it ended: piece by piece from the last to the
/// first, each from its end to its start over the same point.
pub proof fn reversed_paths_lead_back(segs: Seq<PathSeg>, k: int)
    requires
        0 <= k < segs.len(),
    ensures
        reversed(segs).len() == segs.len(),
        ({
            let (x, y) = (segs[segs.len() - 1 - k], reversed(segs)[k]);
            &&& start_of(y) == end_of(x) && end_of(y) == start_of(x)
            &&& x is Line <==> y is Line
            &&& x is Arc ==> y is Arc && x->transit == y->transit
        }),
{
}

proof fn sound_spans_give_pieces(n: int, spans: Seq<ArcSpan>, marks: RingMarks, owner: Seq<Option<usize>>, start: int, i: int)
    requires
        ends_by(n, spans, owner, start, i),
        forall|s: int|
            0 <= s < spans.len() ==> (#[trigger] spans[s]).count > 0 && marks.open@[s] && (spans[s].count == 1 ==> marks.projectable@[s]),
        owns(owner, spans, n),
        0 <= start < n,
        0 <= i,
    ensures
        pieces_from(n, spans, marks, owner, start, i) is Some,
    decreases (if i < n { n - i } else { 0 }),
{
    if i < n {
        let e = wrap(start + i, n);
        match owner[e] {
            None => {
                sound_spans_give_pieces(n, spans, marks, owner, start, i + 1);
            },
            Some(s) => {
                assert(spans[s as int].count > 0);
                sound_spans_give_pieces(n, spans, marks, owner, start, i + spans[s as int].count);
            },
        }
    }
}

#[verifier::spinoff_prover]
#[verifier::rlimit(50)]
proof fn pieces_need_sound_spans(n: int, spans: Seq<ArcSpan>, marks: RingMarks, owner: Seq<Option<usize>>, start: int, i: int, j: int)
    requires
        laid_out(spans, n),
        owns(owner, spans, n),
        0 <= start < n,
        0 <= i <= j < n,
        pieces_from(n, spans, marks, owner, start, i) is Some,
        owner[wrap(start + j, n)] is Some,
    ensures
        ({
            let s = owner[wrap(start + j, n)]->0 as int;
            marks.open@[s] && (spans[s].count == 1 ==> marks.projectable@[s])
        }),
    decreases n - i,
{
    let e = wrap(start + i, n);
    match owner[e] {
        None => {
            assert(i < j);
            pieces_need_sound_spans(n, spans, marks, owner, start, i + 1, j);
        },
        Some(s) => {
            let count = spans[s as int].count as int;
            if j < i + count {
                let f = wrap(start + j, n);
                assert(offset(f, e, n) == j - i);
                assert(covers(spans[s as int], f, n));
                owner_unique(n, spans, owner, s as int, f);
            } else {
                pieces_need_sound_spans(n, spans, marks, owner, start, i + count, j);
            }
        },
    }
}

/// Every span has two ends that differ, and one of a single edge a chord that can be projected.
pub open spec fn are_sound(spans: Seq<ArcSpan>, marks: RingMarks) -> bool {
    forall|s: int| 0 <= s < spans.len() ==> (#[trigger] spans[s]).count == 1 && marks.open@[s] && marks.projectable@[s] || spans[s].count != 1 && marks.open@[s]
}

/// The walk around a ring succeeds exactly where its spans are sound.
#[verifier::spinoff_prover]
#[verifier::rlimit(50)]
pub proof fn walks_succeed_on_sound_spans(n: int, spans: Seq<ArcSpan>, marks: RingMarks, owner: Seq<Option<usize>>, start: int)
    requires
        n >= 1,
        laid_out(spans, n),
        owns(owner, spans, n),
        is_run_start(owner, start),
        !(spans.len() == 1 && spans[0].count == n),
    ensures
        pieces_from(n, spans, marks, owner, start, 0) is Some <==> are_sound(spans, marks),
{
    assert(0 <= start < n);
    if are_sound(spans, marks) {
        walk_stays_in_step(n, spans, owner, start);
        assert forall|s: int| 0 <= s < spans.len() implies (#[trigger] spans[s]).count > 0 && marks.open@[s] && (spans[s].count == 1
            ==> marks.projectable@[s]) by {
            assert(fits(spans[s], n));
        }
        sound_spans_give_pieces(n, spans, marks, owner, start, 0);
        assert(pieces_from(n, spans, marks, owner, start, 0) is Some);
    }
    if pieces_from(n, spans, marks, owner, start, 0) is Some {
        assert forall|s: int| 0 <= s < spans.len() implies (#[trigger] spans[s]).count == 1 && marks.open@[s] && marks.projectable@[s] || spans[s].count != 1
            && marks.open@[s] by {
            assert(fits(spans[s], n));
            let e = spans[s].first_edge as int;
            let j = offset(e, start, n);
            assert(wrap(start + j, n) == e);
            assert(covers(spans[s], e, n));
            owner_unique(n, spans, owner, s, e);
            pieces_need_sound_spans(n, spans, marks, owner, start, 0, j);
        }
        assert(are_sound(spans, marks));
    }
}

} // verus!
