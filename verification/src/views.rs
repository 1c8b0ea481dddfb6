//! Projected views: which stretches of an edge are seen, and what a dimension can attach to.

use vstd::prelude::*;

use crate::rings::{decides, says};
use crate::sheet::RefKind;

verus! {

/// A stretch of an edge between two of its samples.
#[derive(Clone, Copy, PartialEq, Eq, Structural, Debug)]
pub struct Run {
    pub from: usize,
    pub to: usize,
    pub hidden: bool,
}

/// `runs` covers the samples of an edge end to end, changing between seen and hidden from each
/// run to the next; a run is what its samples are, its last one left out.
pub open spec fn tiles(hidden: Seq<bool>, runs: Seq<Run>) -> bool {
    &&& runs.len() > 0
    &&& runs[0].from == 0
    &&& runs.last().to == hidden.len() - 1
    &&& forall|k: int| 0 <= k < runs.len() ==> is_run(hidden, #[trigger] runs[k])
    &&& forall|k: int| 1 <= k < runs.len() ==> #[trigger] runs_meet(runs, k)
}

/// The run takes up some of the edge, and its samples agree.
pub open spec fn is_run(hidden: Seq<bool>, r: Run) -> bool {
    &&& r.from < r.to < hidden.len()
    &&& forall|i: int| r.from <= i < r.to ==> #[trigger] hidden[i] == r.hidden
}

/// Run `k` takes over where the one before it ends.
pub open spec fn runs_meet(runs: Seq<Run>, k: int) -> bool {
    runs[k - 1].to == runs[k].from && runs[k - 1].hidden != runs[k].hidden
}

/// The number of samples taken along an edge.
pub fn sample_count(samples: usize) -> (n: usize)
    ensures
        n == if samples < 2 {
            2
        } else {
            samples
        },
{
    if samples < 2 {
        2
    } else {
        samples
    }
}

/// Split an edge into its seen and hidden stretches, given whether each sample is hidden.
#[verifier::loop_isolation(false)]
pub fn split_runs(hidden: &Vec<bool>) -> (runs: Vec<Run>)
    requires
        hidden@.len() >= 2,
    ensures
        tiles(hidden@, runs@),
{
    let n: usize = hidden.len();
    let mut runs: Vec<Run> = Vec::new();
    let mut start: usize = 0;
    let mut state: bool = hidden[0];
    let mut i: usize = 1;
    while i < n
        invariant
            1 <= i <= n,
            start < i,
            state == hidden@[start as int],
            forall|j: int| start <= j < i ==> #[trigger] hidden@[j] == state,
            forall|k: int| 0 <= k < runs@.len() ==> is_run(hidden@, #[trigger] runs@[k]),
            forall|k: int| 1 <= k < runs@.len() ==> #[trigger] runs_meet(runs@, k),
            runs@.len() == 0 ==> start == 0,
            runs@.len() > 0 ==> runs@[0].from == 0 && runs@.last().to == start && runs@.last().hidden != state,
        decreases n - i,
    {
        if hidden[i] != state {
            let ghost r0 = runs@;
            runs.push(Run { from: start, to: i, hidden: state });
            proof {
                assert(is_run(hidden@, runs@.last()));
                assert forall|k: int| 1 <= k < runs@.len() implies #[trigger] runs_meet(runs@, k) by {
                    if k < r0.len() {
                        assert(runs_meet(r0, k));
                    }
                }
            }
            state = hidden[i];
            start = i;
        }
        i = i + 1;
    }
    if start < n - 1 {
        let ghost r0 = runs@;
        runs.push(Run { from: start, to: n - 1, hidden: state });
        proof {
            assert(is_run(hidden@, runs@.last()));
            assert forall|k: int| 1 <= k < runs@.len() implies #[trigger] runs_meet(runs@, k) by {
                if k < r0.len() {
                    assert(runs_meet(r0, k));
                }
            }
        }
    }
    runs
}

proof fn runs_agree_to(hidden: Seq<bool>, a: Seq<Run>, b: Seq<Run>, k: int)
    requires
        tiles(hidden, a),
        tiles(hidden, b),
        0 <= k < a.len(),
    ensures
        k < b.len(),
        a[k] == b[k],
    decreases k,
{
    if k > 0 {
        runs_agree_to(hidden, a, b, k - 1);
        assert(runs_meet(a, k));
        assert(is_run(hidden, a[k]));
        assert(is_run(hidden, a[k - 1]));
        assert(b[k - 1].to < hidden.len() - 1);
        assert(k < b.len());
        assert(runs_meet(b, k));
    }
    let (p, q) = (a[k], b[k]);
    assert(is_run(hidden, p) && is_run(hidden, q));
    assert(hidden[p.from as int] == p.hidden && hidden[q.from as int] == q.hidden);
    if p.to < q.to {
        assert(hidden[p.to as int] == q.hidden);
        assert(k + 1 < a.len());
        assert(runs_meet(a, k + 1));
        assert(is_run(hidden, a[k + 1]));
        assert(hidden[a[k + 1].from as int] == a[k + 1].hidden);
    }
    if q.to < p.to {
        assert(hidden[q.to as int] == p.hidden);
        assert(k + 1 < b.len());
        assert(runs_meet(b, k + 1));
        assert(is_run(hidden, b[k + 1]));
        assert(hidden[b[k + 1].from as int] == b[k + 1].hidden);
    }
}

/// There is one way to split an edge.
pub proof fn splitting_is_unique(hidden: Seq<bool>, a: Seq<Run>, b: Seq<Run>)
    requires
        tiles(hidden, a),
        tiles(hidden, b),
    ensures
        a == b,
{
    runs_agree_to(hidden, a, b, a.len() - 1);
    runs_agree_to(hidden, b, a, b.len() - 1);
    assert forall|k: int| 0 <= k < a.len() implies a[k] == b[k] by {
        runs_agree_to(hidden, a, b, k);
    }
    assert(a =~= b);
}

/// Something that a dimension may attach to: an end of an edge, its middle, or a rim.
#[derive(Clone, Copy, PartialEq, Eq, Structural, Debug)]
pub struct Candidate {
    pub kind: RefKind,
    /// The edge, or the rim.
    pub index: usize,
    /// The second end of the edge.
    pub second: bool,
}

/// The candidates of the first `n` edges: the two ends and the middle of each that has a length.
pub open spec fn edge_candidates(short: Seq<bool>, n: int) -> Seq<Candidate>
    decreases n,
{
    if n <= 0 {
        Seq::empty()
    } else if short[n - 1] {
        edge_candidates(short, n - 1)
    } else {
        let e = (n - 1) as usize;
        edge_candidates(short, n - 1).push(Candidate { kind: RefKind::Vertex, index: e, second: false }).push(
            Candidate { kind: RefKind::Vertex, index: e, second: true },
        ).push(Candidate { kind: RefKind::Edge, index: e, second: false })
    }
}

/// The candidates of a view: those of its edges, then its rims.
pub open spec fn candidates(short: Seq<bool>, rims: int) -> Seq<Candidate> {
    edge_candidates(short, short.len() as int) + Seq::new(
        rims as nat,
        |i: int| Candidate { kind: RefKind::Circle, index: i as usize, second: false },
    )
}

/// List what a dimension may attach to, given which edges are too short to count and how many rims
/// there are.
#[verifier::loop_isolation(false)]
pub fn list_candidates(short: &Vec<bool>, rims: usize) -> (out: Vec<Candidate>)
    ensures
        out@ == candidates(short@, rims as int),
        forall|c: Candidate| #[trigger] out@.contains(c) <==> offered(c, short@, rims as int),
        forall|i: int, j: int| 0 <= i < j < out@.len() ==> candidate_before(#[trigger] out@[i], #[trigger] out@[j]),
{
    let mut out: Vec<Candidate> = Vec::new();
    let mut e: usize = 0;
    assert(short@.len() == short.len());
    while e < short.len()
        invariant
            e <= short@.len(),
            out@ == edge_candidates(short@, e as int),
        decreases short@.len() - e,
    {
        if !short[e] {
            out.push(Candidate { kind: RefKind::Vertex, index: e, second: false });
            out.push(Candidate { kind: RefKind::Vertex, index: e, second: true });
            out.push(Candidate { kind: RefKind::Edge, index: e, second: false });
        }
        e = e + 1;
    }
    let ghost of_edges = out@;
    let mut r: usize = 0;
    assert(of_edges =~= of_edges + Seq::new(0, |i: int| Candidate { kind: RefKind::Circle, index: i as usize, second: false }));
    while r < rims
        invariant
            r <= rims,
            out@ == of_edges + Seq::new(r as nat, |i: int| Candidate { kind: RefKind::Circle, index: i as usize, second: false }),
        decreases rims - r,
    {
        out.push(Candidate { kind: RefKind::Circle, index: r, second: false });
        r = r + 1;
        assert(out@ =~= of_edges + Seq::new(
            r as nat,
            |i: int| Candidate { kind: RefKind::Circle, index: i as usize, second: false },
        ));
    }
    proof {
        every_candidate_is_offered(short@, rims as int);
        let all = candidates(short@, rims as int);
        assert(out@ == all);
        assert forall|c: Candidate| #[trigger] out@.contains(c) <==> offered(c, short@, rims as int) by {
            assert(all.contains(c) <==> offered(c, short@, rims as int));
        }
    }
    out
}

/// Something of the same kind was kept at the same place.
pub open spec fn is_repeat<F: Fn(usize, usize) -> bool>(list: Seq<Candidate>, close: F, kept: Seq<usize>, i: usize) -> bool {
    exists|k: int| 0 <= k < kept.len() && list[(#[trigger] kept[k]) as int].kind == list[i as int].kind && says(close, kept[k], i)
}

/// The first `n` candidates without those that repeat a kept one.
pub open spec fn distinct<F: Fn(usize, usize) -> bool>(list: Seq<Candidate>, close: F, n: int) -> Seq<usize>
    decreases n,
{
    if n <= 0 {
        Seq::empty()
    } else {
        let kept = distinct(list, close, n - 1);
        if is_repeat(list, close, kept, (n - 1) as usize) {
            kept
        } else {
            kept.push((n - 1) as usize)
        }
    }
}

/// Drop every candidate that lies where one of its kind was kept already. `close` tells whether two
/// candidates lie at one place.
#[verifier::loop_isolation(false)]
pub fn keep_distinct<F: Fn(usize, usize) -> bool>(list: &Vec<Candidate>, close: &F) -> (kept: Vec<usize>)
    requires
        decides(*close, list@.len() as int, list@.len() as int),
    ensures
        kept@ == distinct(list@, *close, list@.len() as int),
{
    let mut kept: Vec<usize> = Vec::new();
    let mut i: usize = 0;
    assert(list@.len() == list.len());
    while i < list.len()
        invariant
            i <= list@.len(),
            kept@ == distinct(list@, *close, i as int),
            forall|k: int| 0 <= k < kept@.len() ==> (#[trigger] kept@[k]) < i,
        decreases list@.len() - i,
    {
        let mut repeat: bool = false;
        let mut k: usize = 0;
        while k < kept.len()
            invariant
                k <= kept@.len(),
                kept@ == distinct(list@, *close, i as int),
                forall|m: int| 0 <= m < kept@.len() ==> (#[trigger] kept@[m]) < i,
                repeat <==> exists|m: int|
                    0 <= m < k && list@[(#[trigger] kept@[m]) as int].kind == list@[i as int].kind && says(*close, kept@[m], i),
            decreases kept@.len() - k,
        {
            let j: usize = kept[k];
            assert(kept@[k as int] < i);
            if list[j].kind == list[i].kind {
                let same: bool = close(j, i);
                assert(same <==> says(*close, j, i));
                if same {
                    assert(list@[kept@[k as int] as int].kind == list@[i as int].kind);
                    repeat = true;
                }
            }
            k = k + 1;
        }
        assert(repeat <==> is_repeat(list@, *close, kept@, i));
        if !repeat {
            kept.push(i);
        }
        i = i + 1;
    }
    kept
}

/// What is left out repeats something kept, and nothing kept repeats something kept before it.
pub proof fn repeats_are_dropped<F: Fn(usize, usize) -> bool>(list: Seq<Candidate>, close: F, n: int, i: usize)
    requires
        0 <= i < n <= list.len() <= usize::MAX,
    ensures
        distinct(list, close, n).contains(i) <==> !is_repeat(list, close, distinct(list, close, i as int), i),
    decreases n,
{
    let kept = distinct(list, close, n - 1);
    distinct_below(list, close, n - 1);
    if i < n - 1 {
        repeats_are_dropped(list, close, n - 1, i);
        if kept.contains(i) {
            let k = choose|k: int| 0 <= k < kept.len() && kept[k] == i;
            assert(distinct(list, close, n)[k] == i);
        }
        if distinct(list, close, n).contains(i) {
            let k = choose|k: int| 0 <= k < distinct(list, close, n).len() && distinct(list, close, n)[k] == i;
            assert(k < kept.len());
            assert(kept[k] == i);
        }
    } else {
        if !is_repeat(list, close, kept, i) {
            assert(distinct(list, close, n)[kept.len() as int] == i);
        }
    }
}

proof fn distinct_below<F: Fn(usize, usize) -> bool>(list: Seq<Candidate>, close: F, n: int)
    requires
        n <= usize::MAX,
    ensures
        forall|k: int| 0 <= k < distinct(list, close, n).len() ==> #[trigger] distinct(list, close, n)[k] < n,
    decreases n,
{
    if n > 0 {
        distinct_below(list, close, n - 1);
        let kept = distinct(list, close, n - 1);
        let all = distinct(list, close, n);
        assert forall|k: int| 0 <= k < all.len() implies #[trigger] all[k] < n by {
            if k < kept.len() {
                assert(kept[k] < n - 1);
                assert(all[k] == kept[k]);
            }
        }
    }
}

/// `b` is the first of the eligible places that no eligible place scores below.
pub open spec fn is_first_least<F: Fn(usize, usize) -> bool>(eligible: Seq<bool>, below: F, b: int) -> bool {
    &&& 0 <= b < eligible.len() && eligible[b]
    &&& forall|i: int| 0 <= i < b && #[trigger] eligible[i] ==> says(below, b as usize, i as usize)
    &&& forall|i: int| b < i < eligible.len() && #[trigger] eligible[i] ==> !says(below, i as usize, b as usize)
}

/// Place `i` goes before place `j`: it is nearer, or as near and fits better.
pub open spec fn leads<F: Fn(usize, usize) -> bool, G: Fn(usize, usize) -> bool>(nearer: F, better: G, i: usize, j: usize) -> bool {
    says(nearer, i, j) || !says(nearer, j, i) && says(better, i, j)
}

/// `b` is the first of the eligible places that no eligible place goes before.
pub open spec fn is_first_leading<F: Fn(usize, usize) -> bool, G: Fn(usize, usize) -> bool>(
    eligible: Seq<bool>,
    nearer: F,
    better: G,
    b: int,
) -> bool {
    &&& 0 <= b < eligible.len() && eligible[b]
    &&& forall|i: int| 0 <= i < b && #[trigger] eligible[i] ==> leads(nearer, better, b as usize, i as usize)
    &&& forall|i: int| b < i < eligible.len() && #[trigger] eligible[i] ==> !leads(nearer, better, i as usize, b as usize)
}

/// The scores of the places below `n` are in one line: nothing scores below itself, and what does
/// not score below a thing does not score below what is below that thing.
pub open spec fn ranks<F: Fn(usize, usize) -> bool>(below: F, n: int) -> bool {
    &&& forall|i: usize| i < n ==> !#[trigger] says(below, i, i)
    &&& forall|i: usize, j: usize, k: usize|
        i < n && j < n && k < n && #[trigger] says(below, i, j) && #[trigger] says(below, j, k) ==> says(below, i, k)
    &&& forall|i: usize, j: usize, k: usize|
        i < n && j < n && k < n && !#[trigger] says(below, i, j) && !#[trigger] says(below, j, k) ==> !says(below, i, k)
}

proof fn leading_chains<F: Fn(usize, usize) -> bool, G: Fn(usize, usize) -> bool>(nearer: F, better: G, n: int, i: usize, j: usize, k: usize)
    requires
        ranks(nearer, n),
        ranks(better, n),
        i < n,
        j < n,
        k < n,
    ensures
        leads(nearer, better, i, j) && leads(nearer, better, j, k) ==> leads(nearer, better, i, k),
        !leads(nearer, better, i, j) && !leads(nearer, better, j, k) ==> !leads(nearer, better, i, k),
{
    let (ij, jk, ik) = (says(nearer, i, j), says(nearer, j, k), says(nearer, i, k));
    let (ji, kj, ki) = (says(nearer, j, i), says(nearer, k, j), says(nearer, k, i));
    let (bij, bjk, bik) = (says(better, i, j), says(better, j, k), says(better, i, k));
    assert(!says(nearer, i, i) && !says(nearer, j, j) && !says(nearer, k, k));
}

/// Find the best of the eligible places: the nearest, and of those that are as near the one that
/// fits best. Of places that are alike in both, the first is taken.
#[verifier::loop_isolation(false)]
fn best_by<F: Fn(usize, usize) -> bool, G: Fn(usize, usize) -> bool>(eligible: &Vec<bool>, nearer: &F, better: &G) -> (best: Option<usize>)
    requires
        decides(*nearer, eligible@.len() as int, eligible@.len() as int),
        ranks(*nearer, eligible@.len() as int),
        decides(*better, eligible@.len() as int, eligible@.len() as int),
        ranks(*better, eligible@.len() as int),
    ensures
        best is None <==> forall|i: int| 0 <= i < eligible@.len() ==> !#[trigger] eligible@[i],
        best matches Some(b) ==> is_first_leading(eligible@, *nearer, *better, b as int),
{
    let mut best: Option<usize> = None;
    let mut i: usize = 0;
    let ghost n = eligible@.len() as int;
    assert(eligible@.len() == eligible.len());
    while i < eligible.len()
        invariant
            i <= eligible@.len(),
            best is None <==> forall|j: int| 0 <= j < i ==> !#[trigger] eligible@[j],
            best matches Some(b) ==> is_first_leading(eligible@.take(i as int), *nearer, *better, b as int),
        decreases eligible@.len() - i,
    {
        let ghost part = eligible@.take(i as int);
        let ghost all = eligible@.take(i + 1);
        assert(forall|j: int| 0 <= j < i ==> #[trigger] all[j] == part[j] && part[j] == eligible@[j]);
        assert(all[i as int] == eligible@[i as int]);
        if eligible[i] {
            match best {
                Some(b) => {
                    let ahead: bool = nearer(i, b);
                    assert(ahead <==> says(*nearer, i, b));
                    let behind: bool = nearer(b, i);
                    assert(behind <==> says(*nearer, b, i));
                    let fits: bool = better(i, b);
                    assert(fits <==> says(*better, i, b));
                    if ahead || (!behind && fits) {
                        assert forall|j: int| 0 <= j < i && #[trigger] all[j] implies leads(*nearer, *better, i, j as usize) by {
                            assert(part[j]);
                            if j > b {
                                leading_chains(*nearer, *better, n, i, j as usize, b);
                            } else if j < b {
                                leading_chains(*nearer, *better, n, i, b, j as usize);
                            }
                        }
                        best = Some(i);
                    } else {
                        assert(is_first_leading(all, *nearer, *better, b as int));
                    }
                },
                None => {
                    assert forall|j: int| 0 <= j < i && #[trigger] all[j] implies leads(*nearer, *better, i, j as usize) by {
                        assert(!eligible@[j]);
                    }
                    best = Some(i);
                },
            }
        }
        i = i + 1;
    }
    assert(eligible@.take(i as int) =~= eligible@);
    best
}

/// Find the best of the eligible places. `below(i, j)` tells whether place `i` scores below place
/// `j`; of places that score the same, the first is taken.
pub fn best_of<F: Fn(usize, usize) -> bool>(eligible: &Vec<bool>, below: &F) -> (best: Option<usize>)
    requires
        decides(*below, eligible@.len() as int, eligible@.len() as int),
        ranks(*below, eligible@.len() as int),
    ensures
        best is None <==> forall|i: int| 0 <= i < eligible@.len() ==> !#[trigger] eligible@[i],
        best matches Some(b) ==> is_first_least(eligible@, *below, b as int),
{
    best_by(eligible, below, below)
}

/// The targets of a kind that are within reach.
pub open spec fn in_reach(kinds: Seq<RefKind>, kind: RefKind, near: Seq<bool>) -> Seq<bool> {
    Seq::new(kinds.len(), |i: int| near[i] && kinds[i] == kind)
}

/// Find what a stored reference points at: of the targets of its kind within reach the nearest, and
/// nothing if none is in reach. `nearer` compares targets by their distance, `better` by how well
/// their direction and size agree, which counts only between targets that are as near as each other.
#[verifier::loop_isolation(false)]
pub fn resolve_ref<F: Fn(usize, usize) -> bool, G: Fn(usize, usize) -> bool>(
    kinds: &Vec<RefKind>,
    kind: RefKind,
    near: &Vec<bool>,
    nearer: &F,
    better: &G,
) -> (best: Option<usize>)
    requires
        kinds@.len() == near@.len(),
        decides(*nearer, kinds@.len() as int, kinds@.len() as int),
        ranks(*nearer, kinds@.len() as int),
        decides(*better, kinds@.len() as int, kinds@.len() as int),
        ranks(*better, kinds@.len() as int),
    ensures
        best is None <==> forall|i: int| 0 <= i < kinds@.len() ==> !(#[trigger] near@[i] && kinds@[i] == kind),
        best matches Some(b) ==> is_first_leading(in_reach(kinds@, kind, near@), *nearer, *better, b as int),
{
    let mut eligible: Vec<bool> = Vec::new();
    let mut i: usize = 0;
    while i < kinds.len()
        invariant
            i <= kinds@.len(),
            eligible@ == in_reach(kinds@, kind, near@).take(i as int),
        decreases kinds@.len() - i,
    {
        eligible.push(near[i] && kinds[i] == kind);
        i = i + 1;
        assert(eligible@ =~= in_reach(kinds@, kind, near@).take(i as int));
    }
    assert(eligible@ =~= in_reach(kinds@, kind, near@));
    let best: Option<usize> = best_by(&eligible, nearer, better);
    proof {
        assert forall|k: int| 0 <= k < kinds@.len() implies eligible@[k] == (#[trigger] near@[k] && kinds@[k] == kind) by {}
    }
    best
}

/// Distance leads: no target in reach is nearer than the one found, and none that is as near fits
/// better.
pub proof fn distance_leads<F: Fn(usize, usize) -> bool, G: Fn(usize, usize) -> bool>(
    eligible: Seq<bool>,
    nearer: F,
    better: G,
    b: usize,
    i: usize,
)
    requires
        eligible.len() <= usize::MAX,
        ranks(nearer, eligible.len() as int),
        ranks(better, eligible.len() as int),
        is_first_leading(eligible, nearer, better, b as int),
        i < eligible.len(),
        eligible[i as int],
    ensures
        !says(nearer, i, b),
        !says(nearer, b, i) ==> !says(better, i, b),
{
    assert(!says(nearer, i, i) && !says(nearer, b, b) && !says(better, i, i) && !says(better, b, b));
    if i < b {
        assert(leads(nearer, better, b, i));
    }
}

/// Find the target that a click means: of those within reach, the one that scores best.
pub fn pick_target<F: Fn(usize, usize) -> bool>(near: &Vec<bool>, below: &F) -> (best: Option<usize>)
    requires
        decides(*below, near@.len() as int, near@.len() as int),
        ranks(*below, near@.len() as int),
    ensures
        best is None <==> forall|i: int| 0 <= i < near@.len() ==> !#[trigger] near@[i],
        best matches Some(b) ==> is_first_least(near@, *below, b as int),
{
    best_of(near, below)
}

/// What a target gives away against one right under the pointer, in hundredths of the reach.
pub open spec fn penalty(kind: RefKind, hidden: bool) -> int {
    (match kind {
        RefKind::Circle => 0int,
        RefKind::Vertex => 15,
        RefKind::Edge => 35,
    }) + (if hidden {
        50int
    } else {
        0
    })
}

/// The handicap of a target in hundredths of the reach: rims come before corners, corners before
/// edges, and what is seen before what is hidden.
pub fn pick_penalty(kind: RefKind, hidden: bool) -> (p: u32)
    ensures
        p == penalty(kind, hidden),
{
    let base: u32 = match kind {
        RefKind::Circle => 0,
        RefKind::Vertex => 15,
        RefKind::Edge => 35,
    };
    if hidden {
        base + 50
    } else {
        base
    }
}

/// Whatever the kinds, at one place what is seen wins over what is hidden.
pub proof fn seen_comes_first(a: RefKind, b: RefKind)
    ensures
        penalty(a, false) < penalty(b, true),
{
}

// ---- finding what may hide a point ----

/// A grid has at most this many cells along a side.
pub const MAX_GRID: usize = 512;

/// The cells that a triangle's bounds take up, both ends included.
#[derive(Clone, Copy, Debug)]
pub struct CellBox {
    pub x0: usize,
    pub x1: usize,
    pub y0: usize,
    pub y1: usize,
}

/// Triangles sorted into the cells of a grid, row by row.
#[derive(Debug)]
pub struct DepthGrid {
    pub nx: usize,
    pub ny: usize,
    /// The bounds of every triangle.
    pub boxes: Vec<CellBox>,
    pub cells: Vec<Vec<usize>>,
}

pub open spec fn at_most(x: usize, m: int) -> int {
    if x <= m {
        x as int
    } else {
        m
    }
}

/// The bounds take up the cell, those beyond the grid counted to its last row and column.
pub open spec fn takes_up(b: CellBox, nx: int, ny: int, x: int, y: int) -> bool {
    &&& at_most(b.x0, nx - 1) <= x <= at_most(b.x1, nx - 1)
    &&& at_most(b.y0, ny - 1) <= y <= at_most(b.y1, ny - 1)
}

/// The triangles among the first `n` that take up a cell.
pub open spec fn in_cell(boxes: Seq<CellBox>, nx: int, ny: int, x: int, y: int, n: int) -> Seq<usize>
    decreases n,
{
    if n <= 0 {
        Seq::empty()
    } else if takes_up(boxes[n - 1], nx, ny, x, y) {
        in_cell(boxes, nx, ny, x, y, n - 1).push((n - 1) as usize)
    } else {
        in_cell(boxes, nx, ny, x, y, n - 1)
    }
}

/// How many cells a grid gets along a side that would need `wanted`.
pub fn grid_side(wanted: usize) -> (n: usize)
    ensures
        n == if wanted < 1 {
            1
        } else if wanted > MAX_GRID {
            MAX_GRID
        } else {
            wanted
        },
        1 <= n <= 512,
        1 <= wanted <= 512 ==> n == wanted,
        wanted > 512 ==> n == 512,
{
    if wanted < 1 {
        1
    } else if wanted > MAX_GRID {
        MAX_GRID
    } else {
        wanted
    }
}

/// The test can be asked of any number below `n`, and always gives the same answer.
pub open spec fn decides1<F: Fn(usize) -> bool>(f: F, n: int) -> bool {
    &&& forall|i: usize| i < n ==> #[trigger] f.requires((i,))
    &&& forall|i: usize| i < n && #[trigger] f.ensures((i,), true) ==> !f.ensures((i,), false)
}

pub open spec fn says1<F: Fn(usize) -> bool>(f: F, i: usize) -> bool {
    f.ensures((i,), true)
}

/// The triangle was put into the cell already, when the cells before `(x, y)` have been.
spec fn is_in(b: CellBox, nx: int, ny: int, c: int, x: int, y: int) -> bool {
    takes_up(b, nx, ny, c % nx, c / nx) && (c / nx < y || (c / nx == y && c % nx < x))
}

impl DepthGrid {
    /// Every cell lists the triangles that take it up.
    pub open spec fn holds(&self) -> bool {
        &&& self.nx >= 1
        &&& self.ny >= 1
        &&& self.cells@.len() == self.nx * self.ny
        &&& forall|c: int|
            0 <= c < self.cells@.len() ==> (#[trigger] self.cells@[c])@ == in_cell(
                self.boxes@,
                self.nx as int,
                self.ny as int,
                c % (self.nx as int),
                c / (self.nx as int),
                self.boxes@.len() as int,
            )
    }

    /// Sort triangles into a grid by their bounds.
    #[verifier::loop_isolation(false)]
    pub fn build(nx: usize, ny: usize, boxes: Vec<CellBox>) -> (g: DepthGrid)
        requires
            1 <= nx <= MAX_GRID,
            1 <= ny <= MAX_GRID,
        ensures
            g.nx == nx,
            g.ny == ny,
            g.boxes == boxes,
            g.holds(),
    {
        let ghost (w, h) = (nx as int, ny as int);
        assert(w * h <= 512 * 512) by (nonlinear_arith)
            requires
                1 <= w <= 512,
                1 <= h <= 512,
        ;
        let mut cells: Vec<Vec<usize>> = crate::trails::empty_stacks(nx * ny);
        assert forall|c: int| 0 <= c < cells@.len() implies (#[trigger] cells@[c])@ == in_cell(boxes@, w, h, c % w, c / w, 0) by {
            assert(cells@[c]@ =~= Seq::<usize>::empty());
        }
        assert(boxes@.len() == boxes.len());
        let mut t: usize = 0;
        while t < boxes.len()
            invariant
                t <= boxes@.len(),
                cells@.len() == w * h,
                forall|c: int| 0 <= c < cells@.len() ==> (#[trigger] cells@[c])@ == in_cell(boxes@, w, h, c % w, c / w, t as int),
            decreases boxes@.len() - t,
        {
            sort_in(&mut cells, nx, ny, &boxes, t);
            t = t + 1;
        }
        DepthGrid { nx, ny, boxes, cells }
    }

    /// Tell whether some triangle near a cell covers it. Nothing does outside the grid. `covers` tells
    /// whether a triangle covers the point in question.
    #[verifier::loop_isolation(false)]
    pub fn occluded<F: Fn(usize) -> bool>(&self, x: i64, y: i64, covers: &F) -> (yes: bool)
        requires
            self.holds(),
            decides1(*covers, self.boxes@.len() as int),
        ensures
            yes == (0 <= x < self.nx && 0 <= y < self.ny && exists|t: int|
                0 <= t < self.boxes@.len() && takes_up(#[trigger] self.boxes@[t], self.nx as int, self.ny as int, x as int, y as int) && says1(
                    *covers,
                    t as usize,
                )),
    {
        if x < 0 || y < 0 {
            return false;
        }
        if x as u64 >= self.nx as u64 || y as u64 >= self.ny as u64 {
            return false;
        }
        let (i, j): (usize, usize) = (x as usize, y as usize);
        let ghost boxes = self.boxes@;
        assert(self.cells@.len() == self.cells.len() && boxes.len() == self.boxes.len());
        let ghost (w, h) = (self.nx as int, self.ny as int);
        proof {
            cell_in_grid(w, h, i as int, j as int);
        }
        let c: usize = j * self.nx + i;
        let ghost list = in_cell(boxes, w, h, i as int, j as int, boxes.len() as int);
        assert(self.cells@[c as int]@ == list);
        proof {
            listed_in_cell(boxes, w, h, i as int, j as int, boxes.len() as int);
        }
        let here: &Vec<usize> = &self.cells[c];
        let mut k: usize = 0;
        while k < here.len()
            invariant
                k <= here@.len(),
                here@ == list,
                forall|m: int| 0 <= m < k ==> !says1(*covers, #[trigger] list[m]),
            decreases here@.len() - k,
        {
            let t: usize = here[k];
            let hit: bool = covers(t);
            assert(hit <==> says1(*covers, list[k as int]));
            if hit {
                assert(list[k as int] < boxes.len() && takes_up(boxes[list[k as int] as int], w, h, i as int, j as int));
                assert(takes_up(boxes[t as int], w, h, x as int, y as int));
                return true;
            }
            k = k + 1;
        }
        proof {
            if exists|t: int| 0 <= t < boxes.len() && takes_up(#[trigger] boxes[t], w, h, x as int, y as int) && says1(*covers, t as usize) {
                let t = choose|t: int|
                    0 <= t < boxes.len() && takes_up(#[trigger] boxes[t], w, h, x as int, y as int) && says1(*covers, t as usize);
                assert(list.contains(t as usize));
                let m = choose|m: int| 0 <= m < list.len() && list[m] == t as usize;
                assert(!says1(*covers, list[m]));
            }
        }
        false
    }
}

proof fn cell_in_grid(w: int, h: int, x: int, y: int)
    requires
        0 <= x < w,
        0 <= y < h,
    ensures
        0 <= y * w + x < w * h,
        (y * w + x) % w == x,
        (y * w + x) / w == y,
        y * w <= w * h,
{
    assert(0 <= y * w) by (nonlinear_arith)
        requires
            0 <= y,
            0 < w,
    ;
    assert(y * w + w <= w * h) by (nonlinear_arith)
        requires
            y + 1 <= h,
            0 < w,
    ;
    vstd::arithmetic::div_mod::lemma_fundamental_div_mod_converse(y * w + x, w, y, x);
}

proof fn listed_in_cell(boxes: Seq<CellBox>, nx: int, ny: int, x: int, y: int, n: int)
    requires
        0 <= n <= boxes.len() <= usize::MAX,
    ensures
        forall|k: int|
            0 <= k < in_cell(boxes, nx, ny, x, y, n).len() ==> (#[trigger] in_cell(boxes, nx, ny, x, y, n)[k]) < n && takes_up(
                boxes[in_cell(boxes, nx, ny, x, y, n)[k] as int],
                nx,
                ny,
                x,
                y,
            ),
        forall|t: int| 0 <= t < n && takes_up(#[trigger] boxes[t], nx, ny, x, y) ==> in_cell(boxes, nx, ny, x, y, n).contains(t as usize),
    decreases n,
{
    if n > 0 {
        listed_in_cell(boxes, nx, ny, x, y, n - 1);
        let rest = in_cell(boxes, nx, ny, x, y, n - 1);
        let all = in_cell(boxes, nx, ny, x, y, n);
        assert forall|k: int| 0 <= k < all.len() implies (#[trigger] all[k]) < n && takes_up(boxes[all[k] as int], nx, ny, x, y) by {
            if k < rest.len() {
                assert(rest[k] < n - 1);
                assert(all[k] == rest[k]);
            }
        }
        assert forall|t: int| 0 <= t < n && takes_up(#[trigger] boxes[t], nx, ny, x, y) implies all.contains(t as usize) by {
            if t < n - 1 {
                assert(rest.contains(t as usize));
                let k = choose|k: int| 0 <= k < rest.len() && rest[k] == t as usize;
                assert(all[k] == t as usize);
            } else {
                assert(all[rest.len() as int] == t as usize);
            }
        }
    }
}

fn smaller(a: usize, b: usize) -> (m: usize)
    ensures
        m == at_most(a, b as int),
{
    if a <= b {
        a
    } else {
        b
    }
}

/// Put one triangle into the cells that its bounds take up.
#[verifier::loop_isolation(false)]
fn sort_in(cells: &mut Vec<Vec<usize>>, nx: usize, ny: usize, boxes: &Vec<CellBox>, t: usize)
    requires
        1 <= nx <= MAX_GRID,
        1 <= ny <= MAX_GRID,
        t < boxes@.len(),
        old(cells)@.len() == nx * ny,
        forall|c: int|
            0 <= c < old(cells)@.len() ==> (#[trigger] old(cells)@[c])@ == in_cell(
                boxes@,
                nx as int,
                ny as int,
                c % (nx as int),
                c / (nx as int),
                t as int,
            ),
    ensures
        final(cells)@.len() == old(cells)@.len(),
        forall|c: int|
            0 <= c < final(cells)@.len() ==> (#[trigger] final(cells)@[c])@ == in_cell(
                boxes@,
                nx as int,
                ny as int,
                c % (nx as int),
                c / (nx as int),
                t + 1,
            ),
{
    let ghost (w, h) = (nx as int, ny as int);
    let ghost start = cells@;
    let b: CellBox = boxes[t];
    let x0: usize = smaller(b.x0, nx - 1);
    let x1: usize = smaller(b.x1, nx - 1);
    let y0: usize = smaller(b.y0, ny - 1);
    let y1: usize = smaller(b.y1, ny - 1);
    assert(w * h <= 512 * 512) by (nonlinear_arith)
        requires
            1 <= w <= 512,
            1 <= h <= 512,
    ;
    let mut y: usize = y0;
    assert forall|c: int| 0 <= c < start.len() implies !#[trigger] is_in(b, w, h, c, 0, y as int) by {}
    while y <= y1
        invariant
            y0 <= y,
            y <= y1 + 1 || y == y0,
            y <= ny,
            cells@.len() == w * h,
            forall|c: int| 0 <= c < cells@.len() ==> #[trigger] placed(cells@[c]@, start[c]@, t, is_in(b, w, h, c, 0, y as int)),
        decreases ny - y,
    {
        let mut x: usize = x0;
        assert forall|c: int| 0 <= c < start.len() implies #[trigger] is_in(b, w, h, c, x as int, y as int) == is_in(b, w, h, c, 0, y as int) by {}
        assert forall|c: int| 0 <= c < cells@.len() implies #[trigger] placed(cells@[c]@, start[c]@, t, is_in(b, w, h, c, x as int, y as int)) by {
            assert(placed(cells@[c]@, start[c]@, t, is_in(b, w, h, c, 0, y as int)));
        }
        while x <= x1
            invariant
                x0 <= x <= nx,
                x <= x1 + 1 || x == x0,
                cells@.len() == w * h,
                forall|c: int|
                    0 <= c < cells@.len() ==> #[trigger] placed(cells@[c]@, start[c]@, t, is_in(b, w, h, c, x as int, y as int)),
            decreases nx - x,
        {
            let ghost before = cells@;
            proof {
                cell_in_grid(w, h, x as int, y as int);
            }
            let k: usize = y * nx + x;
            assert(placed(cells@[k as int]@, start[k as int]@, t, is_in(b, w, h, k as int, x as int, y as int)));
            cells[k].push(t);
            proof {
                assert forall|c: int| 0 <= c < cells@.len() implies #[trigger] placed(
                    cells@[c]@,
                    start[c]@,
                    t,
                    is_in(b, w, h, c, x + 1, y as int),
                ) by {
                    assert(placed(before[c]@, start[c]@, t, is_in(b, w, h, c, x as int, y as int)));
                    if c != k {
                        assert(cells@[c] == before[c]);
                        if c / w == y && c % w == x {
                            vstd::arithmetic::div_mod::lemma_fundamental_div_mod(c, w);
                            assert(w * (c / w) == y * w) by (nonlinear_arith)
                                requires
                                    c / w == y,
                            ;
                        }
                    }
                }
            }
            x = x + 1;
        }
        proof {
            assert forall|c: int| 0 <= c < cells@.len() implies #[trigger] placed(cells@[c]@, start[c]@, t, is_in(b, w, h, c, 0, y + 1)) by {
                assert(placed(cells@[c]@, start[c]@, t, is_in(b, w, h, c, x as int, y as int)));
                vstd::arithmetic::div_mod::lemma_mod_bound(c, w);
            }
        }
        y = y + 1;
    }
    proof {
        assert forall|c: int| 0 <= c < cells@.len() implies (#[trigger] cells@[c])@ == in_cell(boxes@, w, h, c % w, c / w, t + 1) by {
            assert(placed(cells@[c]@, start[c]@, t, is_in(b, w, h, c, 0, y as int)));
            assert(start[c]@ == in_cell(boxes@, w, h, c % w, c / w, t as int));
        }
    }
}

/// The list has been given `t`, or has been left alone.
spec fn placed(now: Seq<usize>, start: Seq<usize>, t: usize, given: bool) -> bool {
    now == if given {
        start.push(t)
    } else {
        start
    }
}

// ---- hatching ----

/// `b` is the first of `n` places that none comes before.
pub open spec fn comes_first<F: Fn(usize, usize) -> bool>(n: usize, before: F, b: usize) -> bool {
    &&& b < n
    &&& forall|i: usize| i < b ==> #[trigger] says(before, b, i)
    &&& forall|i: usize| b < i < n ==> !#[trigger] says(before, i, b)
}

/// `b` is the last of `n` places that comes before none.
pub open spec fn comes_last<F: Fn(usize, usize) -> bool>(n: usize, before: F, b: usize) -> bool {
    &&& b < n
    &&& forall|i: usize| i < b ==> !#[trigger] says(before, b, i)
    &&& forall|i: usize| b < i < n ==> #[trigger] says(before, i, b)
}

/// The two ends of a hatch line, out of the `n` points where it meets the sides of a triangle. There
/// is no line with fewer than two.
#[verifier::loop_isolation(false)]
pub fn hatch_ends<F: Fn(usize, usize) -> bool>(n: usize, before: &F) -> (ends: Option<(usize, usize)>)
    requires
        decides(*before, n as int, n as int),
        ranks(*before, n as int),
    ensures
        ends is None <==> n < 2,
        ends matches Some(e) ==> comes_first(n, *before, e.0) && comes_last(n, *before, e.1),
{
    if n < 2 {
        return None;
    }
    let mut first: usize = 0;
    let mut last: usize = 0;
    let mut i: usize = 1;
    while i < n
        invariant
            1 <= i <= n,
            comes_first(i, *before, first),
            comes_last(i, *before, last),
        decreases n - i,
    {
        let lower: bool = before(i, first);
        assert(lower <==> says(*before, i, first));
        let below: bool = before(i, last);
        assert(below <==> says(*before, i, last));
        if lower {
            assert forall|j: usize| j < i implies #[trigger] says(*before, i, j) by {
                if j > first {
                    assert(!says(*before, j, first));
                    if !says(*before, i, j) {
                        assert(!says(*before, i, first));
                    }
                } else if j < first {
                    assert(says(*before, first, j));
                }
            }
            first = i;
        }
        if !below {
            assert forall|j: usize| j < i implies !#[trigger] says(*before, i, j) by {
                if j > last {
                    assert(says(*before, j, last));
                    if says(*before, i, j) {
                        assert(says(*before, i, last));
                    }
                } else if j < last {
                    assert(!says(*before, last, j));
                    if says(*before, i, j) {
                        assert(!says(*before, i, last));
                    }
                }
            }
            last = i;
        }
        i = i + 1;
    }
    Some((first, last))
}

// ---- what these find ----

/// Every sample but the last lies in a run that is hidden or seen as it is, and the runs follow each
/// other without a gap.
pub proof fn every_sample_is_in_its_run(hidden: Seq<bool>, runs: Seq<Run>, i: int)
    requires
        tiles(hidden, runs),
        0 <= i < hidden.len() - 1,
    ensures
        exists|k: int| 0 <= k < runs.len() && (#[trigger] runs[k]).from <= i < runs[k].to && runs[k].hidden == hidden[i],
        forall|k: int| 0 < k < runs.len() ==> (#[trigger] runs[k]).from == runs[k - 1].to && runs[k].hidden == !runs[k - 1].hidden,
        runs[0].from == 0,
        runs[runs.len() - 1].to == hidden.len() - 1,
{
    assert forall|k: int| 0 < k < runs.len() implies (#[trigger] runs[k]).from == runs[k - 1].to && runs[k].hidden == !runs[k - 1].hidden by {
        assert(runs_meet(runs, k));
    }
    run_before(hidden, runs, i, runs.len() - 1);
}

proof fn run_before(hidden: Seq<bool>, runs: Seq<Run>, i: int, k: int)
    requires
        tiles(hidden, runs),
        0 <= k < runs.len(),
        0 <= i < runs[k].to,
    ensures
        exists|j: int| 0 <= j < runs.len() && (#[trigger] runs[j]).from <= i < runs[j].to && runs[j].hidden == hidden[i],
    decreases k,
{
    assert(is_run(hidden, runs[k]));
    if runs[k].from <= i {
        assert(hidden[i] == runs[k].hidden);
    } else {
        assert(k > 0);
        assert(runs_meet(runs, k));
        run_before(hidden, runs, i, k - 1);
    }
}

/// The view has this candidate: either end or the middle of an edge that is long enough, or a rim.
pub open spec fn offered(c: Candidate, short: Seq<bool>, rims: int) -> bool {
    match c.kind {
        RefKind::Vertex => c.index < short.len() && !short[c.index as int],
        RefKind::Edge => c.index < short.len() && !short[c.index as int] && !c.second,
        RefKind::Circle => c.index < rims && !c.second,
    }
}

/// Edges come before rims, each by number; of one edge the first end, the second, the middle.
pub open spec fn candidate_before(c: Candidate, d: Candidate) -> bool {
    if c.kind == RefKind::Circle || d.kind == RefKind::Circle {
        d.kind == RefKind::Circle && (c.kind != RefKind::Circle || c.index < d.index)
    } else {
        c.index < d.index || c.index == d.index && c.kind == RefKind::Vertex && (d.kind == RefKind::Edge || !c.second && d.second)
    }
}

#[verifier::spinoff_prover]
#[verifier::rlimit(50)]
proof fn edges_offer(short: Seq<bool>, n: int)
    requires
        0 <= n <= short.len(),
        short.len() <= usize::MAX,
    ensures
        forall|i: int, j: int|
            0 <= i < j < edge_candidates(short, n).len() ==> candidate_before(
                #[trigger] edge_candidates(short, n)[i],
                #[trigger] edge_candidates(short, n)[j],
            ),
        forall|c: Candidate|
            #[trigger] edge_candidates(short, n).contains(c) <==> c.kind != RefKind::Circle && c.index < n && offered(c, short, 0),
    decreases n,
{
    if n > 0 {
        edges_offer(short, n - 1);
        let (rest, all) = (edge_candidates(short, n - 1), edge_candidates(short, n));
        let m = rest.len() as int;
        assert forall|i: int| 0 <= i < m implies (#[trigger] rest[i]).kind != RefKind::Circle && rest[i].index < n - 1 by {
            assert(rest.contains(rest[i]));
        }
        assert(forall|i: int| 0 <= i < m ==> #[trigger] all[i] == rest[i]);
        if !short[n - 1] {
            let e = (n - 1) as usize;
            assert(all[m] == (Candidate { kind: RefKind::Vertex, index: e, second: false }));
            assert(all[m + 1] == (Candidate { kind: RefKind::Vertex, index: e, second: true }));
            assert(all[m + 2] == (Candidate { kind: RefKind::Edge, index: e, second: false }));
        }
        assert forall|c: Candidate| #[trigger] all.contains(c) <==> c.kind != RefKind::Circle && c.index < n && offered(c, short, 0) by {
            if rest.contains(c) {
                let k = choose|k: int| 0 <= k < m && rest[k] == c;
                assert(all[k] == c);
            }
            if all.contains(c) {
                let k = choose|k: int| 0 <= k < all.len() && all[k] == c;
                if k < m {
                    assert(rest[k] == c);
                    assert(rest.contains(c));
                }
            }
        }
    }
}

/// A view offers every candidate it has, once and in order, and no others.
#[verifier::spinoff_prover]
#[verifier::rlimit(50)]
pub proof fn every_candidate_is_offered(short: Seq<bool>, rims: int)
    requires
        short.len() <= usize::MAX,
        0 <= rims <= usize::MAX,
    ensures
        forall|i: int, j: int|
            0 <= i < j < candidates(short, rims).len() ==> candidate_before(
                #[trigger] candidates(short, rims)[i],
                #[trigger] candidates(short, rims)[j],
            ),
        forall|c: Candidate| #[trigger] candidates(short, rims).contains(c) <==> offered(c, short, rims),
{
    let n = short.len() as int;
    edges_offer(short, n);
    let (edges, all) = (edge_candidates(short, n), candidates(short, rims));
    let m = edges.len() as int;
    assert forall|i: int| 0 <= i < m implies #[trigger] all[i] == edges[i] && all[i].kind != RefKind::Circle by {
        assert(edges.contains(edges[i]));
    }
    assert forall|i: int| m <= i < all.len() implies #[trigger] all[i] == (Candidate {
        kind: RefKind::Circle,
        index: (i - m) as usize,
        second: false,
    }) by {}
    assert forall|c: Candidate| #[trigger] all.contains(c) <==> offered(c, short, rims) by {
        if edges.contains(c) {
            let k = choose|k: int| 0 <= k < m && edges[k] == c;
            assert(all[k] == c);
        }
        if c.kind == RefKind::Circle && offered(c, short, rims) {
            assert(all[m + c.index] == c);
        }
        if all.contains(c) {
            let k = choose|k: int| 0 <= k < all.len() && all[k] == c;
            if k < m {
                assert(edges[k] == c);
                assert(edges.contains(c));
            }
        }
    }
}

/// No two candidates that are kept are of one kind at one place, and what is dropped lies where one of
/// its kind before it was kept.
#[verifier::spinoff_prover]
#[verifier::rlimit(50)]
pub proof fn kept_candidates_differ<F: Fn(usize, usize) -> bool>(list: Seq<Candidate>, close: F, n: int)
    requires
        0 <= n <= list.len() <= usize::MAX,
    ensures
        forall|j: int, k: int|
            0 <= j < k < distinct(list, close, n).len() ==> {
                let (x, y) = (#[trigger] distinct(list, close, n)[j], #[trigger] distinct(list, close, n)[k]);
                x < y < n && !(list[x as int].kind == list[y as int].kind && says(close, x, y))
            },
        forall|k: int| 0 <= k < distinct(list, close, n).len() ==> (#[trigger] distinct(list, close, n)[k]) < n,
        forall|i: usize|
            i < n && !#[trigger] distinct(list, close, n).contains(i) ==> exists|k: int|
                0 <= k < distinct(list, close, n).len() && (#[trigger] distinct(list, close, n)[k]) < i && list[distinct(list, close, n)[k] as int].kind
                    == list[i as int].kind && says(close, distinct(list, close, n)[k], i),
    decreases n,
{
    if n > 0 {
        kept_candidates_differ(list, close, n - 1);
        let (rest, all) = (distinct(list, close, n - 1), distinct(list, close, n));
        let m = rest.len() as int;
        let last = (n - 1) as usize;
        assert(forall|k: int| 0 <= k < m ==> #[trigger] all[k] == rest[k]);
        assert forall|i: usize| i < n && !#[trigger] all.contains(i) implies exists|k: int|
            0 <= k < all.len() && (#[trigger] all[k]) < i && list[all[k] as int].kind == list[i as int].kind && says(close, all[k], i) by {
            if i < n - 1 {
                if rest.contains(i) {
                    let k = choose|k: int| 0 <= k < m && rest[k] == i;
                    assert(all[k] == i);
                }
                let k = choose|k: int|
                    0 <= k < m && (#[trigger] rest[k]) < i && list[rest[k] as int].kind == list[i as int].kind && says(close, rest[k], i);
                assert(all[k] == rest[k]);
            } else {
                if !is_repeat(list, close, rest, last) {
                    assert(all[m] == i);
                }
                let k = choose|k: int| 0 <= k < m && list[(#[trigger] rest[k]) as int].kind == list[i as int].kind && says(close, rest[k], i);
                assert(all[k] == rest[k]);
            }
        }
        assert forall|j: int, k: int| 0 <= j < k < all.len() implies ({
            let (x, y) = (#[trigger] all[j], #[trigger] all[k]);
            x < y < n && !(list[x as int].kind == list[y as int].kind && says(close, x, y))
        }) by {
            if k < m {
                assert(all[j] == rest[j] && all[k] == rest[k]);
            } else {
                assert(all[j] == rest[j]);
                assert(!is_repeat(list, close, rest, last));
            }
        }
    }
}

/// No eligible place scores below the one found, and each before it scores above.
pub proof fn nothing_scores_below<F: Fn(usize, usize) -> bool>(eligible: Seq<bool>, below: F, b: usize, i: usize)
    requires
        eligible.len() <= usize::MAX,
        ranks(below, eligible.len() as int),
        is_first_least(eligible, below, b as int),
        i < eligible.len(),
        eligible[i as int],
    ensures
        eligible[b as int],
        !says(below, i, b),
        i < b ==> says(below, b, i),
{
    assert(!says(below, i, i) && !says(below, b, b));
    if i < b && says(below, i, b) {
        assert(says(below, b, i));
        assert(says(below, b, b));
    }
}

/// A rim right under the pointer gives nothing away. Corners give away fifteen hundredths of the reach,
/// edges twenty more, and what is hidden half of the reach on top.
pub proof fn penalties_rank_targets(kind: RefKind, hidden: bool)
    ensures
        penalty(kind, true) == penalty(kind, false) + 50,
        penalty(RefKind::Circle, hidden) + 15 == penalty(RefKind::Vertex, hidden),
        penalty(RefKind::Vertex, hidden) + 20 == penalty(RefKind::Edge, hidden),
        penalty(kind, hidden) >= 0,
        penalty(kind, hidden) == 0 <==> kind == RefKind::Circle && !hidden,
{
}

/// A cell lists, in order, the triangles whose bounds reach it; bounds beyond the grid reach its last
/// row or column.
#[verifier::spinoff_prover]
#[verifier::rlimit(50)]
pub proof fn cells_list_what_reaches_them(boxes: Seq<CellBox>, nx: int, ny: int, x: int, y: int, n: int)
    requires
        0 <= n <= boxes.len() <= usize::MAX,
        0 <= x < nx,
        0 <= y < ny,
    ensures
        forall|i: int, j: int|
            0 <= i < j < in_cell(boxes, nx, ny, x, y, n).len() ==> (#[trigger] in_cell(boxes, nx, ny, x, y, n)[i]) < (#[trigger] in_cell(
                boxes,
                nx,
                ny,
                x,
                y,
                n,
            )[j]),
        forall|t: usize|
            #[trigger] in_cell(boxes, nx, ny, x, y, n).contains(t) <==> t < n && {
                let b = boxes[t as int];
                (b.x0 <= x || x == nx - 1) && x <= b.x1 && (b.y0 <= y || y == ny - 1) && y <= b.y1
            },
    decreases n,
{
    let all = in_cell(boxes, nx, ny, x, y, n);
    listed_in_cell(boxes, nx, ny, x, y, n);
    if n > 0 {
        cells_list_what_reaches_them(boxes, nx, ny, x, y, n - 1);
        listed_in_cell(boxes, nx, ny, x, y, n - 1);
        let rest = in_cell(boxes, nx, ny, x, y, n - 1);
        assert(forall|k: int| 0 <= k < rest.len() ==> #[trigger] all[k] == rest[k]);
    }
    assert forall|t: usize| #[trigger] all.contains(t) <==> t < n && {
        let b = boxes[t as int];
        (b.x0 <= x || x == nx - 1) && x <= b.x1 && (b.y0 <= y || y == ny - 1) && y <= b.y1
    } by {
        if all.contains(t) {
            let k = choose|k: int| 0 <= k < all.len() && all[k] == t;
            assert(takes_up(boxes[all[k] as int], nx, ny, x, y));
        }
        if t < n && takes_up(boxes[t as int], nx, ny, x, y) {
            assert(all.contains(t));
        }
    }
}

/// The ends of a hatch line are two different points; none comes before the first, and the last comes
/// before none.
pub proof fn hatch_ends_are_extreme<F: Fn(usize, usize) -> bool>(n: usize, before: F, e: (usize, usize), i: usize)
    requires
        n >= 2,
        ranks(before, n as int),
        comes_first(n, before, e.0),
        comes_last(n, before, e.1),
        i < n,
    ensures
        e.0 != e.1,
        !says(before, i, e.0),
        !says(before, e.1, i),
{
    assert(!says(before, i, i) && !says(before, e.0, e.0) && !says(before, e.1, e.1));
    let other: usize = if e.0 == 0 {
        1
    } else {
        0
    };
    if e.0 == e.1 {
        assert(other < n && other != e.0);
        if other < e.0 {
            assert(says(before, e.0, other));
        } else {
            assert(!says(before, other, e.0));
        }
    }
    if i < e.0 {
        assert(says(before, e.0, i));
        if says(before, i, e.0) {
            assert(says(before, i, i));
        }
    }
    if i > e.1 {
        assert(says(before, i, e.1));
        if says(before, e.1, i) {
            assert(says(before, i, i));
        }
    }
}

} // verus!
