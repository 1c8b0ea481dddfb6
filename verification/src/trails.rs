//! Walking directed half-edges tip to tail until all are used up.

use vstd::prelude::*;

use crate::counting::{truths, truths_bound, truths_set};

verus! {

/// How many unused steps have `v` at the end that `ends` gives.
pub open spec fn left(ends: Seq<usize>, used: Seq<bool>, v: usize) -> nat
    decreases ends.len(),
{
    if ends.len() == 0 {
        0
    } else {
        left(ends.drop_last(), used.drop_last(), v) + if ends.last() == v && !used.last() { 1nat } else { 0nat }
    }
}

proof fn left_use(ends: Seq<usize>, used: Seq<bool>, i: int, v: usize)
    requires
        ends.len() == used.len(),
        0 <= i < ends.len(),
        !used[i],
    ensures
        left(ends, used.update(i, true), v) + (if ends[i] == v { 1nat } else { 0nat }) == left(ends, used, v),
    decreases ends.len(),
{
    let after = used.update(i, true);
    if i == ends.len() - 1 {
        assert(after.drop_last() =~= used.drop_last());
    } else {
        left_use(ends.drop_last(), used.drop_last(), i, v);
        assert(after.drop_last() =~= used.drop_last().update(i, true));
    }
}

proof fn left_positive(ends: Seq<usize>, used: Seq<bool>, v: usize)
    requires
        ends.len() == used.len(),
        left(ends, used, v) > 0,
    ensures
        exists|i: int| 0 <= i < ends.len() && #[trigger] ends[i] == v && !used[i],
    decreases ends.len(),
{
    if ends.last() == v && !used.last() {
        assert(ends[ends.len() - 1] == v);
    } else {
        left_positive(ends.drop_last(), used.drop_last(), v);
        let i = choose|i: int|
            0 <= i < ends.len() - 1 && #[trigger] ends.drop_last()[i] == v && !used.drop_last()[i];
        assert(ends[i] == v && !used[i]);
    }
}

/// As many steps leave every point as arrive there.
pub open spec fn balanced(src: Seq<usize>, dst: Seq<usize>) -> bool {
    let none = Seq::new(src.len(), |i: int| false);
    forall|v: usize| #[trigger] left(src, none, v) == left(dst, none, v)
}

/// Each step of the trail starts where the one before it ends, and the trail does not pass through
/// its starting point on the way.
pub open spec fn is_trail(src: Seq<usize>, dst: Seq<usize>, trail: Seq<usize>) -> bool {
    &&& trail.len() >= 1
    &&& forall|k: int| 0 <= k < trail.len() ==> #[trigger] trail[k] < src.len()
    &&& forall|k: int| 0 <= k < trail.len() - 1 ==> dst[#[trigger] trail[k] as int] == src[trail[k + 1] as int]
    &&& forall|k: int| 1 <= k < trail.len() ==> src[#[trigger] trail[k] as int] != src[trail[0] as int]
}

/// The trail ends where it started.
pub open spec fn returns_home(src: Seq<usize>, dst: Seq<usize>, trail: Seq<usize>) -> bool {
    dst[trail.last() as int] == src[trail[0] as int]
}

/// The unused steps are stacked by their starting points.
spec fn stocked(src: Seq<usize>, out: Seq<Vec<usize>>, used: Seq<bool>) -> bool {
    &&& used.len() == src.len()
    &&& forall|v: int, k: int|
        0 <= v < out.len() && 0 <= k < out[v]@.len() ==> {
            &&& (#[trigger] out[v]@[k]) < src.len()
            &&& src[out[v]@[k] as int] == v
            &&& !used[out[v]@[k] as int]
        }
    &&& forall|v: int, j: int, k: int|
        0 <= v < out.len() && 0 <= j < k < out[v]@.len() ==> #[trigger] out[v]@[j] != #[trigger] out[v]@[k]
    &&& forall|i: int| 0 <= i < src.len() && !(#[trigger] used[i]) ==> out[src[i] as int]@.contains(i as usize)
}

/// The steps that `after` has used and `before` had not are exactly those of the trail, each once.
pub open spec fn spends(before: Seq<bool>, after: Seq<bool>, trail: Seq<usize>) -> bool {
    &&& before.len() == after.len()
    &&& trail.no_duplicates()
    &&& forall|i: int| 0 <= i < before.len() ==> (#[trigger] after[i] <==> before[i] || trail.contains(i as usize))
    &&& forall|k: int| 0 <= k < trail.len() ==> (#[trigger] trail[k]) < before.len() && !before[trail[k] as int]
}

/// No unused step leaves `v`.
pub open spec fn exhausted(src: Seq<usize>, used: Seq<bool>, v: usize) -> bool {
    forall|i: int| 0 <= i < src.len() && #[trigger] src[i] == v ==> used[i]
}

/// Seen from `cur`, on a trail from `start`: one step more leaves `cur` than arrives there, one
/// step more arrives at `start` than leaves it, and everywhere else they match.
spec fn underway(src: Seq<usize>, dst: Seq<usize>, used: Seq<bool>, start: usize, cur: usize) -> bool {
    forall|v: usize|
        (#[trigger] left(src, used, v)) + (if v == start { 1nat } else { 0nat }) == left(dst, used, v) + (if v == cur {
            1nat
        } else {
            0nat
        })
}

proof fn underway_step(src: Seq<usize>, dst: Seq<usize>, used: Seq<bool>, start: usize, cur: usize, id: int)
    requires
        src.len() == dst.len() == used.len(),
        0 <= id < src.len(),
        !used[id],
        src[id] == cur,
        underway(src, dst, used, start, cur),
    ensures
        underway(src, dst, used.update(id, true), start, dst[id]),
{
    let after = used.update(id, true);
    assert forall|v: usize|
        (#[trigger] left(src, after, v)) + (if v == start { 1nat } else { 0nat }) == left(dst, after, v) + (if v == dst[id] {
            1nat
        } else {
            0nat
        }) by {
        left_use(src, used, id, v);
        left_use(dst, used, id, v);
        assert(left(src, used, v) + (if v == start { 1nat } else { 0nat }) == left(dst, used, v) + (if v == cur {
            1nat
        } else {
            0nat
        }));
    }
}

/// Follow unused steps from `start` until it is reached again or no step leads on.
#[verifier::loop_isolation(false)]
fn one_trail(src: &Vec<usize>, dst: &Vec<usize>, out: &mut Vec<Vec<usize>>, used: &mut Vec<bool>, start: usize) -> (trail: Vec<usize>)
    requires
        src@.len() == dst@.len(),
        forall|i: int| 0 <= i < src@.len() ==> (#[trigger] src@[i]) < old(out)@.len(),
        forall|i: int| 0 <= i < dst@.len() ==> (#[trigger] dst@[i]) < old(out)@.len(),
        stocked(src@, old(out)@, old(used)@),
        start < old(out)@.len(),
        old(out)@[start as int]@.len() > 0,
    ensures
        final(out)@.len() == old(out)@.len(),
        stocked(src@, final(out)@, final(used)@),
        is_trail(src@, dst@, trail@),
        src@[trail@[0] as int] == start,
        spends(old(used)@, final(used)@, trail@),
        !returns_home(src@, dst@, trail@) ==> exhausted(src@, final(used)@, dst@[trail@.last() as int]),
        underway(src@, dst@, old(used)@, start, start) ==> returns_home(src@, dst@, trail@) && underway(
            src@,
            dst@,
            final(used)@,
            start,
            start,
        ),
{
    let ghost used0 = used@;
    assert(src.len() == src@.len());
    let mut trail: Vec<usize> = Vec::new();
    let mut cur: usize = start;
    let mut going: bool = true;
    while going
        invariant
            out@.len() == old(out)@.len(),
            stocked(src@, out@, used@),
            cur < out@.len(),
            going ==> out@[cur as int]@.len() > 0,
            going ==> (trail@.len() == 0 <==> cur == start),
            !going ==> trail@.len() > 0 && (cur == start || out@[cur as int]@.len() == 0),
            trail@.len() > 0 ==> is_trail(src@, dst@, trail@) && dst@[trail@.last() as int] == cur && src@[trail@[0] as int] == start,
            spends(used0, used@, trail@),
            underway(src@, dst@, used0, start, start) ==> underway(src@, dst@, used@, start, cur) && (!going ==> cur == start),
        decreases (if going { 1int } else { 0int }), src@.len() - truths(used@),
    {
        let ghost out0 = out@;
        let ghost used1 = used@;
        let ghost trail0 = trail@;
        let id: usize = out[cur].pop().unwrap();
        proof {
            assert(out0[cur as int]@[out0[cur as int]@.len() - 1] == id);
            truths_set(used@, id as int);
        }
        used.set(id, true);
        trail.push(id);
        proof {
            truths_bound(used@);
            assert forall|v: int, k: int| 0 <= v < out@.len() && 0 <= k < out@[v]@.len() implies {
                &&& (#[trigger] out@[v]@[k]) < src@.len()
                &&& src@[out@[v]@[k] as int] == v
                &&& !used@[out@[v]@[k] as int]
            } by {
                assert(out@[v]@[k] == out0[v]@[k]);
                if out0[v]@[k] == id {
                    assert(v == cur);
                    assert(out0[cur as int]@[k] != out0[cur as int]@[out0[cur as int]@.len() - 1]);
                }
            }
            assert forall|v: int, j: int, k: int| 0 <= v < out@.len() && 0 <= j < k < out@[v]@.len() implies #[trigger] out@[v]@[j]
                != #[trigger] out@[v]@[k] by {
                assert(out@[v]@[j] == out0[v]@[j] && out@[v]@[k] == out0[v]@[k]);
            }
            assert forall|i: int| 0 <= i < src@.len() && !(#[trigger] used@[i]) implies out@[src@[i] as int]@.contains(i as usize) by {
                assert(!used1[i]);
                let v = src@[i] as int;
                let k = choose|k: int| 0 <= k < out0[v]@.len() && out0[v]@[k] == i as usize;
                if v == cur {
                    assert(k < out0[v]@.len() - 1);
                }
                assert(out@[v]@[k] == i as usize);
            }
            assert(spends(used0, used@, trail@)) by {
                assert(trail@[trail0.len() as int] == id);
                assert(!used1[id as int]);
                assert forall|i: int| 0 <= i < used0.len() implies (#[trigger] used@[i] <==> used0[i] || trail@.contains(i as usize)) by {
                    assert(used1[i] <==> used0[i] || trail0.contains(i as usize));
                    if trail0.contains(i as usize) {
                        let k = choose|k: int| 0 <= k < trail0.len() && trail0[k] == i as usize;
                        assert(trail@[k] == i as usize);
                    }
                    if trail@.contains(i as usize) && i != id {
                        let k = choose|k: int| 0 <= k < trail@.len() && trail@[k] == i as usize;
                        assert(trail0[k] == i as usize);
                    }
                }
                assert forall|k: int| 0 <= k < trail@.len() implies (#[trigger] trail@[k]) < used0.len() && !used0[trail@[k] as int] by {
                    if k < trail0.len() {
                        assert(trail0[k] == trail@[k]);
                    }
                }
                assert forall|j: int, k: int| 0 <= j < trail@.len() && 0 <= k < trail@.len() && j != k implies trail@[j] != trail@[k] by {
                    if j == trail0.len() {
                        assert(trail0.contains(trail0[k]));
                    } else if k == trail0.len() {
                        assert(trail0.contains(trail0[j]));
                    }
                }
            }
            assert(is_trail(src@, dst@, trail@)) by {
                assert forall|k: int| 0 <= k < trail@.len() - 1 implies dst@[#[trigger] trail@[k] as int] == src@[trail@[k + 1] as int] by {
                    if k < trail0.len() - 1 {
                        assert(dst@[trail0[k] as int] == src@[trail0[k + 1] as int]);
                    }
                }
                assert forall|k: int| 0 <= k < trail@.len() implies #[trigger] trail@[k] < src@.len() by {
                    if k < trail0.len() {
                        assert(trail0[k] < src@.len());
                    }
                }
                assert forall|k: int| 1 <= k < trail@.len() implies src@[#[trigger] trail@[k] as int] != src@[trail@[0] as int] by {
                    if k < trail0.len() {
                        assert(src@[trail0[k] as int] != src@[trail0[0] as int]);
                    }
                }
            }
            if underway(src@, dst@, used0, start, start) {
                underway_step(src@, dst@, used1, start, cur, id as int);
            }
        }
        cur = dst[id];
        if cur == start || out[cur].len() == 0 {
            proof {
                if underway(src@, dst@, used0, start, start) && cur != start {
                    assert(left(src@, used@, cur) + 0 == left(dst@, used@, cur) + 1);
                    left_positive(src@, used@, cur);
                    let i = choose|i: int| 0 <= i < src@.len() && #[trigger] src@[i] == cur && !used@[i];
                    assert(out@[src@[i] as int]@.contains(i as usize));
                }
            }
            going = false;
        }
    }
    proof {
        if cur != start {
            assert forall|i: int| 0 <= i < src@.len() && #[trigger] src@[i] == cur implies used@[i] by {
                if !used@[i] {
                    assert(out@[src@[i] as int]@.contains(i as usize));
                }
            }
        }
    }
    trail
}

/// Every step up to number `m` lies on one of the trails, at one place only.
pub open spec fn covers_once(trails: Seq<Vec<usize>>, used: Seq<bool>) -> bool {
    &&& forall|l: int, k: int|
        0 <= l < trails.len() && 0 <= k < trails[l]@.len() ==> (#[trigger] trails[l]@[k]) < used.len() && used[trails[l]@[k] as int]
    &&& forall|i: int| 0 <= i < used.len() && #[trigger] used[i] ==> lies_on(trails, i as usize)
    &&& forall|l: int, k: int, n: int, j: int|
        0 <= l < trails.len() && 0 <= k < trails[l]@.len() && 0 <= n < trails.len() && 0 <= j < trails[n]@.len()
            && #[trigger] trails[l]@[k] == #[trigger] trails[n]@[j] ==> l == n && k == j
}

/// Step `i` occurs on one of the trails.
pub open spec fn lies_on(trails: Seq<Vec<usize>>, i: usize) -> bool {
    exists|l: int| 0 <= l < trails.len() && (#[trigger] trails[l])@.contains(i)
}

/// The trail stops short of its start only where nothing leads on: every step that leaves its end
/// lies on it or on an earlier trail.
pub open spec fn stops_at_a_dead_end(src: Seq<usize>, dst: Seq<usize>, trails: Seq<Vec<usize>>, l: int) -> bool {
    forall|i: int|
        0 <= i < src.len() && #[trigger] src[i] == dst[trails[l]@.last() as int] ==> lies_on(trails.take(l + 1), i as usize)
}

/// A tour of the steps from `src[i]` to `dst[i]`: trails that use each step exactly once, and that
/// end where they started or where nothing leads on.
pub open spec fn is_tour(src: Seq<usize>, dst: Seq<usize>, trails: Seq<Vec<usize>>) -> bool {
    &&& covers_once(trails, Seq::new(src.len(), |i: int| true))
    &&& forall|l: int| 0 <= l < trails.len() ==> is_trail(src, dst, (#[trigger] trails[l])@)
    &&& forall|l: int|
        0 <= l < trails.len() && !returns_home(src, dst, (#[trigger] trails[l])@) ==> stops_at_a_dead_end(src, dst, trails, l)
}

proof fn covers_push(trails: Seq<Vec<usize>>, before: Seq<bool>, trail: Vec<usize>, after: Seq<bool>)
    requires
        covers_once(trails, before),
        spends(before, after, trail@),
        before.len() <= usize::MAX,
    ensures
        covers_once(trails.push(trail), after),
{
    let more = trails.push(trail);
    let n = trails.len() as int;
    assert forall|l: int, k: int| 0 <= l < more.len() && 0 <= k < more[l]@.len() implies (#[trigger] more[l]@[k]) < after.len()
        && after[more[l]@[k] as int] by {
        if l < n {
            assert(trails[l]@[k] == more[l]@[k]);
            assert(after[more[l]@[k] as int]);
        } else {
            let i = trail@[k];
            assert(trail@.contains(i));
            assert(after[i as int]);
        }
    }
    assert forall|i: int| 0 <= i < after.len() && #[trigger] after[i] implies lies_on(more, i as usize) by {
        if before[i] {
            assert(lies_on(trails, i as usize));
            let l = choose|l: int| 0 <= l < trails.len() && (#[trigger] trails[l])@.contains(i as usize);
            assert(more[l]@.contains(i as usize));
        } else {
            assert(more[n]@.contains(i as usize));
        }
    }
    assert forall|l: int, k: int, m: int, j: int|
        0 <= l < more.len() && 0 <= k < more[l]@.len() && 0 <= m < more.len() && 0 <= j < more[m]@.len()
            && #[trigger] more[l]@[k] == #[trigger] more[m]@[j] implies l == m && k == j by {
        if l < n {
            assert(before[trails[l]@[k] as int]);
        }
        if m < n {
            assert(before[trails[m]@[j] as int]);
        }
        if l == n {
            assert(!before[trail@[k] as int]);
        }
        if m == n {
            assert(!before[trail@[j] as int]);
        }
    }
}

/// One empty stack for each point.
pub fn empty_stacks(points: usize) -> (out: Vec<Vec<usize>>)
    ensures
        out@.len() == points,
        all_empty(out@),
{
    let mut out: Vec<Vec<usize>> = Vec::with_capacity(points);
    let mut v: usize = 0;
    while v < points
        invariant
            v <= points,
            out@.len() == v,
            all_empty(out@),
        decreases points - v,
    {
        out.push(Vec::new());
        v = v + 1;
    }
    out
}

/// Every stack is empty.
pub open spec fn all_empty(out: Seq<Vec<usize>>) -> bool {
    forall|w: int| 0 <= w < out.len() ==> (#[trigger] out[w])@.len() == 0
}

/// Join the steps from `src[i]` to `dst[i]` into trails. When as many steps leave every point as
/// arrive there, every trail comes back to its start. `out` holds a stack for each point, empty
/// before and empty again after.
#[verifier::loop_isolation(false)]
pub fn tour(src: &Vec<usize>, dst: &Vec<usize>, out: &mut Vec<Vec<usize>>) -> (trails: Vec<Vec<usize>>)
    requires
        src@.len() == dst@.len(),
        all_empty(old(out)@),
        forall|i: int| 0 <= i < src@.len() ==> (#[trigger] src@[i]) < old(out)@.len(),
        forall|i: int| 0 <= i < dst@.len() ==> (#[trigger] dst@[i]) < old(out)@.len(),
    ensures
        final(out)@.len() == old(out)@.len(),
        all_empty(final(out)@),
        is_tour(src@, dst@, trails@),
        balanced(src@, dst@) ==> forall|l: int| 0 <= l < trails@.len() ==> returns_home(src@, dst@, (#[trigger] trails@[l])@),
{
    let m: usize = src.len();
    let ghost points = out@.len();
    let mut used: Vec<bool> = vec![true; m];
    let mut i: usize = 0;
    while i < m
        invariant
            i <= m,
            out@.len() == points,
            used@.len() == m,
            forall|k: int| 0 <= k < m ==> (#[trigger] used@[k] <==> k >= i),
            stocked(src@, out@, used@),
        decreases m - i,
    {
        let ghost out0 = out@;
        let ghost used0 = used@;
        let s: usize = src[i];
        out[s].push(i);
        used.set(i, false);
        proof {
            assert forall|w: int, k: int| 0 <= w < out@.len() && 0 <= k < out@[w]@.len() implies {
                &&& (#[trigger] out@[w]@[k]) < src@.len()
                &&& src@[out@[w]@[k] as int] == w
                &&& !used@[out@[w]@[k] as int]
            } by {
                if w != s || k < out0[w]@.len() {
                    assert(out@[w]@[k] == out0[w]@[k]);
                }
            }
            assert forall|w: int, j: int, k: int| 0 <= w < out@.len() && 0 <= j < k < out@[w]@.len() implies #[trigger] out@[w]@[j]
                != #[trigger] out@[w]@[k] by {
                assert(out@[w]@[j] == out0[w]@[j]);
                assert(!used0[out0[w]@[j] as int]);
                if w != s || k < out0[w]@.len() {
                    assert(out@[w]@[k] == out0[w]@[k]);
                }
            }
            assert forall|k: int| 0 <= k < src@.len() && !(#[trigger] used@[k]) implies out@[src@[k] as int]@.contains(k as usize) by {
                let w = src@[k] as int;
                if k == i {
                    assert(out@[w]@[out0[w]@.len() as int] == i);
                } else {
                    assert(!used0[k]);
                    let j = choose|j: int| 0 <= j < out0[w]@.len() && out0[w]@[j] == k as usize;
                    assert(out@[w]@[j] == k as usize);
                }
            }
        }
        i = i + 1;
    }
    assert(used@ =~= Seq::new(m as nat, |k: int| false));
    let mut trails: Vec<Vec<usize>> = Vec::new();
    let mut first: usize = 0;
    while first < m
        invariant
            first <= m,
            out@.len() == points,
            stocked(src@, out@, used@),
            covers_once(trails@, used@),
            forall|k: int| 0 <= k < first ==> #[trigger] used@[k],
            forall|l: int| 0 <= l < trails@.len() ==> is_trail(src@, dst@, (#[trigger] trails@[l])@),
            forall|l: int|
                0 <= l < trails@.len() && !returns_home(src@, dst@, (#[trigger] trails@[l])@) ==> stops_at_a_dead_end(
                    src@,
                    dst@,
                    trails@,
                    l,
                ),
            balanced(src@, dst@) ==> forall|w: usize| #[trigger] left(src@, used@, w) == left(dst@, used@, w),
            balanced(src@, dst@) ==> forall|l: int| 0 <= l < trails@.len() ==> returns_home(src@, dst@, (#[trigger] trails@[l])@),
        decreases m - first, m - truths(used@),
    {
        if used[first] {
            first = first + 1;
        } else {
            let ghost used0 = used@;
            let ghost trails0 = trails@;
            proof {
                truths_bound(used@);
                assert(out@[src@[first as int] as int]@.contains(first));
                if balanced(src@, dst@) {
                    assert(underway(src@, dst@, used@, src@[first as int], src@[first as int]));
                }
            }
            let trail: Vec<usize> = one_trail(src, dst, out, &mut used, src[first]);
            proof {
                covers_push(trails@, used0, trail, used@);
                spending_counts(used0, used@, trail@);
                truths_bound(used@);
            }
            let ghost spent = trail;
            trails.push(trail);
            proof {
                assert(trails@ =~= trails0.push(spent));
                assert forall|l: int| 0 <= l < trails@.len() && !returns_home(src@, dst@, (#[trigger] trails@[l])@) implies stops_at_a_dead_end(
                    src@,
                    dst@,
                    trails@,
                    l,
                ) by {
                    if l < trails0.len() {
                        assert(trails0[l] == trails@[l]);
                        assert(trails@.take(l + 1) =~= trails0.take(l + 1));
                        assert(stops_at_a_dead_end(src@, dst@, trails0, l));
                    } else {
                        assert(trails@.take(l + 1) =~= trails@);
                    }
                }
                assert forall|l: int| 0 <= l < trails@.len() implies is_trail(src@, dst@, (#[trigger] trails@[l])@) by {
                    if l < trails0.len() {
                        assert(trails0[l] == trails@[l]);
                    }
                }
                if balanced(src@, dst@) {
                    assert forall|w: usize| #[trigger] left(src@, used@, w) == left(dst@, used@, w) by {}
                    assert forall|l: int| 0 <= l < trails@.len() implies returns_home(src@, dst@, (#[trigger] trails@[l])@) by {
                        if l < trails0.len() {
                            assert(trails0[l] == trails@[l]);
                        }
                    }
                }
            }
        }
    }
    assert(used@ =~= Seq::new(m as nat, |k: int| true));
    assert forall|w: int| 0 <= w < out@.len() implies (#[trigger] out@[w])@.len() == 0 by {
        if out@[w]@.len() > 0 {
            assert(!used@[out@[w]@[0] as int]);
        }
    }
    trails
}

/// The points that a trail passes, its end once more only where that is not its start.
pub open spec fn trail_points(src: Seq<usize>, dst: Seq<usize>, trail: Seq<usize>) -> Seq<usize> {
    let from = Seq::new(trail.len(), |k: int| src[trail[k] as int]);
    if returns_home(src, dst, trail) {
        from
    } else {
        from.push(dst[trail.last() as int])
    }
}

/// The points that a trail passes, to compute with.
pub fn points_of(src: &Vec<usize>, dst: &Vec<usize>, trail: &Vec<usize>) -> (points: Vec<usize>)
    requires
        src@.len() == dst@.len(),
        is_trail(src@, dst@, trail@),
    ensures
        points@ == trail_points(src@, dst@, trail@),
{
    let n: usize = trail.len();
    let mut points: Vec<usize> = Vec::with_capacity(n);
    let mut k: usize = 0;
    while k < n
        invariant
            n == trail@.len(),
            k <= n,
            src@.len() == dst@.len(),
            is_trail(src@, dst@, trail@),
            points@ =~= Seq::new(k as nat, |j: int| src@[trail@[j] as int]),
        decreases n - k,
    {
        assert(trail@[k as int] < src@.len());
        points.push(src[trail[k]]);
        k = k + 1;
    }
    assert(trail@[0] < src@.len() && trail@[n - 1] < src@.len());
    if dst[trail[n - 1]] != src[trail[0]] {
        points.push(dst[trail[n - 1]]);
    }
    points
}

/// Using steps up leaves fewer unused ones.
proof fn spending_counts(before: Seq<bool>, after: Seq<bool>, trail: Seq<usize>)
    requires
        spends(before, after, trail),
        trail.len() > 0,
    ensures
        truths(after) > truths(before),
{
    let i = trail[0] as int;
    assert(trail.contains(trail[0]));
    truths_set(before, i);
    truths_monotone(before.update(i, true), after);
}

/// More entries true, a larger count.
proof fn truths_monotone(few: Seq<bool>, many: Seq<bool>)
    requires
        few.len() == many.len(),
        forall|i: int| 0 <= i < few.len() && few[i] ==> #[trigger] many[i],
    ensures
        truths(few) <= truths(many),
    decreases few.len(),
{
    if few.len() > 0 {
        truths_monotone(few.drop_last(), many.drop_last());
        assert(few[few.len() - 1] ==> many[many.len() - 1]);
    }
}

/// The points of a trail are where its steps lead: step `k` leads from point `k` to the one after it,
/// and the last back to the first where the trail returns home.
pub proof fn points_follow_the_steps(src: Seq<usize>, dst: Seq<usize>, trail: Seq<usize>, k: int)
    requires
        is_trail(src, dst, trail),
        0 <= k < trail.len(),
    ensures
        trail_points(src, dst, trail)[k] == src[trail[k] as int],
        ({
            let points = trail_points(src, dst, trail);
            let home = dst[trail.last() as int] == src[trail[0] as int];
            &&& points.len() == trail.len() + if home {
                0int
            } else {
                1int
            }
            &&& dst[trail[k] as int] == points[if home && k + 1 == trail.len() {
                0
            } else {
                k + 1
            }]
        }),
{
}

} // verus!
