//! Cleaning rings of points, given which pairs of points coincide.

use vstd::prelude::*;

verus! {

/// The test can be asked about any pair of a number below `m` and one below `n`, and always gives the
/// same answer.
pub open spec fn decides<F: Fn(usize, usize) -> bool>(f: F, m: int, n: int) -> bool {
    &&& forall|i: usize, j: usize| i < m && j < n ==> #[trigger] f.requires((i, j))
    &&& forall|i: usize, j: usize| i < m && j < n && #[trigger] f.ensures((i, j), true) ==> !f.ensures((i, j), false)
}

/// The test says yes of `i` and `j`.
pub open spec fn says<F: Fn(usize, usize) -> bool>(f: F, i: usize, j: usize) -> bool {
    f.ensures((i, j), true)
}

/// The first `n` points without those that coincide with the point kept before them.
pub open spec fn thinned<F: Fn(usize, usize) -> bool>(close: F, n: int) -> Seq<usize>
    decreases n,
{
    if n <= 0 {
        Seq::empty()
    } else {
        let kept = thinned(close, n - 1);
        if kept.len() > 0 && says(close, (n - 1) as usize, kept.last()) {
            kept
        } else {
            kept.push((n - 1) as usize)
        }
    }
}

/// `kept` without the points at its end that coincide with its first.
pub open spec fn unwrapped<F: Fn(usize, usize) -> bool>(close: F, kept: Seq<usize>) -> Seq<usize>
    decreases kept.len(),
{
    if kept.len() >= 2 && says(close, kept[0], kept.last()) {
        unwrapped(close, kept.drop_last())
    } else {
        kept
    }
}

/// The neighbours of place `i` on the ring coincide: the ring runs out to `i` and straight back.
pub open spec fn spike<F: Fn(usize, usize) -> bool>(close: F, kept: Seq<usize>, i: int) -> bool {
    let m = kept.len() as int;
    says(close, kept[(i + m - 1) % m], kept[(i + 1) % m])
}

/// The first spike at or after place `i`, or the length of the ring.
pub open spec fn spike_from<F: Fn(usize, usize) -> bool>(close: F, kept: Seq<usize>, i: int) -> int
    decreases kept.len() - i,
{
    if i < 0 || i >= kept.len() || spike(close, kept, i) {
        i
    } else {
        spike_from(close, kept, i + 1)
    }
}

/// The ring without place `i` and the one after it.
pub open spec fn without_spike(kept: Seq<usize>, i: int) -> Seq<usize> {
    if i + 1 < kept.len() {
        kept.remove(i + 1).remove(i)
    } else {
        kept.remove(i).remove(0)
    }
}

/// The ring with its first spike removed, again and again, while three points are left.
pub open spec fn despiked<F: Fn(usize, usize) -> bool>(close: F, kept: Seq<usize>) -> Seq<usize>
    decreases kept.len(),
{
    let i = spike_from(close, kept, 0);
    if kept.len() >= 3 && 0 <= i < kept.len() {
        despiked(close, without_spike(kept, i))
    } else {
        kept
    }
}

proof fn spike_from_is_first<F: Fn(usize, usize) -> bool>(close: F, kept: Seq<usize>, i: int)
    requires
        0 <= i <= kept.len(),
    ensures
        i <= spike_from(close, kept, i) <= kept.len(),
        forall|k: int| i <= k < spike_from(close, kept, i) ==> !#[trigger] spike(close, kept, k),
        spike_from(close, kept, i) < kept.len() ==> spike(close, kept, spike_from(close, kept, i)),
    decreases kept.len() - i,
{
    if i < kept.len() && !spike(close, kept, i) {
        spike_from_is_first(close, kept, i + 1);
    }
}

proof fn spike_from_skips<F: Fn(usize, usize) -> bool>(close: F, kept: Seq<usize>, i: int, j: int)
    requires
        0 <= i <= j <= kept.len(),
        forall|k: int| i <= k < j ==> !#[trigger] spike(close, kept, k),
    ensures
        spike_from(close, kept, i) == spike_from(close, kept, j),
    decreases j - i,
{
    if i < j {
        assert(!spike(close, kept, i));
        spike_from_skips(close, kept, i + 1, j);
    }
}

/// The numbers rise.
pub open spec fn rising(s: Seq<usize>) -> bool {
    forall|i: int, j: int| 0 <= i < j < s.len() ==> #[trigger] s[i] < #[trigger] s[j]
}

/// Keep each of `n` points unless it coincides with the one kept before it.
pub fn thin<F: Fn(usize, usize) -> bool>(n: usize, close: &F) -> (kept: Vec<usize>)
    requires
        decides(*close, n as int, n as int),
    ensures
        kept@ == thinned(*close, n as int),
        rising(kept@),
        forall|k: int| 0 <= k < kept@.len() ==> (#[trigger] kept@[k]) < n,
{
    let mut kept: Vec<usize> = Vec::with_capacity(n);
    let mut i: usize = 0;
    while i < n
        invariant
            i <= n,
            decides(*close, n as int, n as int),
            kept@ == thinned(*close, i as int),
            rising(kept@),
            forall|k: int| 0 <= k < kept@.len() ==> (#[trigger] kept@[k]) < i,
        decreases n - i,
    {
        let m: usize = kept.len();
        let dup: bool = if m > 0 {
            close(i, kept[m - 1])
        } else {
            false
        };
        if !dup {
            kept.push(i);
        }
        i = i + 1;
    }
    kept
}

/// Drop the points at the end of the ring that coincide with its first.
fn unwrap_end<F: Fn(usize, usize) -> bool>(kept: &mut Vec<usize>, n: usize, close: &F)
    requires
        decides(*close, n as int, n as int),
        rising(old(kept)@),
        forall|k: int| 0 <= k < old(kept)@.len() ==> (#[trigger] old(kept)@[k]) < n,
    ensures
        final(kept)@ == unwrapped(*close, old(kept)@),
        rising(final(kept)@),
        final(kept)@.len() <= old(kept)@.len(),
        forall|k: int| 0 <= k < final(kept)@.len() ==> #[trigger] final(kept)@[k] == old(kept)@[k],
{
    let ghost given = kept@;
    let mut more: bool = kept.len() >= 2 && close(kept[0], kept[kept.len() - 1]);
    while more
        invariant
            decides(*close, n as int, n as int),
            rising(kept@),
            forall|k: int| 0 <= k < given.len() ==> (#[trigger] given[k]) < n,
            more ==> kept@.len() >= 2 && says(*close, kept@[0], kept@.last()),
            !more ==> !(kept@.len() >= 2 && says(*close, kept@[0], kept@.last())),
            unwrapped(*close, kept@) == unwrapped(*close, given),
            kept@.len() <= given.len(),
            forall|k: int| 0 <= k < kept@.len() ==> #[trigger] kept@[k] == given[k],
        decreases kept@.len(), (if more { 1int } else { 0int }),
    {
        let ghost before = kept@;
        kept.pop();
        assert(kept@ =~= before.drop_last());
        more = kept.len() >= 2 && close(kept[0], kept[kept.len() - 1]);
    }
}

/// Remove consecutive duplicates from a ring of `n` points, the one between its end and its start
/// too, and then every spike on which the ring runs out and straight back. Returns the points kept,
/// in order.
pub fn clean_loop<F: Fn(usize, usize) -> bool>(n: usize, close: &F) -> (kept: Vec<usize>)
    requires
        decides(*close, n as int, n as int),
    ensures
        kept@ == despiked(*close, unwrapped(*close, thinned(*close, n as int))),
        rising(kept@),
        forall|k: int| 0 <= k < kept@.len() ==> (#[trigger] kept@[k]) < n,
        kept@.len() >= 3 ==> forall|k: int| 0 <= k < kept@.len() ==> !#[trigger] spike(*close, kept@, k),
{
    let mut kept: Vec<usize> = thin(n, close);
    unwrap_end(&mut kept, n, close);
    let ghost given = kept@;
    let mut changed: bool = true;
    while changed && kept.len() >= 3
        invariant
            decides(*close, n as int, n as int),
            rising(kept@),
            forall|k: int| 0 <= k < kept@.len() ==> (#[trigger] kept@[k]) < n,
            despiked(*close, kept@) == despiked(*close, given),
            !changed ==> spike_from(*close, kept@, 0) == kept@.len(),
        decreases kept@.len(), (if changed { 1int } else { 0int }),
    {
        changed = false;
        let m: usize = kept.len();
        let mut i: usize = 0;
        let mut at: usize = m;
        while i < m && at == m
            invariant
                decides(*close, n as int, n as int),
                m == kept@.len(),
                m >= 3,
                forall|k: int| 0 <= k < kept@.len() ==> (#[trigger] kept@[k]) < n,
                i <= m,
                forall|k: int| 0 <= k < i && k != at ==> !#[trigger] spike(*close, kept@, k),
                at == m || (at < i && spike(*close, kept@, at as int) && i == at + 1),
            decreases m - i,
        {
            let prev: usize = if i == 0 {
                m - 1
            } else {
                i - 1
            };
            let next: usize = if i + 1 == m {
                0
            } else {
                i + 1
            };
            proof {
                assert((i + m - 1) % (m as int) == prev) by {
                    if i == 0 {
                        vstd::arithmetic::div_mod::lemma_small_mod((m - 1) as nat, m as nat);
                    } else {
                        vstd::arithmetic::div_mod::lemma_mod_add_multiples_vanish((i - 1) as int, m as int);
                        vstd::arithmetic::div_mod::lemma_small_mod((i - 1) as nat, m as nat);
                    }
                }
                assert((i + 1) % (m as int) == next) by {
                    if i + 1 == m {
                        vstd::arithmetic::div_mod::lemma_mod_self_0(m as int);
                    } else {
                        vstd::arithmetic::div_mod::lemma_small_mod((i + 1) as nat, m as nat);
                    }
                }
            }
            if close(kept[prev], kept[next]) {
                at = i;
            }
            i = i + 1;
        }
        proof {
            spike_from_is_first(*close, kept@, 0);
            spike_from_skips(*close, kept@, 0, at as int);
        }
        if at < m {
            let ghost before = kept@;
            assert(spike_from(*close, before, 0) == at);
            if at + 1 < m {
                kept.remove(at + 1);
                kept.remove(at);
            } else {
                kept.remove(at);
                kept.remove(0);
            }
            assert(kept@ == without_spike(before, at as int));
            changed = true;
        }
    }
    proof {
        spike_from_is_first(*close, kept@, 0);
    }
    kept
}

/// Collapse consecutive points of a ring that coincide, and drop its last where it coincides with
/// its first.
pub fn collapse_ring<F: Fn(usize, usize) -> bool>(n: usize, close: &F) -> (kept: Vec<usize>)
    requires
        decides(*close, n as int, n as int),
    ensures
        ({
            let t = thinned(*close, n as int);
            kept@ == if t.len() > 1 && says(*close, t[0], t.last()) { t.drop_last() } else { t }
        }),
        rising(kept@),
        forall|k: int| 0 <= k < kept@.len() ==> (#[trigger] kept@[k]) < n,
{
    let mut kept: Vec<usize> = thin(n, close);
    let m: usize = kept.len();
    if m > 1 && close(kept[0], kept[m - 1]) {
        let ghost before = kept@;
        kept.pop();
        assert(kept@ =~= before.drop_last());
    }
    kept
}

/// Thinning keeps the first point, and of the others those that do not coincide with the point kept
/// before them: what is dropped coincides with it.
#[verifier::spinoff_prover]
#[verifier::rlimit(50)]
pub proof fn thinning_drops_repeats<F: Fn(usize, usize) -> bool>(close: F, n: int)
    requires
        0 <= n <= usize::MAX,
    ensures
        rising(thinned(close, n)),
        n > 0 ==> thinned(close, n).len() > 0 && thinned(close, n)[0] == 0,
        forall|k: int| 0 <= k < thinned(close, n).len() ==> (#[trigger] thinned(close, n)[k]) < n,
        forall|j: int, k: int|
            0 <= j && k == j + 1 && k < thinned(close, n).len() ==> !says(close, #[trigger] thinned(close, n)[k], #[trigger] thinned(close, n)[j]),
        forall|i: usize|
            i < n && !#[trigger] thinned(close, n).contains(i) ==> exists|k: int|
                0 <= k < thinned(close, n).len() && (#[trigger] thinned(close, n)[k]) < i && (k + 1 < thinned(close, n).len() ==> i < thinned(
                    close,
                    n,
                )[k + 1]) && says(close, i, thinned(close, n)[k]),
    decreases n,
{
    if n > 0 {
        thinning_drops_repeats(close, n - 1);
        let (rest, all) = (thinned(close, n - 1), thinned(close, n));
        let m = rest.len() as int;
        assert forall|i: usize| i < n && !#[trigger] all.contains(i) implies exists|k: int|
            0 <= k < all.len() && (#[trigger] all[k]) < i && (k + 1 < all.len() ==> i < all[k + 1]) && says(close, i, all[k]) by {
            if i < n - 1 {
                if rest.contains(i) {
                    let k = choose|k: int| 0 <= k < m && rest[k] == i;
                    assert(all[k] == i);
                }
                let k = choose|k: int| 0 <= k < m && (#[trigger] rest[k]) < i && (k + 1 < m ==> i < rest[k + 1]) && says(close, i, rest[k]);
                assert(all[k] == rest[k]);
            } else {
                if all.len() > m {
                    assert(all[m] == i);
                }
                assert(all[m - 1] == rest.last());
            }
        }
    }
}

/// What is left is the start of the ring, up to a point that does not coincide with the first; all
/// that is dropped coincides with it.
pub proof fn unwrapping_drops_repeats_of_the_first<F: Fn(usize, usize) -> bool>(close: F, kept: Seq<usize>)
    ensures
        ({
            let left = unwrapped(close, kept);
            &&& left.len() <= kept.len()
            &&& left == kept.take(left.len() as int)
            &&& kept.len() > 0 ==> left.len() > 0
            &&& left.len() >= 2 ==> !says(close, kept[0], left[left.len() - 1])
            &&& forall|k: int| left.len() <= k < kept.len() ==> says(close, kept[0], #[trigger] kept[k])
        }),
    decreases kept.len(),
{
    if kept.len() >= 2 && says(close, kept[0], kept.last()) {
        let rest = kept.drop_last();
        unwrapping_drops_repeats_of_the_first(close, rest);
        let left = unwrapped(close, kept);
        assert(left =~= kept.take(left.len() as int));
        assert forall|k: int| left.len() <= k < kept.len() implies says(close, kept[0], #[trigger] kept[k]) by {
            if k < rest.len() {
                assert(rest[k] == kept[k]);
            }
        }
    } else {
        assert(kept =~= kept.take(kept.len() as int));
    }
}

proof fn around<F: Fn(usize, usize) -> bool>(close: F, kept: Seq<usize>, k: int)
    requires
        0 <= k < kept.len(),
    ensures
        spike(close, kept, k) == says(
            close,
            kept[if k == 0 {
                kept.len() - 1
            } else {
                k - 1
            }],
            kept[if k + 1 == kept.len() {
                0
            } else {
                k + 1
            }],
        ),
{
    let m = kept.len() as int;
    if k == 0 {
        vstd::arithmetic::div_mod::lemma_small_mod((m - 1) as nat, m as nat);
    } else {
        vstd::arithmetic::div_mod::lemma_mod_add_multiples_vanish(k - 1, m);
        vstd::arithmetic::div_mod::lemma_small_mod((k - 1) as nat, m as nat);
    }
    if k + 1 == m {
        vstd::arithmetic::div_mod::lemma_mod_self_0(m);
    } else {
        vstd::arithmetic::div_mod::lemma_small_mod((k + 1) as nat, m as nat);
    }
}

/// Where the ring runs out to a place and straight back, that place and the next one are cut out and
/// the rest is cleaned in the same way, the first such place first. A ring without one, or of fewer
/// than three points, is left as it is.
#[verifier::spinoff_prover]
#[verifier::rlimit(50)]
pub proof fn spikes_are_cut_out<F: Fn(usize, usize) -> bool>(close: F, kept: Seq<usize>, i: int)
    requires
        0 <= i <= kept.len(),
        forall|k: int|
            #![trigger kept[k]]
            0 <= k < i ==> !says(
                close,
                kept[if k == 0 {
                    kept.len() - 1
                } else {
                    k - 1
                }],
                kept[if k + 1 == kept.len() {
                    0
                } else {
                    k + 1
                }],
            ),
        i < kept.len() ==> says(
            close,
            kept[if i == 0 {
                kept.len() - 1
            } else {
                i - 1
            }],
            kept[if i + 1 == kept.len() {
                0
            } else {
                i + 1
            }],
        ),
    ensures
        i == kept.len() || kept.len() < 3 ==> despiked(close, kept) == kept,
        kept.len() >= 3 && i + 1 < kept.len() ==> despiked(close, kept) == despiked(close, kept.take(i) + kept.skip(i + 2)),
        kept.len() >= 3 && i + 1 == kept.len() ==> despiked(close, kept) == despiked(close, kept.subrange(1, i)),
{
    let m = kept.len() as int;
    assert forall|k: int| 0 <= k < i implies !#[trigger] spike(close, kept, k) by {
        let here = kept[k];
        around(close, kept, k);
    }
    if i < m {
        around(close, kept, i);
    }
    spike_from_skips(close, kept, 0, i);
    if i + 1 < m {
        assert(without_spike(kept, i) =~= kept.take(i) + kept.skip(i + 2));
    } else if i + 1 == m && m >= 3 {
        assert(without_spike(kept, i) =~= kept.subrange(1, i));
    }
}

} // verus!
