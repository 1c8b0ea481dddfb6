//! Sums over sequences, and how they change when one entry does.

use vstd::prelude::*;

verus! {

/// How many entries are true.
pub open spec fn truths(s: Seq<bool>) -> nat
    decreases s.len(),
{
    if s.len() == 0 {
        0
    } else {
        truths(s.drop_last()) + if s.last() { 1nat } else { 0nat }
    }
}

/// Setting an entry that was false adds one.
pub proof fn truths_set(s: Seq<bool>, i: int)
    requires
        0 <= i < s.len(),
        !s[i],
    ensures
        truths(s.update(i, true)) == truths(s) + 1,
    decreases s.len(),
{
    let t = s.update(i, true);
    if i == s.len() - 1 {
        assert(t.drop_last() =~= s.drop_last());
    } else {
        truths_set(s.drop_last(), i);
        assert(t.drop_last() =~= s.drop_last().update(i, true));
    }
}

/// No more entries are true than there are entries.
pub proof fn truths_bound(s: Seq<bool>)
    ensures
        truths(s) <= s.len(),
    decreases s.len(),
{
    if s.len() > 0 {
        truths_bound(s.drop_last());
    }
}

/// The sum of the entries.
pub open spec fn sum_u32(s: Seq<u32>) -> nat
    decreases s.len(),
{
    if s.len() == 0 {
        0
    } else {
        sum_u32(s.drop_last()) + s.last() as nat
    }
}

/// Changing one entry changes the sum by the difference.
pub proof fn sum_u32_set(s: Seq<u32>, i: int, v: u32)
    requires
        0 <= i < s.len(),
    ensures
        sum_u32(s.update(i, v)) + s[i] == sum_u32(s) + v,
    decreases s.len(),
{
    let t = s.update(i, v);
    if i == s.len() - 1 {
        assert(t.drop_last() =~= s.drop_last());
    } else {
        sum_u32_set(s.drop_last(), i, v);
        assert(t.drop_last() =~= s.drop_last().update(i, v));
    }
}

/// The count is that of the true entries.
pub proof fn truths_are_counted(s: Seq<bool>)
    ensures
        truths(s) == s.filter(|b: bool| b).len(),
    decreases s.len(),
{
    reveal(Seq::filter);
    if s.len() > 0 {
        truths_are_counted(s.drop_last());
    }
}

/// The sum of two parts is that of the whole.
pub proof fn sums_join(s: Seq<u32>, t: Seq<u32>)
    ensures
        sum_u32(s + t) == sum_u32(s) + sum_u32(t),
        s.len() == 1 ==> sum_u32(s) == s[0],
    decreases t.len(),
{
    if t.len() > 0 {
        sums_join(s, t.drop_last());
        assert((s + t).drop_last() =~= s + t.drop_last());
        assert((s + t).last() == t.last());
    } else {
        assert(s + t =~= s);
    }
    if s.len() == 1 {
        assert(s.drop_last() =~= Seq::<u32>::empty());
        assert(sum_u32(s.drop_last()) == 0);
    }
}

} // verus!
