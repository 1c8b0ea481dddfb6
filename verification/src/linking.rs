//! Connectivity by unordered pairs: which items a list of links joins, directly or through others.

use vstd::prelude::*;

verus! {

/// `pairs` holds a link between `x` and `y`, in either order.
pub open spec fn adjacent(pairs: Seq<(usize, usize)>, x: usize, y: usize) -> bool {
    exists|k: int|
        0 <= k < pairs.len() && (#[trigger] pairs[k] == (x, y) || pairs[k] == (y, x))
}

/// Consecutive items of `w` are linked by `pairs`.
pub open spec fn is_walk(pairs: Seq<(usize, usize)>, w: Seq<usize>) -> bool {
    &&& w.len() >= 1
    &&& forall|k: int| 0 <= k < w.len() - 1 ==> adjacent(pairs, #[trigger] w[k], w[k + 1])
}

/// `w` is a walk over `pairs` from `x` to `y`.
pub open spec fn joins(pairs: Seq<(usize, usize)>, w: Seq<usize>, x: usize, y: usize) -> bool {
    is_walk(pairs, w) && w.first() == x && w.last() == y
}

/// `x` and `y` are the same item, or a walk over `pairs` leads from one to the other.
pub open spec fn linked(pairs: Seq<(usize, usize)>, x: usize, y: usize) -> bool {
    exists|w: Seq<usize>| joins(pairs, w, x, y)
}

/// Every item is linked to itself.
pub proof fn linked_reflexive(pairs: Seq<(usize, usize)>, x: usize)
    ensures
        linked(pairs, x, x),
{
    assert(joins(pairs, seq![x], x, x));
}

/// A single link joins its two ends.
pub proof fn adjacent_linked(pairs: Seq<(usize, usize)>, x: usize, y: usize)
    requires
        adjacent(pairs, x, y),
    ensures
        linked(pairs, x, y),
{
    let w = seq![x, y];
    assert forall|k: int| 0 <= k < w.len() - 1 implies adjacent(pairs, #[trigger] w[k], w[k + 1]) by {
        assert(k == 0);
    }
    assert(joins(pairs, w, x, y));
}

/// Being linked does not depend on the direction.
pub proof fn linked_symmetric(pairs: Seq<(usize, usize)>, x: usize, y: usize)
    requires
        linked(pairs, x, y),
    ensures
        linked(pairs, y, x),
{
    let w = choose|w: Seq<usize>| joins(pairs, w, x, y);
    let r = Seq::new(w.len(), |i: int| w[w.len() - 1 - i]);
    assert forall|k: int| 0 <= k < r.len() - 1 implies adjacent(pairs, #[trigger] r[k], r[k + 1]) by {
        let j = w.len() - 2 - k;
        assert(adjacent(pairs, w[j], w[j + 1]));
        let m = choose|m: int|
            0 <= m < pairs.len() && (#[trigger] pairs[m] == (w[j], w[j + 1]) || pairs[m] == (w[j + 1], w[j]));
        assert(pairs[m] == (r[k], r[k + 1]) || pairs[m] == (r[k + 1], r[k]));
    }
    assert(joins(pairs, r, y, x));
}

/// Links chain.
pub proof fn linked_transitive(pairs: Seq<(usize, usize)>, x: usize, y: usize, z: usize)
    requires
        linked(pairs, x, y),
        linked(pairs, y, z),
    ensures
        linked(pairs, x, z),
{
    let u = choose|w: Seq<usize>| joins(pairs, w, x, y);
    let v = choose|w: Seq<usize>| joins(pairs, w, y, z);
    let w = u + v.skip(1);
    assert forall|k: int| 0 <= k < w.len() - 1 implies adjacent(pairs, #[trigger] w[k], w[k + 1]) by {
        if k < u.len() - 1 {
            assert(adjacent(pairs, u[k], u[k + 1]));
        } else {
            let j = k - (u.len() - 1);
            assert(w[k] == v[j]);
            assert(adjacent(pairs, v[j], v[j + 1]));
        }
    }
    assert(w.last() == v.last());
    assert(joins(pairs, w, x, z));
}

/// More links never separate what was linked.
pub proof fn linked_monotone(few: Seq<(usize, usize)>, many: Seq<(usize, usize)>, x: usize, y: usize)
    requires
        linked(few, x, y),
        forall|k: int| 0 <= k < few.len() ==> many.contains(#[trigger] few[k]),
    ensures
        linked(many, x, y),
{
    let w = choose|w: Seq<usize>| joins(few, w, x, y);
    assert forall|k: int| 0 <= k < w.len() - 1 implies adjacent(many, #[trigger] w[k], w[k + 1]) by {
        let m = choose|m: int|
            0 <= m < few.len() && (#[trigger] few[m] == (w[k], w[k + 1]) || few[m] == (w[k + 1], w[k]));
        assert(many.contains(few[m]));
        let j = choose|j: int| 0 <= j < many.len() && many[j] == few[m];
        assert(many[j] == (w[k], w[k + 1]) || many[j] == (w[k + 1], w[k]));
    }
    assert(joins(many, w, x, y));
}

/// What one further link `(a, b)` adds: it joins everything that reached `a` with everything that
/// reached `b`, and nothing else.
pub open spec fn bridged(pairs: Seq<(usize, usize)>, a: usize, b: usize, x: usize, y: usize) -> bool {
    ||| linked(pairs, x, y)
    ||| linked(pairs, x, a) && linked(pairs, b, y)
    ||| linked(pairs, x, b) && linked(pairs, a, y)
}

proof fn bridged_step(pairs: Seq<(usize, usize)>, a: usize, b: usize, x: usize, y: usize, z: usize)
    requires
        bridged(pairs, a, b, x, y),
        adjacent(pairs.push((a, b)), y, z),
    ensures
        bridged(pairs, a, b, x, z),
{
    let m = choose|m: int|
        0 <= m < pairs.len() + 1 && (#[trigger] pairs.push((a, b))[m] == (y, z) || pairs.push((a, b))[m] == (z, y));
    linked_reflexive(pairs, a);
    linked_reflexive(pairs, b);
    if m < pairs.len() {
        assert(pairs[m] == (y, z) || pairs[m] == (z, y));
        adjacent_linked(pairs, y, z);
        if linked(pairs, x, y) {
            linked_transitive(pairs, x, y, z);
        } else if linked(pairs, x, a) && linked(pairs, b, y) {
            linked_transitive(pairs, b, y, z);
        } else {
            linked_transitive(pairs, a, y, z);
        }
    } else if y == a && z == b {
        if linked(pairs, x, y) {
        } else if linked(pairs, x, a) && linked(pairs, b, y) {
        } else {
            assert(linked(pairs, x, b));
        }
    } else {
        if linked(pairs, x, y) {
        } else if linked(pairs, x, a) && linked(pairs, b, y) {
        } else {
            assert(linked(pairs, x, b));
        }
    }
}

proof fn bridged_walk(pairs: Seq<(usize, usize)>, a: usize, b: usize, w: Seq<usize>)
    requires
        is_walk(pairs.push((a, b)), w),
    ensures
        bridged(pairs, a, b, w.first(), w.last()),
    decreases w.len(),
{
    if w.len() == 1 {
        linked_reflexive(pairs, w[0]);
    } else {
        let v = w.drop_last();
        assert forall|k: int| 0 <= k < v.len() - 1 implies adjacent(pairs.push((a, b)), #[trigger] v[k], v[k + 1]) by {
            assert(adjacent(pairs.push((a, b)), w[k], w[k + 1]));
        }
        bridged_walk(pairs, a, b, v);
        let k = w.len() - 2;
        assert(adjacent(pairs.push((a, b)), w[k], w[k + 1]));
        bridged_step(pairs, a, b, w.first(), w[k], w.last());
    }
}

/// Adding the link `(a, b)` links exactly what `bridged` says.
pub proof fn linked_push(pairs: Seq<(usize, usize)>, a: usize, b: usize, x: usize, y: usize)
    ensures
        linked(pairs.push((a, b)), x, y) <==> bridged(pairs, a, b, x, y),
{
    let more = pairs.push((a, b));
    if linked(more, x, y) {
        let w = choose|w: Seq<usize>| joins(more, w, x, y);
        bridged_walk(pairs, a, b, w);
    }
    if bridged(pairs, a, b, x, y) {
        assert forall|k: int| 0 <= k < pairs.len() implies more.contains(#[trigger] pairs[k]) by {
            assert(more[k] == pairs[k]);
        }
        assert(more[pairs.len() as int] == (a, b));
        adjacent_linked(more, a, b);
        adjacent_linked(more, b, a);
        if linked(pairs, x, y) {
            linked_monotone(pairs, more, x, y);
        } else if linked(pairs, x, a) && linked(pairs, b, y) {
            linked_monotone(pairs, more, x, a);
            linked_monotone(pairs, more, b, y);
            linked_transitive(more, x, a, b);
            linked_transitive(more, x, b, y);
        } else {
            linked_monotone(pairs, more, x, b);
            linked_monotone(pairs, more, a, y);
            linked_transitive(more, x, b, a);
            linked_transitive(more, x, a, y);
        }
    }
}

/// With no links at all, an item is linked to itself alone.
pub proof fn linked_nothing(x: usize, y: usize)
    ensures
        linked(Seq::empty(), x, y) <==> x == y,
{
    let none = Seq::<(usize, usize)>::empty();
    linked_reflexive(none, x);
    if linked(none, x, y) {
        let w = choose|w: Seq<usize>| joins(none, w, x, y);
        if w.len() > 1 {
            let k: int = 0;
            assert(adjacent(none, w[k], w[k + 1]));
        }
    }
}

} // verus!
