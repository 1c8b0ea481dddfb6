//! Closed chains of feature edges.
//!
//! The rim of a hole or a boss shows up as a ring: edges end to end through vertices that nothing
//! else meets, back to where they began.

use vstd::prelude::*;

use crate::feature_edges::{adjacency, degree, edges_of, far, fits, lists_stars, plain, star_members};
use crate::patterns::after;

verus! {

/// A ring needs this many edges to pass for a curve.
pub const MIN_RIM: usize = 8;

/// A walk that is longer than this is given up.
pub const MAX_CHAIN: usize = 100_000;

/// What lies across the `i`-th edge at vertex `v`.
pub open spec fn neighbour(edges: Seq<(usize, usize)>, v: usize, i: int) -> usize {
    far(edges, edges_of(edges, v)[i], v)
}

/// Some edge joins `u` and `v`.
pub open spec fn touches(edges: Seq<(usize, usize)>, u: usize, v: usize) -> bool {
    exists|e: int|
        0 <= e < edges.len() && (((#[trigger] edges[e]).0 == u && edges[e].1 == v) || (edges[e].0 == v && edges[e].1 == u))
}

/// Vertex `v` has two edges, to `p` and to `q`.
pub open spec fn between(edges: Seq<(usize, usize)>, v: usize, p: usize, q: usize) -> bool {
    &&& degree(edges, v) == 2
    &&& (neighbour(edges, v, 0) == p && neighbour(edges, v, 1) == q) || (neighbour(edges, v, 0) == q && neighbour(edges, v, 1) == p)
}

/// The place before `i` on a ring of `n`.
pub open spec fn before(i: int, n: int) -> int {
    if i == 0 {
        n - 1
    } else {
        i - 1
    }
}

/// The vertex at place `i` of `r` has two edges, to the one before it and to the one after it.
pub open spec fn ring_at(edges: Seq<(usize, usize)>, r: Seq<usize>, i: int) -> bool {
    between(edges, r[i], r[before(i, r.len() as int)], r[after(i, r.len() as int)])
}

/// The vertices of `r` differ, and each is joined to the one before it and the one after it alone.
pub open spec fn is_ring(edges: Seq<(usize, usize)>, r: Seq<usize>) -> bool {
    &&& r.len() >= 3
    &&& r.no_duplicates()
    &&& forall|i: int| 0 <= i < r.len() ==> #[trigger] ring_at(edges, r, i)
}

/// The walk passes its place `i` from the vertex before it to the one after it.
pub open spec fn chain_at(edges: Seq<(usize, usize)>, c: Seq<usize>, cur: usize, i: int) -> bool {
    between(edges, c[i], c[i - 1], c.push(cur)[i + 1])
}

/// A walk from `c[0]` over its first edge, on through vertices with two edges, that has come to
/// `cur`.
pub open spec fn is_chain(edges: Seq<(usize, usize)>, c: Seq<usize>, cur: usize) -> bool {
    &&& c.len() >= 1
    &&& c.no_duplicates()
    &&& degree(edges, c[0]) == 2
    &&& c.push(cur)[1] == neighbour(edges, c[0], 0)
    &&& forall|i: int| 1 <= i < c.len() ==> #[trigger] chain_at(edges, c, cur, i)
}

proof fn neighbour_touches(edges: Seq<(usize, usize)>, v: usize, i: int, verts: int)
    requires
        plain(edges, verts),
        edges.len() <= usize::MAX,
        0 <= i < degree(edges, v),
    ensures
        touches(edges, v, neighbour(edges, v, i)),
        neighbour(edges, v, i) != v,
        neighbour(edges, v, i) < verts,
{
    star_members(edges, v, edges.len() as int);
    let e = edges_of(edges, v)[i];
    assert(edges[e as int].0 == v || edges[e as int].1 == v);
}

proof fn touching_neighbour(edges: Seq<(usize, usize)>, u: usize, v: usize, verts: int)
    requires
        plain(edges, verts),
        edges.len() <= usize::MAX,
        touches(edges, u, v),
        degree(edges, v) == 2,
    ensures
        neighbour(edges, v, 0) == u || neighbour(edges, v, 1) == u,
        u != v,
{
    star_members(edges, v, edges.len() as int);
    let e = choose|e: int|
        0 <= e < edges.len() && (((#[trigger] edges[e]).0 == u && edges[e].1 == v) || (edges[e].0 == v && edges[e].1 == u));
    let list = edges_of(edges, v);
    assert(list.contains(e as usize));
    let k = choose|k: int| 0 <= k < list.len() && list[k] == e as usize;
    assert(neighbour(edges, v, k) == u);
}

/// The vertices next to one on a ring are on the ring.
proof fn ring_keeps(edges: Seq<(usize, usize)>, r: Seq<usize>, v: usize)
    requires
        is_ring(edges, r),
        r.contains(v),
    ensures
        degree(edges, v) == 2,
        r.contains(neighbour(edges, v, 0)),
        r.contains(neighbour(edges, v, 1)),
        neighbour(edges, v, 0) != neighbour(edges, v, 1),
{
    let i = choose|i: int| 0 <= i < r.len() && r[i] == v;
    let n = r.len() as int;
    assert(ring_at(edges, r, i));
    assert(before(i, n) != after(i, n));
}

/// What lies on two rings is followed on the first by something on both.
proof fn ring_step(edges: Seq<(usize, usize)>, r: Seq<usize>, c: Seq<usize>, i: int)
    requires
        is_ring(edges, r),
        is_ring(edges, c),
        0 <= i < r.len(),
        c.contains(r[i]),
    ensures
        c.contains(r[after(i, r.len() as int)]),
{
    assert(ring_at(edges, r, i));
    ring_keeps(edges, c, r[i]);
}

proof fn ring_reaches(edges: Seq<(usize, usize)>, r: Seq<usize>, c: Seq<usize>, a: int, b: int)
    requires
        is_ring(edges, r),
        is_ring(edges, c),
        0 <= a <= b < r.len(),
        c.contains(r[a]),
    ensures
        c.contains(r[b]),
    decreases b - a,
{
    if a < b {
        ring_reaches(edges, r, c, a, b - 1);
        ring_step(edges, r, c, b - 1);
    }
}

/// Two rings that share a vertex have all their vertices in common.
pub proof fn meeting_rings_agree(edges: Seq<(usize, usize)>, r: Seq<usize>, c: Seq<usize>, v: usize)
    requires
        is_ring(edges, r),
        is_ring(edges, c),
        r.contains(v),
        c.contains(v),
    ensures
        r.len() == c.len(),
        forall|x: usize| r.contains(x) <==> c.contains(x),
{
    ring_within(edges, r, c, v);
    ring_within(edges, c, r, v);
    r.unique_seq_to_set();
    c.unique_seq_to_set();
    assert(r.to_set() =~= c.to_set());
}

proof fn ring_within(edges: Seq<(usize, usize)>, r: Seq<usize>, c: Seq<usize>, v: usize)
    requires
        is_ring(edges, r),
        is_ring(edges, c),
        r.contains(v),
        c.contains(v),
    ensures
        forall|x: usize| r.contains(x) ==> c.contains(x),
{
    let n = r.len() as int;
    let a = choose|a: int| 0 <= a < n && r[a] == v;
    assert forall|x: usize| r.contains(x) implies c.contains(x) by {
        let b = choose|b: int| 0 <= b < n && r[b] == x;
        ring_reaches(edges, r, c, a, n - 1);
        ring_step(edges, r, c, n - 1);
        ring_reaches(edges, r, c, 0, b);
    }
}

/// A walk that starts on a ring stays on it.
proof fn chain_stays(edges: Seq<(usize, usize)>, r: Seq<usize>, c: Seq<usize>, cur: usize, i: int)
    requires
        is_ring(edges, r),
        is_chain(edges, c, cur),
        r.contains(c[0]),
        0 <= i <= c.len(),
    ensures
        r.contains(c.push(cur)[i]),
    decreases i,
{
    if i > 0 {
        chain_stays(edges, r, c, cur, i - 1);
        ring_keeps(edges, r, c[i - 1]);
        if i >= 2 {
            assert(chain_at(edges, c, cur, i - 1));
        }
    }
}

/// A walk that starts off a ring never comes onto it.
proof fn chain_avoids(edges: Seq<(usize, usize)>, r: Seq<usize>, c: Seq<usize>, cur: usize, i: int, verts: int)
    requires
        plain(edges, verts),
        edges.len() <= usize::MAX,
        is_ring(edges, r),
        is_chain(edges, c, cur),
        !r.contains(c[0]),
        0 <= i < c.len(),
    ensures
        !r.contains(c[i]),
    decreases i,
{
    if i > 0 {
        chain_avoids(edges, r, c, cur, i - 1, verts);
        assert(chain_at(edges, c, cur, i));
        if r.contains(c[i]) {
            ring_keeps(edges, r, c[i]);
        }
    }
}

/// On a ring, a walk can come back only to its start.
proof fn chain_returns_to_start(edges: Seq<(usize, usize)>, r: Seq<usize>, c: Seq<usize>, cur: usize, verts: int)
    requires
        plain(edges, verts),
        edges.len() <= usize::MAX,
        is_ring(edges, r),
        is_chain(edges, c, cur),
        r.contains(c[0]),
        c.contains(cur),
    ensures
        cur == c[0],
        c.len() >= 3,
{
    let m = c.len() - 1;
    chain_stays(edges, r, c, cur, m);
    ring_keeps(edges, r, c[m]);
    neighbour_touches(edges, c[m], 0, verts);
    neighbour_touches(edges, c[m], 1, verts);
    let j = choose|j: int| 0 <= j < c.len() && c[j] == cur;
    if m > 0 {
        assert(chain_at(edges, c, cur, m));
        assert(touches(edges, c[m], cur));
    }
    if 0 < j {
        chain_stays(edges, r, c, cur, j);
        ring_keeps(edges, r, c[j]);
        touching_neighbour(edges, c[m], c[j], verts);
        assert(chain_at(edges, c, cur, j));
        assert(false);
    }
}

/// A walk that is back at its start has gone round a ring.
proof fn closing_makes_a_ring(edges: Seq<(usize, usize)>, c: Seq<usize>, verts: int)
    requires
        plain(edges, verts),
        edges.len() <= usize::MAX,
        is_chain(edges, c, c[0]),
        c.len() >= 3,
    ensures
        is_ring(edges, c),
{
    let n = c.len() as int;
    let start = c[0];
    assert(chain_at(edges, c, start, n - 1));
    neighbour_touches(edges, c[n - 1], 0, verts);
    neighbour_touches(edges, c[n - 1], 1, verts);
    assert(touches(edges, c[n - 1], start));
    touching_neighbour(edges, c[n - 1], start, verts);
    assert(c.push(start)[1] == c[1]);
    assert forall|i: int| 0 <= i < n implies #[trigger] ring_at(edges, c, i) by {
        if i > 0 {
            assert(chain_at(edges, c, start, i));
        }
    }
}

proof fn filling_a_ring(edges: Seq<(usize, usize)>, r: Seq<usize>, c: Seq<usize>, cur: usize)
    requires
        is_ring(edges, r),
        is_chain(edges, c, cur),
        r.contains(c[0]),
    ensures
        c.len() <= r.len(),
        c.len() == r.len() ==> c.contains(cur),
{
    assert forall|x: usize| c.to_set().contains(x) implies r.to_set().contains(x) by {
        let i = choose|i: int| 0 <= i < c.len() && c[i] == x;
        chain_stays(edges, r, c, cur, i);
    }
    c.unique_seq_to_set();
    r.unique_seq_to_set();
    vstd::set_lib::lemma_len_subset(c.to_set(), r.to_set());
    if c.len() == r.len() {
        vstd::set_lib::lemma_subset_equality(c.to_set(), r.to_set());
        chain_stays(edges, r, c, cur, c.len() as int);
        assert(r.to_set().contains(cur));
    }
}

/// A walk from `start` is known: whether it closed, and where it went.
pub open spec fn walked_round(edges: Seq<(usize, usize)>, seen: Seq<bool>, start: usize, c: Seq<usize>, cur: usize, closed: bool) -> bool {
    &&& is_chain(edges, c, cur)
    &&& c[0] == start
    &&& c.len() <= MAX_CHAIN + 1
    &&& forall|i: int| 0 <= i < c.len() ==> (#[trigger] c[i]) < seen.len() && !seen[c[i] as int]
    &&& closed ==> cur == start
    &&& !closed ==> cur != start && (degree(edges, cur) != 2 || seen[cur as int] || c.contains(cur) || c.len() == MAX_CHAIN + 1)
}

/// Walk from `start` until the walk closes, meets a vertex that is not between two edges or was
/// seen before, or becomes too long. Mark what it passes.
#[verifier::loop_isolation(false)]
fn walk_chain(edges: &Vec<(usize, usize)>, stars: &Vec<Vec<usize>>, seen: &mut Vec<bool>, start: usize) -> (r: (Vec<usize>, bool, Ghost<usize>))
    requires
        plain(edges@, stars@.len() as int),
        lists_stars(stars@, edges@),
        old(seen)@.len() == stars@.len(),
        start < stars@.len(),
        !old(seen)@[start as int],
        degree(edges@, start) == 2,
    ensures
        walked_round(edges@, old(seen)@, start, r.0@, r.2@, r.1),
        final(seen)@.len() == old(seen)@.len(),
        forall|v: int| 0 <= v < old(seen)@.len() ==> (#[trigger] final(seen)@[v] <==> old(seen)@[v] || r.0@.contains(v as usize)),
{
    let ghost verts = stars@.len() as int;
    assert(stars@.len() == stars.len());
    let ghost before_walk = seen@;
    assert(edges@.len() == edges.len());
    let mut chain: Vec<usize> = Vec::new();
    chain.push(start);
    seen.set(start, true);
    let mut prev: usize = start;
    assert(stars@[start as int]@ == edges_of(edges@, start));
    proof {
        star_members(edges@, start, edges@.len() as int);
        neighbour_touches(edges@, start, 0, verts);
    }
    let first: usize = stars[start][0];
    let mut cur: usize = if edges[first].0 == start {
        edges[first].1
    } else {
        edges[first].0
    };
    let mut closed: bool = false;
    assert(chain@ =~= seq![start]);
    assert forall|v: int| 0 <= v < verts implies (#[trigger] seen@[v] <==> before_walk[v] || chain@.contains(v as usize)) by {
        if v == start {
            assert(chain@[0] == v);
        }
    }
    assert(touches(edges@, prev, cur));
    while stars[cur].len() == 2 && !seen[cur]
        invariant
            cur < verts,
            cur != start,
            !closed,
            seen@.len() == verts,
            is_chain(edges@, chain@, cur),
            chain@[0] == start,
            prev == chain@.last(),
            chain@.len() <= MAX_CHAIN,
            touches(edges@, prev, cur),
            forall|i: int| 0 <= i < chain@.len() ==> (#[trigger] chain@[i]) < verts && !before_walk[chain@[i] as int],
            forall|v: int| 0 <= v < verts ==> (#[trigger] seen@[v] <==> before_walk[v] || chain@.contains(v as usize)),
        decreases MAX_CHAIN - chain@.len(),
    {
        let ghost c0 = chain@;
        let ghost s0 = seen@;
        let ghost at = cur;
        seen.set(cur, true);
        chain.push(cur);
        assert(stars@[cur as int]@ == edges_of(edges@, cur));
        proof {
            star_members(edges@, cur, edges@.len() as int);
            neighbour_touches(edges@, cur, 0, verts);
            neighbour_touches(edges@, cur, 1, verts);
            touching_neighbour(edges@, prev, cur, verts);
        }
        let e0: usize = stars[cur][0];
        let e1: usize = stars[cur][1];
        let n0: usize = if edges[e0].0 == cur {
            edges[e0].1
        } else {
            edges[e0].0
        };
        let n1: usize = if edges[e1].0 == cur {
            edges[e1].1
        } else {
            edges[e1].0
        };
        let nxt: usize = if n0 == prev {
            n1
        } else {
            n0
        };
        assert(between(edges@, cur, prev, nxt));
        prev = cur;
        cur = nxt;
        assert(touches(edges@, prev, cur));
        proof {
            assert(!c0.contains(at));
            assert(chain@ =~= c0.push(at));
            assert forall|i: int| 1 <= i < chain@.len() implies #[trigger] chain_at(edges@, chain@, cur, i) by {
                if i < c0.len() {
                    assert(chain_at(edges@, c0, at, i));
                }
            }
            assert(chain@.push(cur)[1] == c0.push(at)[1]);
            assert(is_chain(edges@, chain@, cur));
            assert forall|v: int| 0 <= v < verts implies (#[trigger] seen@[v] <==> before_walk[v] || chain@.contains(v as usize)) by {
                assert(s0[v] <==> before_walk[v] || c0.contains(v as usize));
                if v == at {
                    assert(chain@[c0.len() as int] == v);
                } else {
                    if c0.contains(v as usize) {
                        let i = choose|i: int| 0 <= i < c0.len() && c0[i] == v as usize;
                        assert(chain@[i] == v as usize);
                    }
                    if chain@.contains(v as usize) {
                        let i = choose|i: int| 0 <= i < chain@.len() && chain@[i] == v as usize;
                        assert(c0[i] == v as usize);
                    }
                }
            }
        }
        if cur == start {
            closed = true;
            break;
        }
        if chain.len() > MAX_CHAIN {
            break;
        }
    }
    assert(stars@[cur as int]@ == edges_of(edges@, cur));
    (chain, closed, Ghost(cur))
}

/// A ring whose vertices were all unseen is either walked round from `start`, or left alone.
proof fn walk_settles(edges: Seq<(usize, usize)>, seen: Seq<bool>, start: usize, c: Seq<usize>, cur: usize, closed: bool, r: Seq<usize>)
    requires
        plain(edges, seen.len() as int),
        edges.len() <= usize::MAX,
        walked_round(edges, seen, start, c, cur, closed),
        is_ring(edges, r),
        r.len() <= MAX_CHAIN + 1,
        forall|i: int| 0 <= i < r.len() ==> !seen[#[trigger] r[i] as int],
    ensures
        r.contains(start) ==> closed && is_ring(edges, c) && c.contains(r[0]) && c.len() == r.len(),
        !r.contains(start) ==> forall|i: int| 0 <= i < c.len() ==> !r.contains(#[trigger] c[i]),
{
    let verts = seen.len() as int;
    if r.contains(start) {
        filling_a_ring(edges, r, c, cur);
        chain_stays(edges, r, c, cur, c.len() as int);
        ring_keeps(edges, r, cur);
        if !closed {
            if seen[cur as int] {
                let i = choose|i: int| 0 <= i < r.len() && r[i] == cur;
                assert(!seen[r[i] as int]);
            }
            assert(c.contains(cur));
            chain_returns_to_start(edges, r, c, cur, verts);
        }
        assert(c[0] == start);
        assert(c.contains(start));
        chain_returns_to_start(edges, r, c, cur, verts);
        closing_makes_a_ring(edges, c, verts);
        meeting_rings_agree(edges, r, c, start);
        assert(r.contains(r[0]));
    } else {
        assert forall|i: int| 0 <= i < c.len() implies !r.contains(#[trigger] c[i]) by {
            chain_avoids(edges, r, c, cur, i, verts);
        }
    }
}

/// `rims` are the rings of the edges that can pass for a curve, in the order of their lowest
/// vertices, each from its lowest vertex over that vertex's first edge.
pub open spec fn are_rims(edges: Seq<(usize, usize)>, rims: Seq<Vec<usize>>) -> bool {
    &&& forall|k: int| 0 <= k < rims.len() ==> is_rim(edges, (#[trigger] rims[k])@)
    &&& forall|j: int, k: int| 0 <= j < k < rims.len() ==> (#[trigger] rims[j])@[0] < (#[trigger] rims[k])@[0]
    &&& forall|r: Seq<usize>| #[trigger] is_ring(edges, r) && MIN_RIM <= r.len() <= MAX_CHAIN + 1 ==> on_a_rim(rims, r[0])
}

/// A ring that is long enough, written from its lowest vertex.
pub open spec fn is_rim(edges: Seq<(usize, usize)>, c: Seq<usize>) -> bool {
    &&& is_ring(edges, c)
    &&& MIN_RIM <= c.len() <= MAX_CHAIN + 1
    &&& c[1] == neighbour(edges, c[0], 0)
    &&& forall|i: int| 1 <= i < c.len() ==> c[0] < #[trigger] c[i]
}

pub open spec fn on_a_rim(rims: Seq<Vec<usize>>, v: usize) -> bool {
    exists|k: int| 0 <= k < rims.len() && (#[trigger] rims[k])@.contains(v)
}

/// Every ring is still untouched, or is one of the rims.
spec fn settled(edges: Seq<(usize, usize)>, seen: Seq<bool>, rims: Seq<Vec<usize>>) -> bool {
    forall|r: Seq<usize>| #[trigger]
        is_ring(edges, r) && MIN_RIM <= r.len() <= MAX_CHAIN + 1 ==> on_a_rim(rims, r[0]) || untouched(seen, r)
}

spec fn untouched(seen: Seq<bool>, r: Seq<usize>) -> bool {
    forall|i: int| 0 <= i < r.len() ==> !seen[#[trigger] r[i] as int]
}

proof fn ring_in_range(edges: Seq<(usize, usize)>, r: Seq<usize>, verts: int)
    requires
        plain(edges, verts),
        edges.len() <= usize::MAX,
        is_ring(edges, r),
    ensures
        forall|i: int| 0 <= i < r.len() ==> (#[trigger] r[i]) < verts,
{
    assert forall|i: int| 0 <= i < r.len() implies (#[trigger] r[i]) < verts by {
        let n = r.len() as int;
        assert(ring_at(edges, r, i));
        star_members(edges, r[i], edges.len() as int);
        let e = edges_of(edges, r[i])[0];
        assert(edges[e as int].0 == r[i] || edges[e as int].1 == r[i]);
    }
}

#[verifier::loop_isolation(false)]
fn rims_among(edges: &Vec<(usize, usize)>, verts: usize) -> (rims: Vec<Vec<usize>>)
    requires
        plain(edges@, verts as int),
    ensures
        are_rims(edges@, rims@),
{
    let stars: Vec<Vec<usize>> = adjacency(edges, verts);
    assert(edges@.len() == edges.len());
    let mut seen: Vec<bool> = vec![false; verts];
    let mut rims: Vec<Vec<usize>> = Vec::new();
    let mut start: usize = 0;
    proof {
        assert forall|r: Seq<usize>| #[trigger] is_ring(edges@, r) implies untouched(seen@, r) by {
            ring_in_range(edges@, r, verts as int);
        }
    }
    while start < verts
        invariant
            start <= verts,
            seen@.len() == verts,
            forall|k: int| 0 <= k < rims@.len() ==> is_rim(edges@, (#[trigger] rims@[k])@) && rims@[k]@[0] < start,
            forall|j: int, k: int| 0 <= j < k < rims@.len() ==> (#[trigger] rims@[j])@[0] < (#[trigger] rims@[k])@[0],
            forall|v: int| 0 <= v < start && degree(edges@, v as usize) == 2 ==> #[trigger] seen@[v],
            settled(edges@, seen@, rims@),
        decreases verts - start,
    {
        assert(stars@[start as int]@ == edges_of(edges@, start));
        if !seen[start] && stars[start].len() == 2 {
            let ghost seen0 = seen@;
            let ghost rims0 = rims@;
            let (chain, closed, Ghost(cur)) = walk_chain(edges, &stars, &mut seen, start);
            let ghost c = chain@;
            let found: bool = closed && chain.len() >= MIN_RIM;
            if found {
                proof {
                    closing_makes_a_ring(edges@, c, verts as int);
                    assert(c[1] == c.push(cur)[1]);
                    assert forall|i: int| 1 <= i < c.len() implies c[0] < #[trigger] c[i] by {
                        assert(chain_at(edges@, c, cur, i));
                        assert(!seen0[c[i] as int]);
                        assert(c[i] != c[0]);
                    }
                }
                rims.push(chain);
            }
            proof {
                assert forall|k: int| 0 <= k < rims0.len() implies rims@[k] == #[trigger] rims0[k] by {}
                assert forall|r: Seq<usize>| #[trigger]
                    is_ring(edges@, r) && MIN_RIM <= r.len() <= MAX_CHAIN + 1 implies on_a_rim(rims@, r[0]) || untouched(
                    seen@,
                    r,
                ) by {
                    if on_a_rim(rims0, r[0]) {
                        let k = choose|k: int| 0 <= k < rims0.len() && (#[trigger] rims0[k])@.contains(r[0]);
                        assert(rims@[k]@.contains(r[0]));
                    } else {
                        assert(untouched(seen0, r));
                        walk_settles(edges@, seen0, start, c, cur, closed, r);
                        ring_in_range(edges@, r, verts as int);
                        if r.contains(start) {
                            assert(found);
                            assert(rims@[rims0.len() as int]@ == c);
                        } else {
                            assert forall|i: int| 0 <= i < r.len() implies !seen@[#[trigger] r[i] as int] by {
                                assert(!seen0[r[i] as int]);
                                if c.contains(r[i]) {
                                    let j = choose|j: int| 0 <= j < c.len() && c[j] == r[i];
                                    assert(!r.contains(c[j]));
                                    assert(r.contains(r[i]));
                                }
                            }
                        }
                    }
                }
                assert(c.contains(start)) by {
                    assert(c[0] == start);
                }
            }
        }
        start = start + 1;
    }
    proof {
        assert forall|r: Seq<usize>| #[trigger] is_ring(edges@, r) && MIN_RIM <= r.len() <= MAX_CHAIN + 1 implies on_a_rim(rims@, r[0]) by {
            if !on_a_rim(rims@, r[0]) {
                assert(untouched(seen@, r));
                ring_in_range(edges@, r, verts as int);
                assert(ring_at(edges@, r, 0));
                assert(!seen@[r[0] as int]);
            }
        }
    }
    rims
}

/// The edges among the first `n` that join two different vertices.
pub open spec fn proper_edges(edges: Seq<(usize, usize)>, n: int) -> Seq<(usize, usize)>
    decreases n,
{
    if n <= 0 {
        Seq::empty()
    } else if edges[n - 1].0 != edges[n - 1].1 {
        proper_edges(edges, n - 1).push(edges[n - 1])
    } else {
        proper_edges(edges, n - 1)
    }
}

/// The closed chains among feature edges that can be circles. An edge that has shrunk to a point
/// counts for nothing.
#[verifier::loop_isolation(false)]
pub fn closed_chains(edges: &Vec<(usize, usize)>, verts: usize) -> (rims: Vec<Vec<usize>>)
    requires
        fits(edges@, verts as int),
    ensures
        are_rims(proper_edges(edges@, edges@.len() as int), rims@),
{
    let mut proper: Vec<(usize, usize)> = Vec::new();
    let mut e: usize = 0;
    while e < edges.len()
        invariant
            e <= edges@.len(),
            proper@ == proper_edges(edges@, e as int),
            plain(proper@, verts as int),
        decreases edges@.len() - e,
    {
        assert(edges@[e as int].0 < verts && edges@[e as int].1 < verts);
        if edges[e].0 != edges[e].1 {
            proper.push(edges[e]);
        }
        e = e + 1;
    }
    rims_among(&proper, verts)
}

/// The edges that have shrunk to a point are left out; the others keep their order.
pub proof fn proper_edges_have_two_ends(edges: Seq<(usize, usize)>, n: int)
    requires
        0 <= n <= edges.len(),
    ensures
        proper_edges(edges, n) == edges.take(n).filter(|e: (usize, usize)| e.0 != e.1),
    decreases n,
{
    reveal(Seq::filter);
    if n > 0 {
        proper_edges_have_two_ends(edges, n - 1);
        assert(edges.take(n).drop_last() =~= edges.take(n - 1));
        assert(edges.take(n).last() == edges[n - 1]);
    }
}

/// Every ring of eight vertices or more, up to a hundred thousand and one, is found, and what is found
/// goes round: each of its vertices has two edges, to the vertex before it and to the one after it.
#[verifier::spinoff_prover]
#[verifier::rlimit(50)]
pub proof fn long_rings_are_rims(edges: Seq<(usize, usize)>, rims: Seq<Vec<usize>>, r: Seq<usize>)
    requires
        are_rims(edges, rims),
        is_ring(edges, r),
        8 <= r.len() <= 100_001,
    ensures
        exists|k: int| 0 <= k < rims.len() && goes_round(edges, (#[trigger] rims[k])@) && same_vertices(rims[k]@, r),
        forall|k: int| 0 <= k < rims.len() ==> goes_round(edges, (#[trigger] rims[k])@) && 8 <= rims[k]@.len() <= 100_001,
{
    assert forall|k: int| 0 <= k < rims.len() implies goes_round(edges, (#[trigger] rims[k])@) && 8 <= rims[k]@.len() <= 100_001 by {
        let c = rims[k]@;
        assert(is_rim(edges, c));
        assert forall|i: int, j: int| 0 <= i < c.len() && j == (if i + 1 == c.len() { 0 } else { i + 1 }) implies #[trigger] linked_pair(edges, c, i, j) by {
            assert(ring_at(edges, c, i) && ring_at(edges, c, j));
        }
    }
    assert(on_a_rim(rims, r[0]));
    let k = choose|k: int| 0 <= k < rims.len() && (#[trigger] rims[k])@.contains(r[0]);
    assert(is_rim(edges, rims[k]@));
    assert(r.contains(r[0]));
    meeting_rings_agree(edges, r, rims[k]@, r[0]);
    meeting_rings_agree(edges, rims[k]@, r, r[0]);
}

/// The vertices at two places that follow each other have two edges each, and are neighbours.
pub open spec fn linked_pair(edges: Seq<(usize, usize)>, c: Seq<usize>, i: int, j: int) -> bool {
    &&& edges_of(edges, c[i]).len() == 2 && edges_of(edges, c[j]).len() == 2
    &&& far(edges, edges_of(edges, c[i])[0], c[i]) == c[j] || far(edges, edges_of(edges, c[i])[1], c[i]) == c[j]
    &&& far(edges, edges_of(edges, c[j])[0], c[j]) == c[i] || far(edges, edges_of(edges, c[j])[1], c[j]) == c[i]
}

/// The vertices differ, and each is linked to the next, the last to the first.
pub open spec fn goes_round(edges: Seq<(usize, usize)>, c: Seq<usize>) -> bool {
    &&& c.no_duplicates()
    &&& forall|i: int, j: int| 0 <= i < c.len() && j == (if i + 1 == c.len() { 0 } else { i + 1 }) ==> #[trigger] linked_pair(edges, c, i, j)
}

pub open spec fn same_vertices(c: Seq<usize>, r: Seq<usize>) -> bool {
    forall|v: usize| #[trigger] r.contains(v) <==> c.contains(v)
}

/// Each rim is written from its lowest vertex over that vertex's first edge, and the rims come in the order
/// of these vertices.
pub proof fn rims_start_at_their_lowest_vertex(edges: Seq<(usize, usize)>, rims: Seq<Vec<usize>>, k: int, i: int)
    requires
        are_rims(edges, rims),
        0 <= k < rims.len(),
        0 < i < rims[k]@.len(),
    ensures
        rims[k]@[0] < rims[k]@[i],
        rims[k]@[1] == far(edges, edges_of(edges, rims[k]@[0])[0], rims[k]@[0]),
        k > 0 ==> rims[k - 1]@[0] < rims[k]@[0],
{
    assert(is_rim(edges, rims[k]@));
}

} // verus!
