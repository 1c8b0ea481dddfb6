//! Cleaning up the feature edges of a boolean result: spurs, scraps and loops that lost a segment.
//!
//! The measurements (how long a chain is, how wide a gap) come from outside as marks; what a chain
//! is, where it ends, and which edges go is decided here.

use vstd::prelude::*;

use crate::first_seen::firsts;
use crate::linking::linked;
use crate::trails::empty_stacks;
use crate::union_find::{partitions, partitions_nothing, partitions_push, Uf};

verus! {

/// What becomes of a mesh edge.
#[derive(Clone, Copy, PartialEq, Eq, Structural, Debug)]
pub enum EdgeClass {
    /// A real corner, which is drawn.
    Sharp,
    /// A smooth bend.
    Tangent,
    /// The inside of a flat region, or a seam that is not drawn.
    Hidden,
}

/// The rule: an open edge, with one face, is drawn; of any other the angle between its faces
/// decides. Where only manifold edges are wanted, those with one face or more than two are hidden.
pub open spec fn edge_class(faces: int, sharp: bool, bent: bool, manifold_only: bool) -> EdgeClass {
    if faces == 0 || manifold_only && faces != 2 {
        EdgeClass::Hidden
    } else if faces == 1 || sharp {
        EdgeClass::Sharp
    } else if bent {
        EdgeClass::Tangent
    } else {
        EdgeClass::Hidden
    }
}

/// Classify a mesh edge by the number of faces on it and whether the widest angle between any two
/// of them is a corner, or at least a bend.
pub fn classify_edge(faces: usize, sharp: bool, bent: bool, manifold_only: bool) -> (c: EdgeClass)
    ensures
        c == edge_class(faces as int, sharp, bent, manifold_only),
{
    if faces == 0 || (manifold_only && faces != 2) {
        return EdgeClass::Hidden;
    }
    if faces == 1 || sharp {
        EdgeClass::Sharp
    } else if bent {
        EdgeClass::Tangent
    } else {
        EdgeClass::Hidden
    }
}

/// Each edge joins vertices below `verts`, which may be the same one.
pub open spec fn fits(edges: Seq<(usize, usize)>, verts: int) -> bool {
    forall|e: int| 0 <= e < edges.len() ==> (#[trigger] edges[e]).0 < verts && edges[e].1 < verts
}

/// Each edge joins two different vertices below `verts`.
pub open spec fn plain(edges: Seq<(usize, usize)>, verts: int) -> bool {
    forall|e: int| 0 <= e < edges.len() ==> (#[trigger] edges[e]).0 < verts && edges[e].1 < verts && edges[e].0 != edges[e].1
}

/// `list` with `e` appended once for each of its ends at `v`.
pub open spec fn with_ends(list: Seq<usize>, e: usize, ends: (usize, usize), v: usize) -> Seq<usize> {
    let first = if ends.0 == v { list.push(e) } else { list };
    if ends.1 == v { first.push(e) } else { first }
}

/// The edges among the first `n` that end at `v`, in order. One that both starts and ends there is
/// listed twice.
pub open spec fn star(edges: Seq<(usize, usize)>, v: usize, n: int) -> Seq<usize>
    decreases n,
{
    if n <= 0 {
        Seq::empty()
    } else {
        with_ends(star(edges, v, n - 1), (n - 1) as usize, edges[n - 1], v)
    }
}

/// The edges that end at `v`.
pub open spec fn edges_of(edges: Seq<(usize, usize)>, v: usize) -> Seq<usize> {
    star(edges, v, edges.len() as int)
}

/// How many edges end at `v`.
pub open spec fn degree(edges: Seq<(usize, usize)>, v: usize) -> nat {
    edges_of(edges, v).len()
}

pub proof fn star_members(edges: Seq<(usize, usize)>, v: usize, n: int)
    requires
        0 <= n <= edges.len() <= usize::MAX,
    ensures
        forall|k: int|
            0 <= k < star(edges, v, n).len() ==> (#[trigger] star(edges, v, n)[k]) < n && (edges[star(edges, v, n)[k] as int].0 == v
                || edges[star(edges, v, n)[k] as int].1 == v),
        forall|e: int|
            0 <= e < n && ((#[trigger] edges[e]).0 == v || edges[e].1 == v) ==> star(edges, v, n).contains(e as usize),
    decreases n,
{
    if n > 0 {
        star_members(edges, v, n - 1);
        let list = star(edges, v, n);
        let rest = star(edges, v, n - 1);
        assert(forall|k: int| 0 <= k < rest.len() ==> list[k] == rest[k]);
        assert(forall|k: int| rest.len() <= k < list.len() ==> list[k] == n - 1);
        assert forall|k: int| 0 <= k < list.len() implies (#[trigger] list[k]) < n && (edges[list[k] as int].0 == v || edges[list[k] as int].1 == v) by {
            if k < rest.len() {
                assert(rest[k] < n - 1);
            }
        }
        assert forall|e: int| 0 <= e < n && ((#[trigger] edges[e]).0 == v || edges[e].1 == v) implies list.contains(e as usize) by {
            if e == n - 1 {
                assert(list[rest.len() as int] == e as usize);
            } else {
                assert(rest.contains(e as usize));
                let k = choose|k: int| 0 <= k < rest.len() && rest[k] == e as usize;
                assert(list[k] == e as usize);
            }
        }
    }
}

/// `stars` lists the edges at every vertex.
pub open spec fn lists_stars(stars: Seq<Vec<usize>>, edges: Seq<(usize, usize)>) -> bool {
    forall|v: int| 0 <= v < stars.len() ==> (#[trigger] stars[v])@ == edges_of(edges, v as usize)
}

/// List the edges at every vertex.
#[verifier::loop_isolation(false)]
pub fn adjacency(edges: &Vec<(usize, usize)>, verts: usize) -> (stars: Vec<Vec<usize>>)
    requires
        fits(edges@, verts as int),
    ensures
        stars@.len() == verts,
        lists_stars(stars@, edges@),
{
    let mut stars: Vec<Vec<usize>> = empty_stacks(verts);
    let mut m: usize = 0;
    assert forall|v: int| 0 <= v < verts implies (#[trigger] stars@[v])@ == star(edges@, v as usize, 0) by {
        assert(stars@[v]@ =~= Seq::<usize>::empty());
    }
    while m < edges.len()
        invariant
            m <= edges@.len(),
            stars@.len() == verts,
            forall|v: int| 0 <= v < verts ==> (#[trigger] stars@[v])@ == star(edges@, v as usize, m as int),
        decreases edges@.len() - m,
    {
        let ghost stars0 = stars@;
        let (a, b) = edges[m];
        assert(edges@[m as int].0 < verts && edges@[m as int].1 < verts);
        stars[a].push(m);
        stars[b].push(m);
        proof {
            assert forall|v: int| 0 <= v < verts implies (#[trigger] stars@[v])@ == star(edges@, v as usize, m + 1) by {
                assert(stars0[v]@ == star(edges@, v as usize, m as int));
            }
        }
        m = m + 1;
    }
    stars
}

/// The end of edge `e` that is not `v`.
pub open spec fn far(edges: Seq<(usize, usize)>, e: usize, v: usize) -> usize {
    if edges[e as int].0 == v {
        edges[e as int].1
    } else {
        edges[e as int].0
    }
}

/// The edges from `cur` along `e` and on through vertices with two edges, if that leads to one with
/// three or more within `fuel` further edges.
pub open spec fn follow(edges: Seq<(usize, usize)>, cur: usize, e: usize, fuel: nat) -> Option<Seq<usize>>
    decreases fuel,
{
    let other = far(edges, e, cur);
    let around = edges_of(edges, other);
    if around.len() >= 3 {
        Some(seq![e])
    } else if around.len() == 2 && fuel > 0 {
        let on = if around[0] != e { around[0] } else { around[1] };
        if on == e {
            None
        } else {
            match follow(edges, other, on, (fuel - 1) as nat) {
                Some(rest) => Some(seq![e] + rest),
                None => None,
            }
        }
    } else {
        None
    }
}

/// The spur that hangs off vertex `v`: its loose end is `v`, and it leads to a junction.
pub open spec fn spur_at(edges: Seq<(usize, usize)>, v: usize) -> Option<Seq<usize>> {
    if degree(edges, v) == 1 {
        follow(edges, v, edges_of(edges, v)[0], edges.len())
    } else {
        None
    }
}

/// The spurs of the first `n` vertices, in order.
pub open spec fn spur_list(edges: Seq<(usize, usize)>, n: int) -> Seq<Seq<usize>>
    decreases n,
{
    if n <= 0 {
        Seq::empty()
    } else {
        match spur_at(edges, (n - 1) as usize) {
            Some(chain) => spur_list(edges, n - 1).push(chain),
            None => spur_list(edges, n - 1),
        }
    }
}

/// Edges `chain` lead tip to tail from `v` through vertices with two edges each to a vertex with
/// three or more.
pub open spec fn is_spur(edges: Seq<(usize, usize)>, v: usize, chain: Seq<usize>) -> bool
    decreases chain.len(),
{
    &&& chain.len() >= 1
    &&& chain[0] < edges.len()
    &&& edges[chain[0] as int].0 == v || edges[chain[0] as int].1 == v
    &&& {
        let other = far(edges, chain[0], v);
        if chain.len() == 1 {
            degree(edges, other) >= 3
        } else {
            degree(edges, other) == 2 && is_spur(edges, other, chain.skip(1))
        }
    }
}

proof fn follow_is_spur(edges: Seq<(usize, usize)>, cur: usize, e: usize, fuel: nat)
    requires
        e < edges.len() <= usize::MAX,
        edges[e as int].0 == cur || edges[e as int].1 == cur,
        follow(edges, cur, e, fuel) is Some,
    ensures
        is_spur(edges, cur, follow(edges, cur, e, fuel)->0),
        follow(edges, cur, e, fuel)->0[0] == e,
    decreases fuel,
{
    let other = far(edges, e, cur);
    let around = edges_of(edges, other);
    let chain = follow(edges, cur, e, fuel)->0;
    if around.len() == 2 {
        star_members(edges, other, edges.len() as int);
        let on = if around[0] != e { around[0] } else { around[1] };
        follow_is_spur(edges, other, on, (fuel - 1) as nat);
        assert(chain.skip(1) =~= follow(edges, other, on, (fuel - 1) as nat)->0);
    }
}

/// What is pruned as a spur really is one: it starts at a loose end, passes only vertices where two
/// edges meet, and ends where three or more do.
pub proof fn spurs_hang_off_junctions(edges: Seq<(usize, usize)>, v: usize)
    requires
        edges.len() <= usize::MAX,
        spur_at(edges, v) is Some,
    ensures
        degree(edges, v) == 1,
        is_spur(edges, v, spur_at(edges, v)->0),
{
    star_members(edges, v, edges.len() as int);
    follow_is_spur(edges, v, edges_of(edges, v)[0], edges.len());
}

/// A spur holds edges of the set.
pub proof fn spur_members(edges: Seq<(usize, usize)>, v: usize, chain: Seq<usize>)
    requires
        is_spur(edges, v, chain),
    ensures
        forall|k: int| 0 <= k < chain.len() ==> (#[trigger] chain[k]) < edges.len(),
    decreases chain.len(),
{
    if chain.len() > 1 {
        let rest = chain.skip(1);
        spur_members(edges, far(edges, chain[0], v), rest);
        assert forall|k: int| 0 <= k < chain.len() implies (#[trigger] chain[k]) < edges.len() by {
            if k > 0 {
                assert(rest[k - 1] == chain[k]);
            }
        }
    }
}

/// Each listed spur holds edges of the set, at least one.
pub proof fn spur_list_members(edges: Seq<(usize, usize)>, n: int)
    requires
        edges.len() <= usize::MAX,
    ensures
        forall|i: int, k: int| 0 <= i < spur_list(edges, n).len() && 0 <= k < spur_list(edges, n)[i].len() ==> (#[trigger] spur_list(edges, n)[i][k]) < edges.len(),
        forall|i: int| 0 <= i < spur_list(edges, n).len() ==> (#[trigger] spur_list(edges, n)[i]).len() > 0,
    decreases n,
{
    if n > 0 {
        spur_list_members(edges, n - 1);
        let v = (n - 1) as usize;
        let (all, rest) = (spur_list(edges, n), spur_list(edges, n - 1));
        if let Some(chain) = spur_at(edges, v) {
            spurs_hang_off_junctions(edges, v);
            spur_members(edges, v, chain);
            assert(all == rest.push(chain));
            assert forall|i: int, k: int| 0 <= i < all.len() && 0 <= k < all[i].len() implies (#[trigger] all[i][k]) < edges.len() by {
                if i < rest.len() {
                    assert(rest[i][k] == all[i][k]);
                }
            }
            assert forall|i: int| 0 <= i < all.len() implies (#[trigger] all[i]).len() > 0 by {
                if i < rest.len() {
                    assert(rest[i] == all[i]);
                }
            }
        } else {
            assert(all == rest);
        }
    }
}

/// Follow edges from a loose end to the first junction.
#[verifier::loop_isolation(false)]
fn walk_spur(edges: &Vec<(usize, usize)>, stars: &Vec<Vec<usize>>, v: usize) -> (found: Option<Vec<usize>>)
    requires
        fits(edges@, stars@.len() as int),
        lists_stars(stars@, edges@),
        v < stars@.len(),
        degree(edges@, v) == 1,
    ensures
        found matches Some(chain) ==> spur_at(edges@, v) == Some(chain@),
        found is None ==> spur_at(edges@, v) is None,
{
    let total: usize = edges.len();
    let mut chain: Vec<usize> = Vec::new();
    let mut cur: usize = v;
    proof {
        star_members(edges@, v, total as int);
        assert(stars@[v as int]@ == edges_of(edges@, v));
    }
    let mut e: usize = stars[v][0];
    let mut fuel: usize = total;
    loop
        invariant
            cur < stars@.len(),
            e < edges@.len(),
            edges@[e as int].0 == cur || edges@[e as int].1 == cur,
            spur_at(edges@, v) == (match follow(edges@, cur, e, fuel as nat) {
                Some(rest) => Some(chain@ + rest),
                None => None,
            }),
        decreases fuel,
    {
        let (a, b) = edges[e];
        let other: usize = if a == cur {
            b
        } else {
            a
        };
        assert(edges@[e as int].0 < stars@.len() && edges@[e as int].1 < stars@.len());
        assert(stars@[other as int]@ == edges_of(edges@, other));
        proof {
            star_members(edges@, other, total as int);
        }
        let ghost before = chain@;
        chain.push(e);
        assert(chain@ =~= before + seq![e]);
        let d: usize = stars[other].len();
        if d >= 3 {
            return Some(chain);
        }
        if d != 2 || fuel == 0 {
            return None;
        }
        let on: usize = if stars[other][0] != e {
            stars[other][0]
        } else {
            stars[other][1]
        };
        if on == e {
            return None;
        }
        proof {
            match follow(edges@, other, on, (fuel - 1) as nat) {
                Some(rest) => {
                    assert(before + (seq![e] + rest) =~= chain@ + rest);
                },
                None => {},
            }
        }
        cur = other;
        e = on;
        fuel = fuel - 1;
    }
}

/// Find every spur: a chain from a loose end to a junction.
pub fn spurs(edges: &Vec<(usize, usize)>, verts: usize) -> (chains: Vec<Vec<usize>>)
    requires
        fits(edges@, verts as int),
    ensures
        chains@.len() == spur_list(edges@, verts as int).len(),
        forall|k: int| 0 <= k < chains@.len() ==> (#[trigger] chains@[k])@ == spur_list(edges@, verts as int)[k],
{
    let stars: Vec<Vec<usize>> = adjacency(edges, verts);
    let mut chains: Vec<Vec<usize>> = Vec::new();
    let mut v: usize = 0;
    while v < verts
        invariant
            v <= verts,
            fits(edges@, verts as int),
            stars@.len() == verts,
            lists_stars(stars@, edges@),
            chains@.len() == spur_list(edges@, v as int).len(),
            forall|k: int| 0 <= k < chains@.len() ==> (#[trigger] chains@[k])@ == spur_list(edges@, v as int)[k],
        decreases verts - v,
    {
        assert(stars@[v as int]@ == edges_of(edges@, v));
        let ghost before = chains@;
        if stars[v].len() == 1 {
            let found: Option<Vec<usize>> = walk_spur(edges, &stars, v);
            match found {
                Some(chain) => {
                    chains.push(chain);
                },
                None => {},
            }
        }
        assert(forall|k: int| 0 <= k < before.len() ==> #[trigger] chains@[k] == before[k]);
        v = v + 1;
    }
    chains
}

/// Edge `e` lies on a marked chain.
pub open spec fn on_marked(chains: Seq<Vec<usize>>, marked: Seq<bool>, e: usize) -> bool {
    exists|k: int| 0 <= k < chains.len() && marked[k] && (#[trigger] chains[k])@.contains(e)
}

/// The edges among the first `n` that lie on no marked chain, in order.
pub open spec fn spared(edges: Seq<(usize, usize)>, chains: Seq<Vec<usize>>, marked: Seq<bool>, n: int) -> Seq<(usize, usize)>
    decreases n,
{
    if n <= 0 {
        Seq::empty()
    } else if on_marked(chains, marked, (n - 1) as usize) {
        spared(edges, chains, marked, n - 1)
    } else {
        spared(edges, chains, marked, n - 1).push(edges[n - 1])
    }
}

/// Drop the edges of the chains that are marked as short.
#[verifier::loop_isolation(false)]
pub fn without_chains(edges: &Vec<(usize, usize)>, chains: &Vec<Vec<usize>>, marked: &Vec<bool>) -> (out: Vec<(usize, usize)>)
    requires
        marked@.len() == chains@.len(),
        forall|k: int, j: int| 0 <= k < chains@.len() && 0 <= j < chains@[k]@.len() ==> (#[trigger] chains@[k]@[j]) < edges@.len(),
    ensures
        out@ == spared(edges@, chains@, marked@, edges@.len() as int),
        (forall|k: int| 0 <= k < marked@.len() ==> !#[trigger] marked@[k]) ==> out@ == edges@,
{
    let n: usize = edges.len();
    let mut gone: Vec<bool> = vec![false; n];
    let mut k: usize = 0;
    while k < chains.len()
        invariant
            k <= chains@.len(),
            gone@.len() == n,
            forall|e: int| 0 <= e < n ==> (#[trigger] gone@[e] <==> on_marked(chains@.take(k as int), marked@, e as usize)),
        decreases chains@.len() - k,
    {
        let ghost gone0 = gone@;
        let ghost (before, now) = (chains@.take(k as int), chains@.take(k + 1));
        if marked[k] {
            let mut j: usize = 0;
            while j < chains[k].len()
                invariant
                    j <= chains@[k as int]@.len(),
                    gone@.len() == n,
                    forall|e: int|
                        0 <= e < n ==> (#[trigger] gone@[e] <==> gone0[e] || chains@[k as int]@.take(j as int).contains(e as usize)),
                decreases chains@[k as int]@.len() - j,
            {
                let ghost gone1 = gone@;
                let e: usize = chains[k][j];
                assert(chains@[k as int]@[j as int] < edges@.len());
                gone.set(e, true);
                proof {
                    let (short, long) = (chains@[k as int]@.take(j as int), chains@[k as int]@.take(j + 1));
                    assert(long =~= short.push(e));
                    assert forall|d: int| 0 <= d < n implies (#[trigger] gone@[d] <==> gone0[d] || long.contains(d as usize)) by {
                        if short.contains(d as usize) {
                            let i = choose|i: int| 0 <= i < short.len() && short[i] == d as usize;
                            assert(long[i] == d as usize);
                        }
                        if long.contains(d as usize) && d != e {
                            let i = choose|i: int| 0 <= i < long.len() && long[i] == d as usize;
                            assert(short[i] == d as usize);
                        }
                        if d == e {
                            assert(long[j as int] == d as usize);
                        }
                        assert(gone1[d] <==> gone0[d] || short.contains(d as usize));
                    }
                }
                j = j + 1;
            }
            assert(chains@[k as int]@.take(j as int) =~= chains@[k as int]@);
        }
        proof {
            assert forall|e: int| 0 <= e < n implies (#[trigger] gone@[e] <==> on_marked(now, marked@, e as usize)) by {
                let x = e as usize;
                if on_marked(before, marked@, x) {
                    let i = choose|i: int| 0 <= i < before.len() && marked@[i] && (#[trigger] before[i])@.contains(x);
                    assert(now[i] == before[i]);
                }
                if on_marked(now, marked@, x) {
                    let i = choose|i: int| 0 <= i < now.len() && marked@[i] && (#[trigger] now[i])@.contains(x);
                    if i < k {
                        assert(before[i] == now[i]);
                    }
                }
                if marked@[k as int] && chains@[k as int]@.contains(x) {
                    assert(now[k as int]@.contains(x));
                }
                assert(gone0[e] <==> on_marked(before, marked@, x));
            }
        }
        k = k + 1;
    }
    assert(chains@.take(k as int) =~= chains@);
    let mut out: Vec<(usize, usize)> = Vec::new();
    let mut e: usize = 0;
    while e < n
        invariant
            e <= n,
            out@ == spared(edges@, chains@, marked@, e as int),
            (forall|k: int| 0 <= k < marked@.len() ==> !#[trigger] marked@[k]) ==> out@ == edges@.take(e as int),
        decreases n - e,
    {
        let ghost out0 = out@;
        if !gone[e] {
            out.push(edges[e]);
        }
        assert(edges@.take(e + 1) =~= edges@.take(e as int).push(edges@[e as int]));
        e = e + 1;
    }
    assert(edges@.take(e as int) =~= edges@);
    out
}

/// The component of each edge: edges are in one component exactly where other edges link them, and
/// components are numbered in the order of their first edges.
pub open spec fn is_components(comp: Seq<usize>, count: int, edges: Seq<(usize, usize)>) -> bool {
    &&& comp.len() == edges.len()
    &&& firsts(comp) == Seq::new(count as nat, |i: int| i as usize)
    &&& forall|i: int| 0 <= i < comp.len() ==> (#[trigger] comp[i]) < count
    &&& forall|i: int, j: int|
        0 <= i < comp.len() && 0 <= j < comp.len() ==> (#[trigger] comp[i] == #[trigger] comp[j] <==> linked(edges, edges[i].0, edges[j].0))
}

/// Sort edges into connected components.
#[verifier::loop_isolation(false)]
pub fn components(edges: &Vec<(usize, usize)>, verts: usize) -> (r: (Vec<usize>, usize))
    requires
        fits(edges@, verts as int),
    ensures
        is_components(r.0@, r.1 as int, edges@),
{
    let mut uf: Uf = Uf::new(verts);
    proof {
        partitions_nothing(uf.roots());
    }
    let mut e: usize = 0;
    let mut items: Vec<usize> = Vec::with_capacity(edges.len());
    assert(edges@.take(0) =~= Seq::<(usize, usize)>::empty());
    while e < edges.len()
        invariant
            e <= edges@.len(),
            uf.wf(),
            uf.roots().len() == verts,
            partitions(uf.roots(), edges@.take(e as int)),
            items@ =~= Seq::new(e as nat, |i: int| edges@[i].0),
        decreases edges@.len() - e,
    {
        let (a, b) = edges[e];
        assert(edges@[e as int].0 < verts && edges@[e as int].1 < verts);
        proof {
            partitions_push(uf.roots(), edges@.take(e as int), a, b);
            assert(edges@.take(e + 1) =~= edges@.take(e as int).push((a, b)));
        }
        uf.union(a, b);
        items.push(a);
        e = e + 1;
    }
    assert(edges@.take(e as int) =~= edges@);
    let ghost roots = uf.roots();
    let (comp, count) = uf.number_classes(&items);
    proof {
        assert forall|i: int, j: int| 0 <= i < comp@.len() && 0 <= j < comp@.len() implies (#[trigger] comp@[i] == #[trigger] comp@[j]
            <==> linked(edges@, edges@[i].0, edges@[j].0)) by {
            assert(comp@[i] == comp@[j] <==> roots[items@[i] as int] == roots[items@[j] as int]);
            assert(edges@[i].0 < verts && edges@[j].0 < verts);
            let (x, y) = (edges@[i].0, edges@[j].0);
            assert(roots[x as int] == roots[y as int] <==> linked(edges@, x, y));
        }
    }
    (comp, count)
}

/// An open path on its own: a component with exactly two loose ends and no junction.
#[derive(Clone, Copy, PartialEq, Eq, Structural, Debug)]
pub struct LoosePath {
    pub comp: usize,
    pub first: usize,
    pub last: usize,
}

/// Vertex `v` belongs to component `c`, which its first edge lies in.
pub open spec fn vertex_in(edges: Seq<(usize, usize)>, comp: Seq<usize>, v: usize, c: int) -> bool {
    degree(edges, v) >= 1 && comp[edges_of(edges, v)[0] as int] == c
}

/// The loose ends of component `c` among the first `n` vertices, in order.
pub open spec fn loose_ends(edges: Seq<(usize, usize)>, comp: Seq<usize>, c: int, n: int) -> Seq<usize>
    decreases n,
{
    if n <= 0 {
        Seq::empty()
    } else if degree(edges, (n - 1) as usize) == 1 && vertex_in(edges, comp, (n - 1) as usize, c) {
        loose_ends(edges, comp, c, n - 1).push((n - 1) as usize)
    } else {
        loose_ends(edges, comp, c, n - 1)
    }
}

/// Three or more edges meet at one of the first `n` vertices of component `c`.
pub open spec fn has_junction(edges: Seq<(usize, usize)>, comp: Seq<usize>, c: int, n: int) -> bool {
    exists|v: int| 0 <= v < n && #[trigger] degree(edges, v as usize) >= 3 && vertex_in(edges, comp, v as usize, c)
}

/// Component `c` is an open path on its own.
pub open spec fn is_loose(edges: Seq<(usize, usize)>, comp: Seq<usize>, c: int, verts: int) -> bool {
    loose_ends(edges, comp, c, verts).len() == 2 && !has_junction(edges, comp, c, verts)
}

/// The open paths among the first `n` components, in order.
pub open spec fn loose_list(edges: Seq<(usize, usize)>, comp: Seq<usize>, verts: int, n: int) -> Seq<LoosePath>
    decreases n,
{
    if n <= 0 {
        Seq::empty()
    } else if is_loose(edges, comp, n - 1, verts) {
        let ends = loose_ends(edges, comp, n - 1, verts);
        loose_list(edges, comp, verts, n - 1).push(LoosePath { comp: (n - 1) as usize, first: ends[0], last: ends[1] })
    } else {
        loose_list(edges, comp, verts, n - 1)
    }
}

proof fn loose_ends_below(edges: Seq<(usize, usize)>, comp: Seq<usize>, c: int, n: int)
    requires
        n <= usize::MAX,
    ensures
        forall|k: int| 0 <= k < loose_ends(edges, comp, c, n).len() ==> (#[trigger] loose_ends(edges, comp, c, n)[k]) < n,
    decreases n,
{
    if n > 0 {
        loose_ends_below(edges, comp, c, n - 1);
        let fewer = loose_ends(edges, comp, c, n - 1);
        assert forall|k: int| 0 <= k < loose_ends(edges, comp, c, n).len() implies (#[trigger] loose_ends(edges, comp, c, n)[k]) < n by {
            if k < fewer.len() {
                assert(loose_ends(edges, comp, c, n)[k] == fewer[k]);
            }
        }
    }
}

/// The open paths run between vertices of the set.
pub proof fn loose_list_members(edges: Seq<(usize, usize)>, comp: Seq<usize>, verts: int, n: int)
    requires
        verts <= usize::MAX,
    ensures
        forall|k: int|
            0 <= k < loose_list(edges, comp, verts, n).len() ==> (#[trigger] loose_list(edges, comp, verts, n)[k]).first < verts && loose_list(
                edges,
                comp,
                verts,
                n,
            )[k].last < verts,
    decreases n,
{
    if n > 0 {
        loose_list_members(edges, comp, verts, n - 1);
        loose_ends_below(edges, comp, n - 1, verts);
        let (fewer, all) = (loose_list(edges, comp, verts, n - 1), loose_list(edges, comp, verts, n));
        let ends = loose_ends(edges, comp, n - 1, verts);
        assert forall|k: int| 0 <= k < all.len() implies (#[trigger] all[k]).first < verts && all[k].last < verts by {
            if k < fewer.len() {
                assert(all[k] == fewer[k]);
            } else {
                assert(ends[0] < verts && ends[1] < verts);
            }
        }
    }
}

/// Find the components that are open paths on their own.
#[verifier::loop_isolation(false)]
pub fn loose_paths(edges: &Vec<(usize, usize)>, verts: usize, comp: &Vec<usize>, count: usize) -> (paths: Vec<LoosePath>)
    requires
        fits(edges@, verts as int),
        comp@.len() == edges@.len(),
        forall|i: int| 0 <= i < comp@.len() ==> (#[trigger] comp@[i]) < count,
    ensures
        paths@ == loose_list(edges@, comp@, verts as int, count as int),
{
    let stars: Vec<Vec<usize>> = adjacency(edges, verts);
    let mut ends: Vec<Vec<usize>> = empty_stacks(count);
    let mut crossed: Vec<bool> = vec![false; count];
    let mut v: usize = 0;
    assert forall|c: int| 0 <= c < count implies (#[trigger] ends@[c])@ == loose_ends(edges@, comp@, c, 0) by {
        assert(ends@[c]@ =~= Seq::<usize>::empty());
    }
    while v < verts
        invariant
            v <= verts,
            ends@.len() == count,
            crossed@.len() == count,
            forall|c: int| 0 <= c < count ==> (#[trigger] ends@[c])@ == loose_ends(edges@, comp@, c, v as int),
            forall|c: int| 0 <= c < count ==> (#[trigger] crossed@[c] <==> has_junction(edges@, comp@, c, v as int)),
        decreases verts - v,
    {
        assert(stars@[v as int]@ == edges_of(edges@, v));
        let ghost (ends0, crossed0) = (ends@, crossed@);
        let d: usize = stars[v].len();
        if d >= 1 {
            proof {
                star_members(edges@, v, edges.len() as int);
            }
            let c: usize = comp[stars[v][0]];
            if d == 1 {
                ends[c].push(v);
            } else if d >= 3 {
                crossed.set(c, true);
            }
        }
        proof {
            assert forall|c: int| 0 <= c < count implies (#[trigger] ends@[c])@ == loose_ends(edges@, comp@, c, v + 1) by {
                assert(ends0[c]@ == loose_ends(edges@, comp@, c, v as int));
            }
            assert forall|c: int| 0 <= c < count implies (#[trigger] crossed@[c] <==> has_junction(edges@, comp@, c, v + 1)) by {
                assert(crossed0[c] <==> has_junction(edges@, comp@, c, v as int));
                if has_junction(edges@, comp@, c, v as int) {
                    let w = choose|w: int|
                        0 <= w < v && #[trigger] degree(edges@, w as usize) >= 3 && vertex_in(edges@, comp@, w as usize, c);
                    assert(degree(edges@, w as usize) >= 3);
                }
                if has_junction(edges@, comp@, c, v + 1) && !has_junction(edges@, comp@, c, v as int) {
                    let w = choose|w: int|
                        0 <= w < v + 1 && #[trigger] degree(edges@, w as usize) >= 3 && vertex_in(edges@, comp@, w as usize, c);
                    assert(w == v);
                }
                if d >= 3 && crossed@[c] && !crossed0[c] {
                    assert(degree(edges@, v) >= 3 && vertex_in(edges@, comp@, v, c));
                }
            }
        }
        v = v + 1;
    }
    let mut paths: Vec<LoosePath> = Vec::new();
    let mut c: usize = 0;
    while c < count
        invariant
            c <= count,
            paths@ == loose_list(edges@, comp@, verts as int, c as int),
        decreases count - c,
    {
        assert(ends@[c as int]@ == loose_ends(edges@, comp@, c as int, verts as int));
        if ends[c].len() == 2 && !crossed[c] {
            paths.push(LoosePath { comp: c, first: ends[c][0], last: ends[c][1] });
        }
        c = c + 1;
    }
    paths
}

/// A path is dropped where it is too short to matter or too open to have been a loop.
pub fn drops_path(short: bool, wide: bool) -> (drop: bool)
    ensures
        drop == (short || wide),
{
    short || wide
}

/// Component `c` is that of a path marked as dropped.
pub open spec fn is_dropped(paths: Seq<LoosePath>, drop: Seq<bool>, c: usize) -> bool {
    exists|k: int| 0 <= k < paths.len() && (#[trigger] paths[k]).comp == c && drop[k]
}

/// The edges among the first `n` whose component is not dropped, in order.
pub open spec fn undropped(edges: Seq<(usize, usize)>, comp: Seq<usize>, paths: Seq<LoosePath>, drop: Seq<bool>, n: int) -> Seq<
    (usize, usize),
>
    decreases n,
{
    if n <= 0 {
        Seq::empty()
    } else if is_dropped(paths, drop, comp[n - 1]) {
        undropped(edges, comp, paths, drop, n - 1)
    } else {
        undropped(edges, comp, paths, drop, n - 1).push(edges[n - 1])
    }
}

/// The closing edges of the paths among the first `n` that are not dropped, in order.
pub open spec fn closings(paths: Seq<LoosePath>, drop: Seq<bool>, n: int) -> Seq<(usize, usize)>
    decreases n,
{
    if n <= 0 {
        Seq::empty()
    } else if drop[n - 1] {
        closings(paths, drop, n - 1)
    } else {
        closings(paths, drop, n - 1).push((paths[n - 1].first, paths[n - 1].last))
    }
}

/// Drop the marked open paths, and close the others with one more edge each.
#[verifier::loop_isolation(false)]
pub fn settle_paths(edges: &Vec<(usize, usize)>, comp: &Vec<usize>, paths: &Vec<LoosePath>, drop: &Vec<bool>) -> (out: Vec<(usize, usize)>)
    requires
        comp@.len() == edges@.len(),
        drop@.len() == paths@.len(),
    ensures
        out@ == undropped(edges@, comp@, paths@, drop@, edges@.len() as int) + closings(paths@, drop@, paths@.len() as int),
{
    let mut out: Vec<(usize, usize)> = Vec::new();
    let mut e: usize = 0;
    while e < edges.len()
        invariant
            e <= edges@.len(),
            out@ == undropped(edges@, comp@, paths@, drop@, e as int),
        decreases edges@.len() - e,
    {
        let mut gone: bool = false;
        let mut k: usize = 0;
        while k < paths.len()
            invariant
                k <= paths@.len(),
                gone <==> exists|j: int| 0 <= j < k && (#[trigger] paths@[j]).comp == comp@[e as int] && drop@[j],
            decreases paths@.len() - k,
        {
            if paths[k].comp == comp[e] && drop[k] {
                gone = true;
                assert(paths@[k as int].comp == comp@[e as int] && drop@[k as int]);
            }
            k = k + 1;
        }
        if !gone {
            out.push(edges[e]);
        }
        e = e + 1;
    }
    let ghost kept = out@;
    let mut k: usize = 0;
    assert(kept + closings(paths@, drop@, 0) =~= kept);
    while k < paths.len()
        invariant
            k <= paths@.len(),
            out@ == kept + closings(paths@, drop@, k as int),
        decreases paths@.len() - k,
    {
        if !drop[k] {
            out.push((paths[k].first, paths[k].last));
            assert(out@ =~= kept + closings(paths@, drop@, k + 1));
        }
        k = k + 1;
    }
    out
}

// ---- scraps ----

/// For each component whether it has a loose end.
#[verifier::loop_isolation(false)]
pub fn open_pieces(edges: &Vec<(usize, usize)>, verts: usize, comp: &Vec<usize>, count: usize) -> (open: Vec<bool>)
    requires
        fits(edges@, verts as int),
        comp@.len() == edges@.len(),
        forall|i: int| 0 <= i < comp@.len() ==> (#[trigger] comp@[i]) < count,
    ensures
        open@.len() == count,
        forall|c: int| 0 <= c < count ==> (#[trigger] open@[c] <==> loose_ends(edges@, comp@, c, verts as int).len() > 0),
{
    let stars: Vec<Vec<usize>> = adjacency(edges, verts);
    let mut open: Vec<bool> = vec![false; count];
    let mut v: usize = 0;
    while v < verts
        invariant
            v <= verts,
            open@.len() == count,
            forall|c: int| 0 <= c < count ==> (#[trigger] open@[c] <==> loose_ends(edges@, comp@, c, v as int).len() > 0),
        decreases verts - v,
    {
        assert(stars@[v as int]@ == edges_of(edges@, v));
        if stars[v].len() == 1 {
            proof {
                star_members(edges@, v, edges.len() as int);
            }
            open.set(comp[stars[v][0]], true);
        }
        v = v + 1;
    }
    open
}

/// The ends at `v` of the kept edges among the first `n`, counted.
pub open spec fn kept_at(edges: Seq<(usize, usize)>, keep: Seq<bool>, v: usize, n: int) -> nat
    decreases n,
{
    if n <= 0 {
        0
    } else {
        kept_at(edges, keep, v, n - 1) + (if keep[n - 1] && edges[n - 1].0 == v { 1nat } else { 0nat }) + (if keep[n - 1] && edges[n - 1].1 == v {
            1nat
        } else {
            0nat
        })
    }
}

/// The number of ends of kept edges at each vertex.
#[verifier::loop_isolation(false)]
pub fn kept_degrees(edges: &Vec<(usize, usize)>, keep: &Vec<bool>, verts: usize) -> (deg: Vec<usize>)
    requires
        fits(edges@, verts as int),
        keep@.len() == edges@.len(),
        2 * edges@.len() <= usize::MAX,
    ensures
        deg@.len() == verts,
        forall|v: int| 0 <= v < verts ==> #[trigger] deg@[v] == kept_at(edges@, keep@, v as usize, edges@.len() as int),
{
    let mut deg: Vec<usize> = vec![0; verts];
    let mut e: usize = 0;
    while e < edges.len()
        invariant
            e <= edges@.len(),
            deg@.len() == verts,
            forall|v: int| 0 <= v < verts ==> #[trigger] deg@[v] == kept_at(edges@, keep@, v as usize, e as int),
            forall|v: int| 0 <= v < verts ==> #[trigger] deg@[v] <= 2 * e,
        decreases edges@.len() - e,
    {
        let (a, b) = edges[e];
        assert(edges@[e as int].0 < verts && edges@[e as int].1 < verts);
        if keep[e] {
            assert(deg@[a as int] <= 2 * e && deg@[b as int] <= 2 * e);
            let x: usize = deg[a] + 1;
            deg.set(a, x);
            let y: usize = deg[b] + 1;
            deg.set(b, y);
        }
        e = e + 1;
    }
    deg
}

/// The first edge of `list` from place `k` on that is kept and not yet on `chain`.
pub open spec fn next_kept(list: Seq<usize>, keep: Seq<bool>, chain: Seq<usize>, k: int) -> Option<usize>
    decreases list.len() - k,
{
    if k < 0 || k >= list.len() {
        None
    } else if keep[list[k] as int] && !chain.contains(list[k]) {
        Some(list[k])
    } else {
        next_kept(list, keep, chain, k + 1)
    }
}

/// `chain` carried on from `cur` over kept edges, through vertices where two of them meet.
pub open spec fn stub_on(
    edges: Seq<(usize, usize)>,
    keep: Seq<bool>,
    deg: Seq<usize>,
    cur: usize,
    chain: Seq<usize>,
    fuel: nat,
) -> Seq<usize>
    decreases fuel,
{
    match next_kept(edges_of(edges, cur), keep, chain, 0) {
        None => chain,
        Some(e) => {
            let other = far(edges, e, cur);
            let more = chain.push(e);
            if fuel == 0 || deg[other as int] != 2 {
                more
            } else {
                stub_on(edges, keep, deg, other, more, (fuel - 1) as nat)
            }
        },
    }
}

/// Walk the kept edges from `v` until they stop or meet a vertex that joins more or fewer than two.
#[verifier::loop_isolation(false)]
pub fn stub_from(edges: &Vec<(usize, usize)>, stars: &Vec<Vec<usize>>, keep: &Vec<bool>, deg: &Vec<usize>, v: usize) -> (chain: Vec<usize>)
    requires
        fits(edges@, stars@.len() as int),
        lists_stars(stars@, edges@),
        keep@.len() == edges@.len(),
        deg@.len() == stars@.len(),
        v < stars@.len(),
    ensures
        chain@ == stub_on(edges@, keep@, deg@, v, Seq::empty(), edges@.len()),
        chain@.no_duplicates(),
        forall|k: int| 0 <= k < chain@.len() ==> (#[trigger] chain@[k]) < edges@.len() && keep@[chain@[k] as int],
{
    let total: usize = edges.len();
    let mut chain: Vec<usize> = Vec::new();
    let mut cur: usize = v;
    let mut fuel: usize = total;
    loop
        invariant
            cur < stars@.len(),
            fuel <= total,
            chain@.no_duplicates(),
            forall|k: int| 0 <= k < chain@.len() ==> (#[trigger] chain@[k]) < edges@.len() && keep@[chain@[k] as int],
            stub_on(edges@, keep@, deg@, v, Seq::empty(), edges@.len()) == stub_on(edges@, keep@, deg@, cur, chain@, fuel as nat),
        decreases fuel,
    {
        assert(stars@[cur as int]@ == edges_of(edges@, cur));
        proof {
            star_members(edges@, cur, total as int);
        }
        let list: &Vec<usize> = &stars[cur];
        let mut found: Option<usize> = None;
        let mut k: usize = 0;
        while k < list.len() && found.is_none()
            invariant
                k <= list@.len(),
                found is None ==> next_kept(list@, keep@, chain@, 0) == next_kept(list@, keep@, chain@, k as int),
                found matches Some(e) ==> next_kept(list@, keep@, chain@, 0) == Some(e) && list@.contains(e),
            decreases list@.len() - k,
        {
            let e: usize = list[k];
            let mut on: bool = false;
            let mut j: usize = 0;
            while j < chain.len()
                invariant
                    j <= chain@.len(),
                    on <==> exists|i: int| 0 <= i < j && #[trigger] chain@[i] == e,
                decreases chain@.len() - j,
            {
                if chain[j] == e {
                    on = true;
                    assert(chain@[j as int] == e);
                }
                j = j + 1;
            }
            assert(on == chain@.contains(e));
            if keep[e] && !on {
                found = Some(e);
                assert(list@[k as int] == e);
            }
            k = k + 1;
        }
        match found {
            None => {
                return chain;
            },
            Some(e) => {
                let i = Ghost(choose|i: int| 0 <= i < list@.len() && list@[i] == e);
                assert(list@[i@] < total);
                assert(edges@[e as int].0 < stars@.len() && edges@[e as int].1 < stars@.len());
                let ghost before = chain@;
                proof {
                    next_kept_is_fresh(list@, keep@, before, 0);
                }
                let (a, b) = edges[e];
                chain.push(e);
                let other: usize = if a == cur {
                    b
                } else {
                    a
                };
                if fuel == 0 || deg[other] != 2 {
                    return chain;
                }
                cur = other;
                fuel = fuel - 1;
            },
        }
    }
}

/// What is picked is kept, new to the chain, and on the list.
pub proof fn next_kept_is_fresh(list: Seq<usize>, keep: Seq<bool>, chain: Seq<usize>, k: int)
    requires
        0 <= k <= list.len(),
    ensures
        next_kept(list, keep, chain, k) matches Some(e) ==> keep[e as int] && !chain.contains(e) && list.contains(e),
    decreases list.len() - k,
{
    if k < list.len() && !(keep[list[k] as int] && !chain.contains(list[k])) {
        next_kept_is_fresh(list, keep, chain, k + 1);
    }
}

/// A chain walked along kept edges holds kept edges of the set.
pub proof fn stub_members(edges: Seq<(usize, usize)>, keep: Seq<bool>, deg: Seq<usize>, cur: usize, chain: Seq<usize>, fuel: nat)
    requires
        edges.len() <= usize::MAX,
        keep.len() == edges.len(),
        forall|k: int| 0 <= k < chain.len() ==> (#[trigger] chain[k]) < edges.len() && keep[chain[k] as int],
    ensures
        ({
            let r = stub_on(edges, keep, deg, cur, chain, fuel);
            forall|k: int| 0 <= k < r.len() ==> (#[trigger] r[k]) < edges.len() && keep[r[k] as int]
        }),
    decreases fuel,
{
    let list = edges_of(edges, cur);
    match next_kept(list, keep, chain, 0) {
        None => {},
        Some(e) => {
            next_kept_is_fresh(list, keep, chain, 0);
            star_members(edges, cur, edges.len() as int);
            let more = chain.push(e);
            assert(e < edges.len() && keep[e as int]);
            let other = far(edges, e, cur);
            if fuel == 0 || deg[other as int] != 2 {
                assert(stub_on(edges, keep, deg, cur, chain, fuel) == more);
            } else {
                stub_members(edges, keep, deg, other, more, (fuel - 1) as nat);
                assert(stub_on(edges, keep, deg, cur, chain, fuel) == stub_on(edges, keep, deg, other, more, (fuel - 1) as nat));
            }
        },
    }
}

/// Stop keeping the edges of `chain`.
pub fn trim(keep: &mut Vec<bool>, chain: &Vec<usize>)
    requires
        forall|k: int| 0 <= k < chain@.len() ==> (#[trigger] chain@[k]) < old(keep)@.len(),
    ensures
        final(keep)@.len() == old(keep)@.len(),
        forall|e: int| 0 <= e < final(keep)@.len() ==> (#[trigger] final(keep)@[e] <==> old(keep)@[e] && !chain@.contains(e as usize)),
{
    let ghost given = keep@;
    assert(keep.len() == keep@.len());
    let mut k: usize = 0;
    while k < chain.len()
        invariant
            k <= chain@.len(),
            given.len() <= usize::MAX,
            keep@.len() == given.len(),
            forall|k: int| 0 <= k < chain@.len() ==> (#[trigger] chain@[k]) < given.len(),
            forall|e: int| 0 <= e < keep@.len() ==> (#[trigger] keep@[e] <==> given[e] && !chain@.take(k as int).contains(e as usize)),
        decreases chain@.len() - k,
    {
        let ghost keep0 = keep@;
        let d: usize = chain[k];
        keep.set(d, false);
        proof {
            let (short, long) = (chain@.take(k as int), chain@.take(k + 1));
            assert(long =~= short.push(d));
            assert forall|e: int| 0 <= e < keep@.len() implies (#[trigger] keep@[e] <==> given[e] && !long.contains(e as usize)) by {
                assert(keep0[e] <==> given[e] && !short.contains(e as usize));
                if e == d {
                    assert(long[k as int] == e as usize);
                } else {
                    if short.contains(e as usize) {
                        let i = choose|i: int| 0 <= i < short.len() && short[i] == e as usize;
                        assert(long[i] == e as usize);
                    }
                    if long.contains(e as usize) {
                        let i = choose|i: int| 0 <= i < long.len() && long[i] == e as usize;
                        assert(short[i] == e as usize);
                    }
                }
            }
        }
        k = k + 1;
    }
    assert(chain@.take(k as int) =~= chain@);
}

// ---- what these leave ----

/// An edge between two faces is drawn as sharp where they make a corner, as tangent where they only
/// bend, and not at all where they run on. An open edge, with one face, is sharp, and a crowded one
/// is judged like one between two, unless only manifold edges are wanted.
pub proof fn edges_are_classed(faces: int, sharp: bool, bent: bool)
    ensures
        faces == 2 ==> edge_class(faces, sharp, bent, true) == edge_class(faces, sharp, bent, false),
        faces >= 2 ==> edge_class(faces, sharp, bent, false) == if sharp {
            EdgeClass::Sharp
        } else if bent {
            EdgeClass::Tangent
        } else {
            EdgeClass::Hidden
        },
        faces == 1 ==> edge_class(faces, sharp, bent, false) == EdgeClass::Sharp,
        faces == 1 || faces > 2 ==> edge_class(faces, sharp, bent, true) == EdgeClass::Hidden,
        edge_class(0, sharp, bent, true) == EdgeClass::Hidden && edge_class(0, sharp, bent, false) == EdgeClass::Hidden,
{
}

/// The star of a vertex holds an edge once for each of its ends there, in the order of the edges.
#[verifier::spinoff_prover]
#[verifier::rlimit(50)]
pub proof fn stars_hold_every_end(edges: Seq<(usize, usize)>, v: usize, n: int)
    requires
        0 <= n <= edges.len(),
    ensures
        star(edges, v, n) == Seq::new(
            n as nat,
            |e: int|
                if edges[e].0 == v && edges[e].1 == v {
                    seq![e as usize, e as usize]
                } else if edges[e].0 == v || edges[e].1 == v {
                    seq![e as usize]
                } else {
                    Seq::empty()
                },
        ).flatten(),
    decreases n,
{
    let f = |e: int|
        if edges[e].0 == v && edges[e].1 == v {
            seq![e as usize, e as usize]
        } else if edges[e].0 == v || edges[e].1 == v {
            seq![e as usize]
        } else {
            Seq::empty()
        };
    if n > 0 {
        stars_hold_every_end(edges, v, n - 1);
        assert(Seq::new(n as nat, f) =~= Seq::new((n - 1) as nat, f).push(f(n - 1)));
        Seq::new((n - 1) as nat, f).lemma_flatten_push(f(n - 1));
        assert(star(edges, v, n) =~= star(edges, v, n - 1) + f(n - 1));
    } else {
        assert(Seq::new(0, f) =~= Seq::<Seq<usize>>::empty());
        assert(Seq::new(0, f).flatten() =~= Seq::<usize>::empty());
    }
}

/// The chain never goes back along the edge that it came by.
pub open spec fn goes_on(chain: Seq<usize>) -> bool {
    forall|k: int| 0 < k < chain.len() ==> #[trigger] chain[k] != chain[k - 1]
}

/// Every spur is found: a chain from a loose end to a junction that never goes back is the one listed
/// for that end.
pub proof fn every_spur_is_found(edges: Seq<(usize, usize)>, v: usize, chain: Seq<usize>)
    requires
        edges.len() <= usize::MAX,
        degree(edges, v) == 1,
        is_spur(edges, v, chain),
        goes_on(chain),
        chain.len() <= edges.len(),
    ensures
        spur_at(edges, v) == Some(chain),
{
    star_members(edges, v, edges.len() as int);
    let list = edges_of(edges, v);
    assert(list.contains(chain[0]));
    assert(list[0] == chain[0]);
    spur_is_followed(edges, v, chain, edges.len());
}

#[verifier::spinoff_prover]
#[verifier::rlimit(50)]
proof fn spur_is_followed(edges: Seq<(usize, usize)>, v: usize, chain: Seq<usize>, fuel: nat)
    requires
        edges.len() <= usize::MAX,
        is_spur(edges, v, chain),
        goes_on(chain),
        chain.len() <= fuel,
    ensures
        follow(edges, v, chain[0], fuel) == Some(chain),
    decreases chain.len(),
{
    reveal_with_fuel(is_spur, 2);
    let other = far(edges, chain[0], v);
    let around = edges_of(edges, other);
    if chain.len() == 1 {
        assert(chain =~= seq![chain[0]]);
    } else {
        let rest = chain.skip(1);
        star_members(edges, other, edges.len() as int);
        assert(rest[0] == chain[1]);
        assert(edges[rest[0] as int].0 == other || edges[rest[0] as int].1 == other);
        assert(around.contains(rest[0]));
        assert(chain[1] != chain[0]);
        assert(around.contains(chain[0]));
        assert(around[0] == rest[0] || around[1] == rest[0]);
        assert(around[0] == chain[0] || around[1] == chain[0]);
        assert forall|k: int| 0 < k < rest.len() implies #[trigger] rest[k] != rest[k - 1] by {
            assert(chain[k + 1] != chain[k]);
        }
        spur_is_followed(edges, other, rest, (fuel - 1) as nat);
        assert(chain =~= seq![chain[0]] + rest);
    }
}

/// The spurs are listed by their loose ends, in the order of the vertices.
pub proof fn spurs_are_listed_by_their_ends(edges: Seq<(usize, usize)>, n: int)
    requires
        0 <= n,
    ensures
        spur_list(edges, n) == Seq::new(n as nat, |i: int| i).filter(|v: int| spur_at(edges, v as usize) is Some).map_values(|v: int| spur_at(edges, v as usize)->0),
    decreases n,
{
    reveal(Seq::filter);
    let (test, made) = (|v: int| spur_at(edges, v as usize) is Some, |v: int| spur_at(edges, v as usize)->0);
    let all = Seq::new(n as nat, |i: int| i);
    if n > 0 {
        spurs_are_listed_by_their_ends(edges, n - 1);
        let rest = Seq::new((n - 1) as nat, |i: int| i);
        assert(all.drop_last() =~= rest);
        assert(all.last() == n - 1);
        let kept = rest.filter(test);
        assert(kept.push(n - 1).map_values(made) =~= kept.map_values(made).push(made(n - 1)));
        assert(spur_list(edges, n) =~= all.filter(test).map_values(made));
    } else {
        assert(spur_list(edges, n) =~= all.filter(test).map_values(made));
    }
}

/// An edge is spared unless it lies on a chain that is marked; the others keep their order.
pub proof fn spared_edges_lie_on_no_marked_chain(edges: Seq<(usize, usize)>, chains: Seq<Vec<usize>>, marked: Seq<bool>, n: int)
    requires
        0 <= n <= edges.len(),
    ensures
        spared(edges, chains, marked, n) == Seq::new(n as nat, |i: int| i).filter(|e: int| forall|k: int| 0 <= k < chains.len() && marked[k] ==> !(#[trigger] chains[k])@.contains(e as usize)).map_values(|e: int| edges[e]),
    decreases n,
{
    reveal(Seq::filter);
    let (test, made) = (|e: int| forall|k: int| 0 <= k < chains.len() && marked[k] ==> !(#[trigger] chains[k])@.contains(e as usize), |e: int| edges[e]);
    let all = Seq::new(n as nat, |i: int| i);
    if n > 0 {
        spared_edges_lie_on_no_marked_chain(edges, chains, marked, n - 1);
        assert(test(n - 1) == !on_marked(chains, marked, (n - 1) as usize));
        let rest = Seq::new((n - 1) as nat, |i: int| i);
        assert(all.drop_last() =~= rest);
        assert(all.last() == n - 1);
        let kept = rest.filter(test);
        assert(kept.push(n - 1).map_values(made) =~= kept.map_values(made).push(made(n - 1)));
        assert(spared(edges, chains, marked, n) =~= all.filter(test).map_values(made));
    } else {
        assert(spared(edges, chains, marked, n) =~= all.filter(test).map_values(made));
    }
}

/// The loose ends of a component are its vertices where one edge ends, in order.
pub proof fn loose_ends_have_one_edge(edges: Seq<(usize, usize)>, comp: Seq<usize>, c: int, n: int)
    requires
        0 <= n,
    ensures
        loose_ends(edges, comp, c, n) == Seq::new(n as nat, |i: int| i).filter(|v: int| edges_of(edges, v as usize).len() == 1 && comp[edges_of(edges, v as usize)[0] as int] == c).map_values(|v: int| v as usize),
    decreases n,
{
    reveal(Seq::filter);
    let (test, made) = (|v: int| edges_of(edges, v as usize).len() == 1 && comp[edges_of(edges, v as usize)[0] as int] == c, |v: int| v as usize);
    let all = Seq::new(n as nat, |i: int| i);
    if n > 0 {
        loose_ends_have_one_edge(edges, comp, c, n - 1);
        let rest = Seq::new((n - 1) as nat, |i: int| i);
        assert(all.drop_last() =~= rest);
        assert(all.last() == n - 1);
        let kept = rest.filter(test);
        assert(kept.push(n - 1).map_values(made) =~= kept.map_values(made).push(made(n - 1)));
        assert(loose_ends(edges, comp, c, n) =~= all.filter(test).map_values(made));
    } else {
        assert(loose_ends(edges, comp, c, n) =~= all.filter(test).map_values(made));
    }
}

/// An open path on its own is a component with two loose ends, from the first of them to the last,
/// at none of whose vertices three edges meet.
pub proof fn loose_paths_have_two_ends(edges: Seq<(usize, usize)>, comp: Seq<usize>, verts: int, n: int)
    requires
        0 <= n,
    ensures
        loose_list(edges, comp, verts, n) == Seq::new(n as nat, |i: int| i).filter(|c: int| loose_ends(edges, comp, c, verts).len() == 2 && !(exists|v: int| 0 <= v < verts && #[trigger] degree(edges, v as usize) >= 3 && comp[edges_of(edges, v as usize)[0] as int] == c)).map_values(|c: int| LoosePath { comp: c as usize, first: loose_ends(edges, comp, c, verts)[0], last: loose_ends(edges, comp, c, verts)[1] }),
    decreases n,
{
    reveal(Seq::filter);
    let (test, made) = (|c: int| loose_ends(edges, comp, c, verts).len() == 2 && !(exists|v: int| 0 <= v < verts && #[trigger] degree(edges, v as usize) >= 3 && comp[edges_of(edges, v as usize)[0] as int] == c), |c: int| LoosePath { comp: c as usize, first: loose_ends(edges, comp, c, verts)[0], last: loose_ends(edges, comp, c, verts)[1] });
    let all = Seq::new(n as nat, |i: int| i);
    if n > 0 {
        loose_paths_have_two_ends(edges, comp, verts, n - 1);
        crossings_are_junctions(edges, comp, n - 1, verts);
        assert(test(n - 1) == is_loose(edges, comp, n - 1, verts));
        let rest = Seq::new((n - 1) as nat, |i: int| i);
        assert(all.drop_last() =~= rest);
        assert(all.last() == n - 1);
        let kept = rest.filter(test);
        assert(kept.push(n - 1).map_values(made) =~= kept.map_values(made).push(made(n - 1)));
        assert(loose_list(edges, comp, verts, n) =~= all.filter(test).map_values(made));
    } else {
        assert(loose_list(edges, comp, verts, n) =~= all.filter(test).map_values(made));
    }
}

proof fn crossings_are_junctions(edges: Seq<(usize, usize)>, comp: Seq<usize>, c: int, verts: int)
    ensures
        has_junction(edges, comp, c, verts) <==> exists|v: int|
            0 <= v < verts && #[trigger] degree(edges, v as usize) >= 3 && comp[edges_of(edges, v as usize)[0] as int] == c,
{
    if has_junction(edges, comp, c, verts) {
        let v = choose|v: int| 0 <= v < verts && #[trigger] degree(edges, v as usize) >= 3 && vertex_in(edges, comp, v as usize, c);
        assert(degree(edges, v as usize) >= 3);
    }
    if exists|v: int| 0 <= v < verts && #[trigger] degree(edges, v as usize) >= 3 && comp[edges_of(edges, v as usize)[0] as int] == c {
        let v = choose|v: int| 0 <= v < verts && #[trigger] degree(edges, v as usize) >= 3 && comp[edges_of(edges, v as usize)[0] as int] == c;
        assert(degree(edges, v as usize) >= 3 && vertex_in(edges, comp, v as usize, c));
    }
}

/// An edge stays unless its component is that of a dropped path; those that stay keep their order.
pub proof fn edges_stay_unless_dropped(edges: Seq<(usize, usize)>, comp: Seq<usize>, paths: Seq<LoosePath>, drop: Seq<bool>, n: int)
    requires
        0 <= n <= edges.len(),
    ensures
        undropped(edges, comp, paths, drop, n) == Seq::new(n as nat, |i: int| i).filter(|e: int| forall|k: int| 0 <= k < paths.len() && drop[k] ==> (#[trigger] paths[k]).comp != comp[e]).map_values(|e: int| edges[e]),
    decreases n,
{
    reveal(Seq::filter);
    let (test, made) = (|e: int| forall|k: int| 0 <= k < paths.len() && drop[k] ==> (#[trigger] paths[k]).comp != comp[e], |e: int| edges[e]);
    let all = Seq::new(n as nat, |i: int| i);
    if n > 0 {
        edges_stay_unless_dropped(edges, comp, paths, drop, n - 1);
        assert(test(n - 1) == !is_dropped(paths, drop, comp[n - 1]));
        let rest = Seq::new((n - 1) as nat, |i: int| i);
        assert(all.drop_last() =~= rest);
        assert(all.last() == n - 1);
        let kept = rest.filter(test);
        assert(kept.push(n - 1).map_values(made) =~= kept.map_values(made).push(made(n - 1)));
        assert(undropped(edges, comp, paths, drop, n) =~= all.filter(test).map_values(made));
    } else {
        assert(undropped(edges, comp, paths, drop, n) =~= all.filter(test).map_values(made));
    }
}

/// Each path that is not dropped is closed by an edge from its first end to its last.
pub proof fn kept_paths_are_closed(paths: Seq<LoosePath>, drop: Seq<bool>, n: int)
    requires
        0 <= n <= paths.len(),
    ensures
        closings(paths, drop, n) == Seq::new(n as nat, |i: int| i).filter(|k: int| !drop[k]).map_values(|k: int| (paths[k].first, paths[k].last)),
    decreases n,
{
    reveal(Seq::filter);
    let (test, made) = (|k: int| !drop[k], |k: int| (paths[k].first, paths[k].last));
    let all = Seq::new(n as nat, |i: int| i);
    if n > 0 {
        kept_paths_are_closed(paths, drop, n - 1);
        let rest = Seq::new((n - 1) as nat, |i: int| i);
        assert(all.drop_last() =~= rest);
        assert(all.last() == n - 1);
        let kept = rest.filter(test);
        assert(kept.push(n - 1).map_values(made) =~= kept.map_values(made).push(made(n - 1)));
        assert(closings(paths, drop, n) =~= all.filter(test).map_values(made));
    } else {
        assert(closings(paths, drop, n) =~= all.filter(test).map_values(made));
    }
}

/// The ends at a vertex are counted: the kept edges that start there, and those that end there.
pub proof fn kept_ends_are_counted(edges: Seq<(usize, usize)>, keep: Seq<bool>, v: usize, n: int)
    requires
        0 <= n <= edges.len(),
    ensures
        kept_at(edges, keep, v, n) == Seq::new(n as nat, |e: int| e).filter(|e: int| keep[e] && edges[e].0 == v).len() + Seq::new(
            n as nat,
            |e: int| e,
        ).filter(|e: int| keep[e] && edges[e].1 == v).len(),
    decreases n,
{
    reveal(Seq::filter);
    let all = Seq::new(n as nat, |e: int| e);
    if n > 0 {
        kept_ends_are_counted(edges, keep, v, n - 1);
        assert(all.drop_last() =~= Seq::new((n - 1) as nat, |e: int| e));
        assert(all.last() == n - 1);
    }
}

/// What is picked is the first on the list that is kept and new to the chain.
pub proof fn next_kept_is_the_first(list: Seq<usize>, keep: Seq<bool>, chain: Seq<usize>, from: int, k: int)
    requires
        0 <= from <= k <= list.len(),
        forall|j: int| from <= j < k ==> !keep[#[trigger] list[j] as int] || chain.contains(list[j]),
        k < list.len() ==> keep[list[k] as int] && !chain.contains(list[k]),
    ensures
        next_kept(list, keep, chain, from) == if k < list.len() {
            Some(list[k])
        } else {
            None
        },
    decreases k - from,
{
    if from < k {
        assert(!keep[list[from] as int] || chain.contains(list[from]));
        next_kept_is_the_first(list, keep, chain, from + 1, k);
    }
}

/// A stub runs from vertex to vertex over kept edges, each new, through vertices where two of them
/// meet; it stops where more or fewer do, or where no new edge leads on.
#[verifier::spinoff_prover]
#[verifier::rlimit(50)]
pub proof fn stubs_run_on(
    edges: Seq<(usize, usize)>,
    keep: Seq<bool>,
    deg: Seq<usize>,
    cur: usize,
    chain: Seq<usize>,
    fuel: nat,
) -> (points: Seq<usize>)
    requires
        edges.len() <= usize::MAX,
    ensures
        ({
            let r = stub_on(edges, keep, deg, cur, chain, fuel);
            let m = chain.len() as int;
            &&& m <= r.len() && r.take(m) == chain
            &&& points.len() == r.len() - m + 1
            &&& points[0] == cur
            &&& forall|i: int|
                m <= i < r.len() ==> {
                    let e = #[trigger] r[i];
                    &&& e < edges.len() && keep[e as int] && !r.take(i).contains(e)
                    &&& edges[e as int] == (points[i - m], points[i - m + 1]) || edges[e as int] == (points[i - m + 1], points[i - m])
                }
            &&& forall|i: int| 0 < i < points.len() - 1 ==> deg[#[trigger] points[i] as int] == 2
            &&& points.len() > 1 && deg[points.last() as int] != 2 || r.len() - m > fuel || forall|e: usize|
                #[trigger] edges_of(edges, points.last()).contains(e) && keep[e as int] ==> r.contains(e)
        }),
    decreases fuel,
{
    let list = edges_of(edges, cur);
    let m = chain.len() as int;
    let r = stub_on(edges, keep, deg, cur, chain, fuel);
    match next_kept(list, keep, chain, 0) {
        None => {
            assert(r.take(m) =~= chain);
            assert forall|d: usize| #[trigger] list.contains(d) && keep[d as int] implies r.contains(d) by {
                let k = choose|k: int| 0 <= k < list.len() && list[k] == d;
                none_is_left(list, keep, chain, 0, k);
            }
            seq![cur]
        },
        Some(e) => {
            next_kept_is_fresh(list, keep, chain, 0);
            star_members(edges, cur, edges.len() as int);
            let at = choose|i: int| 0 <= i < list.len() && list[i] == e;
            let other = far(edges, e, cur);
            let more = chain.push(e);
            if fuel == 0 || deg[other as int] != 2 {
                assert(r.take(m) =~= chain);
                seq![cur, other]
            } else {
                let rest = stubs_run_on(edges, keep, deg, other, more, (fuel - 1) as nat);
                let points = seq![cur] + rest;
                assert(r.take(m) =~= more.take(m)) by {
                    assert(r.take(m) =~= r.take(m + 1).take(m));
                }
                assert(more.take(m) =~= chain);
                assert(r[m] == r.take(m + 1)[m]);
                assert forall|i: int| m <= i < r.len() implies ({
                    let d = #[trigger] r[i];
                    &&& d < edges.len() && keep[d as int] && !r.take(i).contains(d)
                    &&& edges[d as int] == (points[i - m], points[i - m + 1]) || edges[d as int] == (points[i - m + 1], points[i - m])
                }) by {
                    if i > m {
                        assert(points[i - m] == rest[i - m - 1] && points[i - m + 1] == rest[i - m]);
                    }
                }
                assert forall|i: int| 0 < i < points.len() - 1 implies deg[#[trigger] points[i] as int] == 2 by {
                    assert(points[i] == rest[i - 1]);
                }
                assert(points.last() == rest.last());
                points
            }
        },
    }
}

proof fn none_is_left(list: Seq<usize>, keep: Seq<bool>, chain: Seq<usize>, from: int, k: int)
    requires
        0 <= from <= k < list.len(),
        next_kept(list, keep, chain, from) is None,
    ensures
        !keep[list[k] as int] || chain.contains(list[k]),
    decreases k - from,
{
    if from < k {
        none_is_left(list, keep, chain, from + 1, k);
    }
}

} // verus!
