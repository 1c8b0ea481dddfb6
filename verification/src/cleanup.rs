//! Tidying the feature edges of a mesh that came out of booleans.
//!
//! On a closed solid a real edge never ends in nothing: edges close into loops or meet at corners.
//! What dangles is a splinter of a seam, or a loop that lost a segment. Lengths are whole numbers of
//! some small unit.

use vstd::prelude::*;

use crate::counting::truths;
use crate::feature_edges::{
    LoosePath, adjacency, closings, components, degree, drops_path, edges_of, edges_stay_unless_dropped, far,
    fits, is_components, kept_at, kept_degrees, kept_paths_are_closed, lists_stars, loose_ends, loose_list,
    loose_list_members, loose_paths, next_kept, next_kept_is_fresh, on_marked, open_pieces, settle_paths,
    spared, spur_list, spur_list_members, spurs, star, star_members, stub_from, stub_members, stub_on, trim,
    undropped, vertex_in, without_chains,
};
use crate::linking::{adjacent, adjacent_linked, linked, linked_reflexive, linked_transitive};

verus! {

/// The distance between two points can be measured, and always comes out the same.
pub open spec fn measurable<F: Fn(usize, usize) -> u64>(f: F, a: usize, b: usize) -> bool {
    &&& f.requires((a, b))
    &&& forall|x: u64, y: u64| #[trigger] f.ensures((a, b), x) && #[trigger] f.ensures((a, b), y) ==> x == y
}

/// Any distance between points below `n` can be measured.
pub open spec fn measures<F: Fn(usize, usize) -> u64>(f: F, n: int) -> bool {
    forall|a: usize, b: usize| a < n && b < n ==> #[trigger] measurable(f, a, b)
}

/// The distance between two points.
pub open spec fn span<F: Fn(usize, usize) -> u64>(f: F, a: usize, b: usize) -> int {
    (choose|x: u64| f.ensures((a, b), x)) as int
}

fn measure<F: Fn(usize, usize) -> u64>(f: &F, a: usize, b: usize) -> (x: u64)
    requires
        measurable(*f, a, b),
    ensures
        x == span(*f, a, b),
{
    let x: u64 = f(a, b);
    assert(f.ensures((a, b), x));
    x
}

/// The length of a chain of edges.
pub open spec fn chain_length<F: Fn(usize, usize) -> u64>(edges: Seq<(usize, usize)>, f: F, chain: Seq<usize>) -> int
    decreases chain.len(),
{
    if chain.len() == 0 {
        0
    } else {
        let e = edges[chain.last() as int];
        chain_length(edges, f, chain.drop_last()) + span(f, e.0, e.1)
    }
}

/// The length of a component of the edges, over the first `n` of them.
pub open spec fn piece_length<F: Fn(usize, usize) -> u64>(edges: Seq<(usize, usize)>, f: F, comp: Seq<usize>, c: int, n: int) -> int
    decreases n,
{
    if n <= 0 {
        0
    } else {
        piece_length(edges, f, comp, c, n - 1) + if comp[n - 1] == c {
            span(f, edges[n - 1].0, edges[n - 1].1)
        } else {
            0
        }
    }
}

proof fn sums_fit(k: int, total: int)
    requires
        0 <= k <= u64::MAX,
        0 <= total <= k * u64::MAX,
    ensures
        total + u64::MAX <= u128::MAX,
        total + u64::MAX <= (k + 1) * u64::MAX,
{
    assert(k * u64::MAX <= u64::MAX * u64::MAX) by (nonlinear_arith)
        requires
            0 <= k <= u64::MAX,
    ;
    assert((k + 1) * u64::MAX == k * u64::MAX + u64::MAX) by (nonlinear_arith);
}

#[verifier::loop_isolation(false)]
fn measure_chain<F: Fn(usize, usize) -> u64>(edges: &Vec<(usize, usize)>, verts: usize, f: &F, chain: &Vec<usize>) -> (total: u128)
    requires
        fits(edges@, verts as int),
        measures(*f, verts as int),
        forall|k: int| 0 <= k < chain@.len() ==> (#[trigger] chain@[k]) < edges@.len(),
    ensures
        total == chain_length(edges@, *f, chain@),
{
    let mut total: u128 = 0;
    let mut k: usize = 0;
    assert(chain@.take(0) =~= Seq::<usize>::empty());
    assert(chain@.len() == chain.len());
    while k < chain.len()
        invariant
            k <= chain@.len(),
            total == chain_length(edges@, *f, chain@.take(k as int)),
            total <= k * u64::MAX,
        decreases chain@.len() - k,
    {
        assert(chain@.take(k + 1).drop_last() =~= chain@.take(k as int));
        proof {
            sums_fit(k as int, total as int);
        }
        let (a, b): (usize, usize) = edges[chain[k]];
        assert(edges@[chain@[k as int] as int] == (a, b));
        total = total + measure(f, a, b) as u128;
        k = k + 1;
    }
    assert(chain@.take(k as int) =~= chain@);
    total
}

#[verifier::loop_isolation(false)]
fn measure_piece<F: Fn(usize, usize) -> u64>(edges: &Vec<(usize, usize)>, verts: usize, f: &F, comp: &Vec<usize>, c: usize) -> (total: u128)
    requires
        fits(edges@, verts as int),
        measures(*f, verts as int),
        comp@.len() == edges@.len(),
    ensures
        total == piece_length(edges@, *f, comp@, c as int, edges@.len() as int),
{
    let mut total: u128 = 0;
    let mut k: usize = 0;
    assert(edges@.len() == edges.len());
    while k < edges.len()
        invariant
            k <= edges@.len(),
            total == piece_length(edges@, *f, comp@, c as int, k as int),
            total <= k * u64::MAX,
        decreases edges@.len() - k,
    {
        proof {
            sums_fit(k as int, total as int);
        }
        if comp[k] == c {
            let (a, b): (usize, usize) = edges[k];
            assert(edges@[k as int] == (a, b));
            total = total + measure(f, a, b) as u128;
        }
        k = k + 1;
    }
    total
}

// ---- spurs and open paths ----

/// Edge `e` lies on a spur that is shorter than allowed.
pub open spec fn on_short_spur<F: Fn(usize, usize) -> u64>(edges: Seq<(usize, usize)>, f: F, verts: int, max: int, e: usize) -> bool {
    exists|k: int|
        0 <= k < spur_list(edges, verts).len() && (#[trigger] spur_list(edges, verts)[k]).contains(e) && chain_length(
            edges,
            f,
            spur_list(edges, verts)[k],
        ) < max
}

/// The edges among the first `n` that lie on no short spur.
pub open spec fn off_spurs<F: Fn(usize, usize) -> u64>(edges: Seq<(usize, usize)>, f: F, verts: int, max: int, n: int) -> Seq<(usize, usize)>
    decreases n,
{
    if n <= 0 {
        Seq::empty()
    } else if on_short_spur(edges, f, verts, max, (n - 1) as usize) {
        off_spurs(edges, f, verts, max, n - 1)
    } else {
        off_spurs(edges, f, verts, max, n - 1).push(edges[n - 1])
    }
}

/// The edges without their short spurs, again and again until none is left.
pub open spec fn unspurred<F: Fn(usize, usize) -> u64>(edges: Seq<(usize, usize)>, f: F, verts: int, max: int) -> Seq<(usize, usize)>
    decreases edges.len(),
{
    let less = off_spurs(edges, f, verts, max, edges.len() as int);
    if less.len() < edges.len() {
        unspurred(less, f, verts, max)
    } else {
        edges
    }
}

/// The path is dropped: it is short, or its ends lie too far apart to have met.
pub open spec fn is_stray<F: Fn(usize, usize) -> u64>(
    edges: Seq<(usize, usize)>,
    f: F,
    comp: Seq<usize>,
    p: LoosePath,
    stray_max: int,
    gap_max: int,
) -> bool {
    piece_length(edges, f, comp, p.comp as int, edges.len() as int) < stray_max || span(f, p.first, p.last) > gap_max
}

/// The edges with their stray paths dropped and their other open paths closed.
pub open spec fn settled<F: Fn(usize, usize) -> u64>(
    edges: Seq<(usize, usize)>,
    f: F,
    comp: Seq<usize>,
    count: int,
    verts: int,
    stray_max: int,
    gap_max: int,
) -> Seq<(usize, usize)> {
    let paths = loose_list(edges, comp, verts, count);
    let drop = Seq::new(paths.len(), |k: int| is_stray(edges, f, comp, paths[k], stray_max, gap_max));
    undropped(edges, comp, paths, drop, edges.len() as int) + closings(paths, drop, paths.len() as int)
}

/// `out` is the cleaned set of edges.
pub open spec fn is_cleaned<F: Fn(usize, usize) -> u64>(
    out: Seq<(usize, usize)>,
    edges: Seq<(usize, usize)>,
    f: F,
    verts: int,
    spur_max: int,
    stray_max: int,
    gap_max: int,
) -> bool {
    let left = unspurred(edges, f, verts, spur_max);
    exists|comp: Seq<usize>, count: int| #[trigger] is_components(comp, count, left) && out == settled(left, f, comp, count, verts, stray_max, gap_max)
}

proof fn off_spurs_fit<F: Fn(usize, usize) -> u64>(edges: Seq<(usize, usize)>, f: F, verts: int, max: int, n: int)
    requires
        fits(edges, verts),
        0 <= n <= edges.len(),
    ensures
        fits(off_spurs(edges, f, verts, max, n), verts),
        off_spurs(edges, f, verts, max, n).len() <= n,
    decreases n,
{
    if n > 0 {
        off_spurs_fit(edges, f, verts, max, n - 1);
        assert(edges[n - 1].0 < verts && edges[n - 1].1 < verts);
    }
}

proof fn off_spurs_is_spared<F: Fn(usize, usize) -> u64>(
    edges: Seq<(usize, usize)>,
    f: F,
    verts: int,
    max: int,
    chains: Seq<Vec<usize>>,
    marked: Seq<bool>,
    n: int,
)
    requires
        chains.len() == spur_list(edges, verts).len(),
        marked.len() == chains.len(),
        forall|k: int| 0 <= k < chains.len() ==> (#[trigger] chains[k])@ == spur_list(edges, verts)[k],
        forall|k: int| 0 <= k < chains.len() ==> #[trigger] marked[k] == (chain_length(edges, f, spur_list(edges, verts)[k]) < max),
        0 <= n <= edges.len() <= usize::MAX,
    ensures
        spared(edges, chains, marked, n) == off_spurs(edges, f, verts, max, n),
    decreases n,
{
    if n > 0 {
        off_spurs_is_spared(edges, f, verts, max, chains, marked, n - 1);
        let e = (n - 1) as usize;
        if on_marked(chains, marked, e) {
            let k = choose|k: int| 0 <= k < chains.len() && marked[k] && (#[trigger] chains[k])@.contains(e);
            assert(spur_list(edges, verts)[k].contains(e));
        }
        if on_short_spur(edges, f, verts, max, e) {
            let k = choose|k: int|
                0 <= k < spur_list(edges, verts).len() && (#[trigger] spur_list(edges, verts)[k]).contains(e) && chain_length(
                    edges,
                    f,
                    spur_list(edges, verts)[k],
                ) < max;
            assert(chains[k]@.contains(e) && marked[k]);
        }
    }
}

/// The edges without their short spurs, once.
#[verifier::loop_isolation(false)]
fn drop_spurs<F: Fn(usize, usize) -> u64>(edges: &Vec<(usize, usize)>, verts: usize, f: &F, max: u128) -> (out: Vec<(usize, usize)>)
    requires
        fits(edges@, verts as int),
        measures(*f, verts as int),
    ensures
        out@ == off_spurs(edges@, *f, verts as int, max as int, edges@.len() as int),
{
    let chains: Vec<Vec<usize>> = spurs(edges, verts);
    assert(edges@.len() == edges.len());
    proof {
        spur_list_members(edges@, verts as int);
    }
    let mut marked: Vec<bool> = Vec::new();
    let mut k: usize = 0;
    while k < chains.len()
        invariant
            k <= chains@.len(),
            marked@.len() == k,
            forall|j: int| 0 <= j < k ==> #[trigger] marked@[j] == (chain_length(edges@, *f, spur_list(edges@, verts as int)[j]) < max),
        decreases chains@.len() - k,
    {
        assert(chains@[k as int]@ == spur_list(edges@, verts as int)[k as int]);
        let total: u128 = measure_chain(edges, verts, f, &chains[k]);
        marked.push(total < max);
        k = k + 1;
    }
    proof {
        off_spurs_is_spared(edges@, *f, verts as int, max as int, chains@, marked@, edges@.len() as int);
        assert forall|i: int, j: int| 0 <= i < chains@.len() && 0 <= j < chains@[i]@.len() implies (#[trigger] chains@[i]@[j]) < edges@.len() by {
            assert(chains@[i]@ == spur_list(edges@, verts as int)[i]);
            assert(spur_list(edges@, verts as int)[i][j] < edges@.len());
        }
    }
    without_chains(edges, &chains, &marked)
}

/// Tidy feature edges: prune short spurs, drop stray paths, and close the loops that lost a segment.
/// `f` measures the distance between two points.
#[verifier::loop_isolation(false)]
pub fn clean_feature_edges<F: Fn(usize, usize) -> u64>(
    ids: &Vec<(usize, usize)>,
    verts: usize,
    f: &F,
    spur_max: u128,
    stray_max: u128,
    gap_max: u64,
) -> (out: Vec<(usize, usize)>)
    requires
        fits(ids@, verts as int),
        measures(*f, verts as int),
    ensures
        is_cleaned(out@, ids@, *f, verts as int, spur_max as int, stray_max as int, gap_max as int),
{
    let mut edges: Vec<(usize, usize)> = Vec::new();
    let mut e: usize = 0;
    while e < ids.len()
        invariant
            e <= ids@.len(),
            edges@ == ids@.take(e as int),
        decreases ids@.len() - e,
    {
        edges.push(ids[e]);
        e = e + 1;
        assert(edges@ =~= ids@.take(e as int));
    }
    assert(ids@.take(e as int) =~= ids@);
    let ghost left = unspurred(ids@, *f, verts as int, spur_max as int);
    let mut pruning: bool = true;
    while pruning
        invariant
            fits(edges@, verts as int),
            unspurred(edges@, *f, verts as int, spur_max as int) == left,
            !pruning ==> edges@ == left,
        decreases edges@.len() + if pruning {
            1nat
        } else {
            0nat
        },
    {
        let less: Vec<(usize, usize)> = drop_spurs(&edges, verts, f, spur_max);
        proof {
            off_spurs_fit(edges@, *f, verts as int, spur_max as int, edges@.len() as int);
        }
        if less.len() < edges.len() {
            edges = less;
        } else {
            pruning = false;
        }
    }
    let (comp, count) = components(&edges, verts);
    let paths: Vec<LoosePath> = loose_paths(&edges, verts, &comp, count);
    let ghost want = Seq::new(
        paths@.len(),
        |k: int| is_stray(edges@, *f, comp@, paths@[k], stray_max as int, gap_max as int),
    );
    proof {
        loose_list_members(edges@, comp@, verts as int, count as int);
    }
    let mut drop: Vec<bool> = Vec::new();
    let mut k: usize = 0;
    while k < paths.len()
        invariant
            k <= paths@.len(),
            drop@ == want.take(k as int),
        decreases paths@.len() - k,
    {
        let total: u128 = measure_piece(&edges, verts, f, &comp, paths[k].comp);
        assert(paths@[k as int] == loose_list(edges@, comp@, verts as int, count as int)[k as int]);
        let gap: u64 = measure(f, paths[k].first, paths[k].last);
        drop.push(drops_path(total < stray_max, gap > gap_max));
        k = k + 1;
        assert(drop@ =~= want.take(k as int));
    }
    assert(want.take(k as int) =~= want);
    let out: Vec<(usize, usize)> = settle_paths(&edges, &comp, &paths, &drop);
    assert(is_components(comp@, count as int, left));
    assert(out@ == settled(left, *f, comp@, count as int, verts as int, stray_max as int, gap_max as int));
    out
}

proof fn off_spurs_keeps_all<F: Fn(usize, usize) -> u64>(edges: Seq<(usize, usize)>, f: F, verts: int, max: int, n: int)
    requires
        fits(edges, verts),
        0 <= n <= edges.len(),
        off_spurs(edges, f, verts, max, n).len() == n,
    ensures
        forall|e: int| 0 <= e < n ==> !#[trigger] on_short_spur(edges, f, verts, max, e as usize),
    decreases n,
{
    if n > 0 {
        off_spurs_fit(edges, f, verts, max, n - 1);
        off_spurs_keeps_all(edges, f, verts, max, n - 1);
    }
}

/// Pruning goes on until it is done: every spur that is left is long enough.
pub proof fn no_short_spur_is_left<F: Fn(usize, usize) -> u64>(edges: Seq<(usize, usize)>, f: F, verts: int, max: int)
    requires
        fits(edges, verts),
        edges.len() <= usize::MAX,
    ensures
        ({
            let left = unspurred(edges, f, verts, max);
            forall|k: int| 0 <= k < spur_list(left, verts).len() ==> chain_length(left, f, #[trigger] spur_list(left, verts)[k]) >= max
        }),
    decreases edges.len(),
{
    off_spurs_fit(edges, f, verts, max, edges.len() as int);
    let less = off_spurs(edges, f, verts, max, edges.len() as int);
    if less.len() < edges.len() {
        no_short_spur_is_left(less, f, verts, max);
        assert(unspurred(edges, f, verts, max) == unspurred(less, f, verts, max));
    } else {
        assert(unspurred(edges, f, verts, max) == edges);
        off_spurs_keeps_all(edges, f, verts, max, edges.len() as int);
        spur_list_members(edges, verts);
        assert forall|k: int| 0 <= k < spur_list(edges, verts).len() implies chain_length(edges, f, #[trigger] spur_list(edges, verts)[k]) >= max by {
            let chain = spur_list(edges, verts)[k];
            assert(chain.len() > 0);
            let e = chain[0];
            assert(e < edges.len());
            assert(chain.contains(e));
            assert(!on_short_spur(edges, f, verts, max, (e as int) as usize));
        }
    }
}

// ---- scraps ----

/// Component `c` is a scrap: it is open, and short.
pub open spec fn scrap<F: Fn(usize, usize) -> u64>(
    edges: Seq<(usize, usize)>,
    f: F,
    comp: Seq<usize>,
    c: int,
    verts: int,
    open_min: int,
) -> bool {
    loose_ends(edges, comp, c, verts).len() > 0 && piece_length(edges, f, comp, c, edges.len() as int) < open_min
}

/// How many kept edges meet at each vertex.
pub open spec fn degrees(edges: Seq<(usize, usize)>, keep: Seq<bool>, verts: int) -> Seq<usize> {
    Seq::new(verts as nat, |v: int| kept_at(edges, keep, v as usize, edges.len() as int) as usize)
}

/// The chain that dangles at a vertex.
pub open spec fn stub_at(edges: Seq<(usize, usize)>, keep: Seq<bool>, deg: Seq<usize>, v: usize) -> Seq<usize> {
    stub_on(edges, keep, deg, v, Seq::empty(), edges.len())
}

/// The vertex dangles, on a chain that is shorter than allowed.
pub open spec fn dangles<F: Fn(usize, usize) -> u64>(
    edges: Seq<(usize, usize)>,
    f: F,
    keep: Seq<bool>,
    deg: Seq<usize>,
    v: usize,
    min: int,
) -> bool {
    let chain = stub_at(edges, keep, deg, v);
    deg[v as int] == 1 && chain.len() > 0 && chain_length(edges, f, chain) < min
}

/// The marks with those of a chain taken away.
pub open spec fn less_chain(keep: Seq<bool>, chain: Seq<usize>) -> Seq<bool> {
    Seq::new(keep.len(), |e: int| keep[e] && !chain.contains(e as usize))
}

/// One pass over the first `n` vertices: the short chains that dangle are let go, one after the
/// other. How many edges meet at a vertex is counted before the pass.
pub open spec fn passed<F: Fn(usize, usize) -> u64>(
    edges: Seq<(usize, usize)>,
    f: F,
    keep: Seq<bool>,
    deg: Seq<usize>,
    min: int,
    n: int,
) -> Seq<bool>
    decreases n,
{
    if n <= 0 {
        keep
    } else {
        let k = passed(edges, f, keep, deg, min, n - 1);
        let v = (n - 1) as usize;
        if dangles(edges, f, k, deg, v, min) {
            less_chain(k, stub_at(edges, k, deg, v))
        } else {
            k
        }
    }
}

/// Passes until one changes nothing.
pub open spec fn trimmed<F: Fn(usize, usize) -> u64>(edges: Seq<(usize, usize)>, f: F, keep: Seq<bool>, verts: int, min: int) -> Seq<bool>
    decreases truths(keep),
{
    let k = passed(edges, f, keep, degrees(edges, keep, verts), min, verts);
    if truths(k) < truths(keep) {
        trimmed(edges, f, k, verts, min)
    } else {
        keep
    }
}

/// The marks after dropping whole scraps.
pub open spec fn without_scraps<F: Fn(usize, usize) -> u64>(
    edges: Seq<(usize, usize)>,
    f: F,
    comp: Seq<usize>,
    verts: int,
    open_min: int,
) -> Seq<bool> {
    Seq::new(edges.len(), |e: int| !scrap(edges, f, comp, comp[e] as int, verts, open_min))
}

/// `keep` marks what is left of the edges: no scraps, and no short chains that dangle. Fewer than
/// two edges are left alone.
pub open spec fn is_pruned<F: Fn(usize, usize) -> u64>(
    keep: Seq<bool>,
    edges: Seq<(usize, usize)>,
    f: F,
    verts: int,
    open_min: int,
) -> bool {
    if edges.len() < 2 {
        keep == Seq::new(edges.len(), |e: int| true)
    } else {
        exists|comp: Seq<usize>, count: int| #[trigger]
            is_components(comp, count, edges) && keep == trimmed(
                edges,
                f,
                without_scraps(edges, f, comp, verts, open_min),
                verts,
                open_min,
            )
    }
}

proof fn less_is_less(keep: Seq<bool>, chain: Seq<usize>)
    ensures
        truths(less_chain(keep, chain)) <= truths(keep),
        (exists|k: int| 0 <= k < chain.len() && (#[trigger] chain[k]) < keep.len() && keep[chain[k] as int]) ==> truths(less_chain(keep, chain))
            < truths(keep),
    decreases keep.len(),
{
    let less = less_chain(keep, chain);
    if keep.len() > 0 {
        let k0 = keep.drop_last();
        less_is_less(k0, chain);
        assert(less.drop_last() =~= less_chain(k0, chain));
        if exists|k: int| 0 <= k < chain.len() && (#[trigger] chain[k]) < keep.len() && keep[chain[k] as int] {
            let k = choose|k: int| 0 <= k < chain.len() && (#[trigger] chain[k]) < keep.len() && keep[chain[k] as int];
            if chain[k] < k0.len() {
                assert(k0[chain[k] as int]);
            } else {
                assert(chain.contains((keep.len() - 1) as usize));
                assert(!less.last());
            }
        }
    }
}

/// Let go of the short chains that dangle, once over all vertices.
#[verifier::loop_isolation(false)]
fn pass<F: Fn(usize, usize) -> u64>(edges: &Vec<(usize, usize)>, stars: &Vec<Vec<usize>>, f: &F, keep: &mut Vec<bool>, min: u128) -> (cut: bool)
    requires
        fits(edges@, stars@.len() as int),
        lists_stars(stars@, edges@),
        measures(*f, stars@.len() as int),
        old(keep)@.len() == edges@.len(),
        2 * edges@.len() <= usize::MAX,
    ensures
        final(keep)@ == passed(
            edges@,
            *f,
            old(keep)@,
            degrees(edges@, old(keep)@, stars@.len() as int),
            min as int,
            stars@.len() as int,
        ),
        final(keep)@.len() == edges@.len(),
        cut == (truths(final(keep)@) < truths(old(keep)@)),
{
    let verts: usize = stars.len();
    let ghost start = keep@;
    let deg: Vec<usize> = kept_degrees(edges, keep, verts);
    assert(deg@ =~= degrees(edges@, start, verts as int));
    let mut cut: bool = false;
    let mut v: usize = 0;
    while v < verts
        invariant
            v <= verts,
            keep@.len() == edges@.len(),
            keep@ == passed(edges@, *f, start, deg@, min as int, v as int),
            cut == (truths(keep@) < truths(start)),
            truths(keep@) <= truths(start),
        decreases verts - v,
    {
        if deg[v] == 1 {
            let ghost before = keep@;
            let chain: Vec<usize> = stub_from(edges, stars, keep, &deg, v);
            if chain.len() > 0 && measure_chain(edges, verts, f, &chain) < min {
                trim(keep, &chain);
                assert(keep@ =~= less_chain(before, chain@));
                proof {
                    less_is_less(before, chain@);
                    assert(chain@[0] < before.len() && before[chain@[0] as int]);
                }
                cut = true;
            }
        }
        v = v + 1;
    }
    cut
}

/// Prune the edges of a mesh: whole pieces that are scraps, then the short chains that dangle off
/// what is left. A piece is a scrap where it has loose ends and is shorter than `open_min`; a closed
/// one is kept however small it is.
#[verifier::loop_isolation(false)]
pub fn prune_tiny_open_fragments<F: Fn(usize, usize) -> u64>(
    edges: &Vec<(usize, usize)>,
    verts: usize,
    f: &F,
    open_min: u128,
) -> (keep: Vec<bool>)
    requires
        fits(edges@, verts as int),
        measures(*f, verts as int),
        2 * edges@.len() <= usize::MAX,
    ensures
        is_pruned(keep@, edges@, *f, verts as int, open_min as int),
{
    let n: usize = edges.len();
    if n < 2 {
        let keep: Vec<bool> = vec![true; n];
        assert(keep@ =~= Seq::new(edges@.len(), |e: int| true));
        return keep;
    }
    let (comp, count) = components(edges, verts);
    let open: Vec<bool> = open_pieces(edges, verts, &comp, count);
    let mut scraps: Vec<bool> = Vec::new();
    let mut c: usize = 0;
    while c < count
        invariant
            c <= count,
            scraps@.len() == c,
            forall|k: int|
                0 <= k < c ==> #[trigger] scraps@[k] == scrap(edges@, *f, comp@, k, verts as int, open_min as int),
        decreases count - c,
    {
        let total: u128 = measure_piece(edges, verts, f, &comp, c);
        assert(open@[c as int] <==> loose_ends(edges@, comp@, c as int, verts as int).len() > 0);
        scraps.push(open[c] && total < open_min);
        c = c + 1;
    }
    let ghost want = without_scraps(edges@, *f, comp@, verts as int, open_min as int);
    let mut keep: Vec<bool> = Vec::new();
    let mut e: usize = 0;
    while e < n
        invariant
            e <= n,
            keep@ == want.take(e as int),
        decreases n - e,
    {
        assert(comp@[e as int] < count);
        keep.push(!scraps[comp[e]]);
        e = e + 1;
        assert(keep@ =~= want.take(e as int));
    }
    assert(want.take(e as int) =~= want);
    let stars: Vec<Vec<usize>> = adjacency(edges, verts);
    let ghost goal = trimmed(edges@, *f, want, verts as int, open_min as int);
    let mut again: bool = true;
    while again
        invariant
            keep@.len() == n,
            trimmed(edges@, *f, keep@, verts as int, open_min as int) == goal,
            !again ==> keep@ == goal,
        decreases truths(keep@) + if again {
            1nat
        } else {
            0nat
        },
    {
        let ghost before = keep@;
        let cut: bool = pass(edges, &stars, f, &mut keep, open_min);
        if !cut {
            proof {
                pass_without_cut(edges@, *f, before, degrees(edges@, before, verts as int), open_min as int, verts as int);
            }
            again = false;
        }
    }
    keep
}

/// A pass that lets no mark go leaves the marks as they were.
proof fn pass_without_cut<F: Fn(usize, usize) -> u64>(
    edges: Seq<(usize, usize)>,
    f: F,
    keep: Seq<bool>,
    deg: Seq<usize>,
    min: int,
    n: int,
)
    requires
        edges.len() <= usize::MAX,
        keep.len() == edges.len(),
    ensures
        passed(edges, f, keep, deg, min, n).len() == keep.len(),
        truths(passed(edges, f, keep, deg, min, n)) <= truths(keep),
        truths(passed(edges, f, keep, deg, min, n)) == truths(keep) ==> passed(edges, f, keep, deg, min, n) == keep,
    decreases n,
{
    if n > 0 {
        pass_without_cut(edges, f, keep, deg, min, n - 1);
        let k = passed(edges, f, keep, deg, min, n - 1);
        let chain = stub_at(edges, k, deg, (n - 1) as usize);
        less_is_less(k, chain);
        less_or_same(k, chain);
    }
}

proof fn less_or_same(keep: Seq<bool>, chain: Seq<usize>)
    requires
        keep.len() <= usize::MAX,
    ensures
        truths(less_chain(keep, chain)) == truths(keep) ==> less_chain(keep, chain) == keep,
{
    let less = less_chain(keep, chain);
    if less != keep {
        assert(exists|e: int| 0 <= e < keep.len() && less[e] != keep[e]) by {
            if forall|e: int| 0 <= e < keep.len() ==> less[e] == keep[e] {
                assert(less =~= keep);
            }
        }
        let e = choose|e: int| 0 <= e < keep.len() && less[e] != keep[e];
        assert(chain.contains(e as usize));
        let k = choose|k: int| 0 <= k < chain.len() && chain[k] == e as usize;
        assert(chain[k] < keep.len() && keep[chain[k] as int]);
        less_is_less(keep, chain);
    }
}

proof fn passes_shrink<F: Fn(usize, usize) -> u64>(edges: Seq<(usize, usize)>, f: F, keep: Seq<bool>, deg: Seq<usize>, min: int, n: int, m: int)
    requires
        edges.len() <= usize::MAX,
        keep.len() == edges.len(),
        n <= m,
    ensures
        truths(passed(edges, f, keep, deg, min, m)) <= truths(passed(edges, f, keep, deg, min, n)),
    decreases m,
{
    if n < m && m > 0 {
        passes_shrink(edges, f, keep, deg, min, n, m - 1);
        let k = passed(edges, f, keep, deg, min, m - 1);
        less_is_less(k, stub_at(edges, k, deg, (m - 1) as usize));
    }
}

/// Trimming goes on until it is done: no short chain dangles off what is left.
pub proof fn nothing_short_dangles<F: Fn(usize, usize) -> u64>(edges: Seq<(usize, usize)>, f: F, keep: Seq<bool>, verts: int, min: int)
    requires
        edges.len() <= usize::MAX,
        keep.len() == edges.len(),
        verts <= usize::MAX,
    ensures
        ({
            let left = trimmed(edges, f, keep, verts, min);
            forall|v: usize| v < verts ==> !#[trigger] dangles(edges, f, left, degrees(edges, left, verts), v, min)
        }),
    decreases truths(keep),
{
    let deg = degrees(edges, keep, verts);
    let k = passed(edges, f, keep, deg, min, verts);
    pass_without_cut(edges, f, keep, deg, min, verts);
    if truths(k) < truths(keep) {
        nothing_short_dangles(edges, f, k, verts, min);
        assert(trimmed(edges, f, keep, verts, min) == trimmed(edges, f, k, verts, min));
    } else {
        assert(trimmed(edges, f, keep, verts, min) == keep);
        assert forall|v: usize| v < verts implies !#[trigger] dangles(edges, f, keep, deg, v, min) by {
            pass_without_cut(edges, f, keep, deg, min, v as int);
            passes_shrink(edges, f, keep, deg, min, v as int, verts);
            passes_shrink(edges, f, keep, deg, min, v + 1, verts);
            assert(passed(edges, f, keep, deg, min, v as int) == keep);
            if dangles(edges, f, keep, deg, v, min) {
                let chain = stub_at(edges, keep, deg, v);
                stub_members(edges, keep, deg, v, Seq::empty(), edges.len());
                less_is_less(keep, chain);
                assert(chain[0] < keep.len() && keep[chain[0] as int]);
            }
        }
    }
}

// ---- closed pieces ----

/// The piece of the edges that `x` lies on is closed: no vertex that they link to `x` is a loose end.
pub open spec fn closed_at(edges: Seq<(usize, usize)>, x: usize) -> bool {
    forall|v: usize| #[trigger] linked(edges, x, v) ==> degree(edges, v) != 1
}

/// Every edge of the piece that `x` lies on is kept.
pub open spec fn keeps_piece(edges: Seq<(usize, usize)>, keep: Seq<bool>, x: usize) -> bool {
    forall|k: int| 0 <= k < edges.len() && linked(edges, x, (#[trigger] edges[k]).0) ==> keep[k]
}

proof fn both_ends_linked(edges: Seq<(usize, usize)>, x: usize, k: int)
    requires
        0 <= k < edges.len(),
    ensures
        linked(edges, x, edges[k].0) <==> linked(edges, x, edges[k].1),
{
    let (a, b) = edges[k];
    assert(edges[k] == (a, b));
    assert(adjacent(edges, a, b) && adjacent(edges, b, a));
    adjacent_linked(edges, a, b);
    adjacent_linked(edges, b, a);
    if linked(edges, x, a) {
        linked_transitive(edges, x, a, b);
    }
    if linked(edges, x, b) {
        linked_transitive(edges, x, b, a);
    }
}

proof fn kept_degree_of_piece(edges: Seq<(usize, usize)>, keep: Seq<bool>, x: usize, v: usize, n: int)
    requires
        0 <= n <= edges.len(),
        keeps_piece(edges, keep, x),
        linked(edges, x, v),
    ensures
        kept_at(edges, keep, v, n) == star(edges, v, n).len(),
        kept_at(edges, keep, v, n) <= 2 * n,
    decreases n,
{
    if n > 0 {
        kept_degree_of_piece(edges, keep, x, v, n - 1);
        both_ends_linked(edges, x, n - 1);
        let e = edges[n - 1];
        if e.0 == v || e.1 == v {
            assert(keep[n - 1]);
        }
    }
}

proof fn stub_stays_off(edges: Seq<(usize, usize)>, keep: Seq<bool>, deg: Seq<usize>, cur: usize, chain: Seq<usize>, fuel: nat, x: usize)
    requires
        edges.len() <= usize::MAX,
        !linked(edges, x, cur),
        forall|k: int| 0 <= k < chain.len() ==> (#[trigger] chain[k]) < edges.len() && !linked(edges, x, edges[chain[k] as int].0),
    ensures
        ({
            let r = stub_on(edges, keep, deg, cur, chain, fuel);
            forall|k: int| 0 <= k < r.len() ==> (#[trigger] r[k]) < edges.len() && !linked(edges, x, edges[r[k] as int].0)
        }),
    decreases fuel,
{
    let list = edges_of(edges, cur);
    match next_kept(list, keep, chain, 0) {
        None => {},
        Some(e) => {
            next_kept_is_fresh(list, keep, chain, 0);
            star_members(edges, cur, edges.len() as int);
            both_ends_linked(edges, x, e as int);
            let more = chain.push(e);
            let other = far(edges, e, cur);
            if fuel == 0 || deg[other as int] != 2 {
                assert(stub_on(edges, keep, deg, cur, chain, fuel) == more);
            } else {
                stub_stays_off(edges, keep, deg, other, more, (fuel - 1) as nat, x);
                assert(stub_on(edges, keep, deg, cur, chain, fuel) == stub_on(edges, keep, deg, other, more, (fuel - 1) as nat));
            }
        },
    }
}

proof fn pass_keeps_piece<F: Fn(usize, usize) -> u64>(edges: Seq<(usize, usize)>, f: F, keep: Seq<bool>, verts: int, min: int, n: int, x: usize)
    requires
        2 * edges.len() <= usize::MAX,
        keep.len() == edges.len(),
        0 <= n <= verts <= usize::MAX,
        closed_at(edges, x),
        keeps_piece(edges, keep, x),
    ensures
        passed(edges, f, keep, degrees(edges, keep, verts), min, n).len() == edges.len(),
        keeps_piece(edges, passed(edges, f, keep, degrees(edges, keep, verts), min, n), x),
    decreases n,
{
    if n > 0 {
        pass_keeps_piece(edges, f, keep, verts, min, n - 1, x);
        let deg = degrees(edges, keep, verts);
        let before = passed(edges, f, keep, deg, min, n - 1);
        let v = (n - 1) as usize;
        if dangles(edges, f, before, deg, v, min) {
            if linked(edges, x, v) {
                kept_degree_of_piece(edges, keep, x, v, edges.len() as int);
                assert(deg[v as int] == degree(edges, v));
            }
            let chain = stub_at(edges, before, deg, v);
            stub_stays_off(edges, before, deg, v, Seq::empty(), edges.len(), x);
            let after = less_chain(before, chain);
            assert forall|k: int| 0 <= k < edges.len() && linked(edges, x, (#[trigger] edges[k]).0) implies after[k] by {
                assert(before[k]);
                if chain.contains(k as usize) {
                    let j = choose|j: int| 0 <= j < chain.len() && chain[j] == k as usize;
                    assert(!linked(edges, x, edges[chain[j] as int].0));
                }
            }
        }
    }
}

proof fn trimming_keeps_piece<F: Fn(usize, usize) -> u64>(edges: Seq<(usize, usize)>, f: F, keep: Seq<bool>, verts: int, min: int, x: usize)
    requires
        2 * edges.len() <= usize::MAX,
        keep.len() == edges.len(),
        0 <= verts <= usize::MAX,
        closed_at(edges, x),
        keeps_piece(edges, keep, x),
    ensures
        keeps_piece(edges, trimmed(edges, f, keep, verts, min), x),
    decreases truths(keep),
{
    let k = passed(edges, f, keep, degrees(edges, keep, verts), min, verts);
    if truths(k) < truths(keep) {
        pass_keeps_piece(edges, f, keep, verts, min, verts, x);
        trimming_keeps_piece(edges, f, k, verts, min, x);
        assert(trimmed(edges, f, keep, verts, min) == trimmed(edges, f, k, verts, min));
    } else {
        assert(trimmed(edges, f, keep, verts, min) == keep);
    }
}

proof fn closed_has_no_loose_ends(edges: Seq<(usize, usize)>, comp: Seq<usize>, count: int, e: int, n: int)
    requires
        edges.len() <= usize::MAX,
        n <= usize::MAX,
        0 <= e < edges.len(),
        is_components(comp, count, edges),
        closed_at(edges, edges[e].0),
    ensures
        loose_ends(edges, comp, comp[e] as int, n).len() == 0,
    decreases n,
{
    if n > 0 {
        closed_has_no_loose_ends(edges, comp, count, e, n - 1);
        let v = (n - 1) as usize;
        if degree(edges, v) == 1 && vertex_in(edges, comp, v, comp[e] as int) {
            star_members(edges, v, edges.len() as int);
            let k = edges_of(edges, v)[0];
            assert(comp[e] == comp[k as int]);
            both_ends_linked(edges, edges[e].0, k as int);
            assert(linked(edges, edges[e].0, v));
        }
    }
}

/// A closed piece is kept whole, however small it is: a tiny hole keeps its rim.
pub proof fn closed_pieces_are_kept<F: Fn(usize, usize) -> u64>(keep: Seq<bool>, edges: Seq<(usize, usize)>, f: F, verts: int, open_min: int, e: int)
    requires
        2 * edges.len() <= usize::MAX,
        0 <= verts <= usize::MAX,
        is_pruned(keep, edges, f, verts, open_min),
        0 <= e < edges.len(),
        closed_at(edges, edges[e].0),
    ensures
        keep[e],
        keeps_piece(edges, keep, edges[e].0),
{
    let x = edges[e].0;
    linked_reflexive(edges, x);
    if edges.len() >= 2 {
        let (comp, count) = choose|comp: Seq<usize>, count: int| #[trigger]
            is_components(comp, count, edges) && keep == trimmed(edges, f, without_scraps(edges, f, comp, verts, open_min), verts, open_min);
        let first = without_scraps(edges, f, comp, verts, open_min);
        closed_has_no_loose_ends(edges, comp, count, e, verts);
        assert forall|k: int| 0 <= k < edges.len() && linked(edges, x, (#[trigger] edges[k]).0) implies first[k] by {
            assert(comp[e] == comp[k]);
        }
        trimming_keeps_piece(edges, f, first, verts, open_min, x);
    }
}

// ---- what goes and what stays ----

/// The length of a chain is that of its parts, and the length of one edge is the distance between its
/// ends.
pub proof fn chain_lengths_add_up<F: Fn(usize, usize) -> u64>(edges: Seq<(usize, usize)>, f: F, a: Seq<usize>, b: Seq<usize>)
    ensures
        chain_length(edges, f, a + b) == chain_length(edges, f, a) + chain_length(edges, f, b),
        a.len() == 1 ==> chain_length(edges, f, a) == span(f, edges[a[0] as int].0, edges[a[0] as int].1),
    decreases b.len(),
{
    if a.len() == 1 {
        assert(a.drop_last() =~= Seq::<usize>::empty());
        assert(chain_length(edges, f, a.drop_last()) == 0);
    }
    if b.len() > 0 {
        chain_lengths_add_up(edges, f, a, b.drop_last());
        assert((a + b).drop_last() =~= a + b.drop_last());
        assert((a + b).last() == b.last());
    } else {
        assert(a + b =~= a);
    }
}

/// The length of a piece is that of all its edges.
pub proof fn pieces_are_as_long_as_their_edges<F: Fn(usize, usize) -> u64>(edges: Seq<(usize, usize)>, f: F, comp: Seq<usize>, c: int, n: int)
    requires
        0 <= n <= edges.len() <= usize::MAX,
    ensures
        piece_length(edges, f, comp, c, n) == chain_length(
            edges,
            f,
            Seq::new(n as nat, |e: int| e as usize).filter(|e: usize| comp[e as int] == c),
        ),
    decreases n,
{
    reveal(Seq::filter);
    let all = Seq::new(n as nat, |e: int| e as usize);
    if n > 0 {
        pieces_are_as_long_as_their_edges(edges, f, comp, c, n - 1);
        let test = |e: usize| comp[e as int] == c;
        let rest = Seq::new((n - 1) as nat, |e: int| e as usize);
        assert(all.drop_last() =~= rest);
        assert(all.last() == n - 1);
        if comp[n - 1] == c {
            let kept = rest.filter(test);
            assert(all.filter(test) =~= kept.push((n - 1) as usize));
            assert(kept.push((n - 1) as usize).drop_last() =~= kept);
        }
    }
}

/// A round of pruning drops just the edges on spurs that are shorter than allowed; without such a spur
/// the edges are left as they are.
#[verifier::spinoff_prover]
#[verifier::rlimit(50)]
pub proof fn only_short_spurs_go<F: Fn(usize, usize) -> u64>(edges: Seq<(usize, usize)>, f: F, verts: int, max: int, n: int)
    requires
        0 <= n <= edges.len(),
    ensures
        off_spurs(edges, f, verts, max, n) == Seq::new(n as nat, |e: int| e).filter(
            |e: int|
                forall|k: int|
                    0 <= k < spur_list(edges, verts).len() && (#[trigger] spur_list(edges, verts)[k]).contains(e as usize) ==> max <= chain_length(
                        edges,
                        f,
                        spur_list(edges, verts)[k],
                    ),
        ).map_values(|e: int| edges[e]),
        (forall|k: int| 0 <= k < spur_list(edges, verts).len() ==> max <= chain_length(edges, f, #[trigger] spur_list(edges, verts)[k]))
            ==> off_spurs(edges, f, verts, max, n) == edges.take(n) && unspurred(edges, f, verts, max) == edges,
    decreases n,
{
    reveal(Seq::filter);
    let test = |e: int|
        forall|k: int|
            0 <= k < spur_list(edges, verts).len() && (#[trigger] spur_list(edges, verts)[k]).contains(e as usize) ==> max <= chain_length(
                edges,
                f,
                spur_list(edges, verts)[k],
            );
    let made = |e: int| edges[e];
    let all = Seq::new(n as nat, |e: int| e);
    if n > 0 {
        only_short_spurs_go(edges, f, verts, max, n - 1);
        let rest = Seq::new((n - 1) as nat, |e: int| e);
        assert(all.drop_last() =~= rest);
        assert(all.last() == n - 1);
        assert(test(n - 1) == !on_short_spur(edges, f, verts, max, (n - 1) as usize));
        let kept = rest.filter(test);
        assert(kept.push(n - 1).map_values(made) =~= kept.map_values(made).push(made(n - 1)));
        assert(off_spurs(edges, f, verts, max, n) =~= all.filter(test).map_values(made));
        assert(edges.take(n) =~= edges.take(n - 1).push(edges[n - 1]));
    } else {
        assert(off_spurs(edges, f, verts, max, n) =~= all.filter(test).map_values(made));
        assert(edges.take(0) =~= Seq::<(usize, usize)>::empty());
    }
    if forall|k: int| 0 <= k < spur_list(edges, verts).len() ==> max <= chain_length(edges, f, #[trigger] spur_list(edges, verts)[k]) {
        all_off_spurs(edges, f, verts, max, edges.len() as int);
    }
}

proof fn all_off_spurs<F: Fn(usize, usize) -> u64>(edges: Seq<(usize, usize)>, f: F, verts: int, max: int, n: int)
    requires
        0 <= n <= edges.len(),
        forall|k: int| 0 <= k < spur_list(edges, verts).len() ==> max <= chain_length(edges, f, #[trigger] spur_list(edges, verts)[k]),
    ensures
        off_spurs(edges, f, verts, max, n).len() == n,
    decreases n,
{
    if n > 0 {
        all_off_spurs(edges, f, verts, max, n - 1);
    }
}

/// An open path on its own is kept where it is long enough and its ends lie close enough, and is closed
/// by an edge between them; otherwise all of its edges go. All other edges stay.
#[verifier::spinoff_prover]
#[verifier::rlimit(50)]
pub proof fn open_paths_are_closed_or_dropped<F: Fn(usize, usize) -> u64>(
    edges: Seq<(usize, usize)>,
    f: F,
    comp: Seq<usize>,
    count: int,
    verts: int,
    stray_max: int,
    gap_max: int,
)
    requires
        0 <= count,
    ensures
        ({
            let paths = loose_list(edges, comp, verts, count);
            let fit = |k: int|
                piece_length(edges, f, comp, paths[k].comp as int, edges.len() as int) >= stray_max && span(f, paths[k].first, paths[k].last)
                    <= gap_max;
            settled(edges, f, comp, count, verts, stray_max, gap_max) == Seq::new(edges.len(), |e: int| e).filter(
                |e: int| forall|k: int| 0 <= k < paths.len() && (#[trigger] paths[k]).comp == comp[e] ==> fit(k),
            ).map_values(|e: int| edges[e]) + Seq::new(paths.len(), |k: int| k).filter(fit).map_values(
                |k: int| (paths[k].first, paths[k].last),
            )
        }),
{
    let paths = loose_list(edges, comp, verts, count);
    let drop = Seq::new(paths.len(), |k: int| is_stray(edges, f, comp, paths[k], stray_max, gap_max));
    let fit = |k: int|
        piece_length(edges, f, comp, paths[k].comp as int, edges.len() as int) >= stray_max && span(f, paths[k].first, paths[k].last) <= gap_max;
    edges_stay_unless_dropped(edges, comp, paths, drop, edges.len() as int);
    kept_paths_are_closed(paths, drop, paths.len() as int);
    let places = Seq::new(edges.len(), |e: int| e);
    let stays = |e: int| forall|k: int| 0 <= k < paths.len() && drop[k] ==> (#[trigger] paths[k]).comp != comp[e];
    let wanted = |e: int| forall|k: int| 0 <= k < paths.len() && (#[trigger] paths[k]).comp == comp[e] ==> fit(k);
    assert forall|e: int| 0 <= e < edges.len() implies #[trigger] stays(e) == wanted(e) by {
        assert forall|k: int| 0 <= k < paths.len() implies #[trigger] drop[k] == !fit(k) by {}
        if stays(e) {
            assert forall|k: int| 0 <= k < paths.len() && (#[trigger] paths[k]).comp == comp[e] implies fit(k) by {
                assert(drop[k] == !fit(k));
            }
        }
        if wanted(e) {
            assert forall|k: int| 0 <= k < paths.len() && drop[k] implies (#[trigger] paths[k]).comp != comp[e] by {
                assert(drop[k] == !fit(k));
            }
        }
    }
    same_filter(places, stays, wanted);
    let ks = Seq::new(paths.len(), |k: int| k);
    same_filter(ks, |k: int| !drop[k], fit);
    assert(Seq::new(edges.len() as nat, |i: int| i) =~= places);
    assert(Seq::new((paths.len() as int) as nat, |i: int| i) =~= ks);
}

/// Tests that agree on a list pick the same from it.
proof fn same_filter(s: Seq<int>, p: spec_fn(int) -> bool, q: spec_fn(int) -> bool)
    requires
        forall|i: int| 0 <= i < s.len() ==> #[trigger] p(s[i]) == q(s[i]),
    ensures
        s.filter(p) == s.filter(q),
    decreases s.len(),
{
    reveal(Seq::filter);
    if s.len() > 0 {
        let r = s.drop_last();
        assert forall|i: int| 0 <= i < r.len() implies #[trigger] p(r[i]) == q(r[i]) by {
            assert(p(s[i]) == q(s[i]));
        }
        same_filter(r, p, q);
        assert(p(s[s.len() - 1]) == q(s[s.len() - 1]));
    }
}

/// What a pass lets go at a vertex is a chain from it that is shorter than allowed, where one edge was
/// left; it lets go nothing else and takes nothing back.
#[verifier::spinoff_prover]
#[verifier::rlimit(50)]
pub proof fn passes_let_go_short_chains<F: Fn(usize, usize) -> u64>(
    edges: Seq<(usize, usize)>,
    f: F,
    keep: Seq<bool>,
    deg: Seq<usize>,
    min: int,
    n: int,
    e: int,
)
    requires
        0 < n <= usize::MAX,
        keep.len() == edges.len(),
        0 <= e < edges.len(),
    ensures
        ({
            let (k, l) = (passed(edges, f, keep, deg, min, n - 1), passed(edges, f, keep, deg, min, n));
            let chain = stub_on(edges, k, deg, (n - 1) as usize, Seq::empty(), edges.len());
            &&& l.len() == edges.len()
            &&& l[e] ==> k[e]
            &&& k[e] && !l[e] <==> k[e] && chain.contains(e as usize) && deg[n - 1] == 1 && chain_length(edges, f, chain) < min
        }),
{
    pass_len(edges, f, keep, deg, min, n - 1);
    pass_len(edges, f, keep, deg, min, n);
    let (k, l) = (passed(edges, f, keep, deg, min, n - 1), passed(edges, f, keep, deg, min, n));
    let v = (n - 1) as usize;
    let chain = stub_at(edges, k, deg, v);
    assert(v == n - 1);
    if dangles(edges, f, k, deg, v, min) {
        assert(l == less_chain(k, chain));
        assert(l[e] == (k[e] && !chain.contains(e as usize)));
    } else {
        assert(l == k);
    }
}

proof fn pass_len<F: Fn(usize, usize) -> u64>(edges: Seq<(usize, usize)>, f: F, keep: Seq<bool>, deg: Seq<usize>, min: int, n: int)
    ensures
        passed(edges, f, keep, deg, min, n).len() == keep.len(),
    decreases n,
{
    if n > 0 {
        pass_len(edges, f, keep, deg, min, n - 1);
    }
}

/// Before trimming, the edges that are kept are those of the pieces that are closed or long enough.
pub proof fn scraps_are_short_and_open<F: Fn(usize, usize) -> u64>(
    edges: Seq<(usize, usize)>,
    f: F,
    comp: Seq<usize>,
    verts: int,
    open_min: int,
    e: int,
)
    requires
        0 <= e < edges.len(),
    ensures
        without_scraps(edges, f, comp, verts, open_min)[e] <==> loose_ends(edges, comp, comp[e] as int, verts).len() == 0 || open_min
            <= piece_length(edges, f, comp, comp[e] as int, edges.len() as int),
{
}

/// Where no chain that is shorter than allowed dangles, trimming leaves the marks as they are.
pub proof fn trimming_stops<F: Fn(usize, usize) -> u64>(edges: Seq<(usize, usize)>, f: F, keep: Seq<bool>, verts: int, min: int)
    requires
        0 <= verts <= usize::MAX,
        forall|v: usize|
            v < verts && #[trigger] degrees(edges, keep, verts)[v as int] == 1 ==> min <= chain_length(
                edges,
                f,
                stub_on(edges, keep, degrees(edges, keep, verts), v, Seq::empty(), edges.len()),
            ),
    ensures
        trimmed(edges, f, keep, verts, min) == keep,
{
    idle_pass(edges, f, keep, degrees(edges, keep, verts), min, verts);
}

proof fn idle_pass<F: Fn(usize, usize) -> u64>(edges: Seq<(usize, usize)>, f: F, keep: Seq<bool>, deg: Seq<usize>, min: int, n: int)
    requires
        0 <= n <= usize::MAX,
        forall|v: usize|
            v < n && #[trigger] deg[v as int] == 1 ==> min <= chain_length(edges, f, stub_on(edges, keep, deg, v, Seq::empty(), edges.len())),
    ensures
        passed(edges, f, keep, deg, min, n) == keep,
    decreases n,
{
    if n > 0 {
        idle_pass(edges, f, keep, deg, min, n - 1);
        let v = (n - 1) as usize;
        assert(deg[v as int] == 1 ==> min <= chain_length(edges, f, stub_on(edges, keep, deg, v, Seq::empty(), edges.len())));
    }
}

} // verus!
