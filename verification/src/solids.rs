//! Closed triangle patterns for boolean tools: prisms, swept tubes, thread coils and boxes.

use vstd::prelude::*;
use vstd::arithmetic::div_mod::lemma_fundamental_div_mod_converse;
use vstd::arithmetic::div_mod::lemma_fundamental_div_mod;

use crate::mesh::{consistent, met, proper, runs, side_of, watertight, Tri};
use crate::patterns::{
    after, cell, cell_bound, cell_of, cell_split, cells_differ, cone, cone_tris, fan_side, next, row_bound, wall,
    wall_borders_its_ends, wall_consistent, wall_end_rings, wall_has_rims, wall_rim, wall_tris, walked,
};

verus! {

/// Every side of `a` has its partner in `a` or in `b`.
spec fn partnered(a: Seq<Tri>, b: Seq<Tri>) -> bool {
    forall|t: int, p: usize, q: usize|
        0 <= t < a.len() && #[trigger] runs(a[t], p, q) ==> walked(a, q, p) || walked(b, q, p)
}

/// Two parts that share no directed side and partner each other's open sides make a watertight
/// whole.
proof fn parts_close(a: Seq<Tri>, b: Seq<Tri>)
    requires
        consistent(a),
        consistent(b),
        forall|t: int| 0 <= t < a.len() ==> proper(#[trigger] a[t]),
        forall|t: int| 0 <= t < b.len() ==> proper(#[trigger] b[t]),
        forall|p: usize, q: usize| #[trigger] walked(a, p, q) ==> !walked(b, p, q),
        partnered(a, b),
        partnered(b, a),
    ensures
        watertight(a + b),
{
    let w = a + b;
    let n = a.len() as int;
    assert forall|s: int, t: int, p: usize, q: usize|
        0 <= s < w.len() && 0 <= t < w.len() && s != t && #[trigger] runs(w[s], p, q) implies !#[trigger] runs(w[t], p, q) by {
        if runs(w[t], p, q) {
            if s < n && t < n {
                assert(runs(a[s], p, q) && runs(a[t], p, q));
            } else if s >= n && t >= n {
                assert(runs(b[s - n], p, q) && runs(b[t - n], p, q));
            } else if s < n {
                assert(runs(a[s], p, q) && runs(b[t - n], p, q));
                assert(walked(a, p, q) && walked(b, p, q));
            } else {
                assert(runs(a[t], p, q) && runs(b[s - n], p, q));
                assert(walked(a, p, q) && walked(b, p, q));
            }
        }
    }
    assert forall|t: int| 0 <= t < w.len() implies proper(#[trigger] w[t]) by {
        if t < n {
            assert(proper(a[t]));
        } else {
            assert(proper(b[t - n]));
        }
    }
    assert forall|t: int, k: int| 0 <= t < w.len() && 0 <= k < 3 implies met(
        w,
        (#[trigger] side_of(w[t], k)).0,
        side_of(w[t], k).1,
    ) by {
        let (p, q) = side_of(w[t], k);
        assert(runs(w[t], p, q));
        if t < n {
            assert(runs(a[t], p, q));
        } else {
            assert(runs(b[t - n], p, q));
        }
        if walked(a, q, p) {
            let u = choose|u: int| 0 <= u < a.len() && #[trigger] runs(a[u], q, p);
            assert(runs(w[u], q, p));
        } else {
            let u = choose|u: int| 0 <= u < b.len() && #[trigger] runs(b[u], q, p);
            assert(runs(w[n + u], q, p));
        }
    }
}

// ---- prisms ----

/// The two caps of a prism, a bottom and a top triangle in turn: the bottom is fanned backwards, so
/// that both face outwards.
pub open spec fn prism_caps(n: int) -> Seq<Tri> {
    Seq::new(
        (2 * (n - 2)) as nat,
        |t: int|
            if t % 2 == 0 {
                Tri { a: 0, b: (t / 2 + 2) as usize, c: (t / 2 + 1) as usize }
            } else {
                Tri { a: n as usize, b: (n + t / 2 + 1) as usize, c: (n + t / 2 + 2) as usize }
            },
    )
}

/// A prism over a ring of `n`: the bottom ring is `0..n`, the top ring `n..2 * n`.
pub open spec fn prism(n: int) -> Seq<Tri> {
    prism_caps(n) + wall(1, n)
}

/// The triangles of a prism over a ring of `n` vertices.
pub fn prism_tris(n: usize) -> (out: Vec<Tri>)
    requires
        n >= 3,
        4 * n <= usize::MAX,
    ensures
        out@ == prism(n as int),
{
    let mut out: Vec<Tri> = Vec::new();
    let mut i: usize = 1;
    while i < n - 1
        invariant
            n >= 3,
            4 * n <= usize::MAX,
            1 <= i <= n - 1,
            out@ =~= prism_caps(n as int).take(2 * (i - 1)),
        decreases n - i,
    {
        proof {
            assert((2 * (i - 1)) / 2 == i - 1 && (2 * (i - 1)) % 2 == 0);
            assert((2 * (i - 1) + 1) / 2 == i - 1 && (2 * (i - 1) + 1) % 2 == 1);
        }
        out.push(Tri { a: 0, b: i + 1, c: i });
        out.push(Tri { a: n, b: n + i, c: n + i + 1 });
        i = i + 1;
    }
    assert(out@ =~= prism_caps(n as int));
    let mut sides: Vec<Tri> = wall_tris(1, n);
    out.append(&mut sides);
    out
}

proof fn cap_runs(n: int, t: int, p: usize, q: usize)
    requires
        3 <= n,
        4 * n <= usize::MAX,
        0 <= t < 2 * (n - 2),
    ensures
        runs(prism_caps(n)[t], p, q) <==> {
            let s = t / 2;
            if t % 2 == 0 {
                ||| p == 0 && q == s + 2
                ||| p == s + 2 && q == s + 1
                ||| p == s + 1 && q == 0
            } else {
                ||| p == n && q == n + s + 1
                ||| p == n + s + 1 && q == n + s + 2
                ||| p == n + s + 2 && q == n
            }
        },
{
    let f = prism_caps(n)[t];
    assert(side_of(f, 0) == (f.a, f.b) && side_of(f, 1) == (f.b, f.c) && side_of(f, 2) == (f.c, f.a));
}

proof fn caps_walked(n: int, p: usize, q: usize)
    requires
        3 <= n,
        4 * n <= usize::MAX,
    ensures
        walked(prism_caps(n), p, q) <==> fan_side(n, q as int, p as int) || fan_side(n, p - n, q - n),
{
    let f = prism_caps(n);
    if walked(f, p, q) {
        let t = choose|t: int| 0 <= t < f.len() && #[trigger] runs(f[t], p, q);
        cap_runs(n, t, p, q);
    }
    if fan_side(n, q as int, p as int) {
        let s: int = if q == 0 { p - 1 } else if p == 0 { q - 2 } else { q - 1 };
        assert((2 * s) / 2 == s && (2 * s) % 2 == 0);
        cap_runs(n, 2 * s, p, q);
        assert(runs(f[2 * s], p, q));
    }
    if fan_side(n, p - n, q - n) {
        let s: int = if p == n { q - n - 1 } else if q == n { p - n - 2 } else { p - n - 1 };
        assert((2 * s + 1) / 2 == s && (2 * s + 1) % 2 == 1);
        cap_runs(n, 2 * s + 1, p, q);
        assert(runs(f[2 * s + 1], p, q));
    }
}

/// A prism over a ring of three or more is watertight.
pub proof fn prism_watertight(n: int)
    requires
        3 <= n,
        4 * n <= usize::MAX,
    ensures
        watertight(prism(n)),
{
    let (a, b) = (prism_caps(n), wall(1, n));
    assert((1 + 1) * n == 2 * n) by (nonlinear_arith);
    assert(1 * n == n) by (nonlinear_arith);
    wall_consistent(1, n);
    assert forall|s: int, t: int, p: usize, q: usize|
        0 <= s < a.len() && 0 <= t < a.len() && s != t && #[trigger] runs(a[s], p, q) implies !#[trigger] runs(a[t], p, q) by {
        cap_runs(n, s, p, q);
        cap_runs(n, t, p, q);
    }
    assert forall|p: usize, q: usize| #[trigger] walked(a, p, q) implies !walked(b, p, q) by {
        caps_walked(n, p, q);
        if walked(b, p, q) {
            wall_end_rings(1, n, p, q);
        }
    }
    assert forall|t: int, p: usize, q: usize| 0 <= t < a.len() && #[trigger] runs(a[t], p, q) implies walked(a, q, p) || walked(b, q, p) by {
        assert(walked(a, p, q));
        caps_walked(n, p, q);
        caps_walked(n, q, p);
        if p < n {
            if p == after(q as int, n) {
                wall_has_rims(1, n, q as int);
            }
        } else {
            if q - n == after(p - n, n) {
                wall_has_rims(1, n, p - n);
            }
        }
    }
    assert forall|t: int, p: usize, q: usize| 0 <= t < b.len() && #[trigger] runs(b[t], p, q) implies walked(b, q, p) || walked(a, q, p) by {
        wall_borders_its_ends(1, n, t, p, q);
        if wall_rim(1, n, p as int, q as int) {
            caps_walked(n, q, p);
        }
    }
    parts_close(a, b);
}

// ---- coils ----

/// The two end caps of a coil of `n` steps, wound against its walls.
pub open spec fn coil_caps(n: int) -> Seq<Tri> {
    seq![
        Tri { a: 2, b: 1, c: 0 },
        Tri { a: (3 * n) as usize, b: (3 * n + 1) as usize, c: (3 * n + 2) as usize },
    ]
}

/// A three-sided coil of `n` steps: the walls between its `n + 1` cross-sections, then the caps.
pub open spec fn coil(n: int) -> Seq<Tri> {
    wall(n, 3) + coil_caps(n)
}

/// The triangles of a thread coil of `n` steps.
pub fn coil_tris(n: usize) -> (out: Vec<Tri>)
    requires
        6 * (n + 1) <= usize::MAX,
    ensures
        out@ == coil(n as int),
{
    let mut out: Vec<Tri> = wall_tris(n, 3);
    out.push(Tri { a: 2, b: 1, c: 0 });
    out.push(Tri { a: 3 * n, b: 3 * n + 1, c: 3 * n + 2 });
    assert(out@ =~= coil(n as int));
    out
}

/// The directed sides of the caps of a coil.
spec fn coil_cap_side(n: int, t: int, p: int, q: int) -> bool {
    let first = if t == 0 { 0 } else { 3 * n };
    let (i, j) = (p - first, q - first);
    &&& 0 <= i < 3
    &&& 0 <= j < 3
    &&& if t == 0 { i == after(j, 3) } else { j == after(i, 3) }
}

proof fn coil_cap_runs(n: int, t: int, p: usize, q: usize)
    requires
        n >= 1,
        6 * (n + 1) <= usize::MAX,
        0 <= t < 2,
    ensures
        runs(coil_caps(n)[t], p, q) <==> coil_cap_side(n, t, p as int, q as int),
{
    let c = coil_caps(n)[t];
    assert(side_of(c, 0) == (c.a, c.b) && side_of(c, 1) == (c.b, c.c) && side_of(c, 2) == (c.c, c.a));
    if runs(c, p, q) {
        let k = choose|k: int| 0 <= k < 3 && #[trigger] side_of(c, k) == (p, q);
    }
}

/// A coil of one step or more is watertight: its caps are wound against the walls, so that every
/// directed side occurs exactly once and is met by its reverse.
pub proof fn coil_watertight(n: int)
    requires
        n >= 1,
        6 * (n + 1) <= usize::MAX,
    ensures
        watertight(coil(n)),
{
    let (a, b) = (wall(n, 3), coil_caps(n));
    wall_consistent(n, 3);
    assert forall|p: usize, q: usize| #[trigger] walked(a, p, q) implies !walked(b, p, q) by {
        if walked(b, p, q) {
            let u = choose|u: int| 0 <= u < b.len() && #[trigger] runs(b[u], p, q);
            coil_cap_runs(n, u, p, q);
            wall_end_rings(n, 3, p, q);
        }
    }
    assert forall|t: int, p: usize, q: usize| 0 <= t < b.len() && #[trigger] runs(b[t], p, q) implies walked(b, q, p) || walked(a, q, p) by {
        coil_cap_runs(n, t, p, q);
        if t == 0 {
            wall_has_rims(n, 3, q as int);
        } else {
            wall_has_rims(n, 3, p - 3 * n);
        }
    }
    assert forall|t: int, p: usize, q: usize| 0 <= t < a.len() && #[trigger] runs(a[t], p, q) implies walked(a, q, p) || walked(b, q, p) by {
        wall_borders_its_ends(n, 3, t, p, q);
        coil_cap_runs(n, 0, q, p);
        coil_cap_runs(n, 1, q, p);
        if !walked(a, q, p) {
            assert(runs(b[0], q, p) || runs(b[1], q, p));
        }
    }
    assert(consistent(b)) by {
        assert forall|s: int, t: int, p: usize, q: usize|
            0 <= s < b.len() && 0 <= t < b.len() && s != t && #[trigger] runs(b[s], p, q) implies !#[trigger] runs(b[t], p, q) by {
            coil_cap_runs(n, s, p, q);
            coil_cap_runs(n, t, p, q);
        }
    }
    parts_close(a, b);
}

// ---- tubes ----

/// One triangle of a tube: the quads run along each cross-section in turn, two triangles each.
pub open spec fn tube_tri(rings: int, n: int, t: int) -> Tri {
    let (k, i) = ((t / 2) / n, (t / 2) % n);
    let (l, j) = (after(k, rings), after(i, n));
    let (a, b, c, d) = (cell(k, i, n), cell(l, i, n), cell(l, j, n), cell(k, j, n));
    if t % 2 == 0 {
        Tri { a: a as usize, b: b as usize, c: c as usize }
    } else {
        Tri { a: a as usize, b: c as usize, c: d as usize }
    }
}

/// A closed tube: `rings` cross-sections of `n` vertices, each joined to the next and the last to
/// the first.
pub open spec fn tube(rings: int, n: int) -> Seq<Tri> {
    Seq::new((2 * (rings * n)) as nat, |t: int| tube_tri(rings, n, t))
}

proof fn tube_cells(rings: int, n: int, q: int)
    requires
        0 <= q < rings * n,
        n > 0,
    ensures
        0 <= q / n < rings,
        0 <= q % n < n,
        0 <= cell(q / n, q % n, n) < rings * n,
        0 <= cell(after(q / n, rings), q % n, n) < rings * n,
        0 <= cell(after(q / n, rings), after(q % n, n), n) < rings * n,
        0 <= cell(q / n, after(q % n, n), n) < rings * n,
        0 <= (q / n) * n <= rings * n,
        0 <= after(q / n, rings) * n <= rings * n,
{
    row_bound(q, rings, n);
    cell_bound(q / n, q % n, rings, n);
    cell_bound(after(q / n, rings), q % n, rings, n);
    cell_bound(after(q / n, rings), after(q % n, n), rings, n);
    cell_bound(q / n, after(q % n, n), rings, n);
    cell_bound(q / n, 0, rings, n);
    cell_bound(after(q / n, rings), 0, rings, n);
}

/// The triangles of a closed tube.
pub fn tube_tris(rings: usize, n: usize) -> (out: Vec<Tri>)
    requires
        2 * (rings * n) <= usize::MAX,
    ensures
        out@ == tube(rings as int, n as int),
{
    let mut out: Vec<Tri> = Vec::new();
    assert(0 <= rings * n) by (nonlinear_arith)
        requires
            rings >= 0,
            n >= 0,
    ;
    let total: usize = rings * n;
    let mut q: usize = 0;
    while q < total
        invariant
            2 * (rings * n) <= usize::MAX,
            total == rings * n,
            0 <= q <= total,
            out@ =~= tube(rings as int, n as int).take(2 * q as int),
        decreases total - q,
    {
        assert(n > 0) by (nonlinear_arith)
            requires
                q < rings * n,
                q >= 0,
                n >= 0,
                rings >= 0,
        ;
        proof {
            tube_cells(rings as int, n as int, q as int);
            assert((2 * q) / 2 == q && (2 * q) % 2 == 0);
            assert((2 * q + 1) / 2 == q as int && (2 * q + 1) % 2 == 1);
        }
        let (k, i) = (q / n, q % n);
        let l: usize = next(k, rings);
        let j: usize = next(i, n);
        let here: usize = k * n;
        let there: usize = l * n;
        out.push(Tri { a: here + i, b: there + i, c: there + j });
        out.push(Tri { a: here + i, b: there + j, c: here + j });
        q = q + 1;
    }
    assert(out@ =~= tube(rings as int, n as int));
    out
}

/// The directed sides of the quad at cross-section `k`, place `i`, as pairs of row and column.
spec fn tube_side(rings: int, n: int, k: int, i: int, c: int) -> ((int, int), (int, int)) {
    let (l, j) = (after(k, rings), after(i, n));
    if c == 0 {
        ((k, i), (l, i))
    } else if c == 1 {
        ((l, i), (l, j))
    } else if c == 2 {
        ((l, j), (k, i))
    } else if c == 3 {
        ((k, i), (l, j))
    } else if c == 4 {
        ((l, j), (k, j))
    } else {
        ((k, j), (k, i))
    }
}

/// The corners of a tube's triangle are among its vertices.
pub proof fn tube_corners(rings: int, n: int, t: int)
    requires
        rings >= 0,
        n > 0,
        2 * (rings * n) <= usize::MAX,
        0 <= t < tube(rings, n).len(),
    ensures
        tube(rings, n)[t].a < rings * n,
        tube(rings, n)[t].b < rings * n,
        tube(rings, n)[t].c < rings * n,
{
    assert(0 <= rings * n) by (nonlinear_arith)
        requires
            rings >= 0,
            n > 0,
    ;
    tube_cells(rings, n, t / 2);
}

proof fn tube_sides_differ(rings: int, n: int, k: int, i: int, c: int, m: int, h: int, d: int)
    requires
        rings >= 3,
        n >= 3,
        0 <= k < rings,
        0 <= m < rings,
        0 <= i < n,
        0 <= h < n,
        0 <= c < 6,
        0 <= d < 6,
        tube_side(rings, n, k, i, c) == tube_side(rings, n, m, h, d),
    ensures
        k == m,
        i == h,
        c == d,
{
}

proof fn tube_runs(rings: int, n: int, t: int, p: usize, q: usize) -> (c: int)
    requires
        2 * (rings * n) <= usize::MAX,
        n > 0,
        0 <= t < 2 * (rings * n),
        runs(tube(rings, n)[t], p, q),
    ensures
        ({
            let (k, i) = ((t / 2) / n, (t / 2) % n);
            let s = tube_side(rings, n, k, i, c);
            &&& 3 * (t % 2) <= c < 3 * (t % 2) + 3
            &&& p == cell(s.0.0, s.0.1, n)
            &&& q == cell(s.1.0, s.1.1, n)
        }),
{
    tube_cells(rings, n, t / 2);
    let w = tube(rings, n)[t];
    let m = choose|m: int| 0 <= m < 3 && #[trigger] side_of(w, m) == (p, q);
    3 * (t % 2) + m
}

proof fn tube_walks(rings: int, n: int, k: int, i: int, c: int) -> (t: int)
    requires
        2 * (rings * n) <= usize::MAX,
        0 <= k < rings,
        0 <= i < n,
        0 <= c < 6,
    ensures
        0 <= t < tube(rings, n).len(),
        ({
            let s = tube_side(rings, n, k, i, c);
            runs(tube(rings, n)[t], cell(s.0.0, s.0.1, n) as usize, cell(s.1.0, s.1.1, n) as usize)
        }),
{
    let q = cell(k, i, n);
    cell_split(k, i, n);
    cell_bound(k, i, rings, n);
    let t = 2 * q + c / 3;
    assert(t / 2 == q && t % 2 == c / 3);
    tube_cells(rings, n, q);
    let w = tube(rings, n)[t];
    let s = tube_side(rings, n, k, i, c);
    assert(side_of(w, c % 3) == (cell(s.0.0, s.0.1, n) as usize, cell(s.1.0, s.1.1, n) as usize));
    t
}

proof fn tube_clash(rings: int, n: int, s: int, t: int, p: usize, q: usize)
    requires
        rings >= 3,
        n >= 3,
        2 * (rings * n) <= usize::MAX,
        0 <= s < 2 * (rings * n),
        0 <= t < 2 * (rings * n),
        runs(tube(rings, n)[s], p, q),
        runs(tube(rings, n)[t], p, q),
    ensures
        s == t,
{
    let c = tube_runs(rings, n, s, p, q);
    let d = tube_runs(rings, n, t, p, q);
    let (k, i) = ((s / 2) / n, (s / 2) % n);
    let (m, h) = ((t / 2) / n, (t / 2) % n);
    row_bound(s / 2, rings, n);
    row_bound(t / 2, rings, n);
    let (x, y) = (tube_side(rings, n, k, i, c), tube_side(rings, n, m, h, d));
    cells_differ(x.0.0, x.0.1, y.0.0, y.0.1, n);
    cells_differ(x.1.0, x.1.1, y.1.0, y.1.1, n);
    tube_sides_differ(rings, n, k, i, c, m, h, d);
    cell_of(s / 2, n);
    cell_of(t / 2, n);
}

proof fn tube_proper(rings: int, n: int, t: int)
    requires
        rings >= 3,
        n >= 3,
        2 * (rings * n) <= usize::MAX,
        0 <= t < 2 * (rings * n),
    ensures
        proper(tube(rings, n)[t]),
{
    let (k, i) = ((t / 2) / n, (t / 2) % n);
    tube_cells(rings, n, t / 2);
    let (l, j) = (after(k, rings), after(i, n));
    if cell(k, i, n) == cell(l, i, n) {
        cells_differ(k, i, l, i, n);
    }
    if cell(l, i, n) == cell(l, j, n) {
        cells_differ(l, i, l, j, n);
    }
    if cell(k, i, n) == cell(l, j, n) {
        cells_differ(k, i, l, j, n);
    }
    if cell(l, j, n) == cell(k, j, n) {
        cells_differ(l, j, k, j, n);
    }
    if cell(k, j, n) == cell(k, i, n) {
        cells_differ(k, j, k, i, n);
    }
}

proof fn tube_met(rings: int, n: int, t: int, p: usize, q: usize)
    requires
        rings >= 3,
        n >= 3,
        2 * (rings * n) <= usize::MAX,
        0 <= t < 2 * (rings * n),
        runs(tube(rings, n)[t], p, q),
    ensures
        met(tube(rings, n), p, q),
{
    let c = tube_runs(rings, n, t, p, q);
    let (k, i) = ((t / 2) / n, (t / 2) % n);
    row_bound(t / 2, rings, n);
    let (l, j) = (after(k, rings), after(i, n));
    if c == 0 {
        let h = if i == 0 { n - 1 } else { i - 1 };
        assert(after(h, n) == i);
        let u = tube_walks(rings, n, k, h, 4);
    } else if c == 1 {
        let u = tube_walks(rings, n, l, i, 5);
    } else if c == 2 {
        let u = tube_walks(rings, n, k, i, 3);
    } else if c == 3 {
        let u = tube_walks(rings, n, k, i, 2);
    } else if c == 4 {
        let u = tube_walks(rings, n, k, j, 0);
    } else {
        let h = if k == 0 { rings - 1 } else { k - 1 };
        assert(after(h, rings) == k);
        let u = tube_walks(rings, n, h, i, 1);
    }
}

/// A tube of at least three cross-sections of at least three vertices is watertight.
pub proof fn tube_watertight(rings: int, n: int)
    requires
        rings >= 3,
        n >= 3,
        2 * (rings * n) <= usize::MAX,
    ensures
        watertight(tube(rings, n)),
{
    let w = tube(rings, n);
    assert forall|s: int, t: int, p: usize, q: usize|
        0 <= s < w.len() && 0 <= t < w.len() && s != t && #[trigger] runs(w[s], p, q) implies !#[trigger] runs(w[t], p, q) by {
        if runs(w[t], p, q) {
            tube_clash(rings, n, s, t, p, q);
        }
    }
    assert forall|t: int| 0 <= t < w.len() implies proper(#[trigger] w[t]) by {
        tube_proper(rings, n, t);
    }
    assert forall|t: int, m: int| 0 <= t < w.len() && 0 <= m < 3 implies met(
        w,
        (#[trigger] side_of(w[t], m)).0,
        side_of(w[t], m).1,
    ) by {
        let (p, q) = side_of(w[t], m);
        assert(runs(w[t], p, q));
        tube_met(rings, n, t, p, q);
    }
}

// ---- domes ----

/// A dome over a ring of `n`: `bands - 1` walls between concentric rings, then a cone to the pole.
pub open spec fn dome(n: int, bands: int) -> Seq<Tri> {
    let b = if bands >= 1 { bands } else { 1 };
    wall(b - 1, n) + cone((b - 1) * n, n, b * n)
}

/// The triangles of a dome. Ring `k` holds the vertices from `k * n`, the pole comes last.
pub fn dome_tris(n: usize, bands: usize) -> (out: Vec<Tri>)
    requires
        2 * ((bands + 1) * n) <= usize::MAX,
        2 * n <= usize::MAX,
    ensures
        out@ == dome(n as int, bands as int),
{
    let b: usize = if bands >= 1 { bands } else { 1 };
    proof {
        assert((b - 1) * n + n == b * n) by (nonlinear_arith)
            requires
                b >= 1,
        ;
        assert((bands + 1) * n == bands * n + n) by (nonlinear_arith);
        assert(0 <= (b - 1) * n) by (nonlinear_arith)
            requires
                b >= 1,
                n >= 0,
        ;
        assert(b == 1 ==> b * n == n) by (nonlinear_arith);
        assert((b - 1 + 1) * n == b * n);
    }
    let mut out: Vec<Tri> = wall_tris(b - 1, n);
    let first: usize = (b - 1) * n;
    let mut cap: Vec<Tri> = cone_tris(first, n, first + n);
    out.append(&mut cap);
    out
}

/// The sides of a cone: the ring, the spokes in, and the spokes out.
spec fn cone_side(first: int, n: int, apex: int, p: int, q: int) -> bool {
    ||| first <= p < first + n && q == first + after(p - first, n)
    ||| first <= p < first + n && q == apex
    ||| p == apex && first <= q < first + n
}

/// The place before `i` on a ring.
spec fn before(i: int, n: int) -> int {
    if i == 0 {
        n - 1
    } else {
        i - 1
    }
}

proof fn cone_walked(first: int, n: int, apex: int, p: usize, q: usize)
    requires
        n >= 1,
        0 <= first,
        first + n <= usize::MAX,
        0 <= apex <= usize::MAX,
    ensures
        walked(cone(first, n, apex), p, q) <==> cone_side(first, n, apex, p as int, q as int),
{
    let c = cone(first, n, apex);
    if walked(c, p, q) {
        let t = choose|t: int| 0 <= t < c.len() && #[trigger] runs(c[t], p, q);
        let k = choose|k: int| 0 <= k < 3 && #[trigger] side_of(c[t], k) == (p, q);
    }
    if cone_side(first, n, apex, p as int, q as int) {
        if first <= p < first + n && q == first + after(p - first, n) {
            assert(side_of(c[p - first], 0) == (p, q));
            assert(runs(c[p - first], p, q));
        } else if first <= p < first + n && q == apex {
            let t = before(p - first, n);
            assert(side_of(c[t], 1) == (p, q));
            assert(runs(c[t], p, q));
        } else {
            assert(side_of(c[q - first], 2) == (p, q));
            assert(runs(c[q - first], p, q));
        }
    }
}

proof fn walked_in_parts(a: Seq<Tri>, b: Seq<Tri>, p: usize, q: usize)
    ensures
        walked(a + b, p, q) <==> walked(a, p, q) || walked(b, p, q),
{
    let w = a + b;
    if walked(w, p, q) {
        let t = choose|t: int| 0 <= t < w.len() && #[trigger] runs(w[t], p, q);
        if t < a.len() {
            assert(runs(a[t], p, q));
        } else {
            assert(runs(b[t - a.len()], p, q));
        }
    }
    if walked(a, p, q) {
        let t = choose|t: int| 0 <= t < a.len() && #[trigger] runs(a[t], p, q);
        assert(runs(w[t], p, q));
    }
    if walked(b, p, q) {
        let t = choose|t: int| 0 <= t < b.len() && #[trigger] runs(b[t], p, q);
        assert(runs(w[a.len() + t], p, q));
    }
}

/// A dome over a ring of three or more closes it: the only sides without a partner are those of the
/// ring, each walked once round.
pub proof fn domes_border_their_ring(n: int, bands: int, p: usize, q: usize)
    requires
        n >= 3,
        bands >= 1,
        2 * ((bands + 1) * n) <= usize::MAX,
    ensures
        walked(dome(n, bands), p, q) && !walked(dome(n, bands), q, p) <==> p < n && q == after(p as int, n),
{
    let rows = bands - 1;
    let (w, c) = (wall(rows, n), cone(rows * n, n, bands * n));
    assert(rows * n + n == bands * n && rows * n >= 0 && (bands + 1) * n == bands * n + n) by (nonlinear_arith)
        requires
            rows == bands - 1,
            rows >= 0,
            n >= 0,
    ;
    walked_in_parts(w, c, p, q);
    walked_in_parts(w, c, q, p);
    cone_walked(rows * n, n, bands * n, p, q);
    cone_walked(rows * n, n, bands * n, q, p);
    if rows == 0 {
        assert(0 * n == 0);
        assert(w =~= Seq::<Tri>::empty());
    } else {
        assert(rows * n >= n) by (nonlinear_arith)
            requires
                rows >= 1,
                n >= 0,
        ;
        if walked(w, p, q) {
            wall_end_rings(rows, n, p, q);
            let t = choose|t: int| 0 <= t < w.len() && #[trigger] runs(w[t], p, q);
            wall_borders_its_ends(rows, n, t, p, q);
        }
        if walked(w, q, p) {
            wall_end_rings(rows, n, q, p);
        }
        if p < n && q == after(p as int, n) {
            wall_has_rims(rows, n, p as int);
        }
        if rows * n <= p < bands * n && q == rows * n + after(p - rows * n, n) {
            wall_has_rims(rows, n, p - rows * n);
        }
    }
}

// ---- strips and wedges ----

/// A strip of `seg` quads between two arcs whose points are numbered in turn, one of each.
pub open spec fn strip(seg: int) -> Seq<Tri> {
    Seq::new(
        (2 * seg) as nat,
        |t: int|
            {
                let q = 2 * (t / 2);
                if t % 2 == 0 {
                    Tri { a: q as usize, b: (q + 2) as usize, c: (q + 3) as usize }
                } else {
                    Tri { a: q as usize, b: (q + 3) as usize, c: (q + 1) as usize }
                }
            },
    )
}

/// The triangles of a strip between two arcs of `seg` pieces. Point `j` of the first arc is vertex
/// `2 * j`, that of the second `2 * j + 1`.
pub fn strip_tris(seg: usize) -> (out: Vec<Tri>)
    requires
        2 * seg + 2 <= usize::MAX,
    ensures
        out@ == strip(seg as int),
{
    let mut out: Vec<Tri> = Vec::new();
    let mut j: usize = 0;
    while j < seg
        invariant
            j <= seg,
            2 * seg + 2 <= usize::MAX,
            out@ =~= strip(seg as int).take(2 * j as int),
        decreases seg - j,
    {
        let q: usize = 2 * j;
        assert((2 * j) / 2 == j && (2 * j) % 2 == 0);
        assert((2 * j + 1) / 2 == j as int && (2 * j + 1) % 2 == 1);
        out.push(Tri { a: q, b: q + 2, c: q + 3 });
        out.push(Tri { a: q, b: q + 3, c: q + 1 });
        j = j + 1;
    }
    assert(out@ =~= strip(seg as int));
    out
}

/// The two triangles of a wedge between the ends `0`, `1` on one face and `2`, `3` on the other.
pub fn wedge_tris() -> (out: Vec<Tri>)
    ensures
        out@ == seq![Tri { a: 0, b: 2, c: 3 }, Tri { a: 0, b: 3, c: 1 }],
{
    let mut out: Vec<Tri> = Vec::new();
    out.push(Tri { a: 0, b: 2, c: 3 });
    out.push(Tri { a: 0, b: 3, c: 1 });
    out
}

/// The twelve triangles of a box whose corners are numbered with one bit for each axis.
pub open spec fn box_faces() -> Seq<Tri> {
    seq![
        Tri { a: 0, b: 1, c: 3 },
        Tri { a: 0, b: 3, c: 2 },
        Tri { a: 4, b: 6, c: 7 },
        Tri { a: 4, b: 7, c: 5 },
        Tri { a: 0, b: 4, c: 5 },
        Tri { a: 0, b: 5, c: 1 },
        Tri { a: 2, b: 3, c: 7 },
        Tri { a: 2, b: 7, c: 6 },
        Tri { a: 0, b: 2, c: 6 },
        Tri { a: 0, b: 6, c: 4 },
        Tri { a: 1, b: 5, c: 7 },
        Tri { a: 1, b: 7, c: 3 },
    ]
}

/// The triangles of a box.
pub fn box_tris() -> (out: Vec<Tri>)
    ensures
        out@ == box_faces(),
{
    let mut out: Vec<Tri> = Vec::with_capacity(12);
    out.push(Tri { a: 0, b: 1, c: 3 });
    out.push(Tri { a: 0, b: 3, c: 2 });
    out.push(Tri { a: 4, b: 6, c: 7 });
    out.push(Tri { a: 4, b: 7, c: 5 });
    out.push(Tri { a: 0, b: 4, c: 5 });
    out.push(Tri { a: 0, b: 5, c: 1 });
    out.push(Tri { a: 2, b: 3, c: 7 });
    out.push(Tri { a: 2, b: 7, c: 6 });
    out.push(Tri { a: 0, b: 2, c: 6 });
    out.push(Tri { a: 0, b: 6, c: 4 });
    out.push(Tri { a: 1, b: 5, c: 7 });
    out.push(Tri { a: 1, b: 7, c: 3 });
    assert(out@ =~= box_faces());
    out
}

/// Flatten triangles to an index list over vertices numbered from `base` on.
pub open spec fn flat(tris: Seq<Tri>, base: int) -> Seq<u32> {
    Seq::new(
        3 * tris.len(),
        |k: int|
            {
                let t = tris[k / 3];
                ((if k % 3 == 0 { t.a } else if k % 3 == 1 { t.b } else { t.c }) + base) as u32
            },
    )
}

/// Append triangles to an index list, over vertices numbered from `base` on.
pub fn append_indices(tris: &Vec<Tri>, base: u32, out: &mut Vec<u32>)
    requires
        forall|t: int|
            0 <= t < tris@.len() ==> (#[trigger] tris@[t]).a + base <= u32::MAX && tris@[t].b + base <= u32::MAX && tris@[t].c + base
                <= u32::MAX,
    ensures
        final(out)@ == old(out)@ + flat(tris@, base as int),
{
    let mut t: usize = 0;
    let ghost before = out@;
    while t < tris.len()
        invariant
            t <= tris@.len(),
            forall|t: int|
                0 <= t < tris@.len() ==> (#[trigger] tris@[t]).a + base <= u32::MAX && tris@[t].b + base <= u32::MAX && tris@[t].c
                    + base <= u32::MAX,
            out@ =~= before + flat(tris@, base as int).take(3 * t as int),
        decreases tris@.len() - t,
    {
        let u: Tri = tris[t];
        assert((3 * t) / 3 == t && (3 * t) % 3 == 0);
        assert((3 * t + 1) / 3 == t as int && (3 * t + 1) % 3 == 1);
        assert((3 * t + 2) / 3 == t as int && (3 * t + 2) % 3 == 2);
        out.push(u.a as u32 + base);
        out.push(u.b as u32 + base);
        out.push(u.c as u32 + base);
        t = t + 1;
    }
    assert(out@ =~= before + flat(tris@, base as int));
}

/// The box triangle that walks from `p` to `q`, if one does.
spec fn box_owner(p: int, q: int) -> int {
    let e = 8 * p + q;
    if e == 1 || e == 11 || e == 24 {
        0
    } else if e == 3 || e == 26 || e == 16 {
        1
    } else if e == 38 || e == 55 || e == 60 {
        2
    } else if e == 39 || e == 61 || e == 44 {
        3
    } else if e == 4 || e == 37 || e == 40 {
        4
    } else if e == 5 || e == 41 || e == 8 {
        5
    } else if e == 19 || e == 31 || e == 58 {
        6
    } else if e == 23 || e == 62 || e == 50 {
        7
    } else if e == 2 || e == 22 || e == 48 {
        8
    } else if e == 6 || e == 52 || e == 32 {
        9
    } else if e == 13 || e == 47 || e == 57 {
        10
    } else if e == 15 || e == 59 || e == 25 {
        11
    } else {
        -1
    }
}

proof fn box_side_owner(t: int, k: int)
    requires
        0 <= t < 12,
        0 <= k < 3,
    ensures
        box_owner(side_of(box_faces()[t], k).0 as int, side_of(box_faces()[t], k).1 as int) == t,
        0 <= box_owner(side_of(box_faces()[t], k).1 as int, side_of(box_faces()[t], k).0 as int),
        proper(box_faces()[t]),
        side_of(box_faces()[t], k).0 < 8,
        side_of(box_faces()[t], k).1 < 8,
{
    let f = box_faces();
    assert(f.len() == 12);
}

proof fn box_owner_runs(p: usize, q: usize)
    requires
        p < 8,
        q < 8,
        0 <= box_owner(p as int, q as int),
    ensures
        box_owner(p as int, q as int) < 12,
        runs(box_faces()[box_owner(p as int, q as int)], p, q),
{
    let t = box_faces()[box_owner(p as int, q as int)];
    assert(side_of(t, 0) == (t.a, t.b) && side_of(t, 1) == (t.b, t.c) && side_of(t, 2) == (t.c, t.a));
}

/// A box is watertight.
pub proof fn box_watertight()
    ensures
        watertight(box_faces()),
{
    let w = box_faces();
    assert forall|s: int, t: int, p: usize, q: usize|
        0 <= s < w.len() && 0 <= t < w.len() && s != t && #[trigger] runs(w[s], p, q) implies !#[trigger] runs(w[t], p, q) by {
        if runs(w[t], p, q) {
            let j = choose|j: int| 0 <= j < 3 && #[trigger] side_of(w[s], j) == (p, q);
            let k = choose|k: int| 0 <= k < 3 && #[trigger] side_of(w[t], k) == (p, q);
            box_side_owner(s, j);
            box_side_owner(t, k);
        }
    }
    assert forall|t: int| 0 <= t < w.len() implies proper(#[trigger] w[t]) by {
        box_side_owner(t, 0);
    }
    assert forall|t: int, k: int| 0 <= t < w.len() && 0 <= k < 3 implies met(
        w,
        (#[trigger] side_of(w[t], k)).0,
        side_of(w[t], k).1,
    ) by {
        let (p, q) = side_of(w[t], k);
        box_side_owner(t, k);
        box_owner_runs(q, p);
    }
}

// ---- which way they face ----

/// A cone walks its ring forwards, and from every place of it to the apex and back: only the ring is
/// left open.
pub proof fn cones_border_their_ring(first: int, n: int, apex: int, p: usize, q: usize)
    requires
        n >= 3,
        0 <= first,
        first + n <= usize::MAX,
        0 <= apex <= usize::MAX,
        apex < first || apex >= first + n,
    ensures
        walked(cone(first, n, apex), p, q) && !walked(cone(first, n, apex), q, p) <==> first <= p < first + n && q == (if p + 1 == first + n {
            first
        } else {
            p + 1
        }),
        first <= p < first + n ==> walked(cone(first, n, apex), p, apex as usize),
{
    cone_walked(first, n, apex, p, q);
    cone_walked(first, n, apex, q, p);
    cone_walked(first, n, apex, p, apex as usize);
}

/// The caps of a prism face outwards: the top cap goes round the top ring, the bottom cap round the
/// bottom ring backwards, and neither leaves its ring.
pub proof fn prism_caps_face_outwards(n: int, i: int, t: int)
    requires
        3 <= n,
        4 * n <= usize::MAX,
        0 <= i < n,
        0 <= t < prism_caps(n).len(),
    ensures
        ({
            let j = if i + 1 == n {
                0
            } else {
                i + 1
            };
            &&& walked(prism_caps(n), (n + i) as usize, (n + j) as usize)
            &&& walked(prism_caps(n), j as usize, i as usize)
            &&& !walked(prism_caps(n), (n + j) as usize, (n + i) as usize)
            &&& !walked(prism_caps(n), i as usize, j as usize)
        }),
        ({
            let x = prism_caps(n)[t];
            x.a < n && x.b < n && x.c < n || n <= x.a < 2 * n && n <= x.b < 2 * n && n <= x.c < 2 * n
        }),
{
    let j = after(i, n);
    caps_walked(n, (n + i) as usize, (n + j) as usize);
    caps_walked(n, (n + j) as usize, (n + i) as usize);
    caps_walked(n, i as usize, j as usize);
    caps_walked(n, j as usize, i as usize);
}

/// The caps of a coil close its ends against the walls: the first cross-section is walked backwards,
/// the last forwards.
pub proof fn coil_caps_face_outwards(n: int, i: int)
    requires
        n >= 1,
        6 * (n + 1) <= usize::MAX,
        0 <= i < 3,
    ensures
        ({
            let j = if i == 2 {
                0
            } else {
                i + 1
            };
            runs(coil_caps(n)[0], j as usize, i as usize) && runs(coil_caps(n)[1], (3 * n + i) as usize, (3 * n + j) as usize)
        }),
        coil(n).len() == 6 * n + 2,
{
    let j = after(i, 3);
    coil_cap_runs(n, 0, j as usize, i as usize);
    coil_cap_runs(n, 1, (3 * n + i) as usize, (3 * n + j) as usize);
    assert(2 * (n * 3) == 6 * n);
}

/// Each quad of a tube goes from a place on a cross-section along to the same place on the next, on to
/// the place after it there, back along, and back to where it started.
pub proof fn tubes_run_along(rings: int, n: int, k: int, i: int)
    requires
        rings >= 3,
        n >= 3,
        2 * (rings * n) <= usize::MAX,
        0 <= k < rings,
        0 <= i < n,
    ensures
        ({
            let l = if k + 1 == rings {
                0
            } else {
                k + 1
            };
            let j = if i + 1 == n {
                0
            } else {
                i + 1
            };
            &&& walked(tube(rings, n), (k * n + i) as usize, (l * n + i) as usize)
            &&& walked(tube(rings, n), (l * n + i) as usize, (l * n + j) as usize)
            &&& walked(tube(rings, n), (l * n + j) as usize, (k * n + j) as usize)
            &&& walked(tube(rings, n), (k * n + j) as usize, (k * n + i) as usize)
        }),
{
    let t0 = tube_walks(rings, n, k, i, 0);
    let t1 = tube_walks(rings, n, k, i, 1);
    let t4 = tube_walks(rings, n, k, i, 4);
    let t5 = tube_walks(rings, n, k, i, 5);
}

proof fn strip_runs(seg: int, t: int, p: usize, q: usize)
    requires
        0 <= seg,
        2 * seg + 2 <= usize::MAX,
        0 <= t < 2 * seg,
    ensures
        runs(strip(seg)[t], p, q) <==> {
            let s = 2 * (t / 2);
            if t % 2 == 0 {
                ||| p == s && q == s + 2
                ||| p == s + 2 && q == s + 3
                ||| p == s + 3 && q == s
            } else {
                ||| p == s && q == s + 3
                ||| p == s + 3 && q == s + 1
                ||| p == s + 1 && q == s
            }
        },
{
    let f = strip(seg)[t];
    assert(side_of(f, 0) == (f.a, f.b) && side_of(f, 1) == (f.b, f.c) && side_of(f, 2) == (f.c, f.a));
}

/// A strip is bordered by its arcs: the first is walked forwards, the second backwards, and the rungs
/// between them both ways but for the two at the ends.
#[verifier::spinoff_prover]
#[verifier::rlimit(50)]
pub proof fn strips_border_their_arcs(seg: int, p: usize, q: usize)
    requires
        1 <= seg,
        2 * seg + 2 <= usize::MAX,
    ensures
        walked(strip(seg), p, q) && !walked(strip(seg), q, p) <==> {
            ||| p % 2 == 0 && q == p + 2 && q <= 2 * seg
            ||| q % 2 == 1 && p == q + 2 && p <= 2 * seg + 1
            ||| p == 1 && q == 0
            ||| p == 2 * seg && q == 2 * seg + 1
        },
{
    strip_walked(seg, p, q);
    strip_walked(seg, q, p);
}

#[verifier::spinoff_prover]
#[verifier::rlimit(50)]
proof fn strip_walked(seg: int, p: usize, q: usize)
    requires
        1 <= seg,
        2 * seg + 2 <= usize::MAX,
    ensures
        walked(strip(seg), p, q) <==> {
            ||| p % 2 == 0 && q == p + 2 && q <= 2 * seg
            ||| q % 2 == 1 && p == q + 2 && p <= 2 * seg + 1
            ||| p % 2 == 0 && q == p + 1 && 2 <= p <= 2 * seg
            ||| q % 2 == 0 && p == q + 1 && q < 2 * seg
            ||| p % 2 == 0 && q == p + 3 && p < 2 * seg
            ||| q % 2 == 0 && p == q + 3 && q < 2 * seg
        },
{
    let f = strip(seg);
    if walked(f, p, q) {
        let t = choose|t: int| 0 <= t < f.len() && #[trigger] runs(f[t], p, q);
        strip_runs(seg, t, p, q);
    }
    if p % 2 == 0 && q == p + 2 && q <= 2 * seg {
        strip_runs(seg, p as int, p, q);
        assert(runs(f[p as int], p, q));
    }
    if q % 2 == 1 && p == q + 2 && p <= 2 * seg + 1 {
        strip_runs(seg, q as int, p, q);
        assert(runs(f[q as int], p, q));
    }
    if p % 2 == 0 && q == p + 1 && 2 <= p <= 2 * seg {
        strip_runs(seg, p - 2, p, q);
        assert(runs(f[p - 2], p, q));
    }
    if q % 2 == 0 && p == q + 1 && q < 2 * seg {
        strip_runs(seg, q + 1, p, q);
        assert(runs(f[q + 1], p, q));
    }
    if p % 2 == 0 && q == p + 3 && p < 2 * seg {
        strip_runs(seg, p + 1, p, q);
        assert(runs(f[p + 1], p, q));
    }
    if q % 2 == 0 && p == q + 3 && q < 2 * seg {
        strip_runs(seg, q as int, p, q);
        assert(runs(f[q as int], p, q));
    }
}

/// The coordinate of a box's corner along an axis, zero or one.
pub open spec fn corner_at(v: usize, axis: int) -> int {
    if axis == 0 {
        (v / 4) as int % 2
    } else if axis == 1 {
        (v / 2) as int % 2
    } else {
        v as int % 2
    }
}

/// The normal of a triangle of a box along an axis.
pub open spec fn box_normal(t: Tri, axis: int) -> int {
    let (y, z) = if axis == 0 {
        (1int, 2int)
    } else if axis == 1 {
        (2int, 0int)
    } else {
        (0int, 1int)
    };
    scaled(corner_at(t.b, y) - corner_at(t.a, y), corner_at(t.c, z) - corner_at(t.a, z)) - scaled(
        corner_at(t.b, z) - corner_at(t.a, z),
        corner_at(t.c, y) - corner_at(t.a, y),
    )
}

/// The product with a step of one, none or minus one.
pub open spec fn scaled(step: int, x: int) -> int {
    if step == 0 {
        0
    } else if step > 0 {
        x
    } else {
        -x
    }
}

/// Every triangle of a box lies in one of its sides, across some axis, and its normal points out of
/// the box there; along the other axes it has no part.
#[verifier::spinoff_prover]
#[verifier::rlimit(50)]
pub proof fn boxes_face_outwards(t: int)
    requires
        0 <= t < box_faces().len(),
    ensures
        ({
            let x = box_faces()[t];
            exists|axis: int|
                0 <= axis < 3 && corner_at(x.a, axis) == corner_at(x.b, axis) == corner_at(x.c, axis) && #[trigger] box_normal(x, axis) == 2
                    * corner_at(x.a, axis) - 1
        }),
{
    let x = box_faces()[t];
    let axis: int = if t < 4 {
        0
    } else if t < 8 {
        1
    } else {
        2
    };
    assert(t == 0 || t == 1 || t == 2 || t == 3 || t == 4 || t == 5 || t == 6 || t == 7 || t == 8 || t == 9 || t == 10 || t == 11);
    assert(box_normal(x, axis) == 2 * corner_at(x.a, axis) - 1);
}

/// Three indices stand for each triangle, its corners in order.
pub proof fn indices_keep_the_corners(tris: Seq<Tri>, base: int, t: int)
    requires
        0 <= t < tris.len(),
        0 <= base,
        tris[t].a + base <= u32::MAX,
        tris[t].b + base <= u32::MAX,
        tris[t].c + base <= u32::MAX,
    ensures
        flat(tris, base).len() == 3 * tris.len(),
        flat(tris, base)[3 * t] == tris[t].a + base,
        flat(tris, base)[3 * t + 1] == tris[t].b + base,
        flat(tris, base)[3 * t + 2] == tris[t].c + base,
{
    assert((3 * t) / 3 == t && (3 * t) % 3 == 0);
    assert((3 * t + 1) / 3 == t && (3 * t + 1) % 3 == 1);
    assert((3 * t + 2) / 3 == t && (3 * t + 2) % 3 == 2);
}

/// A dome has at least one band: asking for none gives the same as asking for one, a cone over the ring.
pub proof fn domes_have_a_band(n: int)
    requires
        0 <= n,
    ensures
        dome(n, 0) == dome(n, 1),
        dome(n, 1) == cone(0, n, n),
{
    assert(0 * n == 0 && 1 * n == n);
    assert(wall(0, n) =~= Seq::<Tri>::empty());
    assert(dome(n, 1) =~= cone(0, n, n));
}

} // verus!
