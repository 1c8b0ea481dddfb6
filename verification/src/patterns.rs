//! Triangle index patterns: fans, walls, tubes, prisms, coils and domes, and why they close.

use vstd::prelude::*;
use vstd::arithmetic::div_mod::lemma_fundamental_div_mod_converse;
use vstd::arithmetic::div_mod::lemma_fundamental_div_mod;

use crate::mesh::{consistent, proper, runs, side_of, Tri};

verus! {

/// The place after `i` on a ring of `n`.
pub open spec fn after(i: int, n: int) -> int {
    if i + 1 == n {
        0
    } else {
        i + 1
    }
}

/// The place after `i` on a ring of `n`, to compute with.
pub fn next(i: usize, n: usize) -> (j: usize)
    requires
        i < n,
    ensures
        j == after(i as int, n as int),
        j < n,
{
    if i + 1 == n {
        0
    } else {
        i + 1
    }
}

/// Some triangle of the list walks from `p` to `q`.
pub open spec fn walked(tris: Seq<Tri>, p: usize, q: usize) -> bool {
    exists|t: int| 0 <= t < tris.len() && #[trigger] runs(tris[t], p, q)
}

/// Row `k`, column `i` of a grid with `n` columns.
pub open spec fn cell(k: int, i: int, n: int) -> int {
    k * n + i
}

/// A cell's number gives back its row and column.
pub proof fn cell_split(k: int, i: int, n: int)
    requires
        0 <= i < n,
        0 <= k,
    ensures
        cell(k, i, n) / n == k,
        cell(k, i, n) % n == i,
        0 <= cell(k, i, n),
{
    lemma_fundamental_div_mod_converse(k * n + i, n, k, i);
    assert(0 <= k * n) by (nonlinear_arith)
        requires
            k >= 0,
            n > 0,
    ;
}

/// Every number is that of a cell.
pub proof fn cell_of(q: int, n: int)
    requires
        n > 0,
        q >= 0,
    ensures
        q == cell(q / n, q % n, n),
        0 <= q % n < n,
        0 <= q / n,
{
    lemma_fundamental_div_mod(q, n);
    assert(n * (q / n) == (q / n) * n) by (nonlinear_arith);
    assert(q / n >= 0) by (nonlinear_arith)
        requires
            q >= 0,
            n > 0,
    ;
}

/// Cells of a grid are numbered within it.
pub proof fn cell_bound(k: int, i: int, rows: int, n: int)
    requires
        0 <= k < rows,
        0 <= i < n,
    ensures
        0 <= cell(k, i, n) < rows * n,
        cell(k, i, n) + n - i <= rows * n,
{
    assert(k * n + n <= rows * n) by (nonlinear_arith)
        requires
            k + 1 <= rows,
            n > 0,
    ;
    assert(0 <= k * n) by (nonlinear_arith)
        requires
            k >= 0,
            n > 0,
    ;
}

/// A number within the grid has its row and column within it.
pub proof fn row_bound(q: int, rows: int, n: int)
    requires
        0 <= q < rows * n,
        n > 0,
    ensures
        0 <= q / n < rows,
        0 <= q % n < n,
{
    cell_of(q, n);
    if q / n >= rows {
        assert(q / n * n >= rows * n) by (nonlinear_arith)
            requires
                q / n >= rows,
                n > 0,
        ;
    }
}

/// Two cells with the same number are the same cell.
pub proof fn cells_differ(k: int, i: int, l: int, j: int, n: int)
    requires
        0 <= i < n,
        0 <= j < n,
        0 <= k,
        0 <= l,
        cell(k, i, n) == cell(l, j, n),
    ensures
        k == l,
        i == j,
{
    cell_split(k, i, n);
    cell_split(l, j, n);
}

// ---- fans ----

/// The ring `0..n` as a fan around its first vertex.
pub open spec fn fan(n: int) -> Seq<Tri> {
    Seq::new((if n >= 2 { n - 2 } else { 0 }) as nat, |t: int| Tri { a: 0, b: (t + 1) as usize, c: (t + 2) as usize })
}

/// Triangulate a convex ring of `n` vertices as a fan.
pub fn fan_tris(n: usize) -> (out: Vec<Tri>)
    ensures
        out@ == fan(n as int),
{
    let mut out: Vec<Tri> = Vec::new();
    let mut i: usize = 1;
    while n >= 2 && i < n - 1
        invariant
            1 <= i,
            n >= 2 ==> i <= n - 1,
            n < 2 ==> i == 1,
            out@ =~= fan(n as int).take(i - 1),
        decreases n - i,
    {
        out.push(Tri { a: 0, b: i, c: i + 1 });
        i = i + 1;
    }
    assert(out@ =~= fan(n as int));
    out
}

/// The directed sides of a fan: spokes out, the rim, and spokes back.
pub open spec fn fan_side(n: int, p: int, q: int) -> bool {
    ||| p == 0 && 1 <= q <= n - 2
    ||| 1 <= p <= n - 2 && q == p + 1
    ||| 2 <= p <= n - 1 && q == 0
}

proof fn fan_runs(n: int, t: int, p: usize, q: usize)
    requires
        3 <= n <= usize::MAX,
        0 <= t < n - 2,
    ensures
        runs(fan(n)[t], p, q) <==> {
            ||| p == 0 && q == t + 1
            ||| p == t + 1 && q == t + 2
            ||| p == t + 2 && q == 0
        },
{
    let f = fan(n)[t];
    assert(side_of(f, 0) == (f.a, f.b) && side_of(f, 1) == (f.b, f.c) && side_of(f, 2) == (f.c, f.a));
}

/// A fan covers its ring: it is consistently wound, and the sides that it leaves unmatched are
/// exactly those of the ring.
pub proof fn fan_borders_its_ring(n: int)
    requires
        3 <= n <= usize::MAX,
    ensures
        consistent(fan(n)),
        forall|t: int| 0 <= t < fan(n).len() ==> proper(#[trigger] fan(n)[t]),
        forall|p: usize, q: usize| #[trigger] walked(fan(n), p, q) <==> fan_side(n, p as int, q as int),
        forall|p: usize, q: usize|
            #[trigger] walked(fan(n), p, q) && !walked(fan(n), q, p) <==> p < n && q == after(p as int, n),
{
    let f = fan(n);
    assert forall|s: int, t: int, p: usize, q: usize|
        0 <= s < f.len() && 0 <= t < f.len() && s != t && #[trigger] runs(f[s], p, q) implies !#[trigger] runs(f[t], p, q) by {
        fan_runs(n, s, p, q);
        fan_runs(n, t, p, q);
    }
    assert forall|p: usize, q: usize| #[trigger] walked(f, p, q) <==> fan_side(n, p as int, q as int) by {
        if walked(f, p, q) {
            let t = choose|t: int| 0 <= t < f.len() && #[trigger] runs(f[t], p, q);
            fan_runs(n, t, p, q);
        }
        if fan_side(n, p as int, q as int) {
            let t: int = if p == 0 { q - 1 } else if q == 0 { p - 2 } else { p - 1 };
            fan_runs(n, t, p, q);
            assert(runs(f[t], p, q));
        }
    }
}

/// The ring `0..n` as a fan around its vertex `m`.
pub open spec fn fan_around(m: int, n: int) -> Seq<Tri> {
    Seq::new(
        (if n >= 2 { n - 2 } else { 0 }) as nat,
        |t: int| Tri { a: m as usize, b: ((m + t + 1) % n) as usize, c: ((m + t + 2) % n) as usize },
    )
}

/// Triangulate a ring of `n` vertices as a fan around vertex `m`.
pub fn fan_around_tris(m: usize, n: usize) -> (out: Vec<Tri>)
    requires
        m < n,
        2 * n <= usize::MAX,
    ensures
        out@ == fan_around(m as int, n as int),
{
    let mut out: Vec<Tri> = Vec::new();
    let mut s: usize = 1;
    while n >= 2 && s < n - 1
        invariant
            m < n,
            2 * n <= usize::MAX,
            1 <= s,
            n >= 2 ==> s <= n - 1,
            n < 2 ==> s == 1,
            out@ =~= fan_around(m as int, n as int).take(s - 1),
        decreases n - s,
    {
        out.push(Tri { a: m, b: (m + s) % n, c: (m + s + 1) % n });
        s = s + 1;
    }
    assert(out@ =~= fan_around(m as int, n as int));
    out
}

/// The ring `first..first + n` joined to an apex.
pub open spec fn cone(first: int, n: int, apex: int) -> Seq<Tri> {
    Seq::new(
        n as nat,
        |t: int| Tri { a: (first + t) as usize, b: (first + after(t, n)) as usize, c: apex as usize },
    )
}

/// Join every side of a ring to an apex.
pub fn cone_tris(first: usize, n: usize, apex: usize) -> (out: Vec<Tri>)
    requires
        first + n <= usize::MAX,
    ensures
        out@ == cone(first as int, n as int, apex as int),
{
    let mut out: Vec<Tri> = Vec::with_capacity(n);
    let mut i: usize = 0;
    while i < n
        invariant
            first + n <= usize::MAX,
            i <= n,
            out@ =~= cone(first as int, n as int, apex as int).take(i as int),
        decreases n - i,
    {
        out.push(Tri { a: first + i, b: first + next(i, n), c: apex });
        i = i + 1;
    }
    assert(out@ =~= cone(first as int, n as int, apex as int));
    out
}

// ---- walls ----

/// One triangle of a wall: the quads between each ring and the next are numbered ring by ring, two
/// triangles each.
pub open spec fn wall_tri(n: int, t: int) -> Tri {
    let (k, i) = ((t / 2) / n, (t / 2) % n);
    let (a0, a1) = (cell(k, i, n), cell(k, after(i, n), n));
    let (b0, b1) = (cell(k + 1, i, n), cell(k + 1, after(i, n), n));
    if t % 2 == 0 {
        Tri { a: a0 as usize, b: a1 as usize, c: b1 as usize }
    } else {
        Tri { a: a0 as usize, b: b1 as usize, c: b0 as usize }
    }
}

/// The quads that join `rows + 1` rings of `n` vertices, each ring to the next.
pub open spec fn wall(rows: int, n: int) -> Seq<Tri> {
    Seq::new((2 * (rows * n)) as nat, |t: int| wall_tri(n, t))
}

/// All vertex numbers of a wall fit the machine.
pub open spec fn wall_fits(rows: int, n: int) -> bool {
    2 * ((rows + 1) * n) <= usize::MAX
}

proof fn wall_fits_cells(rows: int, n: int, q: int)
    requires
        wall_fits(rows, n),
        rows >= 0,
        n > 0,
        0 <= q < rows * n,
    ensures
        0 <= q / n < rows,
        0 <= q % n < n,
        0 <= cell(q / n, q % n, n) < (rows + 1) * n,
        0 <= cell(q / n, after(q % n, n), n) < (rows + 1) * n,
        0 <= cell(q / n + 1, q % n, n) < (rows + 1) * n,
        0 <= cell(q / n + 1, after(q % n, n), n) < (rows + 1) * n,
        (rows + 1) * n <= usize::MAX,
{
    row_bound(q, rows, n);
    cell_bound(q / n, q % n, rows + 1, n);
    cell_bound(q / n, after(q % n, n), rows + 1, n);
    cell_bound(q / n + 1, q % n, rows + 1, n);
    cell_bound(q / n + 1, after(q % n, n), rows + 1, n);
}

/// Join `rows + 1` rings of `n` vertices, each ring to the next.
pub fn wall_tris(rows: usize, n: usize) -> (out: Vec<Tri>)
    requires
        wall_fits(rows as int, n as int),
    ensures
        out@ == wall(rows as int, n as int),
{
    let mut out: Vec<Tri> = Vec::new();
    assert(rows * n <= (rows + 1) * n) by (nonlinear_arith)
        requires
            n >= 0,
            rows >= 0,
    ;
    assert(0 <= rows * n) by (nonlinear_arith)
        requires
            n >= 0,
            rows >= 0,
    ;
    let total: usize = rows * n;
    let mut q: usize = 0;
    while q < total
        invariant
            wall_fits(rows as int, n as int),
            total == rows * n,
            0 <= q <= total,
            out@ =~= wall(rows as int, n as int).take(2 * q as int),
        decreases total - q,
    {
        assert(n > 0) by (nonlinear_arith)
            requires
                q < rows * n,
                q >= 0,
                n >= 0,
                rows >= 0,
        ;
        proof {
            wall_fits_cells(rows as int, n as int, q as int);
            assert((2 * q) / 2 == q && (2 * q) % 2 == 0);
            assert((2 * q + 1) / 2 == q as int && (2 * q + 1) % 2 == 1);
        }
        let (k, i) = (q / n, q % n);
        let j: usize = next(i, n);
        proof {
            assert(0 <= k * n) by (nonlinear_arith)
                requires
                    k >= 0,
                    n >= 0,
            ;
            assert((k + 1) * n == k * n + n) by (nonlinear_arith);
        }
        let low: usize = k * n;
        let high: usize = (k + 1) * n;
        out.push(Tri { a: low + i, b: low + j, c: high + j });
        out.push(Tri { a: low + i, b: high + j, c: high + i });
        q = q + 1;
    }
    assert(out@ =~= wall(rows as int, n as int));
    out
}

/// The directed sides of the quad at row `k`, column `i` of a wall, as pairs of row and column.
spec fn quad_side(n: int, k: int, i: int, c: int) -> ((int, int), (int, int)) {
    let j = after(i, n);
    if c == 0 {
        ((k, i), (k, j))
    } else if c == 1 {
        ((k, j), (k + 1, j))
    } else if c == 2 {
        ((k + 1, j), (k, i))
    } else if c == 3 {
        ((k, i), (k + 1, j))
    } else if c == 4 {
        ((k + 1, j), (k + 1, i))
    } else {
        ((k + 1, i), (k, i))
    }
}

proof fn quad_sides_differ(n: int, k: int, i: int, c: int, l: int, j: int, d: int)
    requires
        n >= 3,
        0 <= i < n,
        0 <= j < n,
        0 <= c < 6,
        0 <= d < 6,
        quad_side(n, k, i, c) == quad_side(n, l, j, d),
    ensures
        k == l,
        i == j,
        c == d,
{
}

proof fn wall_runs(rows: int, n: int, t: int, p: usize, q: usize) -> (c: int)
    requires
        wall_fits(rows, n),
        rows >= 0,
        n > 0,
        0 <= t < 2 * (rows * n),
        runs(wall(rows, n)[t], p, q),
    ensures
        ({
            let (k, i) = ((t / 2) / n, (t / 2) % n);
            let s = quad_side(n, k, i, c);
            &&& 3 * (t % 2) <= c < 3 * (t % 2) + 3
            &&& p == cell(s.0.0, s.0.1, n)
            &&& q == cell(s.1.0, s.1.1, n)
        }),
{
    wall_fits_cells(rows, n, t / 2);
    let w = wall(rows, n)[t];
    let m = choose|m: int| 0 <= m < 3 && #[trigger] side_of(w, m) == (p, q);
    3 * (t % 2) + m
}

proof fn wall_walks(rows: int, n: int, k: int, i: int, c: int) -> (t: int)
    requires
        wall_fits(rows, n),
        0 <= k < rows,
        0 <= i < n,
        0 <= c < 6,
    ensures
        0 <= t < wall(rows, n).len(),
        ({
            let s = quad_side(n, k, i, c);
            runs(wall(rows, n)[t], cell(s.0.0, s.0.1, n) as usize, cell(s.1.0, s.1.1, n) as usize)
        }),
{
    let q = cell(k, i, n);
    cell_split(k, i, n);
    cell_bound(k, i, rows, n);
    let t = 2 * q + c / 3;
    assert(t / 2 == q && t % 2 == c / 3);
    wall_fits_cells(rows, n, q);
    let w = wall(rows, n)[t];
    let s = quad_side(n, k, i, c);
    assert(side_of(w, c % 3) == (cell(s.0.0, s.0.1, n) as usize, cell(s.1.0, s.1.1, n) as usize));
    t
}

/// A wall of at least three columns is consistently wound.
pub proof fn wall_consistent(rows: int, n: int)
    requires
        wall_fits(rows, n),
        rows >= 0,
        n >= 3,
    ensures
        consistent(wall(rows, n)),
        forall|t: int| 0 <= t < wall(rows, n).len() ==> proper(#[trigger] wall(rows, n)[t]),
        forall|t: int|
            0 <= t < wall(rows, n).len() ==> (#[trigger] wall(rows, n)[t]).a < (rows + 1) * n && wall(rows, n)[t].b < (rows + 1) * n
                && wall(rows, n)[t].c < (rows + 1) * n,
{
    let w = wall(rows, n);
    assert(0 <= rows * n) by (nonlinear_arith)
        requires
            rows >= 0,
            n >= 0,
    ;
    assert forall|s: int, t: int, p: usize, q: usize|
        0 <= s < w.len() && 0 <= t < w.len() && s != t && #[trigger] runs(w[s], p, q) implies !#[trigger] runs(w[t], p, q) by {
        if runs(w[t], p, q) {
            let c = wall_runs(rows, n, s, p, q);
            let d = wall_runs(rows, n, t, p, q);
            let (k, i) = ((s / 2) / n, (s / 2) % n);
            let (l, j) = ((t / 2) / n, (t / 2) % n);
            row_bound(s / 2, rows, n);
            row_bound(t / 2, rows, n);
            let (x, y) = (quad_side(n, k, i, c), quad_side(n, l, j, d));
            cells_differ(x.0.0, x.0.1, y.0.0, y.0.1, n);
            cells_differ(x.1.0, x.1.1, y.1.0, y.1.1, n);
            quad_sides_differ(n, k, i, c, l, j, d);
            cell_of(s / 2, n);
            cell_of(t / 2, n);
        }
    }
    assert forall|t: int| 0 <= t < w.len() implies proper(#[trigger] w[t]) && w[t].a < (rows + 1) * n && w[t].b < (rows + 1) * n
        && w[t].c < (rows + 1) * n by {
        let (k, i) = ((t / 2) / n, (t / 2) % n);
        let j = after(i, n);
        wall_fits_cells(rows, n, t / 2);
        if cell(k, i, n) == cell(k, j, n) {
            cells_differ(k, i, k, j, n);
        }
        if cell(k, j, n) == cell(k + 1, j, n) {
            cells_differ(k, j, k + 1, j, n);
        }
        if cell(k, i, n) == cell(k + 1, j, n) {
            cells_differ(k, i, k + 1, j, n);
        }
        if cell(k, i, n) == cell(k + 1, i, n) {
            cells_differ(k, i, k + 1, i, n);
        }
        if cell(k + 1, j, n) == cell(k + 1, i, n) {
            cells_differ(k + 1, j, k + 1, i, n);
        }
    }
}

/// The rim of the first ring, walked forwards, and that of the last ring, walked backwards.
pub open spec fn wall_rim(rows: int, n: int, p: int, q: int) -> bool {
    ||| 0 <= p < n && q == after(p, n)
    ||| exists|i: int| 0 <= i < n && p == rows * n + #[trigger] after(i, n) && q == rows * n + i
}

/// The only sides of a wall without a partner are those of its first and its last ring.
pub proof fn wall_borders_its_ends(rows: int, n: int, t: int, p: usize, q: usize)
    requires
        wall_fits(rows, n),
        rows >= 1,
        n >= 3,
        0 <= t < wall(rows, n).len(),
        runs(wall(rows, n)[t], p, q),
    ensures
        walked(wall(rows, n), q, p) || wall_rim(rows, n, p as int, q as int),
{
    let w = wall(rows, n);
    let c = wall_runs(rows, n, t, p, q);
    let (k, i) = ((t / 2) / n, (t / 2) % n);
    wall_fits_cells(rows, n, t / 2);
    let j = after(i, n);
    if c == 0 {
        if k > 0 {
            let u = wall_walks(rows, n, k - 1, i, 4);
        } else {
            assert(cell(0, i, n) == i && cell(0, j, n) == j);
        }
    } else if c == 1 {
        let u = wall_walks(rows, n, k, j, 5);
    } else if c == 2 {
        let u = wall_walks(rows, n, k, i, 3);
    } else if c == 3 {
        let u = wall_walks(rows, n, k, i, 2);
    } else if c == 4 {
        if k + 1 < rows {
            let u = wall_walks(rows, n, k + 1, i, 0);
        } else {
            assert(k + 1 == rows);
            assert(p == rows * n + after(i, n) && q == rows * n + i);
        }
    } else {
        let h = if i == 0 { n - 1 } else { i - 1 };
        assert(after(h, n) == i);
        let u = wall_walks(rows, n, k, h, 1);
    }
}

/// The rims of a wall are there.
pub proof fn wall_has_rims(rows: int, n: int, i: int)
    requires
        wall_fits(rows, n),
        rows >= 1,
        n >= 3,
        0 <= i < n,
    ensures
        walked(wall(rows, n), i as usize, after(i, n) as usize),
        walked(wall(rows, n), (rows * n + after(i, n)) as usize, (rows * n + i) as usize),
{
    assert(cell(0, i, n) == i && cell(0, after(i, n), n) == after(i, n));
    let t = wall_walks(rows, n, 0, i, 0);
    let u = wall_walks(rows, n, rows - 1, i, 4);
}

/// Within its first ring a wall walks forwards only, within its last ring backwards only.
pub proof fn wall_end_rings(rows: int, n: int, p: usize, q: usize)
    requires
        wall_fits(rows, n),
        rows >= 1,
        n >= 3,
        walked(wall(rows, n), p, q),
    ensures
        p < n && q < n ==> q == after(p as int, n),
        p >= rows * n && q >= rows * n ==> p - rows * n == after(q - rows * n, n),
        p < (rows + 1) * n,
        q < (rows + 1) * n,
{
    let w = wall(rows, n);
    let t = choose|t: int| 0 <= t < w.len() && #[trigger] runs(w[t], p, q);
    let c = wall_runs(rows, n, t, p, q);
    wall_fits_cells(rows, n, t / 2);
    let (k, i) = ((t / 2) / n, (t / 2) % n);
    let s = quad_side(n, k, i, c);
    cell_split(s.0.0, s.0.1, n);
    cell_split(s.1.0, s.1.1, n);
    if p < n && q < n {
        lemma_fundamental_div_mod_converse(p as int, n, 0, p as int);
        lemma_fundamental_div_mod_converse(q as int, n, 0, q as int);
    }
    if p >= rows * n && q >= rows * n {
        assert(rows * n + (p - rows * n) == p);
        assert((rows + 1) * n == rows * n + n) by (nonlinear_arith);
        lemma_fundamental_div_mod_converse(p as int, n, rows, p - rows * n);
        lemma_fundamental_div_mod_converse(q as int, n, rows, q - rows * n);
    }
}

/// A fan around vertex `m` is the fan around the first vertex of the ring that starts at `m`.
pub proof fn fans_turn_with_their_ring(m: int, n: int, t: int)
    requires
        0 <= m < n,
        2 * n <= usize::MAX,
        0 <= t < n - 2,
    ensures
        fan_around(m, n).len() == fan(n).len(),
        ({
            let (f, g) = (fan(n)[t], fan_around(m, n)[t]);
            let turn = |v: usize|
                if m + v < n {
                    m + v
                } else {
                    m + v - n
                };
            g.a == turn(f.a) && g.b == turn(f.b) && g.c == turn(f.c)
        }),
{
    wraps_once(m + t + 1, n);
    wraps_once(m + t + 2, n);
}

proof fn wraps_once(x: int, n: int)
    requires
        0 <= x < 2 * n,
    ensures
        x % n == if x < n {
            x
        } else {
            x - n
        },
{
    if x < n {
        vstd::arithmetic::div_mod::lemma_small_mod(x as nat, n as nat);
    } else {
        vstd::arithmetic::div_mod::lemma_mod_sub_multiples_vanish(x, n);
        vstd::arithmetic::div_mod::lemma_small_mod((x - n) as nat, n as nat);
    }
}

/// Each quad of a wall goes from its place on a ring to the next place, up to the next ring, back and
/// down again.
pub proof fn walls_go_straight_up(rows: int, n: int, k: int, i: int)
    requires
        wall_fits(rows, n),
        0 <= k < rows,
        0 <= i < n,
        n >= 3,
    ensures
        ({
            let j = if i + 1 == n {
                0
            } else {
                i + 1
            };
            &&& walked(wall(rows, n), (k * n + i) as usize, (k * n + j) as usize)
            &&& walked(wall(rows, n), (k * n + j) as usize, (k * n + n + j) as usize)
            &&& walked(wall(rows, n), (k * n + n + j) as usize, (k * n + n + i) as usize)
            &&& walked(wall(rows, n), (k * n + n + i) as usize, (k * n + i) as usize)
        }),
{
    assert((k + 1) * n == k * n + n) by (nonlinear_arith);
    let t0 = wall_walks(rows, n, k, i, 0);
    let t1 = wall_walks(rows, n, k, i, 1);
    let t4 = wall_walks(rows, n, k, i, 4);
    let t5 = wall_walks(rows, n, k, i, 5);
}

} // verus!
