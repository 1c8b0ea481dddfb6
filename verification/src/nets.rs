//! Surface nets: the quads of the surface that separates marked grid points from unmarked ones.
//!
//! Each cell of the grid (a cube between eight grid points) whose corners disagree gets one vertex.
//! Each interior grid edge whose two ends disagree gets a quad that joins the four cells around it.

use vstd::prelude::*;

use crate::first_seen::{firsts, firsts_distinct};
use crate::solids::scaled;
use crate::voxel::Grid;

verus! {

/// The grid of the cells between the points of `g`.
pub open spec fn cells(g: Grid) -> Grid {
    Grid { nx: (g.nx - 1) as usize, ny: (g.ny - 1) as usize, nz: (g.nz - 1) as usize }
}

/// At least one cell along each axis.
pub open spec fn has_cells(g: Grid) -> bool {
    g.wf() && g.nx >= 2 && g.ny >= 2 && g.nz >= 2
}

/// A grid with cells has a well-formed grid of cells.
pub proof fn cells_wf(g: Grid)
    requires
        has_cells(g),
    ensures
        cells(g).wf(),
{
    let (x, y, z) = (g.nx as int, g.ny as int, g.nz as int);
    assert((x - 1) * (y - 1) <= x * y) by (nonlinear_arith)
        requires
            x >= 2,
            y >= 2,
    ;
    assert((x - 1) * (y - 1) * (z - 1) <= x * y * z) by (nonlinear_arith)
        requires
            0 <= (x - 1) * (y - 1) <= x * y,
            z >= 2,
    ;
    assert(0 <= (x - 1) * (y - 1)) by (nonlinear_arith)
        requires
            x >= 2,
            y >= 2,
    ;
}

/// The cells of `g`.
pub fn cell_grid(g: &Grid) -> (c: Grid)
    requires
        has_cells(*g),
    ensures
        c == cells(*g),
        c.wf(),
{
    proof {
        cells_wf(*g);
    }
    Grid { nx: g.nx - 1, ny: g.ny - 1, nz: g.nz - 1 }
}

/// Offsets of the corners of a cell from its lowest one, in order.
pub open spec fn corner(c: int) -> (int, int, int) {
    if c == 0 {
        (0, 0, 0)
    } else if c == 1 {
        (1, 0, 0)
    } else if c == 2 {
        (1, 1, 0)
    } else if c == 3 {
        (0, 1, 0)
    } else if c == 4 {
        (0, 0, 1)
    } else if c == 5 {
        (1, 0, 1)
    } else if c == 6 {
        (1, 1, 1)
    } else {
        (0, 1, 1)
    }
}

/// The corners that edge `e` of a cell joins: the ring below, the ring above, then the uprights.
pub open spec fn cell_edge(e: int) -> (int, int) {
    if e < 4 {
        (e, (e + 1) % 4)
    } else if e < 8 {
        (e, 4 + (e - 3) % 4)
    } else {
        (e - 8, e - 4)
    }
}

/// The mark of corner `c` of the cell at `(i, j, k)`.
pub open spec fn mark(g: Grid, below: Seq<bool>, i: int, j: int, k: int, c: int) -> bool {
    below[g.index(i + corner(c).0, j + corner(c).1, k + corner(c).2)]
}

/// Edge `e` of the cell at `(i, j, k)` crosses the surface.
pub open spec fn crosses(g: Grid, below: Seq<bool>, i: int, j: int, k: int, e: int) -> bool {
    mark(g, below, i, j, k, cell_edge(e).0) != mark(g, below, i, j, k, cell_edge(e).1)
}

/// The surface passes through the cell: it gets a vertex.
pub open spec fn straddles(g: Grid, below: Seq<bool>, i: int, j: int, k: int) -> bool {
    exists|e: int| 0 <= e < 12 && #[trigger] crosses(g, below, i, j, k, e)
}

/// Corner offsets, as numbers to compute with.
pub fn corner_offset(c: usize) -> (o: (usize, usize, usize))
    requires
        c < 8,
    ensures
        (o.0 as int, o.1 as int, o.2 as int) == corner(c as int),
{
    if c == 0 {
        (0, 0, 0)
    } else if c == 1 {
        (1, 0, 0)
    } else if c == 2 {
        (1, 1, 0)
    } else if c == 3 {
        (0, 1, 0)
    } else if c == 4 {
        (0, 0, 1)
    } else if c == 5 {
        (1, 0, 1)
    } else if c == 6 {
        (1, 1, 1)
    } else {
        (0, 1, 1)
    }
}

/// The two corners of edge `e`, as numbers to compute with.
pub fn edge_corners(e: usize) -> (c: (usize, usize))
    requires
        e < 12,
    ensures
        (c.0 as int, c.1 as int) == cell_edge(e as int),
        c.0 < 8,
        c.1 < 8,
{
    if e < 4 {
        (e, (e + 1) % 4)
    } else if e < 8 {
        (e, 4 + (e - 3) % 4)
    } else {
        (e - 8, e - 4)
    }
}

fn marked(g: &Grid, below: &Vec<bool>, i: usize, j: usize, k: usize, c: usize) -> (m: bool)
    requires
        has_cells(*g),
        below@.len() == g.volume(),
        i < g.nx - 1,
        j < g.ny - 1,
        k < g.nz - 1,
        c < 8,
    ensures
        m == mark(*g, below@, i as int, j as int, k as int, c as int),
{
    let (dx, dy, dz) = corner_offset(c);
    below[g.at(i + dx, j + dy, k + dz)]
}

/// The edges of one cell that cross the surface, in order.
pub open spec fn crossing_list(g: Grid, below: Seq<bool>, i: int, j: int, k: int, n: int) -> Seq<usize>
    decreases n,
{
    if n <= 0 {
        Seq::empty()
    } else if crosses(g, below, i, j, k, n - 1) {
        crossing_list(g, below, i, j, k, n - 1).push((n - 1) as usize)
    } else {
        crossing_list(g, below, i, j, k, n - 1)
    }
}

/// The edges of the cell at `(i, j, k)` that cross the surface. The cell's vertex is the average of
/// the crossing points, and there is none when the list is empty.
pub fn crossing_edges(g: &Grid, below: &Vec<bool>, i: usize, j: usize, k: usize) -> (out: Vec<usize>)
    requires
        has_cells(*g),
        below@.len() == g.volume(),
        i < g.nx - 1,
        j < g.ny - 1,
        k < g.nz - 1,
    ensures
        out@ == crossing_list(*g, below@, i as int, j as int, k as int, 12),
        out@.len() > 0 <==> straddles(*g, below@, i as int, j as int, k as int),
{
    let mut out: Vec<usize> = Vec::new();
    let mut e: usize = 0;
    while e < 12
        invariant
            has_cells(*g),
            below@.len() == g.volume(),
            i < g.nx - 1,
            j < g.ny - 1,
            k < g.nz - 1,
            e <= 12,
            out@ == crossing_list(*g, below@, i as int, j as int, k as int, e as int),
            out@.len() > 0 <==> exists|d: int| 0 <= d < e && #[trigger] crosses(*g, below@, i as int, j as int, k as int, d),
        decreases 12 - e,
    {
        let (a, b) = edge_corners(e);
        if marked(g, below, i, j, k, a) != marked(g, below, i, j, k, b) {
            assert(crosses(*g, below@, i as int, j as int, k as int, e as int));
            out.push(e);
        }
        e = e + 1;
    }
    out
}

/// The other end of the grid edge that runs from point `v` up along `axis`.
pub open spec fn far_end(g: Grid, v: int, axis: int) -> int {
    let (x, y, z) = (g.x(v), g.y(v), g.z(v));
    if axis == 0 {
        g.index(x + 1, y, z)
    } else if axis == 1 {
        g.index(x, y + 1, z)
    } else {
        g.index(x, y, z + 1)
    }
}

/// The grid edge from `v` along `axis` has four cells around it.
pub open spec fn interior_edge(g: Grid, v: int, axis: int) -> bool {
    let (x, y, z) = (g.x(v), g.y(v), g.z(v));
    &&& x < g.nx - 1
    &&& y < g.ny - 1
    &&& z < g.nz - 1
    &&& axis != 0 ==> x >= 1
    &&& axis != 1 ==> y >= 1
    &&& axis != 2 ==> z >= 1
}

/// The grid edge gets a quad: it is interior and its ends disagree.
pub open spec fn has_quad(g: Grid, below: Seq<bool>, v: int, axis: int) -> bool {
    interior_edge(g, v, axis) && below[v] != below[far_end(g, v, axis)]
}

/// The coordinates of the four cells around a grid edge, in the order in which its quad visits them.
pub open spec fn around(g: Grid, v: int, axis: int, n: int) -> (int, int, int) {
    let (x, y, z) = (g.x(v), g.y(v), g.z(v));
    if axis == 0 {
        if n == 0 {
            (x, y - 1, z - 1)
        } else if n == 1 {
            (x, y, z - 1)
        } else if n == 2 {
            (x, y, z)
        } else {
            (x, y - 1, z)
        }
    } else if axis == 1 {
        if n == 0 {
            (x - 1, y, z - 1)
        } else if n == 1 {
            (x, y, z - 1)
        } else if n == 2 {
            (x, y, z)
        } else {
            (x - 1, y, z)
        }
    } else {
        if n == 0 {
            (x - 1, y - 1, z)
        } else if n == 1 {
            (x, y - 1, z)
        } else if n == 2 {
            (x, y, z)
        } else {
            (x - 1, y, z)
        }
    }
}

/// The number of the `n`-th cell around a grid edge.
pub open spec fn around_cell(g: Grid, v: int, axis: int, n: int) -> u32 {
    let c = around(g, v, axis, n);
    cells(g).index(c.0, c.1, c.2) as u32
}

/// The quad turns the other way round.
pub open spec fn turned(below: Seq<bool>, v: int, axis: int) -> bool {
    if axis == 1 {
        !below[v]
    } else {
        below[v]
    }
}

/// The two triangles of the quad of a grid edge.
pub open spec fn quad(g: Grid, below: Seq<bool>, v: int, axis: int) -> Seq<u32> {
    let (a, b, c, d) = (
        around_cell(g, v, axis, 0),
        around_cell(g, v, axis, 1),
        around_cell(g, v, axis, 2),
        around_cell(g, v, axis, 3),
    );
    if turned(below, v, axis) {
        seq![a, d, c, a, c, b]
    } else {
        seq![a, b, c, a, c, d]
    }
}

/// The quads of the edges that start at the first `n` grid points and run along `axis`.
pub open spec fn quads(g: Grid, below: Seq<bool>, axis: int, n: int) -> Seq<u32>
    decreases n,
{
    if n <= 0 {
        Seq::empty()
    } else if has_quad(g, below, n - 1, axis) {
        quads(g, below, axis, n - 1) + quad(g, below, n - 1, axis)
    } else {
        quads(g, below, axis, n - 1)
    }
}

/// The whole surface: quads along x, then y, then z.
pub open spec fn surface(g: Grid, below: Seq<bool>) -> Seq<u32> {
    quads(g, below, 0, g.volume()) + quads(g, below, 1, g.volume()) + quads(g, below, 2, g.volume())
}

/// The four cells around an interior grid edge exist.
proof fn around_inside(g: Grid, v: int, axis: int, n: int)
    requires
        has_cells(g),
        0 <= v < g.volume(),
        0 <= axis < 3,
        0 <= n < 4,
        interior_edge(g, v, axis),
    ensures
        cells(g).inside(around(g, v, axis, n).0, around(g, v, axis, n).1, around(g, v, axis, n).2),
        0 <= cells(g).index(around(g, v, axis, n).0, around(g, v, axis, n).1, around(g, v, axis, n).2) < cells(g).volume(),
{
    g.coordinates(v);
    cells_wf(g);
    let c = around(g, v, axis, n);
    cells(g).numbering(c.0, c.1, c.2);
}

/// Every cell that a quad joins has a vertex: a grid edge that crosses the surface is an edge of
/// each of the four cells around it.
pub proof fn quads_join_vertices(g: Grid, below: Seq<bool>, v: int, axis: int, n: int)
    requires
        has_cells(g),
        below.len() == g.volume(),
        0 <= v < g.volume(),
        0 <= axis < 3,
        0 <= n < 4,
        has_quad(g, below, v, axis),
    ensures
        ({
            let c = around(g, v, axis, n);
            straddles(g, below, c.0, c.1, c.2)
        }),
{
    g.coordinates(v);
    let c = around(g, v, axis, n);
    let e: int = if axis == 0 {
        if n == 0 { 6 } else if n == 1 { 4 } else if n == 2 { 0 } else { 2 }
    } else if axis == 1 {
        if n == 0 { 5 } else if n == 1 { 7 } else if n == 2 { 3 } else { 1 }
    } else {
        if n == 0 { 10 } else if n == 1 { 11 } else if n == 2 { 8 } else { 9 }
    };
    assert(crosses(g, below, c.0, c.1, c.2, e));
}

fn push_quad(g: &Grid, below: &Vec<bool>, v: usize, axis: usize, out: &mut Vec<u32>)
    requires
        has_cells(*g),
        below@.len() == g.volume(),
        v < g.volume(),
        axis < 3,
        has_quad(*g, below@, v as int, axis as int),
    ensures
        final(out)@ == old(out)@ + quad(*g, below@, v as int, axis as int),
{
    let (x, y, z) = g.coords(v);
    let c: Grid = cell_grid(g);
    proof {
        around_inside(*g, v as int, axis as int, 0);
        around_inside(*g, v as int, axis as int, 1);
        around_inside(*g, v as int, axis as int, 2);
        around_inside(*g, v as int, axis as int, 3);
    }
    let far: usize = c.at(x, y, z);
    let p: usize = if axis == 0 {
        c.at(x, y - 1, z - 1)
    } else if axis == 1 {
        c.at(x - 1, y, z - 1)
    } else {
        c.at(x - 1, y - 1, z)
    };
    let q: usize = if axis == 2 { c.at(x, y - 1, z) } else { c.at(x, y, z - 1) };
    let r: usize = if axis == 0 { c.at(x, y - 1, z) } else { c.at(x - 1, y, z) };
    let flip: bool = if axis == 1 { !below[v] } else { below[v] };
    out.push(p as u32);
    if flip {
        out.push(r as u32);
        out.push(far as u32);
        out.push(p as u32);
        out.push(far as u32);
        out.push(q as u32);
    } else {
        out.push(q as u32);
        out.push(far as u32);
        out.push(p as u32);
        out.push(far as u32);
        out.push(r as u32);
    }
    assert(out@ =~= old(out)@ + quad(*g, below@, v as int, axis as int));
}

fn crosses_at(g: &Grid, below: &Vec<bool>, v: usize, axis: usize) -> (b: bool)
    requires
        has_cells(*g),
        below@.len() == g.volume(),
        v < g.volume(),
        axis < 3,
    ensures
        b == has_quad(*g, below@, v as int, axis as int),
{
    let (x, y, z) = g.coords(v);
    if x >= g.nx - 1 || y >= g.ny - 1 || z >= g.nz - 1 {
        return false;
    }
    if (axis != 0 && x < 1) || (axis != 1 && y < 1) || (axis != 2 && z < 1) {
        return false;
    }
    let w: usize = if axis == 0 {
        g.at(x + 1, y, z)
    } else if axis == 1 {
        g.at(x, y + 1, z)
    } else {
        g.at(x, y, z + 1)
    };
    below[v] != below[w]
}

/// The triangles of the surface between marked and unmarked grid points, over cell numbers.
pub fn surface_nets(g: &Grid, below: &Vec<bool>) -> (out: Vec<u32>)
    requires
        has_cells(*g),
        below@.len() == g.volume(),
    ensures
        out@ == surface(*g, below@),
{
    let mut out: Vec<u32> = Vec::new();
    let n: usize = below.len();
    let mut axis: usize = 0;
    let ghost mut done: Seq<u32> = Seq::empty();
    while axis < 3
        invariant
            has_cells(*g),
            n == below@.len() == g.volume(),
            axis <= 3,
            out@ == done,
            axis == 0 ==> done == Seq::<u32>::empty(),
            axis == 1 ==> done == quads(*g, below@, 0, n as int),
            axis == 2 ==> done == quads(*g, below@, 0, n as int) + quads(*g, below@, 1, n as int),
            axis == 3 ==> done == surface(*g, below@),
        decreases 3 - axis,
    {
        let mut v: usize = 0;
        assert(done + quads(*g, below@, axis as int, 0) =~= done);
        while v < n
            invariant
                has_cells(*g),
                n == below@.len() == g.volume(),
                axis < 3,
                v <= n,
                out@ == done + quads(*g, below@, axis as int, v as int),
            decreases n - v,
        {
            if crosses_at(g, below, v, axis) {
                push_quad(g, below, v, axis, &mut out);
                assert(out@ =~= done + quads(*g, below@, axis as int, v + 1));
            }
            v = v + 1;
        }
        proof {
            assert(Seq::<u32>::empty() + quads(*g, below@, 0, n as int) =~= quads(*g, below@, 0, n as int));
            done = out@;
        }
        axis = axis + 1;
    }
    out
}

/// Quads are whole, and over cells that exist.
pub proof fn quads_in_range(g: Grid, below: Seq<bool>, axis: int, n: int)
    requires
        has_cells(g),
        below.len() == g.volume(),
        0 <= axis < 3,
        0 <= n <= g.volume(),
    ensures
        forall|k: int| 0 <= k < quads(g, below, axis, n).len() ==> #[trigger] quads(g, below, axis, n)[k] < cells(g).volume(),
        quads(g, below, axis, n).len() % 6 == 0,
    decreases n,
{
    if n > 0 {
        quads_in_range(g, below, axis, n - 1);
        cells_wf(g);
        if has_quad(g, below, n - 1, axis) {
            around_inside(g, n - 1, axis, 0);
            around_inside(g, n - 1, axis, 1);
            around_inside(g, n - 1, axis, 2);
            around_inside(g, n - 1, axis, 3);
        }
    }
}

/// The surface is made of whole quads, two triangles each, over cells that exist.
pub proof fn surface_in_range(g: Grid, below: Seq<bool>)
    requires
        has_cells(g),
        below.len() == g.volume(),
    ensures
        surface(g, below).len() % 6 == 0,
        forall|k: int| 0 <= k < surface(g, below).len() ==> #[trigger] surface(g, below)[k] < cells(g).volume(),
{
    quads_in_range(g, below, 0, g.volume());
    quads_in_range(g, below, 1, g.volume());
    quads_in_range(g, below, 2, g.volume());
}

/// Renumber the vertices that `indices` uses in the order of their first use. Returns the old
/// numbers of the vertices kept, by new number.
pub fn compact(indices: &mut Vec<u32>, vertices: usize) -> (kept: Vec<u32>)
    requires
        vertices <= u32::MAX,
        forall|k: int| 0 <= k < old(indices)@.len() ==> (#[trigger] old(indices)@[k]) < vertices,
    ensures
        kept@ == firsts(old(indices)@),
        final(indices)@.len() == old(indices)@.len(),
        forall|k: int|
            0 <= k < final(indices)@.len() ==> (#[trigger] final(indices)@[k]) < kept@.len()
                && kept@[final(indices)@[k] as int] == old(indices)@[k],
{
    let ghost given = indices@;
    let mut remap: Vec<u32> = vec![u32::MAX; vertices];
    let mut kept: Vec<u32> = Vec::new();
    let mut k: usize = 0;
    assert(given.take(0) =~= Seq::<u32>::empty());
    while k < indices.len()
        invariant
            k <= indices@.len(),
            indices@.len() == given.len(),
            given == old(indices)@,
            vertices <= u32::MAX,
            remap@.len() == vertices,
            forall|m: int| 0 <= m < given.len() ==> (#[trigger] given[m]) < vertices,
            kept@ == firsts(given.take(k as int)),
            kept@.len() <= vertices,
            forall|m: int| k <= m < given.len() ==> #[trigger] indices@[m] == given[m],
            forall|m: int| 0 <= m < k ==> (#[trigger] indices@[m]) < kept@.len() && kept@[indices@[m] as int] == given[m],
            forall|w: int|
                0 <= w < vertices ==> (if #[trigger] remap@[w] == u32::MAX {
                    !kept@.contains(w as u32)
                } else {
                    remap@[w] < kept@.len() && kept@[remap@[w] as int] == w
                }),
        decreases indices@.len() - k,
    {
        let was: usize = indices[k] as usize;
        let ghost kept0 = kept@;
        let ghost x = given[k as int];
        proof {
            assert(given.take(k + 1).drop_last() =~= given.take(k as int));
            firsts_distinct(given.take(k + 1));
            let seen = firsts(given.take(k + 1));
            assert forall|m: int| 0 <= m < seen.len() implies #[trigger] seen[m] < vertices by {
                assert(seen.contains(seen[m]));
                let taken = given.take(k + 1);
                assert(taken.contains(seen[m]));
                let j = choose|j: int| 0 <= j < taken.len() && taken[j] == seen[m];
                assert(given[j] == seen[m]);
            }
            fits(seen, vertices as nat);
        }
        if remap[was] == u32::MAX {
            remap.set(was, kept.len() as u32);
            kept.push(was as u32);
            assert(kept@[kept0.len() as int] == x);
            assert forall|w: int| 0 <= w < vertices implies (if #[trigger] remap@[w] == u32::MAX {
                !kept@.contains(w as u32)
            } else {
                remap@[w] < kept@.len() && kept@[remap@[w] as int] == w
            }) by {
                if w != was && remap@[w] == u32::MAX {
                    assert(!kept0.contains(w as u32));
                    if kept@.contains(w as u32) {
                        let j = choose|j: int| 0 <= j < kept@.len() && kept@[j] == w as u32;
                        assert(kept0[j] == w as u32);
                    }
                }
            }
        } else {
            assert(kept@[remap@[was as int] as int] == x);
            assert(kept@.contains(x));
        }
        indices.set(k, remap[was]);
        k = k + 1;
    }
    assert(given.take(k as int) =~= given);
    kept
}

/// Distinct numbers below `n` are no more than `n`.
pub proof fn fits(s: Seq<u32>, n: nat)
    requires
        s.no_duplicates(),
        forall|k: int| 0 <= k < s.len() ==> #[trigger] s[k] < n,
    ensures
        s.len() <= n,
{
    let all = Set::new(|i: int| 0 <= i < n);
    vstd::set_lib::lemma_int_range(0, n as int);
    assert(all =~= vstd::set_lib::set_int_range(0, n as int));
    let t = s.map_values(|v: u32| v as int);
    assert(t.no_duplicates()) by {
        assert forall|i: int, j: int| 0 <= i < t.len() && 0 <= j < t.len() && i != j implies t[i] != t[j] by {
            assert(s[i] != s[j]);
        }
    }
    t.unique_seq_to_set();
    assert(t.to_set().subset_of(all)) by {
        assert forall|v: int| t.to_set().contains(v) implies all.contains(v) by {
            let k = choose|k: int| 0 <= k < t.len() && t[k] == v;
            assert(s[k] < n);
        }
    }
    vstd::set_lib::lemma_len_subset(t.to_set(), all);
}

// ---- which way the surface faces ----

/// The coordinate of a place along an axis.
pub open spec fn along_axis(p: (int, int, int), axis: int) -> int {
    if axis == 0 {
        p.0
    } else if axis == 1 {
        p.1
    } else {
        p.2
    }
}

/// The part along an axis of the normal of a triangle between places that are a step apart.
pub open spec fn normal_along(p: (int, int, int), q: (int, int, int), r: (int, int, int), axis: int) -> int {
    let (u, w) = if axis == 0 {
        (1int, 2int)
    } else if axis == 1 {
        (2int, 0int)
    } else {
        (0int, 1int)
    };
    scaled(along_axis(q, u) - along_axis(p, u), along_axis(r, w) - along_axis(p, w)) - scaled(
        along_axis(q, w) - along_axis(p, w),
        along_axis(r, u) - along_axis(p, u),
    )
}

/// The place is that of a cell about the grid edge from `(x, y, z)` up along `axis`: the edge's own
/// along the axis, and beside it across.
pub open spec fn is_about(p: (int, int, int), x: int, y: int, z: int, axis: int) -> bool {
    &&& if axis == 0 { p.0 == x } else { x - 1 <= p.0 <= x }
    &&& if axis == 1 { p.1 == y } else { y - 1 <= p.1 <= y }
    &&& if axis == 2 { p.2 == z } else { z - 1 <= p.2 <= z }
}

/// The two triangles of a quad join the cells about its grid edge, all four of them, and both face along
/// the edge towards the end that is marked.
#[verifier::spinoff_prover]
#[verifier::rlimit(50)]
pub proof fn quads_face_the_marked_end(g: Grid, below: Seq<bool>, v: int, axis: int) -> (at: Seq<(int, int, int)>)
    requires
        has_cells(g),
        below.len() == g.volume(),
        0 <= v < g.volume(),
        0 <= axis < 3,
        has_quad(g, below, v, axis),
    ensures
        at.len() == 6,
        quad(g, below, v, axis).len() == 6,
        forall|k: int|
            0 <= k < 6 ==> quad(g, below, v, axis)[k] == cells(g).index((#[trigger] at[k]).0, at[k].1, at[k].2) as u32 && is_about(
                at[k],
                g.x(v),
                g.y(v),
                g.z(v),
                axis,
            ),
        at[0] != at[1] && at[1] != at[2] && at[2] != at[0],
        at[3] == at[0] && at[4] == at[2] && at[5] != at[0] && at[5] != at[1] && at[5] != at[2]
            || at[3] == at[0] && at[5] == at[1] && at[4] != at[0] && at[4] != at[1] && at[4] != at[2],
        normal_along(at[0], at[1], at[2], axis) == if below[v] {
            -1int
        } else {
            1int
        },
        normal_along(at[3], at[4], at[5], axis) == if below[v] {
            -1int
        } else {
            1int
        },
{
    let (a, b, c, d) = (around(g, v, axis, 0), around(g, v, axis, 1), around(g, v, axis, 2), around(g, v, axis, 3));
    let at = if turned(below, v, axis) {
        seq![a, d, c, a, c, b]
    } else {
        seq![a, b, c, a, c, d]
    };
    assert(axis == 0 || axis == 1 || axis == 2);
    at
}

/// The twelve edges of a cell join corners that differ along one axis, and no two join the same.
#[verifier::spinoff_prover]
#[verifier::rlimit(50)]
pub proof fn cell_edges_run_along_axes(e: int, f: int)
    requires
        0 <= e < 12,
        0 <= f < 12,
    ensures
        ({
            let (p, q) = (corner(cell_edge(e).0), corner(cell_edge(e).1));
            &&& 0 <= cell_edge(e).0 < 8 && 0 <= cell_edge(e).1 < 8
            &&& 0 <= p.0 <= 1 && 0 <= p.1 <= 1 && 0 <= p.2 <= 1
            &&& 0 <= q.0 <= 1 && 0 <= q.1 <= 1 && 0 <= q.2 <= 1
            &&& p.0 != q.0 && p.1 == q.1 && p.2 == q.2 || p.0 == q.0 && p.1 != q.1 && p.2 == q.2 || p.0 == q.0 && p.1 == q.1 && p.2 != q.2
        }),
        e != f ==> cell_edge(e) != cell_edge(f) && cell_edge(e) != (cell_edge(f).1, cell_edge(f).0),
{
    assert(e == 0 || e == 1 || e == 2 || e == 3 || e == 4 || e == 5 || e == 6 || e == 7 || e == 8 || e == 9 || e == 10 || e == 11);
    assert(f == 0 || f == 1 || f == 2 || f == 3 || f == 4 || f == 5 || f == 6 || f == 7 || f == 8 || f == 9 || f == 10 || f == 11);
}

/// The quads come in the order of the points that their edges start from, one for every interior edge
/// whose ends disagree.
pub proof fn every_crossing_edge_has_its_quad(g: Grid, below: Seq<bool>, axis: int, n: int)
    requires
        0 <= n,
    ensures
        quads(g, below, axis, n) == Seq::new(
            n as nat,
            |v: int|
                if interior_edge(g, v, axis) && below[v] != below[far_end(g, v, axis)] {
                    quad(g, below, v, axis)
                } else {
                    Seq::empty()
                },
        ).flatten(),
    decreases n,
{
    let f = |v: int|
        if interior_edge(g, v, axis) && below[v] != below[far_end(g, v, axis)] {
            quad(g, below, v, axis)
        } else {
            Seq::empty()
        };
    if n > 0 {
        every_crossing_edge_has_its_quad(g, below, axis, n - 1);
        assert(Seq::new(n as nat, f) =~= Seq::new((n - 1) as nat, f).push(f(n - 1)));
        Seq::new((n - 1) as nat, f).lemma_flatten_push(f(n - 1));
        assert(quads(g, below, axis, n) =~= quads(g, below, axis, n - 1) + f(n - 1));
    } else {
        assert(Seq::new(0, f) =~= Seq::<Seq<u32>>::empty());
        assert(Seq::new(0, f).flatten() =~= Seq::<u32>::empty());
    }
}

/// The edges of a cell that cross the surface are those whose ends disagree, in order.
pub proof fn crossing_edges_part_the_marks(g: Grid, below: Seq<bool>, i: int, j: int, k: int, n: int)
    requires
        0 <= n,
    ensures
        crossing_list(g, below, i, j, k, n) == Seq::new(n as nat, |i: int| i).filter(|e: int| mark(g, below, i, j, k, cell_edge(e).0) != mark(g, below, i, j, k, cell_edge(e).1)).map_values(|e: int| e as usize),
    decreases n,
{
    reveal(Seq::filter);
    let (test, made) = (|e: int| mark(g, below, i, j, k, cell_edge(e).0) != mark(g, below, i, j, k, cell_edge(e).1), |e: int| e as usize);
    let all = Seq::new(n as nat, |i: int| i);
    if n > 0 {
        crossing_edges_part_the_marks(g, below, i, j, k, n - 1);
        let rest = Seq::new((n - 1) as nat, |i: int| i);
        assert(all.drop_last() =~= rest);
        assert(all.last() == n - 1);
        let kept = rest.filter(test);
        assert(kept.push(n - 1).map_values(made) =~= kept.map_values(made).push(made(n - 1)));
        assert(crossing_list(g, below, i, j, k, n) =~= all.filter(test).map_values(made));
    } else {
        assert(crossing_list(g, below, i, j, k, n) =~= all.filter(test).map_values(made));
    }
}

} // verus!
