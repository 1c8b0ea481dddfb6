//! Rasterising triangles into a voxel grid, and finding the triangles near a voxel.

use vstd::prelude::*;

use crate::nets::fits;
use crate::rings::{decides, says};
use crate::voxel::{Grid, BAND};

verus! {

/// The voxels that a triangle's bounds take up, both ends included. They may reach beyond the grid.
#[derive(Clone, Copy, Debug)]
pub struct Bounds {
    pub x0: i64,
    pub x1: i64,
    pub y0: i64,
    pub y1: i64,
    pub z0: i64,
    pub z1: i64,
}

/// The triangles that pass through each voxel of the wall.
#[derive(Debug)]
pub struct Raster {
    /// For each voxel the number of its list, counted from one; none for a voxel that nothing passes
    /// through.
    pub slot: Vec<u32>,
    /// The voxel of each list.
    pub voxels: Vec<u32>,
    pub lists: Vec<Vec<u32>>,
}

/// The voxel lies within the bounds.
pub open spec fn in_bounds(g: Grid, b: Bounds, i: int) -> bool {
    b.x0 <= g.x(i) <= b.x1 && b.y0 <= g.y(i) <= b.y1 && b.z0 <= g.z(i) <= b.z1
}

/// Triangle `t` passes through voxel `i`.
pub open spec fn passes<F: Fn(usize, usize) -> bool>(g: Grid, boxes: Seq<Bounds>, hits: F, t: int, i: int) -> bool {
    in_bounds(g, boxes[t], i) && says(hits, t as usize, i as usize)
}

/// Those of the first `n` triangles that pass through voxel `i`.
pub open spec fn through<F: Fn(usize, usize) -> bool>(g: Grid, boxes: Seq<Bounds>, hits: F, i: int, n: int) -> Seq<u32>
    decreases n,
{
    if n <= 0 {
        Seq::empty()
    } else if passes(g, boxes, hits, n - 1, i) {
        through(g, boxes, hits, i, n - 1).push((n - 1) as u32)
    } else {
        through(g, boxes, hits, i, n - 1)
    }
}

/// Voxel `i` comes before the place `(x, y, z)`, row by row.
spec fn before(g: Grid, i: int, x: int, y: int, z: int) -> bool {
    g.z(i) < z || (g.z(i) == z && (g.y(i) < y || (g.y(i) == y && g.x(i) < x)))
}

/// The lists hold the first `t` triangles, and where voxels come before a place, triangle `t` too.
spec fn caught_up<F: Fn(usize, usize) -> bool>(
    r: Raster,
    g: Grid,
    boxes: Seq<Bounds>,
    hits: F,
    t: int,
    x: int,
    y: int,
    z: int,
) -> bool {
    forall|i: int|
        0 <= i < g.volume() ==> #[trigger] r.at(i) == through(
            g,
            boxes,
            hits,
            i,
            if in_bounds(g, boxes[t], i) && before(g, i, x, y, z) {
                t + 1
            } else {
                t
            },
        )
}

/// The first voxel along an axis that bounds take up.
fn first_in(v: i64) -> (r: usize)
    requires
        v <= usize::MAX,
    ensures
        r == if v < 0 {
            0
        } else {
            v as int
        },
{
    if v < 0 {
        0
    } else {
        v as usize
    }
}

/// One past the last voxel along an axis of `n` that bounds take up.
fn end_in(v: i64, n: usize) -> (r: usize)
    ensures
        r == if v < 0 {
            0
        } else if v >= n {
            n as int
        } else {
            v + 1
        },
{
    if v < 0 {
        0
    } else if v as u64 >= n as u64 {
        n
    } else {
        v as usize + 1
    }
}

impl Raster {
    /// The triangles through voxel `i`.
    pub open spec fn at(&self, i: int) -> Seq<u32> {
        if self.slot@[i] == 0 {
            Seq::empty()
        } else {
            self.lists@[self.slot@[i] - 1]@
        }
    }

    /// Every list belongs to one voxel, and none is empty.
    pub open spec fn wf(&self) -> bool {
        &&& self.slot@.len() < u32::MAX
        &&& self.voxels@.len() == self.lists@.len()
        &&& forall|k: int|
            0 <= k < self.voxels@.len() ==> (#[trigger] self.voxels@[k]) < self.slot@.len() && self.slot@[self.voxels@[k] as int] == k + 1
        &&& forall|i: int|
            0 <= i < self.slot@.len() && (#[trigger] self.slot@[i]) != 0 ==> self.slot@[i] - 1 < self.lists@.len() && self.voxels@[self.slot@[i] - 1]
                == i
        &&& forall|k: int| 0 <= k < self.lists@.len() ==> (#[trigger] self.lists@[k])@.len() >= 1
    }

    /// Exactly the triangles that pass through each voxel are listed there, in order.
    pub open spec fn holds<F: Fn(usize, usize) -> bool>(&self, g: Grid, boxes: Seq<Bounds>, hits: F) -> bool {
        &&& self.wf()
        &&& self.slot@.len() == g.volume()
        &&& forall|i: int| 0 <= i < g.volume() ==> #[trigger] self.at(i) == through(g, boxes, hits, i, boxes.len() as int)
    }

    /// Note that a triangle passes through a voxel.
    fn note(&mut self, i: usize, t: u32)
        requires
            old(self).wf(),
            i < old(self).slot@.len(),
        ensures
            final(self).wf(),
            final(self).slot@.len() == old(self).slot@.len(),
            final(self).at(i as int) == old(self).at(i as int).push(t),
            forall|j: int| 0 <= j < old(self).slot@.len() && j != i ==> #[trigger] final(self).at(j) == old(self).at(j),
    {
        if self.slot[i] == 0 {
            proof {
                let v = self.voxels@;
                assert(v.no_duplicates()) by {
                    assert forall|k: int, l: int| 0 <= k < v.len() && 0 <= l < v.len() && k != l implies v[k] != v[l] by {
                        assert(self.slot@[v[k] as int] == k + 1 && self.slot@[v[l] as int] == l + 1);
                    }
                }
                fits(v, self.slot@.len());
            }
            let mut list: Vec<u32> = Vec::new();
            list.push(t);
            self.lists.push(list);
            self.voxels.push(i as u32);
            let k: u32 = self.lists.len() as u32;
            self.slot.set(i, k);
        } else {
            let k: usize = self.slot[i] as usize - 1;
            let ghost held = self.lists@[k as int]@;
            self.lists[k].push(t);
            assert(self.lists@[k as int]@ == held.push(t));
        }
        assert forall|j: int| 0 <= j < old(self).slot@.len() && j != i implies #[trigger] self.at(j) == old(self).at(j) by {
            assert(self.slot@[j] == old(self).slot@[j]);
        }
    }

    /// Which voxels make up the wall: those that some triangle passes through.
    pub fn wall(&self) -> (out: Vec<bool>)
        requires
            self.wf(),
        ensures
            out@.len() == self.slot@.len(),
            forall|i: int| 0 <= i < out@.len() ==> #[trigger] out@[i] == (self.at(i).len() > 0),
    {
        let mut out: Vec<bool> = Vec::with_capacity(self.slot.len());
        let mut i: usize = 0;
        while i < self.slot.len()
            invariant
                self.wf(),
                i <= self.slot@.len(),
                out@.len() == i,
                forall|j: int| 0 <= j < i ==> #[trigger] out@[j] == (self.at(j).len() > 0),
            decreases self.slot@.len() - i,
        {
            out.push(self.slot[i] != 0);
            assert(self.at(i as int).len() > 0 <==> self.slot@[i as int] != 0);
            i = i + 1;
        }
        out
    }

    /// The triangles through a row of voxels.
    pub open spec fn row(&self, g: Grid, x0: int, x1: int, y: int, z: int) -> Seq<u32>
        decreases x1 - x0,
    {
        if x1 <= x0 {
            Seq::empty()
        } else {
            self.row(g, x0, x1 - 1, y, z) + self.at(g.index(x1 - 1, y, z))
        }
    }

    /// The triangles through a layer of voxels, row by row.
    pub open spec fn layer(&self, g: Grid, x0: int, x1: int, y0: int, y1: int, z: int) -> Seq<u32>
        decreases y1 - y0,
    {
        if y1 <= y0 {
            Seq::empty()
        } else {
            self.layer(g, x0, x1, y0, y1 - 1, z) + self.row(g, x0, x1, y1 - 1, z)
        }
    }

    /// The triangles through a block of voxels, layer by layer.
    pub open spec fn block(&self, g: Grid, x0: int, x1: int, y0: int, y1: int, z0: int, z1: int) -> Seq<u32>
        decreases z1 - z0,
    {
        if z1 <= z0 {
            Seq::empty()
        } else {
            self.block(g, x0, x1, y0, y1, z0, z1 - 1) + self.layer(g, x0, x1, y0, y1, z1 - 1)
        }
    }

    /// The triangles through the voxels that are no more than `BAND` away from voxel `i` along any
    /// axis.
    pub open spec fn around(&self, g: Grid, i: int) -> Seq<u32> {
        self.block(
            g,
            low_end(g.x(i)),
            high_end(g.x(i), g.nx as int),
            low_end(g.y(i)),
            high_end(g.y(i), g.ny as int),
            low_end(g.z(i)),
            high_end(g.z(i), g.nz as int),
        )
    }

    /// List the triangles near a voxel, in the order in which the voxels about it are numbered.
    #[verifier::loop_isolation(false)]
    pub fn near(&self, g: &Grid, i: usize) -> (out: Vec<u32>)
        requires
            self.wf(),
            g.wf(),
            self.slot@.len() == g.volume(),
            i < g.volume(),
        ensures
            out@ == self.around(*g, i as int),
    {
        let (cx, cy, cz) = g.coords(i);
        let (x0, x1) = reach(cx, g.nx);
        let (y0, y1) = reach(cy, g.ny);
        let (z0, z1) = reach(cz, g.nz);
        let mut out: Vec<u32> = Vec::new();
        let mut z: usize = z0;
        while z < z1
            invariant
                z0 <= z <= z1,
                out@ == self.block(*g, x0 as int, x1 as int, y0 as int, y1 as int, z0 as int, z as int),
            decreases z1 - z,
        {
            let ghost above = out@;
            let mut y: usize = y0;
            assert(above + self.layer(*g, x0 as int, x1 as int, y0 as int, y0 as int, z as int) =~= above);
            while y < y1
                invariant
                    y0 <= y <= y1,
                    out@ == above + self.layer(*g, x0 as int, x1 as int, y0 as int, y as int, z as int),
                decreases y1 - y,
            {
                let ghost rows = out@;
                let mut x: usize = x0;
                assert(rows + self.row(*g, x0 as int, x0 as int, y as int, z as int) =~= rows);
                while x < x1
                    invariant
                        x0 <= x <= x1,
                        out@ == rows + self.row(*g, x0 as int, x as int, y as int, z as int),
                    decreases x1 - x,
                {
                    let ghost cells = out@;
                    let v: usize = g.at(x, y, z);
                    let s: u32 = self.slot[v];
                    assert(v < self.slot@.len());
                    if s != 0 {
                        let k: usize = s as usize - 1;
                        let m: usize = self.lists[k].len();
                        let mut j: usize = 0;
                        assert(cells + self.lists@[k as int]@.take(0) =~= cells);
                        while j < m
                            invariant
                                j <= m,
                                out@ == cells + self.lists@[k as int]@.take(j as int),
                            decreases m - j,
                        {
                            out.push(self.lists[k][j]);
                            j = j + 1;
                            assert(out@ =~= cells + self.lists@[k as int]@.take(j as int));
                        }
                        assert(self.lists@[k as int]@.take(m as int) =~= self.lists@[k as int]@);
                    } else {
                        assert(cells + Seq::<u32>::empty() =~= cells);
                    }
                    assert(out@ == cells + self.at(v as int));
                    assert(self.row(*g, x0 as int, x + 1, y as int, z as int) == self.row(*g, x0 as int, x as int, y as int, z as int) + self.at(
                        v as int,
                    ));
                    assert(out@ =~= rows + self.row(*g, x0 as int, x + 1, y as int, z as int));
                    x = x + 1;
                }
                assert(out@ =~= above + self.layer(*g, x0 as int, x1 as int, y0 as int, y + 1, z as int));
                y = y + 1;
            }
            assert(out@ =~= self.block(*g, x0 as int, x1 as int, y0 as int, y1 as int, z0 as int, z + 1));
            z = z + 1;
        }
        out
    }
}

pub open spec fn low_end(v: int) -> int {
    if v < BAND {
        0
    } else {
        v - BAND
    }
}

pub open spec fn high_end(v: int, n: int) -> int {
    if v + BAND + 1 < n {
        v + BAND + 1
    } else {
        n
    }
}

/// The voxels along an axis of `n` that are near the `v`-th.
fn reach(v: usize, n: usize) -> (r: (usize, usize))
    requires
        v < n,
    ensures
        r.0 == low_end(v as int),
        r.1 == high_end(v as int, n as int),
        r.0 <= r.1 <= n,
{
    let b: usize = BAND as usize;
    let lo: usize = if v < b {
        0
    } else {
        v - b
    };
    let hi: usize = if n - v <= b + 1 {
        n
    } else {
        v + b + 1
    };
    (lo, hi)
}

/// Rasterise triangles. `hits` tells whether a triangle passes through a voxel that its bounds take
/// up.
#[verifier::loop_isolation(false)]
pub fn rasterize<F: Fn(usize, usize) -> bool>(g: &Grid, boxes: &Vec<Bounds>, hits: &F) -> (r: Raster)
    requires
        g.wf(),
        decides(*hits, boxes@.len() as int, g.volume() as int),
        boxes@.len() <= u32::MAX,
    ensures
        r.holds(*g, boxes@, *hits),
{
    let n: usize = g.count();
    let mut r: Raster = Raster { slot: vec![0; n], voxels: Vec::new(), lists: Vec::new() };
    let mut t: usize = 0;
    while t < boxes.len()
        invariant
            t <= boxes@.len(),
            r.wf(),
            r.slot@.len() == g.volume(),
            forall|i: int| 0 <= i < g.volume() ==> #[trigger] r.at(i) == through(*g, boxes@, *hits, i, t as int),
        decreases boxes@.len() - t,
    {
        rasterize_one(g, boxes, hits, t, &mut r);
        t = t + 1;
    }
    r
}

/// Rasterise one triangle.
#[verifier::loop_isolation(false)]
fn rasterize_one<F: Fn(usize, usize) -> bool>(g: &Grid, boxes: &Vec<Bounds>, hits: &F, t: usize, r: &mut Raster)
    requires
        g.wf(),
        decides(*hits, boxes@.len() as int, g.volume() as int),
        t < boxes@.len() <= u32::MAX,
        old(r).wf(),
        old(r).slot@.len() == g.volume(),
        forall|i: int| 0 <= i < g.volume() ==> #[trigger] old(r).at(i) == through(*g, boxes@, *hits, i, t as int),
    ensures
        final(r).wf(),
        final(r).slot@.len() == g.volume(),
        forall|i: int| 0 <= i < g.volume() ==> #[trigger] final(r).at(i) == through(*g, boxes@, *hits, i, t + 1),
{
    let b: Bounds = boxes[t];
    if b.x1 < 0 || b.y1 < 0 || b.z1 < 0 || b.x0 > b.x1 || b.y0 > b.y1 || b.z0 > b.z1 {
        assert forall|i: int| 0 <= i < g.volume() implies #[trigger] r.at(i) == through(*g, boxes@, *hits, i, t + 1) by {
            g.coordinates(i);
        }
        return;
    }
    if b.x0 >= 0 && b.x0 as u64 >= g.nx as u64 || b.y0 >= 0 && b.y0 as u64 >= g.ny as u64 || b.z0 >= 0 && b.z0 as u64 >= g.nz as u64 {
        assert forall|i: int| 0 <= i < g.volume() implies #[trigger] r.at(i) == through(*g, boxes@, *hits, i, t + 1) by {
            g.coordinates(i);
        }
        return;
    }
    let (x0, y0, z0) = (first_in(b.x0), first_in(b.y0), first_in(b.z0));
    let (x1, y1, z1) = (end_in(b.x1, g.nx), end_in(b.y1, g.ny), end_in(b.z1, g.nz));
    let mut z: usize = z0;
    proof {
        assert forall|i: int| 0 <= i < g.volume() implies !(in_bounds(*g, b, i) && before(*g, i, x0 as int, y0 as int, z0 as int)) by {
            g.coordinates(i);
        }
        assert(caught_up(*r, *g, boxes@, *hits, t as int, x0 as int, y0 as int, z0 as int));
    }
    while z < z1
        invariant
            z0 <= z <= z1,
            r.wf(),
            r.slot@.len() == g.volume(),
            caught_up(*r, *g, boxes@, *hits, t as int, x0 as int, y0 as int, z as int),
        decreases z1 - z,
    {
        let mut y: usize = y0;
        while y < y1
            invariant
                y0 <= y <= y1,
                r.wf(),
                r.slot@.len() == g.volume(),
                caught_up(*r, *g, boxes@, *hits, t as int, x0 as int, y as int, z as int),
            decreases y1 - y,
        {
            let mut x: usize = x0;
            while x < x1
                invariant
                    x0 <= x <= x1,
                    r.wf(),
                    r.slot@.len() == g.volume(),
                    caught_up(*r, *g, boxes@, *hits, t as int, x as int, y as int, z as int),
                decreases x1 - x,
            {
                let ghost was = *r;
                let v: usize = g.at(x, y, z);
                proof {
                    g.numbering(x as int, y as int, z as int);
                    assert(in_bounds(*g, b, v as int));
                    assert(!before(*g, v as int, x as int, y as int, z as int));
                    assert(was.at(v as int) == through(*g, boxes@, *hits, v as int, t as int));
                }
                let hit: bool = hits(t, v);
                assert(hit <==> says(*hits, t, v));
                if hit {
                    r.note(v, t as u32);
                }
                assert forall|i: int| 0 <= i < g.volume() implies #[trigger] r.at(i) == through(
                    *g,
                    boxes@,
                    *hits,
                    i,
                    if in_bounds(*g, b, i) && before(*g, i, x + 1, y as int, z as int) {
                        t + 1
                    } else {
                        t as int
                    },
                ) by {
                    g.coordinates(i);
                    assert(was.at(i) == through(
                        *g,
                        boxes@,
                        *hits,
                        i,
                        if in_bounds(*g, b, i) && before(*g, i, x as int, y as int, z as int) {
                            t + 1
                        } else {
                            t as int
                        },
                    ));
                    if i == v {
                        assert(r.at(i) == through(*g, boxes@, *hits, i, t + 1));
                    } else {
                        assert(!(g.x(i) == x && g.y(i) == y && g.z(i) == z));
                    }
                }
                x = x + 1;
            }
            assert forall|i: int| 0 <= i < g.volume() && in_bounds(*g, b, i) implies (#[trigger] before(*g, i, x1 as int, y as int, z as int) <==> before(
                *g,
                i,
                x0 as int,
                y + 1,
                z as int,
            )) by {
                g.coordinates(i);
            }
            y = y + 1;
        }
        assert forall|i: int| 0 <= i < g.volume() && in_bounds(*g, b, i) implies (#[trigger] before(*g, i, x0 as int, y1 as int, z as int) <==> before(
            *g,
            i,
            x0 as int,
            y0 as int,
            z + 1,
        )) by {
            g.coordinates(i);
        }
        z = z + 1;
    }
    assert forall|i: int| 0 <= i < g.volume() implies #[trigger] r.at(i) == through(*g, boxes@, *hits, i, t + 1) by {
        g.coordinates(i);
        assert(in_bounds(*g, b, i) ==> before(*g, i, x0 as int, y0 as int, z1 as int));
    }
}

/// A triangle is listed at a voxel exactly where it passes through it, so that the wall is made of
/// the voxels that some triangle passes through.
pub proof fn walls_are_hit<F: Fn(usize, usize) -> bool>(g: Grid, boxes: Seq<Bounds>, hits: F, i: int, n: int)
    requires
        0 <= n <= boxes.len() <= u32::MAX,
    ensures
        forall|t: u32| #[trigger] through(g, boxes, hits, i, n).contains(t) <==> t < n && passes(g, boxes, hits, t as int, i),
    decreases n,
{
    let all = through(g, boxes, hits, i, n);
    if n <= 0 {
        assert(all.len() == 0);
    } else {
        walls_are_hit(g, boxes, hits, i, n - 1);
        let rest = through(g, boxes, hits, i, n - 1);
        assert forall|t: u32| #[trigger] all.contains(t) <==> t < n && passes(g, boxes, hits, t as int, i) by {
            if all.contains(t) {
                let k = choose|k: int| 0 <= k < all.len() && all[k] == t;
                if k < rest.len() {
                    assert(rest[k] == t);
                    assert(rest.contains(t));
                }
            }
            if t < n && passes(g, boxes, hits, t as int, i) {
                if t == n - 1 {
                    assert(all[rest.len() as int] == t);
                } else {
                    assert(rest.contains(t));
                    let k = choose|k: int| 0 <= k < rest.len() && rest[k] == t;
                    assert(all[k] == t);
                }
            }
        }
    }
}

proof fn joined_contains(a: Seq<u32>, b: Seq<u32>, t: u32)
    ensures
        (a + b).contains(t) <==> a.contains(t) || b.contains(t),
{
    let all = a + b;
    if all.contains(t) {
        let k = choose|k: int| 0 <= k < all.len() && all[k] == t;
        if k < a.len() {
            assert(a[k] == t);
        } else {
            assert(b[k - a.len()] == t);
        }
    }
    if a.contains(t) {
        let k = choose|k: int| 0 <= k < a.len() && a[k] == t;
        assert(all[k] == t);
    }
    if b.contains(t) {
        let k = choose|k: int| 0 <= k < b.len() && b[k] == t;
        assert(all[a.len() + k] == t);
    }
}

proof fn row_holds(r: Raster, g: Grid, x0: int, x1: int, y: int, z: int, x: int, t: u32)
    requires
        x0 <= x < x1,
        r.at(g.index(x, y, z)).contains(t),
    ensures
        r.row(g, x0, x1, y, z).contains(t),
    decreases x1 - x0,
{
    joined_contains(r.row(g, x0, x1 - 1, y, z), r.at(g.index(x1 - 1, y, z)), t);
    if x < x1 - 1 {
        row_holds(r, g, x0, x1 - 1, y, z, x, t);
    }
}

proof fn layer_holds(r: Raster, g: Grid, x0: int, x1: int, y0: int, y1: int, z: int, x: int, y: int, t: u32)
    requires
        x0 <= x < x1,
        y0 <= y < y1,
        r.at(g.index(x, y, z)).contains(t),
    ensures
        r.layer(g, x0, x1, y0, y1, z).contains(t),
    decreases y1 - y0,
{
    joined_contains(r.layer(g, x0, x1, y0, y1 - 1, z), r.row(g, x0, x1, y1 - 1, z), t);
    if y < y1 - 1 {
        layer_holds(r, g, x0, x1, y0, y1 - 1, z, x, y, t);
    } else {
        row_holds(r, g, x0, x1, y, z, x, t);
    }
}

proof fn block_holds(r: Raster, g: Grid, x0: int, x1: int, y0: int, y1: int, z0: int, z1: int, x: int, y: int, z: int, t: u32)
    requires
        x0 <= x < x1,
        y0 <= y < y1,
        z0 <= z < z1,
        r.at(g.index(x, y, z)).contains(t),
    ensures
        r.block(g, x0, x1, y0, y1, z0, z1).contains(t),
    decreases z1 - z0,
{
    joined_contains(r.block(g, x0, x1, y0, y1, z0, z1 - 1), r.layer(g, x0, x1, y0, y1, z1 - 1), t);
    if z < z1 - 1 {
        block_holds(r, g, x0, x1, y0, y1, z0, z1 - 1, x, y, z, t);
    } else {
        layer_holds(r, g, x0, x1, y0, y1, z, x, y, t);
    }
}

/// No triangle near a voxel is missed: one that passes through a voxel no more than `BAND` away along
/// any axis is listed.
pub proof fn near_triangles_are_listed(r: Raster, g: Grid, i: int, j: int, t: u32)
    requires
        g.wf(),
        0 <= i < g.volume(),
        0 <= j < g.volume(),
        -BAND <= g.x(i) - g.x(j) <= BAND,
        -BAND <= g.y(i) - g.y(j) <= BAND,
        -BAND <= g.z(i) - g.z(j) <= BAND,
        r.at(j).contains(t),
    ensures
        r.around(g, i).contains(t),
{
    g.coordinates(i);
    g.coordinates(j);
    let (x, y, z) = (g.x(i), g.y(i), g.z(i));
    block_holds(
        r,
        g,
        low_end(x),
        high_end(x, g.nx as int),
        low_end(y),
        high_end(y, g.ny as int),
        low_end(z),
        high_end(z, g.nz as int),
        g.x(j),
        g.y(j),
        g.z(j),
        t,
    );
}

proof fn row_lists(r: Raster, g: Grid, x0: int, x1: int, y: int, z: int, t: u32) -> (x: int)
    requires
        r.row(g, x0, x1, y, z).contains(t),
    ensures
        x0 <= x < x1,
        r.at(g.index(x, y, z)).contains(t),
    decreases x1 - x0,
{
    assert(x0 < x1);
    joined_contains(r.row(g, x0, x1 - 1, y, z), r.at(g.index(x1 - 1, y, z)), t);
    if r.at(g.index(x1 - 1, y, z)).contains(t) {
        x1 - 1
    } else {
        row_lists(r, g, x0, x1 - 1, y, z, t)
    }
}

proof fn layer_lists(r: Raster, g: Grid, x0: int, x1: int, y0: int, y1: int, z: int, t: u32) -> (p: (int, int))
    requires
        r.layer(g, x0, x1, y0, y1, z).contains(t),
    ensures
        x0 <= p.0 < x1,
        y0 <= p.1 < y1,
        r.at(g.index(p.0, p.1, z)).contains(t),
    decreases y1 - y0,
{
    assert(y0 < y1);
    joined_contains(r.layer(g, x0, x1, y0, y1 - 1, z), r.row(g, x0, x1, y1 - 1, z), t);
    if r.row(g, x0, x1, y1 - 1, z).contains(t) {
        (row_lists(r, g, x0, x1, y1 - 1, z, t), y1 - 1)
    } else {
        layer_lists(r, g, x0, x1, y0, y1 - 1, z, t)
    }
}

proof fn block_lists(r: Raster, g: Grid, x0: int, x1: int, y0: int, y1: int, z0: int, z1: int, t: u32) -> (p: (int, int, int))
    requires
        r.block(g, x0, x1, y0, y1, z0, z1).contains(t),
    ensures
        x0 <= p.0 < x1,
        y0 <= p.1 < y1,
        z0 <= p.2 < z1,
        r.at(g.index(p.0, p.1, p.2)).contains(t),
    decreases z1 - z0,
{
    assert(z0 < z1);
    joined_contains(r.block(g, x0, x1, y0, y1, z0, z1 - 1), r.layer(g, x0, x1, y0, y1, z1 - 1), t);
    if r.layer(g, x0, x1, y0, y1, z1 - 1).contains(t) {
        let (x, y) = layer_lists(r, g, x0, x1, y0, y1, z1 - 1, t);
        (x, y, z1 - 1)
    } else {
        block_lists(r, g, x0, x1, y0, y1, z0, z1 - 1, t)
    }
}

/// Only triangles near a voxel are listed: each passes through some voxel no more than two away along
/// any axis.
pub proof fn only_near_triangles_are_listed(r: Raster, g: Grid, i: int, t: u32) -> (j: int)
    requires
        g.wf(),
        0 <= i < g.volume(),
        r.around(g, i).contains(t),
    ensures
        0 <= j < g.volume(),
        -2 <= g.x(i) - g.x(j) <= 2,
        -2 <= g.y(i) - g.y(j) <= 2,
        -2 <= g.z(i) - g.z(j) <= 2,
        r.at(j).contains(t),
{
    g.coordinates(i);
    let (x, y, z) = (g.x(i), g.y(i), g.z(i));
    let p = block_lists(
        r,
        g,
        low_end(x),
        high_end(x, g.nx as int),
        low_end(y),
        high_end(y, g.ny as int),
        low_end(z),
        high_end(z, g.nz as int),
        t,
    );
    g.numbering(p.0, p.1, p.2);
    g.index(p.0, p.1, p.2)
}

/// A voxel lists the triangles whose bounds reach it and that pass through it, in order.
pub proof fn voxels_list_their_triangles_in_order<F: Fn(usize, usize) -> bool>(g: Grid, boxes: Seq<Bounds>, hits: F, i: int, n: int)
    requires
        0 <= n <= boxes.len(),
    ensures
        through(g, boxes, hits, i, n) == Seq::new(n as nat, |i: int| i).filter(|t: int| boxes[t].x0 <= g.x(i) <= boxes[t].x1 && boxes[t].y0 <= g.y(i) <= boxes[t].y1 && boxes[t].z0 <= g.z(i) <= boxes[t].z1 && says(hits, t as usize, i as usize)).map_values(|t: int| t as u32),
    decreases n,
{
    reveal(Seq::filter);
    let (test, made) = (|t: int| boxes[t].x0 <= g.x(i) <= boxes[t].x1 && boxes[t].y0 <= g.y(i) <= boxes[t].y1 && boxes[t].z0 <= g.z(i) <= boxes[t].z1 && says(hits, t as usize, i as usize), |t: int| t as u32);
    let all = Seq::new(n as nat, |i: int| i);
    if n > 0 {
        voxels_list_their_triangles_in_order(g, boxes, hits, i, n - 1);
        let rest = Seq::new((n - 1) as nat, |i: int| i);
        assert(all.drop_last() =~= rest);
        assert(all.last() == n - 1);
        let kept = rest.filter(test);
        assert(kept.push(n - 1).map_values(made) =~= kept.map_values(made).push(made(n - 1)));
        assert(through(g, boxes, hits, i, n) =~= all.filter(test).map_values(made));
    } else {
        assert(through(g, boxes, hits, i, n) =~= all.filter(test).map_values(made));
    }
}

} // verus!
