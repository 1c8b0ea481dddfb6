//! Voxel masks behind the solid remesher.
//!
//! A mesh is rasterised to a shell of wall voxels; the masks here seal that shell, flood the space
//! outside it, call everything else solid, measure how far each voxel lies from the boundary, and
//! settle which way the surface faces.

use vstd::prelude::*;
use vstd::arithmetic::div_mod::lemma_fundamental_div_mod_converse;
use vstd::arithmetic::div_mod::lemma_fundamental_div_mod;

use crate::counting::{sum_u32, sum_u32_set, truths, truths_bound, truths_set};

verus! {

/// The largest grid that is worth remeshing on.
pub const MAX_VOXELS: usize = 64_000_000;

/// Empty voxels kept on every side of the part.
pub const PAD: usize = 3;

/// Voxels no farther than this from the boundary get an exact distance.
pub const BAND: u32 = 2;

/// The dimensions of a box of voxels, numbered with x running fastest and z slowest.
#[derive(Clone, Copy, PartialEq, Eq, Debug)]
pub struct Grid {
    pub nx: usize,
    pub ny: usize,
    pub nz: usize,
}

/// The number of cells along an axis that the part covers with `cells` voxels.
pub fn padded_dim(cells: usize) -> (n: usize)
    requires
        cells + 2 * PAD + 1 <= usize::MAX,
    ensures
        n == cells + 2 * PAD + 1,
        n == cells + 7,
{
    cells + 2 * PAD + 1
}

/// The resolution actually used: between 16 and 400 voxels along the longest side.
pub fn clamp_resolution(res: usize) -> (r: usize)
    ensures
        r == if res < 16 { 16 } else if res > 400 { 400 } else { res as int },
{
    if res < 16 {
        16
    } else if res > 400 {
        400
    } else {
        res
    }
}

pub open spec fn distance(a: int, b: int) -> int {
    if a < b { b - a } else { a - b }
}

proof fn coords_of_index(nx: int, ny: int, nz: int, x: int, y: int, z: int)
    requires
        0 <= x < nx,
        0 <= y < ny,
        0 <= z < nz,
    ensures
        ({
            let i = x + nx * (y + ny * z);
            &&& i % nx == x
            &&& i / nx == y + ny * z
            &&& (i / nx) % ny == y
            &&& (i / nx) / ny == z
            &&& 0 <= i < nx * ny * nz
        }),
{
    let r = y + ny * z;
    let i = x + nx * r;
    assert(0 <= ny * z) by (nonlinear_arith)
        requires
            ny > 0,
            z >= 0,
    ;
    lemma_fundamental_div_mod_converse(i, nx, r, x);
    assert(r == z * ny + y) by (nonlinear_arith)
        requires
            r == y + ny * z,
    ;
    lemma_fundamental_div_mod_converse(r, ny, z, y);
    assert(r + 1 <= ny * nz) by (nonlinear_arith)
        requires
            r == y + ny * z,
            y < ny,
            z < nz,
            ny > 0,
    ;
    assert(i < nx * (ny * nz)) by (nonlinear_arith)
        requires
            i == x + nx * r,
            x < nx,
            r + 1 <= ny * nz,
            nx > 0,
    ;
    assert(nx * (ny * nz) == nx * ny * nz) by (nonlinear_arith);
    assert(0 <= nx * r) by (nonlinear_arith)
        requires
            nx > 0,
            r >= 0,
    ;
}

proof fn index_of_coords(nx: int, ny: int, nz: int, i: int)
    requires
        nx > 0,
        ny > 0,
        nz > 0,
        0 <= i < nx * ny * nz,
    ensures
        0 <= i % nx < nx,
        0 <= (i / nx) % ny < ny,
        0 <= (i / nx) / ny < nz,
        i == i % nx + nx * ((i / nx) % ny + ny * ((i / nx) / ny)),
{
    let r = i / nx;
    lemma_fundamental_div_mod(i, nx);
    lemma_fundamental_div_mod(r, ny);
    assert(r >= 0) by (nonlinear_arith)
        requires
            i == nx * r + i % nx,
            0 <= i % nx < nx,
            i >= 0,
            nx > 0,
    ;
    assert(r / ny >= 0) by (nonlinear_arith)
        requires
            r == ny * (r / ny) + r % ny,
            0 <= r % ny < ny,
            r >= 0,
            ny > 0,
    ;
    assert(r / ny < nz) by (nonlinear_arith)
        requires
            i == nx * r + i % nx,
            0 <= i % nx < nx,
            r == ny * (r / ny) + r % ny,
            0 <= r % ny < ny,
            i < nx * ny * nz,
            nx > 0,
            ny > 0,
            nz > 0,
            r >= 0,
    {
        if r / ny >= nz {
            assert(r >= ny * nz);
            assert(nx * r >= nx * (ny * nz));
        }
    }
}

/// The nearest of `0..n`.
pub open spec fn clamped(v: int, n: int) -> int {
    if v < 0 {
        0
    } else if v >= n {
        n - 1
    } else {
        v
    }
}

fn moved(v: usize, off: i64, n: usize) -> (r: usize)
    requires
        v < n,
    ensures
        r == clamped(v + off, n as int),
        r < n,
{
    if off < 0 {
        let back: u64 = (-(off as i128)) as u64;
        if back >= v as u64 {
            0
        } else {
            v - back as usize
        }
    } else {
        let room: usize = n - 1 - v;
        if off as u64 >= room as u64 {
            n - 1
        } else {
            v + off as usize
        }
    }
}

impl Grid {
    /// The number of voxels.
    pub open spec fn volume(&self) -> int {
        self.nx * self.ny * self.nz
    }

    /// At least one voxel along each axis, and no more than `MAX_VOXELS` in all.
    pub open spec fn wf(&self) -> bool {
        &&& self.nx >= 1
        &&& self.ny >= 1
        &&& self.nz >= 1
        &&& self.volume() <= MAX_VOXELS
    }

    /// The number of the voxel at `(x, y, z)`.
    pub open spec fn index(&self, x: int, y: int, z: int) -> int {
        x + self.nx * (y + self.ny * z)
    }

    pub open spec fn x(&self, i: int) -> int {
        i % (self.nx as int)
    }

    pub open spec fn y(&self, i: int) -> int {
        (i / (self.nx as int)) % (self.ny as int)
    }

    pub open spec fn z(&self, i: int) -> int {
        (i / (self.nx as int)) / (self.ny as int)
    }

    /// `(x, y, z)` lies inside the box.
    pub open spec fn inside(&self, x: int, y: int, z: int) -> bool {
        0 <= x < self.nx && 0 <= y < self.ny && 0 <= z < self.nz
    }

    /// Numbering the voxels is one-to-one with their coordinates.
    pub proof fn numbering(&self, x: int, y: int, z: int)
        requires
            self.wf(),
            self.inside(x, y, z),
        ensures
            0 <= self.index(x, y, z) < self.volume(),
            self.x(self.index(x, y, z)) == x,
            self.y(self.index(x, y, z)) == y,
            self.z(self.index(x, y, z)) == z,
    {
        coords_of_index(self.nx as int, self.ny as int, self.nz as int, x, y, z);
    }

    /// Every voxel number stands for coordinates inside the box.
    pub proof fn coordinates(&self, i: int)
        requires
            self.wf(),
            0 <= i < self.volume(),
        ensures
            self.inside(self.x(i), self.y(i), self.z(i)),
            self.index(self.x(i), self.y(i), self.z(i)) == i,
    {
        index_of_coords(self.nx as int, self.ny as int, self.nz as int, i);
    }

    /// The voxel next to `i` in direction `k`: down and up along x, y, then z.
    pub open spec fn beside(&self, i: int, k: int) -> Option<int> {
        let (x, y, z) = (self.x(i), self.y(i), self.z(i));
        if k == 0 && x > 0 {
            Some(self.index(x - 1, y, z))
        } else if k == 1 && x + 1 < self.nx {
            Some(self.index(x + 1, y, z))
        } else if k == 2 && y > 0 {
            Some(self.index(x, y - 1, z))
        } else if k == 3 && y + 1 < self.ny {
            Some(self.index(x, y + 1, z))
        } else if k == 4 && z > 0 {
            Some(self.index(x, y, z - 1))
        } else if k == 5 && z + 1 < self.nz {
            Some(self.index(x, y, z + 1))
        } else {
            None
        }
    }

    /// Two voxels share a face.
    pub open spec fn touching(&self, i: int, j: int) -> bool {
        exists|k: int| 0 <= k < 6 && #[trigger] self.beside(i, k) == Some(j)
    }

    /// The number of face-to-face steps between two voxels.
    pub open spec fn steps(&self, i: int, j: int) -> int {
        distance(self.x(i), self.x(j)) + distance(self.y(i), self.y(j)) + distance(self.z(i), self.z(j))
    }

    /// The voxel lies on a face of the box.
    pub open spec fn on_border(&self, i: int) -> bool {
        let (x, y, z) = (self.x(i), self.y(i), self.z(i));
        x == 0 || x + 1 == self.nx || y == 0 || y + 1 == self.ny || z == 0 || z + 1 == self.nz
    }

    proof fn beside_coords(&self, i: int, k: int)
        requires
            self.wf(),
            0 <= i < self.volume(),
        ensures
            self.beside(i, k) matches Some(j) ==> {
                &&& 0 <= j < self.volume()
                &&& self.x(j) == (if k == 0 { self.x(i) - 1 } else if k == 1 { self.x(i) + 1 } else { self.x(i) })
                &&& self.y(j) == (if k == 2 { self.y(i) - 1 } else if k == 3 { self.y(i) + 1 } else { self.y(i) })
                &&& self.z(j) == (if k == 4 { self.z(i) - 1 } else if k == 5 { self.z(i) + 1 } else { self.z(i) })
            },
    {
        self.coordinates(i);
        let (x, y, z) = (self.x(i), self.y(i), self.z(i));
        if k == 0 && x > 0 {
            self.numbering(x - 1, y, z);
        } else if k == 1 && x + 1 < self.nx {
            self.numbering(x + 1, y, z);
        } else if k == 2 && y > 0 {
            self.numbering(x, y - 1, z);
        } else if k == 3 && y + 1 < self.ny {
            self.numbering(x, y + 1, z);
        } else if k == 4 && z > 0 {
            self.numbering(x, y, z - 1);
        } else if k == 5 && z + 1 < self.nz {
            self.numbering(x, y, z + 1);
        }
    }

    /// Sharing a face is being one step apart.
    pub proof fn touching_is_one_step(&self, i: int, j: int)
        requires
            self.wf(),
            0 <= i < self.volume(),
            0 <= j < self.volume(),
        ensures
            self.touching(i, j) <==> self.steps(i, j) == 1,
    {
        self.coordinates(i);
        self.coordinates(j);
        if self.touching(i, j) {
            let k = choose|k: int| 0 <= k < 6 && #[trigger] self.beside(i, k) == Some(j);
            self.beside_coords(i, k);
        }
        if self.steps(i, j) == 1 {
            let k: int = if self.x(j) < self.x(i) {
                0
            } else if self.x(j) > self.x(i) {
                1
            } else if self.y(j) < self.y(i) {
                2
            } else if self.y(j) > self.y(i) {
                3
            } else if self.z(j) < self.z(i) {
                4
            } else {
                5
            };
            assert(self.beside(i, k) == Some(j));
        }
    }

    /// A grid of these dimensions, unless an axis is empty or there are too many voxels.
    pub fn new(nx: usize, ny: usize, nz: usize) -> (g: Option<Grid>)
        ensures
            g is Some <==> nx >= 1 && ny >= 1 && nz >= 1 && nx * ny * nz <= MAX_VOXELS,
            g is Some <==> nx >= 1 && ny >= 1 && nz >= 1 && nx * ny * nz <= 64_000_000,
            g matches Some(g) ==> g.wf() && g.nx == nx && g.ny == ny && g.nz == nz,
    {
        if nx == 0 || ny == 0 || nz == 0 {
            return None;
        }
        assert(nx * ny >= nx && nx * ny >= ny) by (nonlinear_arith)
            requires
                nx >= 1,
                ny >= 1,
        ;
        assert(nx * ny * nz >= nx * ny && nx * ny * nz >= nz) by (nonlinear_arith)
            requires
                nx * ny >= 1,
                nz >= 1,
        ;
        if nx > MAX_VOXELS || ny > MAX_VOXELS || nz > MAX_VOXELS {
            return None;
        }
        assert(0 <= nx * ny <= 64_000_000 * 64_000_000) by (nonlinear_arith)
            requires
                0 <= nx <= 64_000_000,
                0 <= ny <= 64_000_000,
        ;
        let a: u128 = nx as u128 * ny as u128;
        assert(a * nz <= 64_000_000 * 64_000_000 * 64_000_000) by (nonlinear_arith)
            requires
                a <= 64_000_000 * 64_000_000,
                nz <= 64_000_000,
        ;
        if a * (nz as u128) > MAX_VOXELS as u128 {
            return None;
        }
        Some(Grid { nx, ny, nz })
    }

    /// The number of voxels.
    pub fn count(&self) -> (n: usize)
        requires
            self.wf(),
        ensures
            n == self.volume(),
    {
        assert(self.nx * self.ny >= 1) by (nonlinear_arith)
            requires
                self.nx >= 1,
                self.ny >= 1,
        ;
        assert(self.nx * self.ny <= self.nx * self.ny * self.nz) by (nonlinear_arith)
            requires
                self.nx * self.ny >= 1,
                self.nz >= 1,
        ;
        self.nx * self.ny * self.nz
    }

    /// The number of the voxel at `(x, y, z)`.
    pub fn at(&self, x: usize, y: usize, z: usize) -> (i: usize)
        requires
            self.wf(),
            self.inside(x as int, y as int, z as int),
        ensures
            i == self.index(x as int, y as int, z as int),
            i < self.volume(),
    {
        proof {
            self.numbering(x as int, y as int, z as int);
            assert(0 <= self.ny * z) by (nonlinear_arith)
                requires
                    self.ny >= 0,
                    z >= 0,
            ;
            assert(y + self.ny * z <= self.nx * (y + self.ny * z)) by (nonlinear_arith)
                requires
                    self.nx >= 1,
                    y + self.ny * z >= 0,
            ;
        }
        x + self.nx * (y + self.ny * z)
    }

    /// The coordinates of voxel `i`.
    pub fn coords(&self, i: usize) -> (c: (usize, usize, usize))
        requires
            self.wf(),
            i < self.volume(),
        ensures
            c.0 == self.x(i as int),
            c.1 == self.y(i as int),
            c.2 == self.z(i as int),
            self.inside(c.0 as int, c.1 as int, c.2 as int),
    {
        proof {
            self.coordinates(i as int);
        }
        let r: usize = i / self.nx;
        (i % self.nx, r % self.ny, r / self.ny)
    }

    /// The voxel `off` steps from `i` along an axis, or the last one that way before the box ends.
    pub fn along(&self, i: usize, axis: usize, off: i64) -> (j: usize)
        requires
            self.wf(),
            i < self.volume(),
            axis < 3,
        ensures
            j < self.volume(),
            self.x(j as int) == (if axis == 0 { clamped(self.x(i as int) + off, self.nx as int) } else { self.x(i as int) }),
            self.y(j as int) == (if axis == 1 { clamped(self.y(i as int) + off, self.ny as int) } else { self.y(i as int) }),
            self.z(j as int) == (if axis == 2 { clamped(self.z(i as int) + off, self.nz as int) } else { self.z(i as int) }),
    {
        let (x, y, z) = self.coords(i);
        let (x, y, z) = if axis == 0 {
            (moved(x, off, self.nx), y, z)
        } else if axis == 1 {
            (x, moved(y, off, self.ny), z)
        } else {
            (x, y, moved(z, off, self.nz))
        };
        proof {
            self.numbering(x as int, y as int, z as int);
        }
        self.at(x, y, z)
    }

    /// The voxel next to `i` in direction `k`, if the box goes on that way.
    pub fn step(&self, i: usize, k: usize) -> (j: Option<usize>)
        requires
            self.wf(),
            i < self.volume(),
            k < 6,
        ensures
            j matches Some(j) ==> self.beside(i as int, k as int) == Some(j as int) && j < self.volume(),
            j is None ==> self.beside(i as int, k as int) is None,
    {
        let (x, y, z) = self.coords(i);
        if k == 0 {
            if x > 0 { Some(self.at(x - 1, y, z)) } else { None }
        } else if k == 1 {
            if x + 1 < self.nx { Some(self.at(x + 1, y, z)) } else { None }
        } else if k == 2 {
            if y > 0 { Some(self.at(x, y - 1, z)) } else { None }
        } else if k == 3 {
            if y + 1 < self.ny { Some(self.at(x, y + 1, z)) } else { None }
        } else if k == 4 {
            if z > 0 { Some(self.at(x, y, z - 1)) } else { None }
        } else {
            if z + 1 < self.nz { Some(self.at(x, y, z + 1)) } else { None }
        }
    }
}

/// One voxel-wide morphological step: with `want` true the marked region grows over every voxel it
/// touches, with `want` false it shrinks by every voxel that touches an unmarked one or the border
/// of the box.
pub open spec fn grown(g: Grid, src: Seq<bool>, want: bool) -> Seq<bool> {
    Seq::new(src.len(), |i: int| if spreads(g, src, want, i) { want } else { src[i] })
}

/// Voxel `i` turns to `want` in one step.
pub open spec fn spreads(g: Grid, src: Seq<bool>, want: bool, i: int) -> bool {
    ||| exists|j: int| #[trigger] g.touching(i, j) && src[j] == want
    ||| !want && g.on_border(i)
}

/// Grow or shrink `src` by one voxel.
pub fn grow(g: &Grid, src: &Vec<bool>, want: bool) -> (out: Vec<bool>)
    requires
        g.wf(),
        src@.len() == g.volume(),
    ensures
        out@ == grown(*g, src@, want),
{
    let n: usize = src.len();
    let mut out: Vec<bool> = Vec::with_capacity(n);
    let mut i: usize = 0;
    while i < n
        invariant
            g.wf(),
            n == src@.len() == g.volume(),
            i <= n,
            out@.len() == i,
            forall|k: int| 0 <= k < i ==> #[trigger] out@[k] == grown(*g, src@, want)[k],
        decreases n - i,
    {
        let mut spread: bool = false;
        let mut k: usize = 0;
        while k < 6
            invariant
                g.wf(),
                n == src@.len() == g.volume(),
                i < n,
                k <= 6,
                spread <==> exists|m: int|
                    0 <= m < k && #[trigger] g.beside(i as int, m) is Some && src@[g.beside(i as int, m)->0] == want,
            decreases 6 - k,
        {
            let next: Option<usize> = g.step(i, k);
            match next {
                Some(j) => {
                    if src[j] == want {
                        spread = true;
                    }
                },
                None => {},
            }
            k = k + 1;
        }
        let (x, y, z) = g.coords(i);
        let edge: bool = x == 0 || x + 1 == g.nx || y == 0 || y + 1 == g.ny || z == 0 || z + 1 == g.nz;
        proof {
            if spread {
                let m = choose|m: int|
                    0 <= m < 6 && #[trigger] g.beside(i as int, m) is Some && src@[g.beside(i as int, m)->0] == want;
                assert(g.touching(i as int, g.beside(i as int, m)->0));
            }
            if exists|j: int| #[trigger] g.touching(i as int, j) && src@[j] == want {
                let j = choose|j: int| #[trigger] g.touching(i as int, j) && src@[j] == want;
                let m = choose|m: int| 0 <= m < 6 && #[trigger] g.beside(i as int, m) == Some(j);
                assert(g.beside(i as int, m) is Some && src@[g.beside(i as int, m)->0] == want);
                assert(spread);
            }
        }
        let turns: bool = spread || (!want && edge);
        assert(turns == spreads(*g, src@, want, i as int));
        if turns {
            out.push(want);
        } else {
            out.push(src[i]);
        }
        i = i + 1;
    }
    assert(out@ =~= grown(*g, src@, want));
    out
}

/// The shell with cracks up to two voxels wide filled: grown by one, shrunk by one, and the
/// given shell put back.
pub open spec fn closed(g: Grid, wall: Seq<bool>) -> Seq<bool> {
    Seq::new(wall.len(), |i: int| wall[i] || grown(g, grown(g, wall, true), false)[i])
}

/// Seal the cracks of a wall mask without bridging its real concavities.
pub fn seal(g: &Grid, wall: &Vec<bool>) -> (out: Vec<bool>)
    requires
        g.wf(),
        wall@.len() == g.volume(),
    ensures
        out@ == closed(*g, wall@),
{
    let fat: Vec<bool> = grow(g, wall, true);
    let mut out: Vec<bool> = grow(g, &fat, false);
    let n: usize = wall.len();
    let mut i: usize = 0;
    while i < n
        invariant
            n == wall@.len(),
            i <= n,
            out@.len() == n,
            grown(*g, grown(*g, wall@, true), false).len() == n,
            forall|k: int| 0 <= k < i ==> #[trigger] out@[k] == closed(*g, wall@)[k],
            forall|k: int| i <= k < n ==> #[trigger] out@[k] == grown(*g, grown(*g, wall@, true), false)[k],
        decreases n - i,
    {
        if wall[i] {
            out.set(i, true);
        }
        i = i + 1;
    }
    assert(out@ =~= closed(*g, wall@));
    out
}

/// A path of touching voxels that starts in the corner and never enters the wall.
pub open spec fn is_escape(g: Grid, wall: Seq<bool>, path: Seq<int>) -> bool {
    &&& path.len() >= 1
    &&& path[0] == 0
    &&& forall|k: int| 0 <= k < path.len() - 1 ==> g.touching(#[trigger] path[k], path[k + 1])
    &&& forall|k: int| 1 <= k < path.len() ==> !wall[#[trigger] path[k]]
}

/// Voxel `i` can be reached from the corner without crossing the wall.
pub open spec fn outside(g: Grid, wall: Seq<bool>, i: int) -> bool {
    exists|path: Seq<int>| is_escape(g, wall, path) && path.last() == i
}

proof fn outside_corner(g: Grid, wall: Seq<bool>)
    ensures
        outside(g, wall, 0),
{
    let p = seq![0int];
    assert(is_escape(g, wall, p) && p.last() == 0);
}

proof fn outside_step(g: Grid, wall: Seq<bool>, i: int, j: int)
    requires
        outside(g, wall, i),
        g.touching(i, j),
        !wall[j],
    ensures
        outside(g, wall, j),
{
    let p = choose|p: Seq<int>| is_escape(g, wall, p) && p.last() == i;
    let q = p.push(j);
    assert forall|k: int| 0 <= k < q.len() - 1 implies g.touching(#[trigger] q[k], q[k + 1]) by {
        if k < p.len() - 1 {
            assert(g.touching(p[k], p[k + 1]));
        }
    }
    assert forall|k: int| 1 <= k < q.len() implies !wall[#[trigger] q[k]] by {
        if k < p.len() {
            assert(!wall[p[k]]);
        }
    }
    assert(is_escape(g, wall, q) && q.last() == j);
}

/// A marked region that holds the corner and every free voxel it touches holds all that is outside.
proof fn outside_covered(g: Grid, wall: Seq<bool>, marked: Seq<bool>, path: Seq<int>)
    requires
        g.wf(),
        wall.len() == marked.len() == g.volume(),
        marked[0],
        forall|i: int, j: int|
            0 <= i < marked.len() && 0 <= j < marked.len() && #[trigger] marked[i] && #[trigger] g.touching(i, j) && !wall[j]
                ==> marked[j],
        is_escape(g, wall, path),
    ensures
        0 <= path.last() < marked.len(),
        marked[path.last()],
    decreases path.len(),
{
    if path.len() == 1 {
        g.coordinates_nonempty();
    } else {
        let p = path.drop_last();
        assert forall|k: int| 0 <= k < p.len() - 1 implies g.touching(#[trigger] p[k], p[k + 1]) by {
            assert(g.touching(path[k], path[k + 1]));
        }
        assert forall|k: int| 1 <= k < p.len() implies !wall[#[trigger] p[k]] by {
            assert(!wall[path[k]]);
        }
        outside_covered(g, wall, marked, p);
        let k = path.len() - 2;
        assert(g.touching(path[k], path[k + 1]));
        let m = choose|m: int| 0 <= m < 6 && #[trigger] g.beside(path[k], m) == Some(path[k + 1]);
        g.beside_coords(path[k], m);
        assert(!wall[path[k + 1]]);
    }
}

impl Grid {
    proof fn coordinates_nonempty(&self)
        requires
            self.wf(),
        ensures
            self.volume() >= 1,
    {
        self.numbering(0, 0, 0);
    }
}

/// Mark every voxel that can be reached from the corner without crossing the wall.
#[verifier::loop_isolation(false)]
pub fn flood(g: &Grid, wall: &Vec<bool>) -> (out: Vec<bool>)
    requires
        g.wf(),
        wall@.len() == g.volume(),
    ensures
        out@.len() == wall@.len(),
        forall|i: int| 0 <= i < out@.len() ==> (#[trigger] out@[i] <==> outside(*g, wall@, i)),
{
    let n: usize = wall.len();
    proof {
        g.coordinates_nonempty();
        outside_corner(*g, wall@);
    }
    let mut out: Vec<bool> = vec![false; n];
    let mut stack: Vec<usize> = Vec::new();
    out.set(0, true);
    stack.push(0);
    assert(stack@[0] == 0);
    assert(stack@.contains(0usize));
    while stack.len() > 0
        invariant
            out@.len() == n,
            out@[0],
            forall|s: int| 0 <= s < stack@.len() ==> (#[trigger] stack@[s]) < n && out@[stack@[s] as int],
            forall|i: int| 0 <= i < n && #[trigger] out@[i] ==> outside(*g, wall@, i),
            forall|i: int, j: int|
                0 <= i < n && 0 <= j < n && #[trigger] out@[i] && #[trigger] g.touching(i, j) && !wall@[j]
                    && !stack@.contains(i as usize) ==> out@[j],
        decreases n - truths(out@), stack@.len(),
    {
        let ghost before = out@;
        let ghost stack0 = stack@;
        let idx: usize = stack.pop().unwrap();
        assert(stack0 =~= stack@.push(idx));
        assert(stack0[stack0.len() - 1] == idx);
        assert(forall|s: int| 0 <= s < stack@.len() ==> stack@[s] == stack0[s]);
        let ghost popped = stack@;
        assert forall|m: int| (#[trigger] g.beside(idx as int, m)) is Some implies 0 <= g.beside(idx as int, m)->0 < n by {
            g.beside_coords(idx as int, m);
        }
        let mut k: usize = 0;
        while k < 6
            invariant
                k <= 6,
                out@.len() == n,
                out@[0],
                out@[idx as int],
                forall|s: int| 0 <= s < stack@.len() ==> (#[trigger] stack@[s]) < n && out@[stack@[s] as int],
                forall|i: int| 0 <= i < n && #[trigger] out@[i] ==> outside(*g, wall@, i),
                forall|i: int| 0 <= i < n && before[i] ==> #[trigger] out@[i],
                forall|i: int| 0 <= i < n && #[trigger] out@[i] && !before[i] ==> stack@.contains(i as usize),
                forall|s: int| 0 <= s < popped.len() ==> s < stack@.len() && #[trigger] stack@[s] == popped[s],
                forall|m: int|
                    0 <= m < k && (#[trigger] g.beside(idx as int, m)) is Some && !wall@[g.beside(idx as int, m)->0]
                        ==> out@[g.beside(idx as int, m)->0],
                truths(out@) + popped.len() == truths(before) + stack@.len(),
                truths(before) <= truths(out@),
            decreases 6 - k,
        {
            let next: Option<usize> = g.step(idx, k);
            match next {
                Some(j) => {
                    if !out[j] && !wall[j] {
                        proof {
                            assert(g.beside(idx as int, k as int) == Some(j as int));
                            assert(g.touching(idx as int, j as int));
                            outside_step(*g, wall@, idx as int, j as int);
                            truths_set(out@, j as int);
                        }
                        let ghost marked0 = out@;
                        let ghost st0 = stack@;
                        out.set(j, true);
                        stack.push(j);
                        assert(stack@[st0.len() as int] == j);
                        assert forall|i: int| 0 <= i < n && #[trigger] out@[i] && !before[i] implies stack@.contains(i as usize) by {
                            if i != j {
                                assert(marked0[i]);
                                assert(st0.contains(i as usize));
                                let s = choose|s: int| 0 <= s < st0.len() && st0[s] == i as usize;
                                assert(stack@[s] == i as usize);
                            }
                        }
                    }
                },
                None => {},
            }
            k = k + 1;
        }
        proof {
            truths_bound(out@);
            assert forall|i: int, j: int|
                0 <= i < n && 0 <= j < n && #[trigger] out@[i] && #[trigger] g.touching(i, j) && !wall@[j]
                    && !stack@.contains(i as usize) implies out@[j] by {
                if i == idx {
                    let m = choose|m: int| 0 <= m < 6 && #[trigger] g.beside(i, m) == Some(j);
                    assert(g.beside(idx as int, m) is Some);
                } else {
                    assert(before[i]);
                    if stack0.contains(i as usize) {
                        let s = choose|s: int| 0 <= s < stack0.len() && stack0[s] == i as usize;
                        assert(s < popped.len());
                        assert(stack@[s] == i as usize);
                    }
                    assert(before[j]);
                }
            }
        }
    }
    proof {
        assert forall|i: int| 0 <= i < n implies (#[trigger] out@[i] <==> outside(*g, wall@, i)) by {
            if outside(*g, wall@, i) {
                let p = choose|p: Seq<int>| is_escape(*g, wall@, p) && p.last() == i;
                outside_covered(*g, wall@, out@, p);
            }
        }
    }
    out
}

/// Voxel `i` touches one on the other side of the surface.
pub open spec fn frontier(g: Grid, solid: Seq<bool>, i: int) -> bool {
    exists|j: int| #[trigger] g.touching(i, j) && solid[j] != solid[i]
}

/// A frontier voxel lies within `d` steps of `i`.
pub open spec fn frontier_within(g: Grid, solid: Seq<bool>, i: int, d: int) -> bool {
    exists|b: int| 0 <= b < solid.len() && frontier(g, solid, b) && #[trigger] g.steps(b, i) <= d
}

/// `d` is the number of steps from `i` to the nearest frontier voxel; `u32::MAX` stands for a mask
/// without a frontier.
pub open spec fn is_distance(g: Grid, solid: Seq<bool>, i: int, d: u32) -> bool {
    if forall|b: int| 0 <= b < solid.len() ==> !#[trigger] frontier(g, solid, b) {
        d == u32::MAX
    } else {
        &&& frontier_within(g, solid, i, d as int)
        &&& forall|b: int| 0 <= b < solid.len() && #[trigger] frontier(g, solid, b) ==> d <= g.steps(b, i)
    }
}

impl Grid {
    proof fn steps_grow_by_one(&self, b: int, i: int, j: int)
        requires
            self.wf(),
            0 <= b < self.volume(),
            0 <= i < self.volume(),
            0 <= j < self.volume(),
            self.touching(i, j),
        ensures
            self.steps(b, j) <= self.steps(b, i) + 1,
    {
        let k = choose|k: int| 0 <= k < 6 && #[trigger] self.beside(i, k) == Some(j);
        self.beside_coords(i, k);
    }

    /// A voxel one step closer to `b`, which touches `j`.
    proof fn closer(&self, b: int, j: int) -> (m: int)
        requires
            self.wf(),
            0 <= b < self.volume(),
            0 <= j < self.volume(),
            b != j,
        ensures
            0 <= m < self.volume(),
            self.touching(m, j),
            self.steps(b, m) == self.steps(b, j) - 1,
    {
        self.coordinates(b);
        self.coordinates(j);
        let (px, py, pz) = (self.x(b), self.y(b), self.z(b));
        let (x, y, z) = (self.x(j), self.y(j), self.z(j));
        let (mx, my, mz): (int, int, int) = if x > px {
            (x - 1, y, z)
        } else if x < px {
            (x + 1, y, z)
        } else if y > py {
            (x, y - 1, z)
        } else if y < py {
            (x, y + 1, z)
        } else if z > pz {
            (x, y, z - 1)
        } else {
            (x, y, z + 1)
        };
        self.numbering(mx, my, mz);
        let m = self.index(mx, my, mz);
        self.touching_is_one_step(m, j);
        m
    }

    proof fn steps_bound(&self, b: int, i: int)
        requires
            self.wf(),
            0 <= b < self.volume(),
            0 <= i < self.volume(),
        ensures
            0 <= self.steps(b, i) < u32::MAX,
            self.steps(b, i) == 0 <==> b == i,
    {
        self.coordinates(b);
        self.coordinates(i);
        assert(self.nx <= self.volume() && self.ny <= self.volume() && self.nz <= self.volume()) by {
            let (nx, ny, nz) = (self.nx as int, self.ny as int, self.nz as int);
            assert(nx * ny >= nx && nx * ny >= ny) by (nonlinear_arith)
                requires
                    nx >= 1,
                    ny >= 1,
            ;
            assert(nx * ny * nz >= nx * ny && nx * ny * nz >= nz) by (nonlinear_arith)
                requires
                    nx * ny >= 1,
                    nz >= 1,
            ;
        }
    }
}

/// Distances that differ by at most one between touching voxels, and are zero on the frontier,
/// never exceed the number of steps to a frontier voxel.
proof fn distance_at_most_steps(g: Grid, solid: Seq<bool>, dist: Seq<u32>, b: int, j: int)
    requires
        g.wf(),
        solid.len() == dist.len() == g.volume(),
        0 <= b < solid.len(),
        0 <= j < solid.len(),
        dist[b] == 0,
        forall|i: int, k: int|
            0 <= i < dist.len() && 0 <= k < dist.len() && #[trigger] g.touching(i, k) && dist[i] != u32::MAX
                ==> dist[k] <= dist[i] + 1,
    ensures
        dist[j] <= g.steps(b, j),
    decreases g.steps(b, j),
{
    g.steps_bound(b, j);
    if b != j {
        let m = g.closer(b, j);
        g.steps_bound(b, m);
        distance_at_most_steps(g, solid, dist, b, m);
    }
}

/// Distance zero for every frontier voxel, which is also queued, and `u32::MAX` for all others.
#[verifier::loop_isolation(false)]
fn seed_frontier(g: &Grid, solid: &Vec<bool>) -> (seeds: (Vec<u32>, Vec<usize>))
    requires
        g.wf(),
        solid@.len() == g.volume(),
    ensures
        seeds.0@.len() == solid@.len(),
        forall|s: int| 0 <= s < seeds.1@.len() ==> (#[trigger] seeds.1@[s]) < solid@.len() && seeds.0@[seeds.1@[s] as int] == 0,
        forall|b: int| 0 <= b < solid@.len() && frontier(*g, solid@, b) ==> #[trigger] seeds.0@[b] == 0,
        forall|b: int| 0 <= b < solid@.len() && #[trigger] seeds.0@[b] != u32::MAX ==> seeds.0@[b] == 0 && frontier(*g, solid@, b) && seeds.1@.contains(b as usize),
{
    let n: usize = solid.len();
    let mut dist: Vec<u32> = vec![u32::MAX; n];
    let mut queue: Vec<usize> = Vec::new();
    let mut i: usize = 0;
    while i < n
        invariant
            i <= n,
            dist@.len() == n,
            forall|s: int| 0 <= s < queue@.len() ==> (#[trigger] queue@[s]) < i && dist@[queue@[s] as int] == 0,
            forall|b: int| 0 <= b < i && frontier(*g, solid@, b) ==> #[trigger] dist@[b] == 0,
            forall|b: int| 0 <= b < n && #[trigger] dist@[b] != u32::MAX ==> b < i && dist@[b] == 0 && frontier(*g, solid@, b) && queue@.contains(b as usize),
        decreases n - i,
    {
        let mut differs: bool = false;
        let mut k: usize = 0;
        while k < 6
            invariant
                k <= 6,
                differs <==> exists|m: int|
                    0 <= m < k && #[trigger] g.beside(i as int, m) is Some
                        && solid@[g.beside(i as int, m)->0] != solid@[i as int],
            decreases 6 - k,
        {
            let next: Option<usize> = g.step(i, k);
            match next {
                Some(j) => {
                    if solid[j] != solid[i] {
                        differs = true;
                    }
                },
                None => {},
            }
            k = k + 1;
        }
        proof {
            if differs {
                let m = choose|m: int|
                    0 <= m < 6 && #[trigger] g.beside(i as int, m) is Some
                        && solid@[g.beside(i as int, m)->0] != solid@[i as int];
                assert(g.touching(i as int, g.beside(i as int, m)->0));
            }
            if frontier(*g, solid@, i as int) {
                let j = choose|j: int| #[trigger] g.touching(i as int, j) && solid@[j] != solid@[i as int];
                let m = choose|m: int| 0 <= m < 6 && #[trigger] g.beside(i as int, m) == Some(j);
                assert(g.beside(i as int, m) is Some);
            }
        }
        let ghost queue0 = queue@;
        let ghost dist0 = dist@;
        if differs {
            dist.set(i, 0);
            queue.push(i);
            proof {
                assert(queue@[queue0.len() as int] == i);
                assert forall|b: int| 0 <= b < n && #[trigger] dist@[b] != u32::MAX implies b < i + 1 && dist@[b] == 0 && frontier(*g, solid@, b) && queue@.contains(b as usize) by {
                    if b != i {
                        assert(dist0[b] != u32::MAX);
                        let s = choose|s: int| 0 <= s < queue0.len() && queue0[s] == b as usize;
                        assert(queue@[s] == b as usize);
                    }
                }
            }
        }
        i = i + 1;
    }
    (dist, queue)
}

/// The number of steps from every voxel to the nearest one on the frontier of `solid`.
#[verifier::loop_isolation(false)]
pub fn boundary_distances(g: &Grid, solid: &Vec<bool>) -> (dist: Vec<u32>)
    requires
        g.wf(),
        solid@.len() == g.volume(),
    ensures
        dist@.len() == solid@.len(),
        forall|i: int| 0 <= i < dist@.len() ==> is_distance(*g, solid@, i, #[trigger] dist@[i]),
{
    let n: usize = solid.len();
    let (mut dist, mut queue) = seed_frontier(g, solid);
    proof {
        assert forall|b: int| 0 <= b < n && #[trigger] dist@[b] != u32::MAX implies frontier_within(*g, solid@, b, dist@[b] as int) by {
            g.steps_bound(b, b);
            assert(g.steps(b, b) <= dist@[b]);
        }
    }
    assert(queue@.skip(0) =~= queue@);
    let mut head: usize = 0;
    while head < queue.len()
        invariant
            head <= queue@.len(),
            dist@.len() == n,
            forall|s: int| 0 <= s < queue@.len() ==> (#[trigger] queue@[s]) < n && dist@[queue@[s] as int] != u32::MAX,
            forall|b: int| 0 <= b < n && frontier(*g, solid@, b) ==> #[trigger] dist@[b] == 0,
            forall|b: int| 0 <= b < n && #[trigger] dist@[b] != u32::MAX ==> frontier_within(*g, solid@, b, dist@[b] as int),
            forall|i: int, j: int|
                0 <= i < n && 0 <= j < n && #[trigger] g.touching(i, j) && dist@[i] != u32::MAX
                    && !queue@.skip(head as int).contains(i as usize) ==> dist@[j] <= dist@[i] + 1,
        decreases sum_u32(dist@), queue@.len() - head,
    {
        let ghost dist0 = dist@;
        let ghost queue0 = queue@;
        let ghost head0 = head as int;
        let idx: usize = queue[head];
        head = head + 1;
        let d: u32 = dist[idx] + 1;
        assert forall|m: int| (#[trigger] g.beside(idx as int, m)) is Some implies 0 <= g.beside(idx as int, m)->0 < n by {
            g.beside_coords(idx as int, m);
        }
        let mut k: usize = 0;
        while k < 6
            invariant
                k <= 6,
                dist@.len() == n,
                head <= queue@.len(),
                dist@[idx as int] == dist0[idx as int],
                forall|s: int| 0 <= s < queue@.len() ==> (#[trigger] queue@[s]) < n && dist@[queue@[s] as int] != u32::MAX,
                queue0.len() <= queue@.len(),
                forall|s: int| 0 <= s < queue0.len() ==> queue@[s] == #[trigger] queue0[s],
                forall|b: int| 0 <= b < n && frontier(*g, solid@, b) ==> #[trigger] dist@[b] == 0,
                forall|b: int| 0 <= b < n && #[trigger] dist@[b] != u32::MAX ==> frontier_within(*g, solid@, b, dist@[b] as int),
                forall|b: int| 0 <= b < n ==> #[trigger] dist@[b] <= dist0[b],
                forall|b: int| 0 <= b < n && #[trigger] dist@[b] != dist0[b] ==> queue@.skip(head as int).contains(b as usize),
                forall|m: int|
                    0 <= m < k && (#[trigger] g.beside(idx as int, m)) is Some ==> dist@[g.beside(idx as int, m)->0] <= d,
                sum_u32(dist@) <= sum_u32(dist0),
                sum_u32(dist@) == sum_u32(dist0) ==> queue@.len() == queue0.len(),
            decreases 6 - k,
        {
            let next: Option<usize> = g.step(idx, k);
            match next {
                Some(j) => {
                    if d < dist[j] {
                        let ghost dist1 = dist@;
                        let ghost queue1 = queue@;
                        proof {
                            assert(g.beside(idx as int, k as int) == Some(j as int));
                            assert(g.touching(idx as int, j as int));
                            let b = choose|b: int|
                                0 <= b < solid@.len() && frontier(*g, solid@, b)
                                    && #[trigger] g.steps(b, idx as int) <= dist@[idx as int];
                            assert(dist@[idx as int] != u32::MAX);
                            assert(frontier_within(*g, solid@, idx as int, dist@[idx as int] as int));
                            g.steps_grow_by_one(b, idx as int, j as int);
                            assert(frontier_within(*g, solid@, j as int, d as int));
                            sum_u32_set(dist@, j as int, d);
                        }
                        dist.set(j, d);
                        queue.push(j);
                        proof {
                            assert(queue@[queue1.len() as int] == j);
                            assert(queue@.skip(head as int)[queue1.len() - head] == j);
                            assert forall|b: int| 0 <= b < n && #[trigger] dist@[b] != dist0[b] implies queue@.skip(head as int).contains(b as usize) by {
                                if b != j {
                                    assert(dist1[b] != dist0[b]);
                                    let t = queue1.skip(head as int);
                                    let s = choose|s: int| 0 <= s < t.len() && t[s] == b as usize;
                                    assert(queue@.skip(head as int)[s] == b as usize);
                                }
                            }
                        }
                    }
                },
                None => {},
            }
            k = k + 1;
        }
        proof {
            assert forall|i: int, j: int|
                0 <= i < n && 0 <= j < n && #[trigger] g.touching(i, j) && dist@[i] != u32::MAX
                    && !queue@.skip(head as int).contains(i as usize) implies dist@[j] <= dist@[i] + 1 by {
                assert(dist@[i] == dist0[i]);
                if i == idx {
                    let m = choose|m: int| 0 <= m < 6 && #[trigger] g.beside(i, m) == Some(j);
                    assert(g.beside(idx as int, m) is Some);
                } else {
                    if queue0.skip(head0).contains(i as usize) {
                        let t = queue0.skip(head0);
                        let s = choose|s: int| 0 <= s < t.len() && t[s] == i as usize;
                        assert(t[0] == idx);
                        assert(queue@[head0 + s] == queue0[head0 + s]);
                        assert(queue@.skip(head as int)[s - 1] == i as usize);
                    }
                    assert(dist0[j] <= dist0[i] + 1);
                    assert(dist@[j] <= dist0[j]);
                }
            }
        }
    }
    proof {
        assert forall|i: int| 0 <= i < n implies is_distance(*g, solid@, i, #[trigger] dist@[i]) by {
            if forall|b: int| 0 <= b < solid@.len() ==> !#[trigger] frontier(*g, solid@, b) {
                if dist@[i] != u32::MAX {
                    let b = choose|b: int|
                        0 <= b < solid@.len() && frontier(*g, solid@, b) && #[trigger] g.steps(b, i) <= dist@[i];
                }
            } else {
                assert forall|b: int| 0 <= b < solid@.len() && #[trigger] frontier(*g, solid@, b) implies dist@[i] <= g.steps(b, i) by {
                    assert(dist@[b] == 0);
                    distance_at_most_steps(*g, solid@, dist@, b, i);
                }
                let b = choose|b: int| 0 <= b < solid@.len() && #[trigger] frontier(*g, solid@, b);
                g.steps_bound(b, i);
                assert(dist@[i] != u32::MAX);
            }
        }
    }
    dist
}

/// What the remesher knows of a rasterised part: which voxels are solid, and how many steps each
/// lies from the boundary.
pub struct Shell {
    pub solid: Vec<bool>,
    pub dist: Vec<u32>,
}

/// Every voxel that the outside flood cannot reach once the wall is sealed.
pub open spec fn enclosed(g: Grid, wall: Seq<bool>) -> Seq<bool> {
    Seq::new(wall.len(), |i: int| !outside(g, closed(g, wall), i))
}

/// Seal the wall, flood around it, and measure what is left. `None` when nothing is left: the wall
/// encloses nothing, not even itself.
pub fn enclose(g: &Grid, wall: &Vec<bool>) -> (shell: Option<Shell>)
    requires
        g.wf(),
        wall@.len() == g.volume(),
    ensures
        shell is None <==> forall|i: int| 0 <= i < wall@.len() ==> !#[trigger] enclosed(*g, wall@)[i],
        shell matches Some(s) ==> {
            &&& s.solid@ == enclosed(*g, wall@)
            &&& s.dist@.len() == wall@.len()
            &&& forall|i: int| 0 <= i < wall@.len() ==> is_distance(*g, s.solid@, i, #[trigger] s.dist@[i])
        },
{
    let tight: Vec<bool> = seal(g, wall);
    let air: Vec<bool> = flood(g, &tight);
    let n: usize = air.len();
    let mut solid: Vec<bool> = Vec::with_capacity(n);
    let mut any: bool = false;
    let mut i: usize = 0;
    while i < n
        invariant
            i <= n,
            n == air@.len() == wall@.len(),
            tight@ == closed(*g, wall@),
            solid@.len() == i,
            forall|k: int| 0 <= k < n ==> (#[trigger] air@[k] <==> outside(*g, tight@, k)),
            forall|k: int| 0 <= k < i ==> #[trigger] solid@[k] == enclosed(*g, wall@)[k],
            any <==> exists|k: int| 0 <= k < i && #[trigger] solid@[k],
        decreases n - i,
    {
        let ghost solid0 = solid@;
        solid.push(!air[i]);
        if !air[i] {
            any = true;
            assert(solid@[i as int]);
        }
        assert(forall|k: int| 0 <= k < i ==> solid@[k] == solid0[k]);
        i = i + 1;
    }
    assert(solid@ =~= enclosed(*g, wall@));
    if !any {
        return None;
    }
    let dist: Vec<u32> = boundary_distances(g, &solid);
    proof {
        let k = choose|k: int| 0 <= k < n && #[trigger] solid@[k];
        assert(enclosed(*g, wall@)[k]);
    }
    Some(Shell { solid, dist })
}

/// The voxels near enough to the boundary for an exact distance, in order.
pub open spec fn near_band(dist: Seq<u32>) -> Seq<usize>
    decreases dist.len(),
{
    if dist.len() == 0 {
        Seq::empty()
    } else if dist.last() <= BAND {
        near_band(dist.drop_last()).push((dist.len() - 1) as usize)
    } else {
        near_band(dist.drop_last())
    }
}

/// How many steps a voxel lies inside the boundary, less than nothing outside it. One that the
/// boundary cannot be reached from counts as `far` away.
pub open spec fn depth(solid: bool, dist: u32, far: u32) -> int {
    let d = if dist == u32::MAX {
        far as int
    } else {
        dist as int
    };
    if solid {
        d
    } else {
        -d
    }
}

/// How many steps every voxel lies inside the boundary.
pub fn depths(shell: &Shell, far: u32) -> (out: Vec<i64>)
    requires
        shell.solid@.len() == shell.dist@.len(),
    ensures
        out@.len() == shell.dist@.len(),
        forall|i: int| 0 <= i < out@.len() ==> #[trigger] out@[i] == depth(shell.solid@[i], shell.dist@[i], far),
{
    let mut out: Vec<i64> = Vec::with_capacity(shell.dist.len());
    let mut i: usize = 0;
    while i < shell.dist.len()
        invariant
            shell.solid@.len() == shell.dist@.len(),
            i <= shell.dist@.len(),
            out@.len() == i,
            forall|j: int| 0 <= j < i ==> #[trigger] out@[j] == depth(shell.solid@[j], shell.dist@[j], far),
        decreases shell.dist@.len() - i,
    {
        let steps: u32 = if shell.dist[i] == u32::MAX {
            far
        } else {
            shell.dist[i]
        };
        let d: i64 = steps as i64;
        out.push(if shell.solid[i] { d } else { -d });
        i = i + 1;
    }
    out
}

/// List the voxels within `BAND` steps of the boundary.
pub fn band(dist: &Vec<u32>) -> (out: Vec<usize>)
    ensures
        out@ == near_band(dist@),
{
    let mut out: Vec<usize> = Vec::new();
    let mut i: usize = 0;
    while i < dist.len()
        invariant
            i <= dist@.len(),
            out@ == near_band(dist@.take(i as int)),
        decreases dist@.len() - i,
    {
        assert(dist@.take(i + 1).drop_last() =~= dist@.take(i as int));
        if dist[i] <= BAND {
            out.push(i);
        }
        i = i + 1;
    }
    assert(dist@.take(i as int) =~= dist@);
    out
}

/// What the nearest triangle's normal says of a band voxel.
#[derive(Clone, Copy, PartialEq, Eq, Structural, Debug)]
pub enum Facing {
    /// The voxel lies on the side that the normal points to.
    Out,
    /// It lies behind the triangle.
    In,
    /// It lies in the triangle's plane, or the triangle has no normal.
    Unknown,
}

/// The verdict matches the flood fill's.
pub open spec fn agrees(solid: Seq<bool>, v: (usize, Facing)) -> bool {
    v.1 != Facing::Unknown && (v.1 == Facing::Out) != solid[v.0 as int]
}

/// The verdict contradicts the flood fill's.
pub open spec fn disagrees(solid: Seq<bool>, v: (usize, Facing)) -> bool {
    v.1 != Facing::Unknown && (v.1 == Facing::Out) == solid[v.0 as int]
}

pub open spec fn votes_for(solid: Seq<bool>, votes: Seq<(usize, Facing)>) -> nat {
    truths(Seq::new(votes.len(), |k: int| agrees(solid, votes[k])))
}

pub open spec fn votes_against(solid: Seq<bool>, votes: Seq<(usize, Facing)>) -> nat {
    truths(Seq::new(votes.len(), |k: int| disagrees(solid, votes[k])))
}

/// The winding is inverted: more verdicts contradict the flood fill than match it.
pub open spec fn inverted(solid: Seq<bool>, votes: Seq<(usize, Facing)>) -> bool {
    votes_against(solid, votes) > votes_for(solid, votes)
}

/// Count the band's verdicts against the flood fill's.
pub fn winding_inverted(solid: &Vec<bool>, votes: &Vec<(usize, Facing)>) -> (flip: bool)
    requires
        forall|k: int| 0 <= k < votes@.len() ==> (#[trigger] votes@[k]).0 < solid@.len(),
    ensures
        flip == inverted(solid@, votes@),
{
    let mut agree: usize = 0;
    let mut disagree: usize = 0;
    let mut k: usize = 0;
    let ghost yes = Seq::new(votes@.len(), |k: int| agrees(solid@, votes@[k]));
    let ghost no = Seq::new(votes@.len(), |k: int| disagrees(solid@, votes@[k]));
    while k < votes.len()
        invariant
            k <= votes@.len(),
            forall|k: int| 0 <= k < votes@.len() ==> (#[trigger] votes@[k]).0 < solid@.len(),
            yes == Seq::new(votes@.len(), |k: int| agrees(solid@, votes@[k])),
            no == Seq::new(votes@.len(), |k: int| disagrees(solid@, votes@[k])),
            agree == truths(yes.take(k as int)),
            disagree == truths(no.take(k as int)),
            agree + disagree <= k,
        decreases votes@.len() - k,
    {
        let v: (usize, Facing) = votes[k];
        assert(yes.take(k + 1).drop_last() =~= yes.take(k as int));
        assert(no.take(k + 1).drop_last() =~= no.take(k as int));
        if v.1 != Facing::Unknown {
            if (v.1 == Facing::Out) != solid[v.0] {
                agree = agree + 1;
            } else {
                disagree = disagree + 1;
            }
        }
        k = k + 1;
    }
    assert(yes.take(k as int) =~= yes);
    assert(no.take(k as int) =~= no);
    disagree > agree
}

/// Which side a band voxel is on: the normal's verdict, turned round where the winding is
/// inverted, or the flood fill's where the normal has none.
pub open spec fn side(solid: bool, facing: Facing, flip: bool) -> bool {
    match facing {
        Facing::Unknown => solid,
        Facing::In => !flip,
        Facing::Out => flip,
    }
}

/// Is a band voxel inside the part?
pub fn is_inside(solid: bool, facing: Facing, flip: bool) -> (inside: bool)
    ensures
        inside == side(solid, facing, flip),
{
    match facing {
        Facing::Unknown => solid,
        Facing::In => !flip,
        Facing::Out => flip,
    }
}

/// Sealing only adds: every wall voxel stays, and every voxel added touches the wall.
pub proof fn sealing_stays_at_the_wall(g: Grid, wall: Seq<bool>, i: int)
    requires
        0 <= i < wall.len(),
    ensures
        wall[i] ==> closed(g, wall)[i],
        closed(g, wall)[i] && !wall[i] ==> exists|j: int| #[trigger] g.touching(i, j) && wall[j],
{
    let fat = grown(g, wall, true);
    if closed(g, wall)[i] && !wall[i] {
        assert(grown(g, fat, false)[i]);
        assert(fat[i]);
        assert(spreads(g, wall, true, i));
    }
}

/// The wall itself is never outside, save for the corner that the flood starts from.
pub proof fn walls_are_enclosed(g: Grid, wall: Seq<bool>, i: int)
    requires
        0 < i < wall.len(),
        wall[i],
    ensures
        enclosed(g, wall)[i],
{
    let tight = closed(g, wall);
    if outside(g, tight, i) {
        let p = choose|p: Seq<int>| is_escape(g, tight, p) && p.last() == i;
        assert(p.len() > 1);
        assert(!tight[p[p.len() - 1]]);
    }
}

impl Grid {
    proof fn outside_beside(&self, wall: Seq<bool>, i: int, j: int)
        requires
            self.wf(),
            0 <= i < self.volume(),
            0 <= j < self.volume(),
            outside(*self, wall, i),
            self.steps(i, j) == 1,
            !wall[j],
        ensures
            outside(*self, wall, j),
    {
        self.touching_is_one_step(i, j);
        outside_step(*self, wall, i, j);
    }

    /// With a free border, the voxels of the line `(0..nx, y, z)` are all outside once its first is,
    /// as long as the line stays on the border.
    proof fn outside_along_x(&self, wall: Seq<bool>, x: int, y: int, z: int)
        requires
            self.wf(),
            self.inside(x, y, z),
            y == 0 || y + 1 == self.ny || z == 0 || z + 1 == self.nz,
            forall|i: int| 0 <= i < self.volume() && #[trigger] self.on_border(i) ==> !wall[i],
            outside(*self, wall, self.index(0, y, z)),
        ensures
            outside(*self, wall, self.index(x, y, z)),
        decreases x,
    {
        if x > 0 {
            self.outside_along_x(wall, x - 1, y, z);
            self.numbering(x - 1, y, z);
            self.numbering(x, y, z);
            assert(self.on_border(self.index(x, y, z)));
            self.outside_beside(wall, self.index(x - 1, y, z), self.index(x, y, z));
        }
    }

    proof fn outside_along_y(&self, wall: Seq<bool>, x: int, y: int, z: int)
        requires
            self.wf(),
            self.inside(x, y, z),
            x == 0 || x + 1 == self.nx || z == 0 || z + 1 == self.nz,
            forall|i: int| 0 <= i < self.volume() && #[trigger] self.on_border(i) ==> !wall[i],
            outside(*self, wall, self.index(x, 0, z)),
        ensures
            outside(*self, wall, self.index(x, y, z)),
        decreases y,
    {
        if y > 0 {
            self.outside_along_y(wall, x, y - 1, z);
            self.numbering(x, y - 1, z);
            self.numbering(x, y, z);
            assert(self.on_border(self.index(x, y, z)));
            self.outside_beside(wall, self.index(x, y - 1, z), self.index(x, y, z));
        }
    }

    proof fn outside_along_z(&self, wall: Seq<bool>, x: int, y: int, z: int)
        requires
            self.wf(),
            self.inside(x, y, z),
            x == 0 || x + 1 == self.nx || y == 0 || y + 1 == self.ny,
            forall|i: int| 0 <= i < self.volume() && #[trigger] self.on_border(i) ==> !wall[i],
            outside(*self, wall, self.index(x, y, 0)),
        ensures
            outside(*self, wall, self.index(x, y, z)),
        decreases z,
    {
        if z > 0 {
            self.outside_along_z(wall, x, y, z - 1);
            self.numbering(x, y, z - 1);
            self.numbering(x, y, z);
            assert(self.on_border(self.index(x, y, z)));
            self.outside_beside(wall, self.index(x, y, z - 1), self.index(x, y, z));
        }
    }
}

/// A part that keeps clear of the border of the box leaves a shell of outside voxels around
/// itself: no border voxel is ever solid.
pub proof fn margin_stays_outside(g: Grid, wall: Seq<bool>, i: int)
    requires
        g.wf(),
        wall.len() == g.volume(),
        forall|k: int| 0 <= k < wall.len() && #[trigger] g.on_border(k) ==> !wall[k],
        0 <= i < wall.len(),
        g.on_border(i),
    ensures
        !enclosed(g, wall)[i],
{
    let tight = closed(g, wall);
    assert forall|k: int| 0 <= k < g.volume() && #[trigger] g.on_border(k) implies !tight[k] by {
        assert(spreads(g, grown(g, wall, true), false, k));
    }
    outside_corner(g, tight);
    g.coordinates(i);
    let (x, y, z) = (g.x(i), g.y(i), g.z(i));
    assert(g.index(0, 0, 0) == 0);
    if x == 0 || x + 1 == g.nx {
        g.outside_along_x(tight, x, 0, 0);
        g.outside_along_y(tight, x, y, 0);
        g.outside_along_z(tight, x, y, z);
    } else if y == 0 || y + 1 == g.ny {
        g.outside_along_y(tight, 0, y, 0);
        g.outside_along_x(tight, x, y, 0);
        g.outside_along_z(tight, x, y, z);
    } else {
        g.outside_along_z(tight, 0, 0, z);
        g.outside_along_x(tight, x, 0, z);
        g.outside_along_y(tight, x, y, z);
    }
}

/// The verdict of the same triangle wound the other way.
pub open spec fn reversed(facing: Facing) -> Facing {
    match facing {
        Facing::Out => Facing::In,
        Facing::In => Facing::Out,
        Facing::Unknown => Facing::Unknown,
    }
}

/// A mesh wound inside out remeshes to the same solid: with every verdict reversed, each band
/// voxel still lands on the same side, unless the vote was an exact tie.
pub proof fn winding_does_not_matter(solid: Seq<bool>, votes: Seq<(usize, Facing)>, k: int)
    requires
        0 <= k < votes.len(),
        votes_for(solid, votes) != votes_against(solid, votes),
    ensures
        ({
            let turned = Seq::new(votes.len(), |m: int| (votes[m].0, reversed(votes[m].1)));
            let here = solid[votes[k].0 as int];
            side(here, turned[k].1, inverted(solid, turned)) == side(here, votes[k].1, inverted(solid, votes))
        }),
{
    let turned = Seq::new(votes.len(), |m: int| (votes[m].0, reversed(votes[m].1)));
    assert(Seq::new(turned.len(), |m: int| agrees(solid, turned[m])) =~= Seq::new(
        votes.len(),
        |m: int| disagrees(solid, votes[m]),
    ));
    assert(Seq::new(turned.len(), |m: int| disagrees(solid, turned[m])) =~= Seq::new(
        votes.len(),
        |m: int| agrees(solid, votes[m]),
    ));
}

/// Growing reaches what is one step away, and nothing further.
#[verifier::spinoff_prover]
#[verifier::rlimit(50)]
pub proof fn growing_reaches_one_step(g: Grid, src: Seq<bool>, i: int)
    requires
        g.wf(),
        src.len() == g.volume(),
        0 <= i < src.len(),
    ensures
        grown(g, src, true).len() == src.len(),
        grown(g, src, true)[i] <==> src[i] || exists|j: int| 0 <= j < src.len() && #[trigger] g.steps(i, j) == 1 && src[j],
{
    if spreads(g, src, true, i) {
        let j = choose|j: int| #[trigger] g.touching(i, j) && src[j] == true;
        let k = choose|k: int| 0 <= k < 6 && #[trigger] g.beside(i, k) == Some(j);
        g.beside_coords(i, k);
        g.touching_is_one_step(i, j);
        assert(g.steps(i, j) == 1 && src[j]);
    }
    if exists|j: int| 0 <= j < src.len() && #[trigger] g.steps(i, j) == 1 && src[j] {
        let j = choose|j: int| 0 <= j < src.len() && #[trigger] g.steps(i, j) == 1 && src[j];
        g.touching_is_one_step(i, j);
        assert(g.touching(i, j) && src[j] == true);
    }
}

/// Shrinking leaves what is whole for one step around, and clears the border of the box.
#[verifier::spinoff_prover]
#[verifier::rlimit(50)]
pub proof fn shrinking_needs_one_step(g: Grid, src: Seq<bool>, i: int)
    requires
        g.wf(),
        src.len() == g.volume(),
        0 <= i < src.len(),
    ensures
        grown(g, src, false).len() == src.len(),
        grown(g, src, false)[i] <==> src[i] && 0 < g.x(i) < g.nx - 1 && 0 < g.y(i) < g.ny - 1 && 0 < g.z(i) < g.nz - 1 && forall|j: int|
            0 <= j < src.len() && #[trigger] g.steps(i, j) == 1 ==> src[j],
{
    g.coordinates(i);
    if spreads(g, src, false, i) && !g.on_border(i) {
        let j = choose|j: int| #[trigger] g.touching(i, j) && src[j] == false;
        let k = choose|k: int| 0 <= k < 6 && #[trigger] g.beside(i, k) == Some(j);
        g.beside_coords(i, k);
        g.touching_is_one_step(i, j);
        assert(g.steps(i, j) == 1 && !src[j]);
    }
    if exists|j: int| 0 <= j < src.len() && #[trigger] g.steps(i, j) == 1 && !src[j] {
        let j = choose|j: int| 0 <= j < src.len() && #[trigger] g.steps(i, j) == 1 && !src[j];
        g.touching_is_one_step(i, j);
        assert(g.touching(i, j) && src[j] == false);
    }
}

/// The band holds the voxels within two steps of the boundary, in order.
pub proof fn bands_are_two_steps_wide(dist: Seq<u32>)
    ensures
        near_band(dist) == Seq::new(dist.len(), |i: int| i).filter(|i: int| dist[i] <= 2).map_values(|i: int| i as usize),
    decreases dist.len(),
{
    reveal(Seq::filter);
    let (test, made) = (|i: int| dist[i] <= 2, |i: int| i as usize);
    let all = Seq::new(dist.len(), |i: int| i);
    if dist.len() > 0 {
        let n = dist.len() as int;
        let short = dist.drop_last();
        bands_are_two_steps_wide(short);
        let rest = Seq::new(short.len(), |i: int| i);
        assert(all.drop_last() =~= rest);
        assert(all.last() == n - 1);
        same_picks(rest, |i: int| short[i] <= 2, test);
        let kept = rest.filter(test);
        assert(kept.push(n - 1).map_values(made) =~= kept.map_values(made).push(made(n - 1)));
        assert(near_band(dist) =~= all.filter(test).map_values(made));
    } else {
        assert(near_band(dist) =~= all.filter(test).map_values(made));
    }
}

proof fn same_picks(s: Seq<int>, p: spec_fn(int) -> bool, q: spec_fn(int) -> bool)
    requires
        forall|i: int| 0 <= i < s.len() ==> #[trigger] p(s[i]) == q(s[i]),
    ensures
        s.filter(p) == s.filter(q),
    decreases s.len(),
{
    reveal(Seq::filter);
    if s.len() > 0 {
        let r = s.drop_last();
        assert forall|i: int| 0 <= i < r.len() implies #[trigger] p(r[i]) == q(r[i]) by {
            assert(p(s[i]) == q(s[i]));
        }
        same_picks(r, p, q);
        assert(p(s[s.len() - 1]) == q(s[s.len() - 1]));
    }
}

/// A voxel is as deep inside the part as it would be high outside it, and one without a boundary in
/// reach counts as far away.
pub proof fn depths_are_signed(dist: u32, far: u32)
    ensures
        depth(true, dist, far) == -depth(false, dist, far),
        depth(true, dist, far) >= 0,
        dist != u32::MAX ==> depth(true, dist, far) == dist,
        depth(true, u32::MAX, far) == far,
{
}

/// A verdict agrees with the flood fill where taking it as it stands gives the side that the fill gave,
/// and contradicts it where turning it round does; without a verdict it does neither, and the fill
/// decides.
pub proof fn verdicts_choose_sides(solid: Seq<bool>, v: (usize, Facing), flip: bool)
    ensures
        ({
            let here = solid[v.0 as int];
            &&& v.1 == Facing::In ==> side(here, v.1, false) && !side(here, v.1, true)
            &&& v.1 == Facing::Out ==> !side(here, v.1, false) && side(here, v.1, true)
            &&& v.1 == Facing::Unknown ==> side(here, v.1, flip) == here && !agrees(solid, v) && !disagrees(solid, v)
            &&& v.1 != Facing::Unknown ==> agrees(solid, v) == (side(here, v.1, false) == here) && disagrees(solid, v) == (side(
                here,
                v.1,
                true,
            ) == here)
        }),
{
}

/// The winding is taken as inverted where the contradicting verdicts outnumber the agreeing ones: a tie
/// leaves it as it is.
pub proof fn the_majority_decides(solid: Seq<bool>, votes: Seq<(usize, Facing)>)
    ensures
        inverted(solid, votes) <==> votes.filter(|v: (usize, Facing)| v.1 == Facing::In && solid[v.0 as int] || v.1 == Facing::Out && !solid[v.0 as int]).len()
            < votes.filter(|v: (usize, Facing)| v.1 == Facing::In && !solid[v.0 as int] || v.1 == Facing::Out && solid[v.0 as int]).len(),
{
    let p = |v: (usize, Facing)| v.1 == Facing::In && solid[v.0 as int] || v.1 == Facing::Out && !solid[v.0 as int];
    let q = |v: (usize, Facing)| v.1 == Facing::In && !solid[v.0 as int] || v.1 == Facing::Out && solid[v.0 as int];
    ballots(votes, p);
    ballots(votes, q);
    assert(Seq::new(votes.len(), |k: int| agrees(solid, votes[k])) =~= Seq::new(votes.len(), |k: int| p(votes[k])));
    assert(Seq::new(votes.len(), |k: int| disagrees(solid, votes[k])) =~= Seq::new(votes.len(), |k: int| q(votes[k])));
}

proof fn ballots(votes: Seq<(usize, Facing)>, p: spec_fn((usize, Facing)) -> bool)
    ensures
        truths(Seq::new(votes.len(), |k: int| p(votes[k]))) == votes.filter(p).len(),
    decreases votes.len(),
{
    reveal(Seq::filter);
    let marks = Seq::new(votes.len(), |k: int| p(votes[k]));
    if votes.len() > 0 {
        let rest = votes.drop_last();
        ballots(rest, p);
        assert(marks.drop_last() =~= Seq::new(rest.len(), |k: int| p(rest[k])));
    }
}

/// Flooding goes on: the corner is outside, and so is every voxel off the wall that is one step from
/// one that is; behind a wall there are only voxels that no such step reaches.
pub proof fn the_outside_spreads(g: Grid, wall: Seq<bool>, i: int, j: int)
    requires
        g.wf(),
        wall.len() == g.volume(),
        0 <= i < wall.len(),
        0 <= j < wall.len(),
    ensures
        outside(g, wall, 0),
        outside(g, wall, i) && g.steps(i, j) == 1 && !wall[j] ==> outside(g, wall, j),
        outside(g, wall, i) && i != 0 ==> !wall[i],
{
    outside_corner(g, wall);
    if outside(g, wall, i) && g.steps(i, j) == 1 && !wall[j] {
        g.outside_beside(wall, i, j);
    }
    if outside(g, wall, i) && i != 0 {
        let p = choose|p: Seq<int>| is_escape(g, wall, p) && p.last() == i;
        assert(p.len() > 1);
        assert(!wall[p[p.len() - 1]]);
    }
}

} // verus!
