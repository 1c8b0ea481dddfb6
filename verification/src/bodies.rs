//! Bodies made of several shells: solids turned from several loops, slabs over a patch of a face, and
//! lofts through several profiles.

use vstd::prelude::*;

use crate::mesh::{consistent, met, proper, runs, side_of, watertight, EdgeTable, Tri};
use crate::solids::{tube, tube_tris, tube_watertight};

verus! {

/// The triangles with `base` added to every vertex number.
pub open spec fn shifted(tris: Seq<Tri>, base: int) -> Seq<Tri> {
    Seq::new(
        tris.len(),
        |t: int| Tri { a: (tris[t].a + base) as usize, b: (tris[t].b + base) as usize, c: (tris[t].c + base) as usize },
    )
}

/// Every vertex number is below `n`.
pub open spec fn within(tris: Seq<Tri>, n: int) -> bool {
    forall|t: int| 0 <= t < tris.len() ==> (#[trigger] tris[t]).a < n && tris[t].b < n && tris[t].c < n
}

/// Append triangles with `base` added to every vertex number.
#[verifier::loop_isolation(false)]
fn append_shifted(out: &mut Vec<Tri>, tris: &Vec<Tri>, base: usize, Ghost(n): Ghost<int>)
    requires
        within(tris@, n),
        base + n <= usize::MAX,
    ensures
        final(out)@ == old(out)@ + shifted(tris@, base as int),
{
    let ghost before = out@;
    let mut t: usize = 0;
    while t < tris.len()
        invariant
            t <= tris@.len(),
            out@ == before + shifted(tris@, base as int).take(t as int),
        decreases tris@.len() - t,
    {
        let x: Tri = tris[t];
        assert(tris@[t as int].a < n);
        out.push(Tri { a: x.a + base, b: x.b + base, c: x.c + base });
        t = t + 1;
        assert(out@ =~= before + shifted(tris@, base as int).take(t as int));
    }
    assert(shifted(tris@, base as int).take(t as int) =~= shifted(tris@, base as int));
}

proof fn shifted_runs(tris: Seq<Tri>, base: int, n: int, t: int, p: usize, q: usize)
    requires
        within(tris, n),
        0 <= base,
        base + n <= usize::MAX,
        0 <= t < tris.len(),
    ensures
        runs(shifted(tris, base)[t], p, q) <==> p >= base && q >= base && runs(tris[t], (p - base) as usize, (q - base) as usize),
{
    let s = shifted(tris, base)[t];
    let x = tris[t];
    assert(x.a < n);
    if runs(s, p, q) {
        let k = choose|k: int| 0 <= k < 3 && #[trigger] side_of(s, k) == (p, q);
        assert(side_of(x, k) == ((p - base) as usize, (q - base) as usize));
    }
    if p >= base && q >= base && runs(x, (p - base) as usize, (q - base) as usize) {
        let k = choose|k: int| 0 <= k < 3 && #[trigger] side_of(x, k) == ((p - base) as usize, (q - base) as usize);
        assert(side_of(s, k) == (p, q));
    }
}

/// Two watertight shells that share no vertex make one watertight surface.
pub proof fn shells_stay_watertight(a: Seq<Tri>, b: Seq<Tri>, base: int, n: int)
    requires
        watertight(a),
        watertight(b),
        within(a, base),
        within(b, n),
        0 <= base,
        0 <= n,
        base + n <= usize::MAX,
    ensures
        watertight(a + shifted(b, base)),
        within(a + shifted(b, base), base + n),
{
    let s = shifted(b, base);
    let w = a + s;
    let m = a.len() as int;
    assert forall|t: int| 0 <= t < w.len() implies (#[trigger] w[t]).a < base + n && w[t].b < base + n && w[t].c < base + n by {
        if t >= m {
            assert(b[t - m].a < n);
        } else {
            assert(a[t].a < base);
        }
    }
    assert forall|x: int, t: int, p: usize, q: usize|
        0 <= x < w.len() && 0 <= t < w.len() && x != t && #[trigger] runs(w[x], p, q) implies !#[trigger] runs(w[t], p, q) by {
        if runs(w[t], p, q) {
            if x >= m {
                shifted_runs(b, base, n, x - m, p, q);
            }
            if t >= m {
                shifted_runs(b, base, n, t - m, p, q);
            }
            if x >= m && t >= m {
                assert(runs(b[x - m], (p - base) as usize, (q - base) as usize));
                assert(runs(b[t - m], (p - base) as usize, (q - base) as usize));
            } else if x < m && t < m {
                assert(runs(a[x], p, q) && runs(a[t], p, q));
            } else if x < m {
                let k = choose|k: int| 0 <= k < 3 && #[trigger] side_of(a[x], k) == (p, q);
                assert(a[x].a < base);
            } else {
                let k = choose|k: int| 0 <= k < 3 && #[trigger] side_of(a[t], k) == (p, q);
                assert(a[t].a < base);
            }
        }
    }
    assert forall|t: int| 0 <= t < w.len() implies proper(#[trigger] w[t]) by {
        if t >= m {
            assert(proper(b[t - m]));
            assert(b[t - m].a < n);
        } else {
            assert(proper(a[t]));
        }
    }
    assert forall|t: int, k: int| 0 <= t < w.len() && 0 <= k < 3 implies met(w, (#[trigger] side_of(w[t], k)).0, side_of(w[t], k).1) by {
        let (p, q) = side_of(w[t], k);
        if t < m {
            assert(side_of(a[t], k) == (p, q));
            assert(met(a, p, q));
            let u = choose|u: int| 0 <= u < a.len() && #[trigger] runs(a[u], q, p);
            assert(runs(w[u], q, p));
        } else {
            let x = b[t - m];
            assert(x.a < n);
            let (p0, q0) = side_of(x, k);
            assert(met(b, p0, q0));
            let u = choose|u: int| 0 <= u < b.len() && #[trigger] runs(b[u], q0, p0);
            shifted_runs(b, base, n, u, q, p);
            assert(runs(w[m + u], q, p));
        }
    }
}

// ---- turned solids ----

/// How many points the first `n` loops have together.
pub open spec fn points_in(loops: Seq<usize>, n: int) -> int
    decreases n,
{
    if n <= 0 {
        0
    } else {
        points_in(loops, n - 1) + loops[n - 1]
    }
}

/// The shells that the first `n` loops turn through, `rings` copies of each loop one after the other.
pub open spec fn turned_shells(rings: int, loops: Seq<usize>, n: int) -> Seq<Tri>
    decreases n,
{
    if n <= 0 {
        Seq::empty()
    } else {
        turned_shells(rings, loops, n - 1) + shifted(tube(rings, loops[n - 1] as int), rings * points_in(loops, n - 1))
    }
}

proof fn points_rise(loops: Seq<usize>, a: int, b: int)
    requires
        0 <= a <= b <= loops.len(),
    ensures
        0 <= points_in(loops, a) <= points_in(loops, b),
    decreases b,
{
    if a < b {
        points_rise(loops, a, b - 1);
    } else if a > 0 {
        points_rise(loops, a - 1, b - 1);
    }
}

proof fn tube_within(rings: int, n: int)
    requires
        rings >= 1,
        n >= 1,
        2 * (rings * n) <= usize::MAX,
    ensures
        within(tube(rings, n), rings * n),
{
    assert forall|t: int| 0 <= t < tube(rings, n).len() implies (#[trigger] tube(rings, n)[t]).a < rings * n && tube(rings, n)[t].b < rings * n
        && tube(rings, n)[t].c < rings * n by {
        crate::solids::tube_corners(rings, n, t);
    }
}

/// The triangles of a full turn of several loops. A loop with fewer than three points is no loop.
#[verifier::loop_isolation(false)]
pub fn revolve_tris(rings: usize, loops: &Vec<usize>) -> (out: Vec<Tri>)
    requires
        rings >= 3,
        forall|l: int| 0 <= l < loops@.len() ==> (#[trigger] loops@[l]) >= 3,
        2 * (rings * points_in(loops@, loops@.len() as int)) <= usize::MAX,
    ensures
        out@ == turned_shells(rings as int, loops@, loops@.len() as int),
{
    let mut out: Vec<Tri> = Vec::new();
    let mut base: usize = 0;
    let mut l: usize = 0;
    assert(rings * points_in(loops@, 0) == 0) by (nonlinear_arith)
        requires
            points_in(loops@, 0) == 0,
    ;
    while l < loops.len()
        invariant
            l <= loops@.len(),
            base == rings * points_in(loops@, l as int),
            out@ == turned_shells(rings as int, loops@, l as int),
        decreases loops@.len() - l,
    {
        let n: usize = loops[l];
        assert(loops@[l as int] >= 3);
        proof {
            points_rise(loops@, l as int, l as int);
            points_rise(loops@, l + 1, loops@.len() as int);
            let (x, y, z) = (points_in(loops@, l as int), n as int, points_in(loops@, loops@.len() as int));
            let r = rings as int;
            assert(points_in(loops@, l + 1) == x + y);
            assert(r * x + r * y == r * (x + y)) by (nonlinear_arith);
            assert(r * (x + y) <= r * z) by (nonlinear_arith)
                requires
                    r >= 0,
                    x + y <= z,
            ;
            assert(0 <= r * x) by (nonlinear_arith)
                requires
                    r >= 0,
                    x >= 0,
            ;
            assert(0 <= r * y) by (nonlinear_arith)
                requires
                    r >= 0,
                    y >= 0,
            ;
            tube_within(r, y);
        }
        let shell: Vec<Tri> = tube_tris(rings, n);
        append_shifted(&mut out, &shell, base, Ghost(rings as int * n as int));
        base = base + rings * n;
        l = l + 1;
    }
    out
}

/// A full turn of loops with three points or more is watertight.
pub proof fn turned_shells_are_watertight(rings: int, loops: Seq<usize>, n: int)
    requires
        rings >= 3,
        0 <= n <= loops.len(),
        forall|l: int| 0 <= l < loops.len() ==> (#[trigger] loops[l]) >= 3,
        2 * (rings * points_in(loops, n)) <= usize::MAX,
    ensures
        watertight(turned_shells(rings, loops, n)),
        within(turned_shells(rings, loops, n), rings * points_in(loops, n)),
    decreases n,
{
    if n > 0 {
        assert(loops[n - 1] >= 3);
        points_rise(loops, n - 1, n);
        let (x, y) = (points_in(loops, n - 1), loops[n - 1] as int);
        assert(rings * x + rings * y == rings * (x + y)) by (nonlinear_arith);
        assert(0 <= rings * x) by (nonlinear_arith)
            requires
                rings >= 0,
                x >= 0,
        ;
        assert(0 <= rings * y) by (nonlinear_arith)
            requires
                rings >= 0,
                y >= 0,
        ;
        turned_shells_are_watertight(rings, loops, n - 1);
        tube_watertight(rings, y);
        tube_within(rings, y);
        shells_stay_watertight(turned_shells(rings, loops, n - 1), tube(rings, y), rings * x, rings * y);
    }
}

// ---- slabs ----

/// The slab over a patch of `n` points: for each triangle of the patch its copy on top and its copy
/// below, turned over, then the walls along the open sides. The points on top come after those below.
pub open spec fn slab(tris: Seq<Tri>, open: Seq<(usize, usize)>, n: int) -> Seq<Tri> {
    Seq::new(
        2 * tris.len(),
        |i: int|
            {
                let t = tris[i / 2];
                if i % 2 == 0 {
                    Tri { a: (t.a + n) as usize, b: (t.b + n) as usize, c: (t.c + n) as usize }
                } else {
                    Tri { a: t.c, b: t.b, c: t.a }
                }
            },
    ) + Seq::new(
        2 * open.len(),
        |i: int|
            {
                let (p, q) = open[i / 2];
                if i % 2 == 0 {
                    Tri { a: p, b: q, c: (q + n) as usize }
                } else {
                    Tri { a: p, b: (q + n) as usize, c: (p + n) as usize }
                }
            },
    )
}

/// The sides of the patch that no neighbour shares, as the triangles run them, in the order of the
/// edges below `n`.
pub open spec fn open_sides_of(tris: Seq<Tri>, et: EdgeTable, n: int) -> Seq<(usize, usize)>
    decreases n,
{
    if n <= 0 {
        Seq::empty()
    } else if et.uses@[n - 1]@.len() == 1 {
        let (p, q) = et.ends@[n - 1];
        let t = tris[et.uses@[n - 1]@[0] as int];
        open_sides_of(tris, et, n - 1).push(
            if runs(t, p, q) {
                (p, q)
            } else {
                (q, p)
            },
        )
    } else {
        open_sides_of(tris, et, n - 1)
    }
}

/// The open sides of a patch.
#[verifier::loop_isolation(false)]
pub fn open_sides(tris: &Vec<Tri>, et: &EdgeTable) -> (out: Vec<(usize, usize)>)
    requires
        et.describes(tris@),
    ensures
        out@ == open_sides_of(tris@, *et, et.uses@.len() as int),
{
    let mut out: Vec<(usize, usize)> = Vec::new();
    let mut e: usize = 0;
    assert(tris@.len() == tris.len());
    while e < et.uses.len()
        invariant
            e <= et.uses@.len(),
            out@ == open_sides_of(tris@, *et, e as int),
        decreases et.uses@.len() - e,
    {
        if et.uses[e].len() == 1 {
            let (p, q): (usize, usize) = et.ends[e];
            proof {
                assert(et.uses@[e as int]@ == crate::mesh::users(tris@, et.table.keys()[e as int], 3 * tris@.len() as int));
                users_in_range(tris@, et.table.keys()[e as int], 3 * tris@.len() as int);
            }
            let t: Tri = tris[et.uses[e][0]];
            if crate::mesh::walks(t, p, q) {
                out.push((p, q));
            } else {
                out.push((q, p));
            }
        }
        e = e + 1;
    }
    out
}

proof fn users_in_range(tris: Seq<Tri>, key: crate::first_seen::Key, n: int)
    requires
        0 <= n <= 3 * tris.len(),
        tris.len() <= usize::MAX,
    ensures
        forall|i: int| 0 <= i < crate::mesh::users(tris, key, n).len() ==> #[trigger] crate::mesh::users(tris, key, n)[i] < tris.len(),
    decreases n,
{
    if n > 0 {
        users_in_range(tris, key, n - 1);
        let rest = crate::mesh::users(tris, key, n - 1);
        let all = crate::mesh::users(tris, key, n);
        assert forall|i: int| 0 <= i < all.len() implies #[trigger] all[i] < tris.len() by {
            if i < rest.len() {
                assert(rest[i] < tris.len());
            }
        }
    }
}

/// Make the slab over a patch of a face.
#[verifier::loop_isolation(false)]
pub fn slab_tris(tris: &Vec<Tri>, open: &Vec<(usize, usize)>, n: usize) -> (out: Vec<Tri>)
    requires
        within(tris@, n as int),
        2 * n <= usize::MAX,
        forall|i: int| 0 <= i < open@.len() ==> (#[trigger] open@[i]).0 < n && open@[i].1 < n,
    ensures
        out@ == slab(tris@, open@, n as int),
{
    let ghost whole = slab(tris@, open@, n as int);
    let mut out: Vec<Tri> = Vec::new();
    let mut t: usize = 0;
    while t < tris.len()
        invariant
            t <= tris@.len(),
            out@ == whole.take(2 * t as int),
        decreases tris@.len() - t,
    {
        let x: Tri = tris[t];
        assert(tris@[t as int].a < n);
        out.push(Tri { a: x.a + n, b: x.b + n, c: x.c + n });
        out.push(Tri { a: x.c, b: x.b, c: x.a });
        t = t + 1;
        assert(out@ =~= whole.take(2 * t as int));
    }
    let mut i: usize = 0;
    while i < open.len()
        invariant
            i <= open@.len(),
            out@ == whole.take(2 * tris@.len() + 2 * i),
        decreases open@.len() - i,
    {
        let (p, q): (usize, usize) = open[i];
        assert(open@[i as int].0 < n);
        out.push(Tri { a: p, b: q, c: q + n });
        out.push(Tri { a: p, b: q + n, c: p + n });
        i = i + 1;
        assert(out@ =~= whole.take(2 * tris@.len() + 2 * i));
    }
    assert(whole.take(2 * tris@.len() + 2 * i) =~= whole);
    out
}

/// `open` are the sides of the patch that no neighbour shares, and they go round in rings that do
/// not touch.
pub open spec fn rings_round(tris: Seq<Tri>, open: Seq<(usize, usize)>) -> bool {
    &&& forall|i: int| 0 <= i < open.len() ==> #[trigger] is_open(tris, open[i])
    &&& forall|t: int, k: int| 0 <= t < tris.len() && 0 <= k < 3 ==> #[trigger] is_shared_or_open(tris, open, t, k)
    &&& forall|i: int, j: int| 0 <= i < open.len() && 0 <= j < open.len() && i != j ==> #[trigger] apart(open, i, j)
    &&& forall|i: int| 0 <= i < open.len() ==> #[trigger] goes_on(open, i)
}

/// Side `k` of triangle `t` has a neighbour, or is listed as open.
pub open spec fn is_shared_or_open(tris: Seq<Tri>, open: Seq<(usize, usize)>, t: int, k: int) -> bool {
    let s = side_of(tris[t], k);
    met(tris, s.0, s.1) || open.contains(s)
}

/// The sides start at different points and end at different points.
pub open spec fn apart(open: Seq<(usize, usize)>, i: int, j: int) -> bool {
    open[i].0 != open[j].0 && open[i].1 != open[j].1
}

/// Some side starts where side `i` ends, and some side ends where it starts.
pub open spec fn goes_on(open: Seq<(usize, usize)>, i: int) -> bool {
    starts_at(open, open[i].1) && ends_at(open, open[i].0)
}

/// Some triangle runs along the side, and none runs back.
pub open spec fn is_open(tris: Seq<Tri>, s: (usize, usize)) -> bool {
    met(tris, s.1, s.0) && !met(tris, s.0, s.1)
}

pub open spec fn starts_at(open: Seq<(usize, usize)>, v: usize) -> bool {
    exists|j: int| 0 <= j < open.len() && (#[trigger] open[j]).0 == v
}

pub open spec fn ends_at(open: Seq<(usize, usize)>, v: usize) -> bool {
    exists|j: int| 0 <= j < open.len() && (#[trigger] open[j]).1 == v
}

/// The triangle of the slab at place `x`, and what it is made from.
proof fn slab_at(tris: Seq<Tri>, open: Seq<(usize, usize)>, n: int, x: int)
    requires
        0 <= x < slab(tris, open, n).len(),
    ensures
        ({
            let w = slab(tris, open, n);
            let m = 2 * tris.len() as int;
            if x < m {
                let t = tris[x / 2];
                if x % 2 == 0 {
                    w[x] == Tri { a: (t.a + n) as usize, b: (t.b + n) as usize, c: (t.c + n) as usize }
                } else {
                    w[x] == Tri { a: t.c, b: t.b, c: t.a }
                }
            } else {
                let (p, q) = open[(x - m) / 2];
                if (x - m) % 2 == 0 {
                    w[x] == Tri { a: p, b: q, c: (q + n) as usize }
                } else {
                    w[x] == Tri { a: p, b: (q + n) as usize, c: (p + n) as usize }
                }
            }
        }),
{
}

proof fn open_within(tris: Seq<Tri>, open: Seq<(usize, usize)>, n: int, i: int)
    requires
        within(tris, n),
        forall|t: int| 0 <= t < tris.len() ==> proper(#[trigger] tris[t]),
        rings_round(tris, open),
        0 <= i < open.len(),
    ensures
        open[i].0 < n,
        open[i].1 < n,
        open[i].0 != open[i].1,
{
    assert(is_open(tris, open[i]));
    let u = choose|u: int| 0 <= u < tris.len() && #[trigger] runs(tris[u], open[i].0, open[i].1);
    let k = choose|k: int| 0 <= k < 3 && #[trigger] side_of(tris[u], k) == open[i];
    assert(tris[u].a < n && proper(tris[u]));
}

/// Where a triangle of the slab runs from `u` to `v`: on top as the patch does, below as the patch
/// does backwards, and otherwise along a wall.
proof fn slab_runs(tris: Seq<Tri>, open: Seq<(usize, usize)>, n: int, x: int, u: usize, v: usize)
    requires
        within(tris, n),
        0 <= n,
        2 * n <= usize::MAX,
        forall|t: int| 0 <= t < tris.len() ==> proper(#[trigger] tris[t]),
        rings_round(tris, open),
        0 <= x < slab(tris, open, n).len(),
        runs(slab(tris, open, n)[x], u, v),
    ensures
        ({
            let m = 2 * tris.len() as int;
            if x < m {
                if x % 2 == 0 {
                    u >= n && v >= n && runs(tris[x / 2], (u - n) as usize, (v - n) as usize)
                } else {
                    u < n && v < n && runs(tris[x / 2], v, u)
                }
            } else {
                let (p, q) = open[(x - m) / 2];
                if (x - m) % 2 == 0 {
                    (u == p && v == q) || (u == q && v == q + n) || (u == q + n && v == p)
                } else {
                    (u == p && v == q + n) || (u == q + n && v == p + n) || (u == p + n && v == p)
                }
            }
        }),
{
    let w = slab(tris, open, n);
    let m = 2 * tris.len() as int;
    slab_at(tris, open, n, x);
    let k = choose|k: int| 0 <= k < 3 && #[trigger] side_of(w[x], k) == (u, v);
    if x < m {
        let t = tris[x / 2];
        assert(t.a < n && t.b < n && t.c < n);
        if x % 2 == 0 {
            assert(side_of(t, k) == ((u - n) as usize, (v - n) as usize));
        } else {
            let j = if k == 0 {
                1int
            } else if k == 1 {
                0int
            } else {
                2int
            };
            assert(side_of(t, j) == (v, u));
        }
    } else {
        open_within(tris, open, n, (x - m) / 2);
    }
}

/// The steps that the pieces of a slab make.
proof fn slab_makes(tris: Seq<Tri>, open: Seq<(usize, usize)>, n: int)
    requires
        within(tris, n),
        0 <= n,
        2 * n <= usize::MAX,
        forall|t: int| 0 <= t < tris.len() ==> proper(#[trigger] tris[t]),
        rings_round(tris, open),
    ensures
        forall|t: int, p: usize, q: usize|
            0 <= t < tris.len() && #[trigger] runs(tris[t], p, q) ==> {
                &&& met(slab(tris, open, n), (q + n) as usize, (p + n) as usize)
                &&& met(slab(tris, open, n), p, q)
            },
        forall|i: int|
            0 <= i < open.len() ==> {
                let (p, q) = #[trigger] open[i];
                let w = slab(tris, open, n);
                &&& met(w, q, p)
                &&& met(w, (q + n) as usize, q)
                &&& met(w, p, (q + n) as usize)
                &&& met(w, (q + n) as usize, p)
                &&& met(w, (p + n) as usize, (q + n) as usize)
                &&& met(w, p, (p + n) as usize)
            },
{
    let w = slab(tris, open, n);
    let m = 2 * tris.len() as int;
    assert forall|t: int, p: usize, q: usize| 0 <= t < tris.len() && #[trigger] runs(tris[t], p, q) implies met(
        w,
        (q + n) as usize,
        (p + n) as usize,
    ) && met(w, p, q) by {
        slab_at(tris, open, n, 2 * t);
        slab_at(tris, open, n, 2 * t + 1);
        assert((2 * t) / 2 == t && (2 * t + 1) / 2 == t);
        let k = choose|k: int| 0 <= k < 3 && #[trigger] side_of(tris[t], k) == (p, q);
        assert(tris[t].a < n && tris[t].b < n && tris[t].c < n);
        assert(side_of(w[2 * t], k) == ((p + n) as usize, (q + n) as usize));
        assert(runs(w[2 * t], (p + n) as usize, (q + n) as usize));
        let j = if k == 0 {
            1int
        } else if k == 1 {
            0int
        } else {
            2int
        };
        assert(side_of(w[2 * t + 1], j) == (q, p));
        assert(runs(w[2 * t + 1], q, p));
    }
    assert forall|i: int| 0 <= i < open.len() implies ({
        let (p, q) = #[trigger] open[i];
        &&& met(w, q, p)
        &&& met(w, (q + n) as usize, q)
        &&& met(w, p, (q + n) as usize)
        &&& met(w, (q + n) as usize, p)
        &&& met(w, (p + n) as usize, (q + n) as usize)
        &&& met(w, p, (p + n) as usize)
    }) by {
        let (p, q) = open[i];
        open_within(tris, open, n, i);
        let x = m + 2 * i;
        slab_at(tris, open, n, x);
        slab_at(tris, open, n, x + 1);
        assert(side_of(w[x], 0) == (p, q));
        assert(side_of(w[x], 1) == (q, (q + n) as usize));
        assert(side_of(w[x], 2) == ((q + n) as usize, p));
        assert(side_of(w[x + 1], 0) == (p, (q + n) as usize));
        assert(side_of(w[x + 1], 1) == ((q + n) as usize, (p + n) as usize));
        assert(side_of(w[x + 1], 2) == ((p + n) as usize, p));
        assert(runs(w[x], p, q) && runs(w[x], q, (q + n) as usize) && runs(w[x], (q + n) as usize, p));
        assert(runs(w[x + 1], p, (q + n) as usize) && runs(w[x + 1], (q + n) as usize, (p + n) as usize) && runs(w[x + 1], (p + n) as usize, p));
    }
}

proof fn slab_clash(tris: Seq<Tri>, open: Seq<(usize, usize)>, n: int, x: int, y: int, u: usize, v: usize)
    requires
        within(tris, n),
        0 <= n,
        2 * n <= usize::MAX,
        consistent(tris),
        forall|t: int| 0 <= t < tris.len() ==> proper(#[trigger] tris[t]),
        rings_round(tris, open),
        0 <= x < slab(tris, open, n).len(),
        0 <= y < slab(tris, open, n).len(),
        runs(slab(tris, open, n)[x], u, v),
        runs(slab(tris, open, n)[y], u, v),
    ensures
        x == y,
{
    let m = 2 * tris.len() as int;
    slab_runs(tris, open, n, x, u, v);
    slab_runs(tris, open, n, y, u, v);
    if x < m && y < m {
        if x % 2 == 0 {
            assert(runs(tris[x / 2], (u - n) as usize, (v - n) as usize) && runs(tris[y / 2], (u - n) as usize, (v - n) as usize));
        } else {
            assert(runs(tris[x / 2], v, u) && runs(tris[y / 2], v, u));
        }
        assert(x / 2 == y / 2);
    } else if x >= m && y >= m {
        let (i, j) = ((x - m) / 2, (y - m) / 2);
        open_within(tris, open, n, i);
        open_within(tris, open, n, j);
        if i != j {
            assert(apart(open, i, j));
        }
    } else {
        let (a, b) = if x < m {
            (x, y)
        } else {
            (y, x)
        };
        let i = (b - m) / 2;
        let (p, q) = open[i];
        open_within(tris, open, n, i);
        assert(is_open(tris, open[i]));
        if a % 2 == 0 {
            assert(runs(tris[a / 2], q, p));
        } else {
            assert(runs(tris[a / 2], q, p));
        }
        assert(met(tris, p, q));
    }
}

/// The slab over a patch whose open sides go round in rings that do not touch is watertight.
pub proof fn slabs_are_watertight(tris: Seq<Tri>, open: Seq<(usize, usize)>, n: int)
    requires
        within(tris, n),
        0 <= n,
        2 * n <= usize::MAX,
        consistent(tris),
        forall|t: int| 0 <= t < tris.len() ==> proper(#[trigger] tris[t]),
        rings_round(tris, open),
    ensures
        watertight(slab(tris, open, n)),
{
    let w = slab(tris, open, n);
    let m = 2 * tris.len() as int;
    assert forall|x: int, y: int, u: usize, v: usize|
        0 <= x < w.len() && 0 <= y < w.len() && x != y && #[trigger] runs(w[x], u, v) implies !#[trigger] runs(w[y], u, v) by {
        if runs(w[y], u, v) {
            slab_clash(tris, open, n, x, y, u, v);
        }
    }
    assert forall|x: int| 0 <= x < w.len() implies proper(#[trigger] w[x]) by {
        slab_at(tris, open, n, x);
        if x < m {
            assert(proper(tris[x / 2]));
            assert(tris[x / 2].a < n);
        } else {
            open_within(tris, open, n, (x - m) / 2);
        }
    }
    slab_makes(tris, open, n);
    assert forall|x: int, k: int| 0 <= x < w.len() && 0 <= k < 3 implies met(w, (#[trigger] side_of(w[x], k)).0, side_of(w[x], k).1) by {
        let (u, v) = side_of(w[x], k);
        slab_at(tris, open, n, x);
        if x < m {
            let t = tris[x / 2];
            assert(t.a < n && t.b < n && t.c < n);
            let j = if x % 2 == 0 || k == 2 {
                k
            } else {
                1 - k
            };
            let (p, q) = side_of(t, j);
            if met(tris, p, q) {
                let y = choose|y: int| 0 <= y < tris.len() && #[trigger] runs(tris[y], q, p);
                assert(met(w, (p + n) as usize, (q + n) as usize) && met(w, q, p));
            } else {
                assert(is_shared_or_open(tris, open, x / 2, j));
                let i = choose|i: int| 0 <= i < open.len() && open[i] == (p, q);
                assert(met(w, (p + n) as usize, (q + n) as usize) && met(w, q, p)) by {
                    assert(open[i] == (p, q));
                }
            }
        } else {
            let i = (x - m) / 2;
            let (p, q) = open[i];
            open_within(tris, open, n, i);
            assert(is_open(tris, open[i]));
            let y = choose|y: int| 0 <= y < tris.len() && #[trigger] runs(tris[y], p, q);
            assert(goes_on(open, i));
            let j = choose|j: int| 0 <= j < open.len() && (#[trigger] open[j]).0 == q;
            let h = choose|h: int| 0 <= h < open.len() && (#[trigger] open[h]).1 == p;
            open_within(tris, open, n, j);
            open_within(tris, open, n, h);
        }
    }
}

// ---- lofts ----

/// Which profiles a loft runs through, and how many holes run through all of them.
#[derive(Debug)]
pub struct LoftPlan {
    pub profiles: Vec<usize>,
    pub holes: usize,
}

/// The profiles among the first `n` that have three points or more.
pub open spec fn usable(points: Seq<usize>, n: int) -> Seq<usize>
    decreases n,
{
    if n <= 0 {
        Seq::empty()
    } else if points[n - 1] >= 3 {
        usable(points, n - 1).push((n - 1) as usize)
    } else {
        usable(points, n - 1)
    }
}

/// Every one of the profiles has as many holes as the first.
pub open spec fn same_holes(holes: Seq<usize>, profiles: Seq<usize>) -> bool {
    forall|k: int| 0 <= k < profiles.len() ==> holes[#[trigger] profiles[k] as int] == holes[profiles[0] as int]
}

/// Plan a loft, given how many points and how many holes each profile has. It runs through the
/// profiles that have an area, and needs two of them; holes are kept only where all have as many.
#[verifier::loop_isolation(false)]
pub fn plan_loft(points: &Vec<usize>, holes: &Vec<usize>) -> (plan: Option<LoftPlan>)
    requires
        points@.len() == holes@.len(),
    ensures
        plan is None <==> usable(points@, points@.len() as int).len() < 2,
        plan matches Some(p) ==> p.profiles@ == usable(points@, points@.len() as int) && p.holes == if same_holes(holes@, p.profiles@) {
            holes@[p.profiles@[0] as int]
        } else {
            0
        },
{
    let mut profiles: Vec<usize> = Vec::new();
    let mut i: usize = 0;
    while i < points.len()
        invariant
            i <= points@.len(),
            profiles@ == usable(points@, i as int),
            forall|k: int| 0 <= k < profiles@.len() ==> (#[trigger] profiles@[k]) < i,
        decreases points@.len() - i,
    {
        if points[i] >= 3 {
            profiles.push(i);
        }
        i = i + 1;
    }
    if profiles.len() < 2 {
        return None;
    }
    let first: usize = holes[profiles[0]];
    let mut same: bool = true;
    let mut k: usize = 0;
    while k < profiles.len()
        invariant
            k <= profiles@.len(),
            same <==> forall|j: int| 0 <= j < k ==> holes@[#[trigger] profiles@[j] as int] == first,
        decreases profiles@.len() - k,
    {
        assert(profiles@[k as int] < points@.len());
        if holes[profiles[k]] != first {
            same = false;
        }
        k = k + 1;
    }
    let count: usize = if same {
        first
    } else {
        0
    };
    Some(LoftPlan { profiles, holes: count })
}

/// A ring of `n` points taken from place `off` on.
pub open spec fn turned_ring(n: int, off: int) -> Seq<usize> {
    Seq::new(n as nat, |k: int| ((k + off) % n) as usize)
}

/// Start a ring at another of its points.
#[verifier::loop_isolation(false)]
pub fn turn_ring(n: usize, off: usize) -> (out: Vec<usize>)
    requires
        off < n,
    ensures
        out@ == turned_ring(n as int, off as int),
{
    let mut out: Vec<usize> = Vec::new();
    let mut k: usize = 0;
    while k < n
        invariant
            k <= n,
            out@ == turned_ring(n as int, off as int).take(k as int),
        decreases n - k,
    {
        let p: usize = if k < n - off {
            k + off
        } else {
            k - (n - off)
        };
        proof {
            if k < n - off {
                vstd::arithmetic::div_mod::lemma_small_mod((k + off) as nat, n as nat);
            } else {
                vstd::arithmetic::div_mod::lemma_mod_sub_multiples_vanish(k + off, n as int);
                vstd::arithmetic::div_mod::lemma_small_mod((k + off - n) as nat, n as nat);
            }
        }
        out.push(p);
        k = k + 1;
        assert(out@ =~= turned_ring(n as int, off as int).take(k as int));
    }
    assert(turned_ring(n as int, off as int).take(k as int) =~= turned_ring(n as int, off as int));
    out
}

// ---- which way they face, and what they run through ----

/// A slab carries the patch on top as it is wound and below the other way round, and its walls rise
/// from each open side.
#[verifier::spinoff_prover]
#[verifier::rlimit(50)]
pub proof fn slabs_carry_the_patch(tris: Seq<Tri>, open: Seq<(usize, usize)>, n: int, t: int, i: int)
    requires
        within(tris, n),
        0 <= n,
        2 * n <= usize::MAX,
        forall|j: int| 0 <= j < open.len() ==> (#[trigger] open[j]).0 < n && open[j].1 < n,
        0 <= t < tris.len(),
        0 <= i < open.len(),
    ensures
        slab(tris, open, n).len() == 2 * tris.len() + 2 * open.len(),
        forall|p: usize, q: usize|
            p < n && q < n ==> (#[trigger] runs(tris[t], p, q) <==> runs(slab(tris, open, n)[2 * t], (p + n) as usize, (q + n) as usize)),
        forall|p: usize, q: usize| #[trigger] runs(tris[t], p, q) <==> runs(slab(tris, open, n)[2 * t + 1], q, p),
        ({
            let (p, q) = open[i];
            let w = slab(tris, open, n);
            let m = 2 * tris.len() + 2 * i;
            &&& runs(w[m], p, q) && runs(w[m], q, (q + n) as usize)
            &&& runs(w[m + 1], (q + n) as usize, (p + n) as usize) && runs(w[m + 1], (p + n) as usize, p)
        }),
{
    let w = slab(tris, open, n);
    let x = tris[t];
    assert(x.a < n && x.b < n && x.c < n);
    assert((2 * t) / 2 == t && (2 * t) % 2 == 0 && (2 * t + 1) / 2 == t && (2 * t + 1) % 2 == 1);
    let (up, down) = (w[2 * t], w[2 * t + 1]);
    assert(up == Tri { a: (x.a + n) as usize, b: (x.b + n) as usize, c: (x.c + n) as usize });
    assert(down == Tri { a: x.c, b: x.b, c: x.a });
    sides_are(x);
    sides_are(up);
    sides_are(down);
    let m = 2 * tris.len() + 2 * i;
    let (p, q) = open[i];
    assert((2 * i) / 2 == i && (2 * i) % 2 == 0 && (2 * i + 1) / 2 == i && (2 * i + 1) % 2 == 1);
    assert(w[m] == Tri { a: p, b: q, c: (q + n) as usize });
    assert(w[m + 1] == Tri { a: p, b: (q + n) as usize, c: (p + n) as usize });
    sides_are(w[m]);
    sides_are(w[m + 1]);
}

proof fn sides_are(t: Tri)
    ensures
        forall|p: usize, q: usize| #[trigger] runs(t, p, q) <==> p == t.a && q == t.b || p == t.b && q == t.c || p == t.c && q == t.a,
{
    assert(side_of(t, 0) == (t.a, t.b) && side_of(t, 1) == (t.b, t.c) && side_of(t, 2) == (t.c, t.a));
}

/// The open sides are those of the edges that one triangle alone has, each as that triangle runs it,
/// in the order of the edges.
#[verifier::spinoff_prover]
#[verifier::rlimit(50)]
pub proof fn open_sides_belong_to_one_triangle(tris: Seq<Tri>, et: EdgeTable, n: int) -> (at: Seq<int>)
    requires
        et.describes(tris),
        tris.len() <= usize::MAX,
        0 <= n <= et.uses@.len(),
    ensures
        at.len() == open_sides_of(tris, et, n).len(),
        forall|i: int, j: int| 0 <= i < j < at.len() ==> #[trigger] at[i] < #[trigger] at[j],
        forall|i: int|
            0 <= i < at.len() ==> {
                let s = open_sides_of(tris, et, n)[i];
                &&& 0 <= #[trigger] at[i] < n
                &&& et.uses@[at[i]]@.len() == 1
                &&& s == et.ends@[at[i]] || s == (et.ends@[at[i]].1, et.ends@[at[i]].0)
                &&& runs(tris[et.uses@[at[i]]@[0] as int], s.0, s.1)
            },
        forall|e: int| 0 <= e < n && (#[trigger] et.uses@[e])@.len() == 1 ==> at.contains(e),
    decreases n,
{
    if n > 0 {
        let rest = open_sides_belong_to_one_triangle(tris, et, n - 1);
        let e = n - 1;
        let (before, all) = (open_sides_of(tris, et, n - 1), open_sides_of(tris, et, n));
        if et.uses@[e]@.len() == 1 {
            let at = rest.push(e);
            let (p, q) = et.ends@[e];
            let t = et.uses@[e]@[0];
            assert(et.uses@[e]@ == crate::mesh::edge_users(tris, p, q));
            users_in_range(tris, et.table.keys()[e], 3 * tris.len() as int);
            assert(crate::mesh::edge_users(tris, p, q).contains(t));
            crate::mesh::users_have_the_edge(tris, p, q, t);
            assert forall|i: int| 0 <= i < at.len() implies ({
                let s = all[i];
                &&& 0 <= #[trigger] at[i] < n
                &&& et.uses@[at[i]]@.len() == 1
                &&& s == et.ends@[at[i]] || s == (et.ends@[at[i]].1, et.ends@[at[i]].0)
                &&& runs(tris[et.uses@[at[i]]@[0] as int], s.0, s.1)
            }) by {
                if i < rest.len() {
                    assert(at[i] == rest[i]);
                    assert(all[i] == before[i]);
                }
            }
            assert forall|d: int| 0 <= d < n && (#[trigger] et.uses@[d])@.len() == 1 implies at.contains(d) by {
                if d < e {
                    assert(rest.contains(d));
                    let k = choose|k: int| 0 <= k < rest.len() && rest[k] == d;
                    assert(at[k] == d);
                } else {
                    assert(at[rest.len() as int] == d);
                }
            }
            at
        } else {
            rest
        }
    } else {
        Seq::empty()
    }
}

/// A loft runs through every profile that has an area, in order, and through no other.
#[verifier::spinoff_prover]
#[verifier::rlimit(50)]
pub proof fn lofts_run_through_areas(points: Seq<usize>, n: int)
    requires
        0 <= n <= points.len() <= usize::MAX,
    ensures
        forall|i: int, j: int| 0 <= i < j < usable(points, n).len() ==> (#[trigger] usable(points, n)[i]) < (#[trigger] usable(points, n)[j]),
        forall|p: usize| #[trigger] usable(points, n).contains(p) <==> p < n && points[p as int] >= 3,
    decreases n,
{
    if n > 0 {
        lofts_run_through_areas(points, n - 1);
        let (rest, all) = (usable(points, n - 1), usable(points, n));
        let last = (n - 1) as usize;
        assert forall|k: int| 0 <= k < rest.len() implies (#[trigger] rest[k]) < n - 1 && all[k] == rest[k] by {
            assert(rest.contains(rest[k]));
        }
        if points[n - 1] >= 3 {
            assert(all[rest.len() as int] == last);
        }
        assert forall|p: usize| #[trigger] all.contains(p) <==> p < n && points[p as int] >= 3 by {
            if rest.contains(p) {
                let k = choose|k: int| 0 <= k < rest.len() && rest[k] == p;
                assert(all[k] == p);
            }
            if all.contains(p) {
                let k = choose|k: int| 0 <= k < all.len() && all[k] == p;
                if k < rest.len() {
                    assert(rest[k] == p);
                    assert(rest.contains(p));
                }
            }
        }
    }
}

/// A turned ring starts at the place asked for and goes on from each point to the next, over the last
/// to the first.
pub proof fn turned_rings_go_on(n: int, off: int, k: int)
    requires
        0 <= off < n <= usize::MAX,
        0 <= k < n,
    ensures
        turned_ring(n, off).len() == n,
        turned_ring(n, off)[0] == off,
        k + 1 < n ==> turned_ring(n, off)[k + 1] == if turned_ring(n, off)[k] + 1 == n {
            0
        } else {
            turned_ring(n, off)[k] + 1
        },
{
    vstd::arithmetic::div_mod::lemma_small_mod(off as nat, n as nat);
    turned_once(k + off, n);
    turned_once(k + 1 + off, n);
}

proof fn turned_once(x: int, n: int)
    requires
        0 <= x <= 2 * n,
        0 < n,
    ensures
        x < n ==> x % n == x,
        n <= x < 2 * n ==> x % n == x - n,
{
    if x < n {
        vstd::arithmetic::div_mod::lemma_small_mod(x as nat, n as nat);
    } else if x < 2 * n {
        vstd::arithmetic::div_mod::lemma_mod_sub_multiples_vanish(x, n);
        vstd::arithmetic::div_mod::lemma_small_mod((x - n) as nat, n as nat);
    }
}

/// The shells of a turn have two triangles for every point of every ring.
pub proof fn turned_shells_cover_every_point(rings: int, loops: Seq<usize>, n: int)
    requires
        0 <= rings,
        0 <= n <= loops.len(),
    ensures
        turned_shells(rings, loops, n).len() == 2 * (rings * points_in(loops, n)),
        n > 0 ==> turned_shells(rings, loops, n).skip(turned_shells(rings, loops, n - 1).len() as int) == tube(rings, loops[n - 1] as int).map_values(
            |t: Tri|
                Tri {
                    a: (t.a + rings * points_in(loops, n - 1)) as usize,
                    b: (t.b + rings * points_in(loops, n - 1)) as usize,
                    c: (t.c + rings * points_in(loops, n - 1)) as usize,
                },
        ),
    decreases n,
{
    if n > 0 {
        turned_shells_cover_every_point(rings, loops, n - 1);
        let (x, y) = (points_in(loops, n - 1), loops[n - 1] as int);
        assert(rings * x + rings * y == rings * (x + y)) by (nonlinear_arith);
        assert(0 <= rings * y) by (nonlinear_arith)
            requires
                rings >= 0,
                y >= 0,
        ;
    } else {
        assert(rings * 0 == 0);
    }
}

} // verus!
