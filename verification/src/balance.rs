//! Surface nets close: every step between two cells is made as often one way as the other.
//!
//! A step between two cells that share a face belongs to the quads of the four grid edges around
//! that face. What the marks rise along those edges adds up to nothing, for they lead round in a
//! ring.

use vstd::prelude::*;

use crate::ears::{net, net_join, step, tri_net};
use crate::mesh::{triples, Tri};
use crate::nets::{around, around_cell, cells, cells_wf, far_end, has_cells, has_quad, interior_edge, quad, quads, quads_in_range, surface, turned};
use crate::voxel::Grid;

verus! {

/// The grid points on the faces of the box all have one mark.
pub open spec fn border_agrees(g: Grid, below: Seq<bool>) -> bool {
    forall|v: int| 0 <= v < g.volume() && g.on_border(v) ==> #[trigger] below[v] == below[0]
}

type Place = (int, int, int);

/// The grid point or cell at a place.
spec fn number(g: Grid, c: Place) -> int {
    g.index(c.0, c.1, c.2)
}

spec fn at(g: Grid, v: int) -> Place {
    (g.x(v), g.y(v), g.z(v))
}

spec fn within(g: Grid, c: Place) -> bool {
    g.inside(c.0, c.1, c.2)
}

/// The `n`-th cell around a grid edge.
spec fn ring(g: Grid, v: int, axis: int, n: int) -> usize {
    around_cell(g, v, axis, n) as usize
}

/// How often the ring of cells around a grid edge runs from `p` to `q`, less how often it runs back.
spec fn lap(g: Grid, v: int, axis: int, p: usize, q: usize) -> int {
    step(ring(g, v, axis, 0), ring(g, v, axis, 1), p, q) + step(ring(g, v, axis, 1), ring(g, v, axis, 2), p, q) + step(
        ring(g, v, axis, 2),
        ring(g, v, axis, 3),
        p,
        q,
    ) + step(ring(g, v, axis, 3), ring(g, v, axis, 0), p, q)
}

/// What the quad of a grid edge adds.
spec fn share(g: Grid, below: Seq<bool>, v: int, axis: int, p: usize, q: usize) -> int {
    if !has_quad(g, below, v, axis) {
        0
    } else if turned(below, v, axis) {
        -lap(g, v, axis, p, q)
    } else {
        lap(g, v, axis, p, q)
    }
}

spec fn sum(f: spec_fn(int) -> int, n: int) -> int
    decreases n,
{
    if n <= 0 {
        0
    } else {
        sum(f, n - 1) + f(n - 1)
    }
}

/// A sum of which all but two terms vanish.
proof fn sum_of_two(f: spec_fn(int) -> int, n: int, u: int, w: int)
    requires
        u != w,
        forall|v: int| 0 <= v < n && v != u && v != w ==> #[trigger] f(v) == 0,
    ensures
        sum(f, n) == (if 0 <= u < n {
            f(u)
        } else {
            0
        }) + (if 0 <= w < n {
            f(w)
        } else {
            0
        }),
    decreases n,
{
    if n > 0 {
        sum_of_two(f, n - 1, u, w);
    }
}

proof fn triples_join(a: Seq<u32>, b: Seq<u32>)
    requires
        a.len() % 3 == 0,
    ensures
        triples(a + b) == triples(a) + triples(b),
{
    let (m, all) = (a.len() / 3, a + b);
    assert(all.len() / 3 == m + b.len() / 3);
    assert(triples(all).len() == (triples(a) + triples(b)).len());
    assert forall|t: int| 0 <= t < triples(all).len() implies triples(all)[t] == (triples(a) + triples(b))[t] by {
        if t < m {
            assert(all[3 * t] == a[3 * t] && all[3 * t + 1] == a[3 * t + 1] && all[3 * t + 2] == a[3 * t + 2]);
        } else {
            let s = t - m;
            assert(3 * t == 3 * s + a.len());
            assert(all[3 * t] == b[3 * s] && all[3 * t + 1] == b[3 * s + 1] && all[3 * t + 2] == b[3 * s + 2]);
        }
    }
    assert(triples(all) =~= triples(a) + triples(b));
}

proof fn quad_net(g: Grid, below: Seq<bool>, v: int, axis: int, p: usize, q: usize)
    requires
        has_quad(g, below, v, axis),
    ensures
        net(triples(quad(g, below, v, axis)), p, q) == share(g, below, v, axis, p, q),
{
    let (a, b, c, d) = (ring(g, v, axis, 0), ring(g, v, axis, 1), ring(g, v, axis, 2), ring(g, v, axis, 3));
    let (s, t) = if turned(below, v, axis) {
        (Tri { a, b: d, c }, Tri { a, b: c, c: b })
    } else {
        (Tri { a, b, c }, Tri { a, b: c, c: d })
    };
    let both = triples(quad(g, below, v, axis));
    assert(both =~= seq![s, t]);
    assert(both.drop_last() =~= seq![s]);
    assert(both.drop_last().drop_last() =~= Seq::<Tri>::empty());
    assert(net(both.drop_last().drop_last(), p, q) == 0);
    assert(net(both.drop_last(), p, q) == tri_net(s, p, q));
    assert(net(both, p, q) == tri_net(s, p, q) + tri_net(t, p, q));
}

proof fn quads_net(g: Grid, below: Seq<bool>, axis: int, n: int, p: usize, q: usize)
    requires
        has_cells(g),
        below.len() == g.volume(),
        0 <= axis < 3,
        0 <= n <= g.volume(),
    ensures
        net(triples(quads(g, below, axis, n)), p, q) == sum(|v: int| share(g, below, v, axis, p, q), n),
    decreases n,
{
    let f = |v: int| share(g, below, v, axis, p, q);
    if n <= 0 {
        assert(triples(quads(g, below, axis, n)) =~= Seq::<Tri>::empty());
    } else {
        quads_net(g, below, axis, n - 1, p, q);
        let rest = quads(g, below, axis, n - 1);
        assert(f(n - 1) == share(g, below, n - 1, axis, p, q));
        if has_quad(g, below, n - 1, axis) {
            quads_in_range(g, below, axis, n - 1);
            let more = quad(g, below, n - 1, axis);
            triples_join(rest, more);
            net_join(triples(rest), triples(more), p, q);
            quad_net(g, below, n - 1, axis, p, q);
        }
    }
}

/// Two cells with one number are at one place.
proof fn one_cell(g: Grid, c: Place, d: Place)
    requires
        g.wf(),
        within(g, c),
        within(g, d),
    ensures
        number(g, c) == number(g, d) <==> c == d,
        0 <= number(g, c) < g.volume(),
        0 <= number(g, d) < g.volume(),
{
    g.numbering(c.0, c.1, c.2);
    g.numbering(d.0, d.1, d.2);
}

/// A place one step up along a direction.
spec fn up(c: Place, d: int) -> Place {
    if d == 0 {
        (c.0 + 1, c.1, c.2)
    } else if d == 1 {
        (c.0, c.1 + 1, c.2)
    } else {
        (c.0, c.1, c.2 + 1)
    }
}

/// The grid edge along `axis` whose ring steps from the cell at `c` up along `d`.
spec fn gives(c: Place, d: int, axis: int) -> Place {
    if d == 0 {
        if axis == 1 { (c.0 + 1, c.1, c.2 + 1) } else { (c.0 + 1, c.1 + 1, c.2) }
    } else if d == 1 {
        if axis == 0 { (c.0, c.1 + 1, c.2 + 1) } else { (c.0, c.1 + 1, c.2) }
    } else {
        (c.0, c.1, c.2 + 1)
    }
}

/// The grid edge along `axis` whose ring steps back.
spec fn takes(c: Place, d: int, axis: int) -> Place {
    if d == 0 {
        (c.0 + 1, c.1, c.2)
    } else if d == 1 {
        if axis == 0 { (c.0, c.1 + 1, c.2) } else { (c.0 + 1, c.1 + 1, c.2) }
    } else {
        if axis == 0 { (c.0, c.1 + 1, c.2 + 1) } else { (c.0 + 1, c.1, c.2 + 1) }
    }
}

/// The cells around an interior grid edge are cells.
proof fn ring_within(g: Grid, v: int, axis: int, n: int)
    requires
        has_cells(g),
        0 <= v < g.volume(),
        0 <= axis < 3,
        0 <= n < 4,
        interior_edge(g, v, axis),
    ensures
        within(cells(g), around(g, v, axis, n)),
        ring(g, v, axis, n) == number(cells(g), around(g, v, axis, n)),
        ring(g, v, axis, n) < cells(g).volume(),
{
    g.coordinates(v);
    cells_wf(g);
    let c = around(g, v, axis, n);
    cells(g).numbering(c.0, c.1, c.2);
}

/// A cell of the ring is at a place exactly where it has that place's number.
proof fn ring_is(g: Grid, v: int, axis: int, n: int, c: Place)
    requires
        has_cells(g),
        0 <= v < g.volume(),
        0 <= axis < 3,
        0 <= n < 4,
        interior_edge(g, v, axis),
        within(cells(g), c),
    ensures
        ring(g, v, axis, n) == number(cells(g), c) <==> around(g, v, axis, n) == c,
        0 <= number(cells(g), c) < cells(g).volume(),
{
    cells_wf(g);
    ring_within(g, v, axis, n);
    one_cell(cells(g), around(g, v, axis, n), c);
}

/// The ring of a grid edge steps across a face of the cell at `c` for two edges along each of the
/// other two axes, once forth and once back.
proof fn lap_across(g: Grid, v: int, axis: int, c: Place, d: int)
    requires
        has_cells(g),
        0 <= v < g.volume(),
        0 <= axis < 3,
        0 <= d < 3,
        interior_edge(g, v, axis),
        within(cells(g), c),
        within(cells(g), up(c, d)),
    ensures
        lap(g, v, axis, number(cells(g), c) as usize, number(cells(g), up(c, d)) as usize) == (if axis == d {
            0int
        } else if at(g, v) == gives(c, d, axis) {
            1
        } else if at(g, v) == takes(c, d, axis) {
            -1
        } else {
            0
        }),
{
    let e = up(c, d);
    cells_wf(g);
    ring_is(g, v, axis, 0, c);
    ring_is(g, v, axis, 1, c);
    ring_is(g, v, axis, 2, c);
    ring_is(g, v, axis, 3, c);
    ring_is(g, v, axis, 0, e);
    ring_is(g, v, axis, 1, e);
    ring_is(g, v, axis, 2, e);
    ring_is(g, v, axis, 3, e);
    let (p, q) = (number(cells(g), c) as usize, number(cells(g), e) as usize);
    assert(p == number(cells(g), c) && q == number(cells(g), e));
    let (x, y, z) = at(g, v);
    if axis == 0 {
        assert(around(g, v, axis, 0) == (x, y - 1, z - 1));
        assert(around(g, v, axis, 1) == (x, y, z - 1));
        assert(around(g, v, axis, 2) == (x, y, z));
        assert(around(g, v, axis, 3) == (x, y - 1, z));
    } else if axis == 1 {
        assert(around(g, v, axis, 0) == (x - 1, y, z - 1));
        assert(around(g, v, axis, 1) == (x, y, z - 1));
        assert(around(g, v, axis, 2) == (x, y, z));
        assert(around(g, v, axis, 3) == (x - 1, y, z));
    } else {
        assert(around(g, v, axis, 0) == (x - 1, y - 1, z));
        assert(around(g, v, axis, 1) == (x, y - 1, z));
        assert(around(g, v, axis, 2) == (x, y, z));
        assert(around(g, v, axis, 3) == (x - 1, y, z));
    }
}

spec fn height(b: bool) -> int {
    if b { 1 } else { 0 }
}

/// How the marks rise from a grid point along an axis, in the sense of the quads there.
spec fn rise(g: Grid, below: Seq<bool>, c: Place, axis: int) -> int {
    let r = height(below[number(g, up(c, axis))]) - height(below[number(g, c)]);
    if axis == 1 { -r } else { r }
}

/// A grid edge adds to the step across a face what the marks rise along it.
proof fn share_is_rise(g: Grid, below: Seq<bool>, v: int, axis: int, p: usize, q: usize)
    requires
        has_cells(g),
        below.len() == g.volume(),
        border_agrees(g, below),
        0 <= v < g.volume(),
        0 <= axis < 3,
        within(g, up(at(g, v), axis)),
    ensures
        share(g, below, v, axis, p, q) == rise(g, below, at(g, v), axis) * lap(g, v, axis, p, q) || !interior_edge(g, v, axis),
        !interior_edge(g, v, axis) ==> share(g, below, v, axis, p, q) == 0 && rise(g, below, at(g, v), axis) == 0,
{
    g.coordinates(v);
    let e = up(at(g, v), axis);
    g.numbering(e.0, e.1, e.2);
    let w = number(g, e);
    assert(w == far_end(g, v, axis));
    assert(number(g, at(g, v)) == v);
    if !interior_edge(g, v, axis) {
        assert(g.on_border(v) && g.on_border(w));
        assert(below[v] == below[0] && below[w] == below[0]);
    } else {
        let r = rise(g, below, at(g, v), axis);
        let l = lap(g, v, axis, p, q);
        assert(0 * l == 0 && 1 * l == l && (-1) * l == -l) by (nonlinear_arith);
        if has_quad(g, below, v, axis) {
            assert(r == 1 || r == -1);
        } else {
            assert(r == 0);
        }
    }
}

/// The grid edges along one axis add to the step from a cell up along `d` what the marks rise along
/// the one edge, less what they rise along the other.
proof fn axis_total(g: Grid, below: Seq<bool>, axis: int, c: Place, d: int)
    requires
        has_cells(g),
        below.len() == g.volume(),
        border_agrees(g, below),
        0 <= axis < 3,
        0 <= d < 3,
        within(cells(g), c),
        within(cells(g), up(c, d)),
    ensures
        sum(|v: int| share(g, below, v, axis, number(cells(g), c) as usize, number(cells(g), up(c, d)) as usize), g.volume()) == (if axis == d {
            0
        } else {
            rise(g, below, gives(c, d, axis), axis) - rise(g, below, takes(c, d, axis), axis)
        }),
{
    let (p, q) = (number(cells(g), c) as usize, number(cells(g), up(c, d)) as usize);
    let f = |v: int| share(g, below, v, axis, p, q);
    let (s, t) = (gives(c, d, axis), takes(c, d, axis));
    let (u, w) = if axis == d { (-1, -2) } else { (number(g, s), number(g, t)) };
    if axis != d {
        assert(within(g, s) && within(g, t));
        assert(within(g, up(s, axis)) && within(g, up(t, axis)));
        g.numbering(s.0, s.1, s.2);
        g.numbering(t.0, t.1, t.2);
        assert(s != t);
        assert(at(g, u) == s && at(g, w) == t);
    }
    assert forall|v: int| 0 <= v < g.volume() && v != u && v != w implies #[trigger] f(v) == 0 by {
        g.coordinates(v);
        assert(number(g, at(g, v)) == v);
        if has_quad(g, below, v, axis) {
            lap_across(g, v, axis, c, d);
            if axis != d {
                assert(at(g, v) != s && at(g, v) != t);
            }
            assert(lap(g, v, axis, p, q) == 0);
        }
    }
    sum_of_two(f, g.volume(), u, w);
    if axis != d {
        share_is_rise(g, below, u, axis, p, q);
        share_is_rise(g, below, w, axis, p, q);
        if interior_edge(g, u, axis) {
            lap_across(g, u, axis, c, d);
            assert(lap(g, u, axis, p, q) == 1);
            assert(f(u) == rise(g, below, s, axis));
        }
        if interior_edge(g, w, axis) {
            lap_across(g, w, axis, c, d);
            assert(lap(g, w, axis, p, q) == -1);
            assert(f(w) == -rise(g, below, t, axis));
        }
    }
}

/// A step from one cell up to the next is made as often as it is unmade.
proof fn step_up_balances(g: Grid, below: Seq<bool>, c: Place, d: int)
    requires
        has_cells(g),
        below.len() == g.volume(),
        border_agrees(g, below),
        0 <= d < 3,
        within(cells(g), c),
        within(cells(g), up(c, d)),
    ensures
        net(triples(surface(g, below)), number(cells(g), c) as usize, number(cells(g), up(c, d)) as usize) == 0,
{
    let (p, q) = (number(cells(g), c) as usize, number(cells(g), up(c, d)) as usize);
    surface_net(g, below, p, q);
    axis_total(g, below, 0, c, d);
    axis_total(g, below, 1, c, d);
    axis_total(g, below, 2, c, d);
}

proof fn surface_net(g: Grid, below: Seq<bool>, p: usize, q: usize)
    requires
        has_cells(g),
        below.len() == g.volume(),
    ensures
        net(triples(surface(g, below)), p, q) == sum(|v: int| share(g, below, v, 0, p, q), g.volume()) + sum(
            |v: int| share(g, below, v, 1, p, q),
            g.volume(),
        ) + sum(|v: int| share(g, below, v, 2, p, q), g.volume()),
{
    let n = g.volume();
    let (a, b, c) = (quads(g, below, 0, n), quads(g, below, 1, n), quads(g, below, 2, n));
    quads_in_range(g, below, 0, n);
    quads_in_range(g, below, 1, n);
    triples_join(a, b);
    triples_join(a + b, c);
    net_join(triples(a), triples(b), p, q);
    net_join(triples(a + b), triples(c), p, q);
    quads_net(g, below, 0, n, p, q);
    quads_net(g, below, 1, n, p, q);
    quads_net(g, below, 2, n, p, q);
}

/// Counted from the other side, steps forth are steps back.
proof fn net_turns(tris: Seq<Tri>, p: usize, q: usize)
    ensures
        net(tris, p, q) == -net(tris, q, p),
    decreases tris.len(),
{
    if tris.len() > 0 {
        net_turns(tris.drop_last(), p, q);
    }
}

/// Two numbers that are not those of cells that share a face are never stepped between.
proof fn others_are_not_stepped(g: Grid, below: Seq<bool>, axis: int, p: usize, q: usize)
    requires
        has_cells(g),
        below.len() == g.volume(),
        0 <= axis < 3,
        forall|c: Place, d: int|
            #![trigger up(c, d), within(cells(g), c)]
            0 <= d < 3 && within(cells(g), c) && within(cells(g), up(c, d)) ==> !(p == number(cells(g), c) && q == number(
                cells(g),
                up(c, d),
            )) && !(q == number(cells(g), c) && p == number(cells(g), up(c, d))),
    ensures
        sum(|v: int| share(g, below, v, axis, p, q), g.volume()) == 0,
{
    let f = |v: int| share(g, below, v, axis, p, q);
    assert forall|v: int| 0 <= v < g.volume() implies #[trigger] f(v) == 0 by {
        if has_quad(g, below, v, axis) {
            ring_within(g, v, axis, 0);
            ring_within(g, v, axis, 1);
            ring_within(g, v, axis, 2);
            ring_within(g, v, axis, 3);
            let (a, b, c, e) = (around(g, v, axis, 0), around(g, v, axis, 1), around(g, v, axis, 2), around(g, v, axis, 3));
            let (d1, d2): (int, int) = if axis == 0 { (1, 2) } else if axis == 1 { (0, 2) } else { (0, 1) };
            assert(up(a, d1) == b);
            assert(up(b, d2) == c);
            assert(up(e, d1) == c);
            assert(up(a, d2) == e);
        }
    }
    sum_of_two(f, g.volume(), -1, -2);
}

/// The surface between marked and unmarked grid points is closed where the marks agree all over the
/// border of the grid: its triangles step from any cell to any other as often as they step back.
pub proof fn surface_nets_close(g: Grid, below: Seq<bool>, p: usize, q: usize)
    requires
        has_cells(g),
        below.len() == g.volume(),
        border_agrees(g, below),
    ensures
        net(triples(surface(g, below)), p, q) == 0,
{
    if exists|c: Place, d: int|
        #![trigger up(c, d), within(cells(g), c)]
        0 <= d < 3 && within(cells(g), c) && within(cells(g), up(c, d)) && ((p == number(cells(g), c) && q == number(cells(g), up(c, d)))
            || (q == number(cells(g), c) && p == number(cells(g), up(c, d)))) {
        let (c, d) = choose|c: Place, d: int|
            #![trigger up(c, d), within(cells(g), c)]
            0 <= d < 3 && within(cells(g), c) && within(cells(g), up(c, d)) && ((p == number(cells(g), c) && q == number(
                cells(g),
                up(c, d),
            )) || (q == number(cells(g), c) && p == number(cells(g), up(c, d))));
        step_up_balances(g, below, c, d);
        net_turns(triples(surface(g, below)), p, q);
    } else {
        others_are_not_stepped(g, below, 0, p, q);
        others_are_not_stepped(g, below, 1, p, q);
        others_are_not_stepped(g, below, 2, p, q);
        surface_net(g, below, p, q);
    }
}

} // verus!
