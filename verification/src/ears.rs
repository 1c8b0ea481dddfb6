//! Triangulating a flat polygon by clipping its ears.

use vstd::prelude::*;

use crate::mesh::{turned, Tri};
use crate::patterns::{after, next};

verus! {

/// The test of three points can be asked of any below `n`, and always gives the same answer.
pub open spec fn decides3<F: Fn(usize, usize, usize) -> bool>(f: F, n: int) -> bool {
    &&& forall|i: usize, j: usize, k: usize| i < n && j < n && k < n ==> #[trigger] f.requires((i, j, k))
    &&& forall|i: usize, j: usize, k: usize|
        i < n && j < n && k < n && #[trigger] f.ensures((i, j, k), true) ==> !f.ensures((i, j, k), false)
}

/// The test says yes of the three points.
pub open spec fn says3<F: Fn(usize, usize, usize) -> bool>(f: F, i: usize, j: usize, k: usize) -> bool {
    f.ensures((i, j, k), true)
}

/// The test of four points can be asked of any below `n`, and always gives the same answer.
pub open spec fn decides4<G: Fn(usize, usize, usize, usize) -> bool>(g: G, n: int) -> bool {
    &&& forall|i: usize, j: usize, k: usize, l: usize| i < n && j < n && k < n && l < n ==> #[trigger] g.requires((i, j, k, l))
    &&& forall|i: usize, j: usize, k: usize, l: usize|
        i < n && j < n && k < n && l < n && #[trigger] g.ensures((i, j, k, l), true) ==> !g.ensures((i, j, k, l), false)
}

/// The test says yes of the four points.
pub open spec fn says4<G: Fn(usize, usize, usize, usize) -> bool>(g: G, i: usize, j: usize, k: usize, l: usize) -> bool {
    g.ensures((i, j, k, l), true)
}

/// The place before `i` on a ring of `n`.
pub open spec fn before(i: int, n: int) -> int {
    if i == 0 {
        n - 1
    } else {
        i - 1
    }
}

/// The corner at place `i` of the ring, from the point before it to the point after it.
pub open spec fn corner(ring: Seq<usize>, i: int) -> Tri {
    let n = ring.len() as int;
    Tri { a: ring[before(i, n)], b: ring[i], c: ring[after(i, n)] }
}

/// Some other point of the ring lies in the triangle.
pub open spec fn crowded<G: Fn(usize, usize, usize, usize) -> bool>(covers: G, ring: Seq<usize>, t: Tri) -> bool {
    exists|k: int|
        0 <= k < ring.len() && #[trigger] ring[k] != t.a && ring[k] != t.b && ring[k] != t.c && says4(covers, t.a, t.b, t.c, ring[k])
}

/// The corner is convex and nothing else lies in it.
pub open spec fn is_ear<F: Fn(usize, usize, usize) -> bool, G: Fn(usize, usize, usize, usize) -> bool>(
    convex: F,
    covers: G,
    ring: Seq<usize>,
    i: int,
) -> bool {
    let t = corner(ring, i);
    says3(convex, t.a, t.b, t.c) && !crowded(covers, ring, t)
}

/// The first ear at or after place `i`, or the length of the ring.
pub open spec fn ear_from<F: Fn(usize, usize, usize) -> bool, G: Fn(usize, usize, usize, usize) -> bool>(
    convex: F,
    covers: G,
    ring: Seq<usize>,
    i: int,
) -> int
    decreases ring.len() - i,
{
    if i < 0 || i >= ring.len() || is_ear(convex, covers, ring, i) {
        i
    } else {
        ear_from(convex, covers, ring, i + 1)
    }
}

/// The triangles from the first point of the ring.
pub open spec fn fan_of(ring: Seq<usize>) -> Seq<Tri> {
    Seq::new(
        (if ring.len() < 2 {
            0
        } else {
            ring.len() - 2
        }) as nat,
        |k: int| Tri { a: ring[0], b: ring[k + 1], c: ring[k + 2] },
    )
}

/// The triangles that clipping ears cuts a ring into: the first ear, then those of the ring without
/// it; a fan of what is left when three points are left, or no ear is.
pub open spec fn clipped<F: Fn(usize, usize, usize) -> bool, G: Fn(usize, usize, usize, usize) -> bool>(
    convex: F,
    covers: G,
    ring: Seq<usize>,
) -> Seq<Tri>
    decreases ring.len(),
{
    let i = ear_from(convex, covers, ring, 0);
    if ring.len() > 3 && 0 <= i < ring.len() {
        seq![corner(ring, i)] + clipped(convex, covers, ring.remove(i))
    } else {
        fan_of(ring)
    }
}

/// The points of a ring of `m`, in their order or the other way round.
pub open spec fn ring_order(m: int, flip: bool) -> Seq<usize> {
    Seq::new(
        m as nat,
        |i: int|
            (if flip {
                m - 1 - i
            } else {
                i
            }) as usize,
    )
}

/// The triangles of a polygon of `m` points, wound as the polygon is. `flip` tells whether it runs
/// clockwise.
pub open spec fn ears<F: Fn(usize, usize, usize) -> bool, G: Fn(usize, usize, usize, usize) -> bool>(
    convex: F,
    covers: G,
    m: int,
    flip: bool,
) -> Seq<Tri> {
    let tris = clipped(convex, covers, ring_order(m, flip));
    if flip {
        Seq::new(tris.len(), |i: int| turned(tris[i]))
    } else {
        tris
    }
}

#[verifier::loop_isolation(false)]
fn test_ear<F: Fn(usize, usize, usize) -> bool, G: Fn(usize, usize, usize, usize) -> bool>(
    m: usize,
    ring: &Vec<usize>,
    i: usize,
    convex: &F,
    covers: &G,
) -> (found: Option<Tri>)
    requires
        decides3(*convex, m as int),
        decides4(*covers, m as int),
        i < ring@.len(),
        forall|k: int| 0 <= k < ring@.len() ==> (#[trigger] ring@[k]) < m,
    ensures
        found is Some <==> is_ear(*convex, *covers, ring@, i as int),
        found matches Some(t) ==> t == corner(ring@, i as int),
{
    let n: usize = ring.len();
    let p: usize = if i == 0 {
        n - 1
    } else {
        i - 1
    };
    let q: usize = next(i, n);
    let t: Tri = Tri { a: ring[p], b: ring[i], c: ring[q] };
    assert(t == corner(ring@, i as int));
    let bends: bool = convex(t.a, t.b, t.c);
    assert(bends <==> says3(*convex, t.a, t.b, t.c));
    if !bends {
        return None;
    }
    let mut k: usize = 0;
    while k < n
        invariant
            k <= n,
            forall|m: int|
                0 <= m < k ==> !(#[trigger] ring@[m] != t.a && ring@[m] != t.b && ring@[m] != t.c && says4(*covers, t.a, t.b, t.c, ring@[m])),
        decreases n - k,
    {
        let j: usize = ring[k];
        if j != t.a && j != t.b && j != t.c {
            let hit: bool = covers(t.a, t.b, t.c, j);
            assert(hit <==> says4(*covers, t.a, t.b, t.c, j));
            if hit {
                assert(ring@[k as int] == j);
                assert(crowded(*covers, ring@, t));
                return None;
            }
        }
        k = k + 1;
    }
    Some(t)
}

/// Triangulate a flat polygon of `m` points by clipping its ears. `convex` tells whether the corner
/// at its second argument is convex, `covers` whether a triangle covers a point, both seen counter-
/// clockwise; `flip` tells whether the polygon runs clockwise.
#[verifier::loop_isolation(false)]
pub fn ear_clip<F: Fn(usize, usize, usize) -> bool, G: Fn(usize, usize, usize, usize) -> bool>(
    m: usize,
    flip: bool,
    convex: &F,
    covers: &G,
) -> (out: Vec<Tri>)
    requires
        decides3(*convex, m as int),
        decides4(*covers, m as int),
    ensures
        out@ == ears(*convex, *covers, m as int, flip),
{
    let mut ring: Vec<usize> = Vec::new();
    let mut i: usize = 0;
    while i < m
        invariant
            i <= m,
            ring@ == ring_order(m as int, flip).take(i as int),
        decreases m - i,
    {
        let p: usize = if flip {
            m - 1 - i
        } else {
            i
        };
        ring.push(p);
        i = i + 1;
        assert(ring@ =~= ring_order(m as int, flip).take(i as int));
    }
    assert(ring@ =~= ring_order(m as int, flip));
    let ghost whole = clipped(*convex, *covers, ring@);
    let mut out: Vec<Tri> = Vec::new();
    let mut stuck: bool = false;
    assert(out@ + clipped(*convex, *covers, ring@) =~= whole);
    while ring.len() > 3 && !stuck
        invariant
            out@ + clipped(*convex, *covers, ring@) == whole,
            forall|k: int| 0 <= k < ring@.len() ==> (#[trigger] ring@[k]) < m,
            stuck ==> ear_from(*convex, *covers, ring@, 0) >= ring@.len(),
        decreases ring@.len() + if stuck {
            0nat
        } else {
            1nat
        },
    {
        let n: usize = ring.len();
        let mut k: usize = 0;
        let mut done: bool = false;
        let ghost r0 = ring@;
        let ghost out0 = out@;
        while k < n && !done
            invariant
                k <= n,
                n == r0.len(),
                forall|k: int| 0 <= k < r0.len() ==> (#[trigger] r0[k]) < m,
                !done ==> ring@ == r0 && out@ == out0 && ear_from(*convex, *covers, r0, 0) == ear_from(*convex, *covers, r0, k as int),
                done ==> k < n && ear_from(*convex, *covers, r0, 0) == k && ring@ == r0.remove(k as int) && out@ == out0.push(
                    corner(r0, k as int),
                ),
            decreases n - k + if done {
                0int
            } else {
                1
            },
        {
            match test_ear(m, &ring, k, convex, covers) {
                Some(t) => {
                    out.push(t);
                    ring.remove(k);
                    done = true;
                },
                None => {
                    k = k + 1;
                },
            }
        }
        if done {
            assert(out@ + clipped(*convex, *covers, ring@) =~= out0 + (seq![corner(r0, k as int)] + clipped(
                *convex,
                *covers,
                r0.remove(k as int),
            )));
        } else {
            stuck = true;
        }
    }
    let ghost cut = out@;
    assert(clipped(*convex, *covers, ring@) == fan_of(ring@));
    let n: usize = ring.len();
    let mut k: usize = 1;
    assert(cut + fan_of(ring@).take(0) =~= cut);
    while n >= 2 && k < n - 1
        invariant
            1 <= k,
            n >= 2 ==> k <= n - 1,
            n < 2 ==> k == 1,
            out@ == cut + fan_of(ring@).take(k - 1),
        decreases n - k,
    {
        out.push(Tri { a: ring[0], b: ring[k], c: ring[k + 1] });
        k = k + 1;
        assert(out@ =~= cut + fan_of(ring@).take(k - 1));
    }
    assert(fan_of(ring@).take(k - 1) =~= fan_of(ring@));
    assert(out@ == whole);
    if flip {
        let mut t: usize = 0;
        while t < out.len()
            invariant
                t <= out@.len(),
                out@.len() == whole.len(),
                forall|j: int| 0 <= j < t ==> #[trigger] out@[j] == turned(whole[j]),
                forall|j: int| t <= j < whole.len() ==> #[trigger] out@[j] == whole[j],
            decreases out@.len() - t,
        {
            let x: Tri = out[t];
            out.set(t, Tri { a: x.a, b: x.c, c: x.b });
            t = t + 1;
        }
        assert(out@ =~= Seq::new(whole.len(), |i: int| turned(whole[i])));
    }
    out
}

// ---- what the triangles cover ----

/// One for the step from `p` to `q`, minus one for the step back.
pub open spec fn step(a: usize, b: usize, p: usize, q: usize) -> int {
    (if a == p && b == q {
        1int
    } else {
        0
    }) - (if a == q && b == p {
        1int
    } else {
        0
    })
}

pub open spec fn tri_net(t: Tri, p: usize, q: usize) -> int {
    step(t.a, t.b, p, q) + step(t.b, t.c, p, q) + step(t.c, t.a, p, q)
}

/// How often the triangles run from `p` to `q`, less how often they run back.
pub open spec fn net(tris: Seq<Tri>, p: usize, q: usize) -> int
    decreases tris.len(),
{
    if tris.len() == 0 {
        0
    } else {
        net(tris.drop_last(), p, q) + tri_net(tris.last(), p, q)
    }
}

/// The same of an open walk.
pub open spec fn walk_net(w: Seq<usize>, p: usize, q: usize) -> int
    decreases w.len(),
{
    if w.len() < 2 {
        0
    } else {
        walk_net(w.drop_last(), p, q) + step(w[w.len() - 2], w.last(), p, q)
    }
}

/// The same of a ring.
pub open spec fn ring_net(r: Seq<usize>, p: usize, q: usize) -> int {
    if r.len() == 0 {
        0
    } else {
        walk_net(r, p, q) + step(r.last(), r[0], p, q)
    }
}

/// What two lists of triangles cover together.
pub proof fn net_join(a: Seq<Tri>, b: Seq<Tri>, p: usize, q: usize)
    ensures
        net(a + b, p, q) == net(a, p, q) + net(b, p, q),
    decreases b.len(),
{
    if b.len() == 0 {
        assert(a + b =~= a);
    } else {
        net_join(a, b.drop_last(), p, q);
        assert((a + b).drop_last() =~= a + b.drop_last());
        assert((a + b).last() == b.last());
    }
}

proof fn walk_join(a: Seq<usize>, b: Seq<usize>, p: usize, q: usize)
    requires
        a.len() > 0,
        b.len() > 0,
    ensures
        walk_net(a + b, p, q) == walk_net(a, p, q) + step(a.last(), b[0], p, q) + walk_net(b, p, q),
    decreases b.len(),
{
    let w = a + b;
    if b.len() == 1 {
        assert(w.drop_last() =~= a);
    } else {
        walk_join(a, b.drop_last(), p, q);
        assert(w.drop_last() =~= a + b.drop_last());
        assert(w[w.len() - 2] == b[b.len() - 2]);
        assert(w.last() == b.last());
    }
}

/// Taking an ear off a ring takes the ear's steps off its net.
proof fn ear_off(r: Seq<usize>, i: int, p: usize, q: usize)
    requires
        0 <= i < r.len(),
        r.len() > 3,
    ensures
        ring_net(r, p, q) == ring_net(r.remove(i), p, q) + tri_net(corner(r, i), p, q),
{
    let n = r.len() as int;
    let s = r.remove(i);
    if i == 0 {
        let x = seq![r[0]];
        let rest = r.subrange(1, n);
        assert(r =~= x + rest);
        assert(s =~= rest);
        walk_join(x, rest, p, q);
    } else if i == n - 1 {
        let x = seq![r[n - 1]];
        let rest = r.subrange(0, n - 1);
        assert(r =~= rest + x);
        assert(s =~= rest);
        walk_join(rest, x, p, q);
    } else {
        let a = r.subrange(0, i);
        let x = seq![r[i]];
        let b = r.subrange(i + 1, n);
        assert(r =~= a + x + b);
        assert(s =~= a + b);
        walk_join(a, x, p, q);
        walk_join(a + x, b, p, q);
        walk_join(a, b, p, q);
        assert((a + x).last() == r[i]);
        assert((a + x + b).last() == r[n - 1]);
        assert((a + b).last() == r[n - 1]);
    }
}

proof fn fan_net(r: Seq<usize>, p: usize, q: usize)
    requires
        r.len() >= 2,
    ensures
        net(fan_of(r), p, q) == ring_net(r, p, q),
    decreases r.len(),
{
    let n = r.len() as int;
    if n == 2 {
        assert(fan_of(r) =~= Seq::<Tri>::empty());
        assert(r.drop_last().len() == 1);
        assert(walk_net(r.drop_last(), p, q) == 0);
    } else {
        let s = r.drop_last();
        fan_net(s, p, q);
        assert(fan_of(r).drop_last() =~= fan_of(s));
        assert(walk_net(r, p, q) == walk_net(s, p, q) + step(r[n - 2], r[n - 1], p, q));
    }
}

proof fn clip_net<F: Fn(usize, usize, usize) -> bool, G: Fn(usize, usize, usize, usize) -> bool>(
    convex: F,
    covers: G,
    r: Seq<usize>,
    p: usize,
    q: usize,
)
    requires
        r.len() >= 3,
    ensures
        net(clipped(convex, covers, r), p, q) == ring_net(r, p, q),
        clipped(convex, covers, r).len() == r.len() - 2,
    decreases r.len(),
{
    let i = ear_from(convex, covers, r, 0);
    if r.len() > 3 && 0 <= i < r.len() {
        let t = seq![corner(r, i)];
        clip_net(convex, covers, r.remove(i), p, q);
        net_join(t, clipped(convex, covers, r.remove(i)), p, q);
        assert(t.drop_last() =~= Seq::<Tri>::empty());
        assert(net(t, p, q) == net(t.drop_last(), p, q) + tri_net(t.last(), p, q));
        ear_off(r, i, p, q);
    } else {
        fan_net(r, p, q);
    }
}

proof fn turned_net(tris: Seq<Tri>, p: usize, q: usize)
    ensures
        net(Seq::new(tris.len(), |i: int| turned(tris[i])), p, q) == -net(tris, p, q),
    decreases tris.len(),
{
    let back = Seq::new(tris.len(), |i: int| turned(tris[i]));
    if tris.len() > 0 {
        let less = tris.drop_last();
        turned_net(less, p, q);
        assert(back.drop_last() =~= Seq::new(less.len(), |i: int| turned(less[i])));
    } else {
        assert(back =~= Seq::<Tri>::empty());
    }
}

proof fn reversed_walk_net(w: Seq<usize>, p: usize, q: usize)
    ensures
        walk_net(w.reverse(), p, q) == -walk_net(w, p, q),
    decreases w.len(),
{
    if w.len() >= 2 {
        let less = w.drop_last();
        reversed_walk_net(less, p, q);
        let x = seq![w.last()];
        assert(w.reverse() =~= x + less.reverse());
        walk_join(x, less.reverse(), p, q);
    }
}

/// The triangles of a polygon are two fewer than its points, and border it: every step along the
/// polygon is made once more than it is unmade, and every other step as often as it is unmade.
pub proof fn ears_border_their_polygon<F: Fn(usize, usize, usize) -> bool, G: Fn(usize, usize, usize, usize) -> bool>(
    convex: F,
    covers: G,
    m: int,
    flip: bool,
    p: usize,
    q: usize,
)
    requires
        3 <= m <= usize::MAX,
    ensures
        ears(convex, covers, m, flip).len() == m - 2,
        net(ears(convex, covers, m, flip), p, q) == ring_net(ring_order(m, false), p, q),
{
    let r = ring_order(m, flip);
    clip_net(convex, covers, r, p, q);
    if flip {
        turned_net(clipped(convex, covers, r), p, q);
        let w = ring_order(m, false);
        assert(r =~= w.reverse());
        reversed_walk_net(w, p, q);
    }
}

/// The corner at place `i` can be cut off: it is convex, and no other point of the ring lies in the
/// triangle over it.
pub open spec fn cuts_off<F: Fn(usize, usize, usize) -> bool, G: Fn(usize, usize, usize, usize) -> bool>(
    convex: F,
    covers: G,
    ring: Seq<usize>,
    i: int,
) -> bool {
    let (p, v, q) = (
        ring[if i == 0 {
            ring.len() - 1
        } else {
            i - 1
        }],
        ring[i],
        ring[if i + 1 == ring.len() {
            0
        } else {
            i + 1
        }],
    );
    says3(convex, p, v, q) && forall|k: int| 0 <= k < ring.len() && says4(covers, p, v, q, #[trigger] ring[k]) ==> ring[k] == p || ring[k] == v || ring[k] == q
}

proof fn cutting_off_takes_an_ear<F: Fn(usize, usize, usize) -> bool, G: Fn(usize, usize, usize, usize) -> bool>(
    convex: F,
    covers: G,
    ring: Seq<usize>,
    i: int,
)
    requires
        0 <= i < ring.len(),
    ensures
        cuts_off(convex, covers, ring, i) == is_ear(convex, covers, ring, i),
{
    let t = corner(ring, i);
    if crowded(covers, ring, t) {
        let k = choose|k: int|
            0 <= k < ring.len() && #[trigger] ring[k] != t.a && ring[k] != t.b && ring[k] != t.c && says4(covers, t.a, t.b, t.c, ring[k]);
        assert(says4(covers, t.a, t.b, t.c, ring[k]));
    }
}

proof fn ear_is_found<F: Fn(usize, usize, usize) -> bool, G: Fn(usize, usize, usize, usize) -> bool>(
    convex: F,
    covers: G,
    ring: Seq<usize>,
    from: int,
    i: int,
)
    requires
        0 <= from <= i <= ring.len(),
        forall|k: int| from <= k < i ==> !#[trigger] cuts_off(convex, covers, ring, k),
        i < ring.len() ==> cuts_off(convex, covers, ring, i),
    ensures
        ear_from(convex, covers, ring, from) == i,
    decreases i - from,
{
    if from < ring.len() {
        cutting_off_takes_an_ear(convex, covers, ring, from);
        if from < i {
            assert(!cuts_off(convex, covers, ring, from));
            ear_is_found(convex, covers, ring, from + 1, i);
        }
    }
}

/// While more than three points are left, the first corner that can be cut off is: its triangle runs
/// from the point before it over it to the point after it, and the ring goes on without it. Where none
/// can be, or three points are left, the rest is a fan.
pub proof fn first_ears_are_cut_off<F: Fn(usize, usize, usize) -> bool, G: Fn(usize, usize, usize, usize) -> bool>(
    convex: F,
    covers: G,
    ring: Seq<usize>,
    i: int,
)
    requires
        0 <= i <= ring.len(),
        forall|k: int| 0 <= k < i ==> !#[trigger] cuts_off(convex, covers, ring, k),
        i < ring.len() ==> cuts_off(convex, covers, ring, i),
    ensures
        ring.len() > 3 && i < ring.len() ==> clipped(convex, covers, ring) == seq![
            Tri {
                a: ring[if i == 0 {
                    ring.len() - 1
                } else {
                    i - 1
                }],
                b: ring[i],
                c: ring[if i + 1 == ring.len() {
                    0
                } else {
                    i + 1
                }],
            },
        ] + clipped(convex, covers, ring.take(i) + ring.skip(i + 1)),
        ring.len() <= 3 || i == ring.len() ==> clipped(convex, covers, ring) == Seq::new(
            (if ring.len() < 2 {
                0
            } else {
                ring.len() - 2
            }) as nat,
            |k: int| Tri { a: ring[0], b: ring[k + 1], c: ring[k + 2] },
        ),
{
    ear_is_found(convex, covers, ring, 0, i);
    if i < ring.len() {
        assert(ring.remove(i) =~= ring.take(i) + ring.skip(i + 1));
    }
}

/// A polygon that runs clockwise is cut as its points backwards are, and each triangle is then turned
/// to run as the polygon does.
pub proof fn clockwise_polygons_are_cut_backwards<F: Fn(usize, usize, usize) -> bool, G: Fn(usize, usize, usize, usize) -> bool>(
    convex: F,
    covers: G,
    m: int,
)
    requires
        0 <= m <= usize::MAX,
    ensures
        ears(convex, covers, m, false) == clipped(convex, covers, Seq::new(m as nat, |i: int| i as usize)),
        ears(convex, covers, m, true) == clipped(convex, covers, Seq::new(m as nat, |i: int| i as usize).reverse()).map_values(
            |t: Tri| Tri { a: t.a, b: t.c, c: t.b },
        ),
{
    assert(ring_order(m, false) =~= Seq::new(m as nat, |i: int| i as usize));
    assert(ring_order(m, true) =~= Seq::new(m as nat, |i: int| i as usize).reverse());
    let tris = clipped(convex, covers, ring_order(m, true));
    assert(ears(convex, covers, m, true) =~= tris.map_values(|t: Tri| Tri { a: t.a, b: t.c, c: t.b }));
}

} // verus!
