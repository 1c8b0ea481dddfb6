//! Boolean operations on polygon soups by binary space partitioning.
//!
//! A tree built from the polygons of one solid cuts those of another into pieces that lie inside it
//! and pieces that lie outside. The operations are fixed sequences of clipping and turning inside
//! out. Faces that lie in one plane are kept whole, so a boss can sit flush on a floor.
//!
//! Coordinates are held as the bit patterns of their floating-point values. What has to be computed
//! from them is asked of a [`Kernel`].

use vstd::prelude::*;

use crate::bodies::shifted;
use crate::mesh::Tri;
use crate::patterns::{after, fan, fan_tris, next};

verus! {

/// A tree is not made deeper than this.
pub const MAX_DEPTH: u32 = 3000;

#[derive(Clone, Copy, Debug)]
pub struct Vertex {
    pub pos: [u64; 3],
}

/// A plane: its normal, and how far along the normal it lies.
#[derive(Clone, Copy, Debug)]
pub struct Plane {
    pub normal: [u64; 3],
    pub w: u64,
}

/// Where a point lies relative to a plane.
#[derive(Clone, Copy, PartialEq, Eq, Structural, Debug)]
pub enum Side {
    On,
    Front,
    Back,
}

/// A convex polygon and the plane it lies in.
#[derive(Debug)]
pub struct Polygon {
    pub vertices: Vec<Vertex>,
    pub plane: Plane,
}

/// A node of the tree.
#[derive(Debug)]
pub struct Node {
    pub plane: Option<Plane>,
    pub front: Option<Box<Node>>,
    pub back: Option<Box<Node>>,
    pub polygons: Vec<Polygon>,
}

/// The geometry that the tree asks for.
pub struct Kernel<A, B, C, D, E> {
    /// Where a point lies relative to a plane.
    pub side: A,
    /// Where the segment between two points meets a plane.
    pub cross: B,
    /// The plane through three points, unless they lie on a line.
    pub plane: C,
    /// The plane, seen from its other side.
    pub flip: D,
    /// Whether two planes face the same way.
    pub along: E,
}

// ---- models ----

/// A polygon as a value.
pub ghost struct Poly {
    pub vertices: Seq<Vertex>,
    pub plane: Plane,
}

/// A tree as a value.
pub ghost struct Tree {
    pub plane: Option<Plane>,
    pub front: Option<Box<Tree>>,
    pub back: Option<Box<Tree>>,
    pub polygons: Seq<Poly>,
}

pub open spec fn polys(v: Seq<Polygon>) -> Seq<Poly> {
    Seq::new(v.len(), |i: int| Poly { vertices: v[i].vertices@, plane: v[i].plane })
}

pub open spec fn tree(n: Node) -> Tree
    decreases n,
{
    Tree {
        plane: n.plane,
        front: match n.front {
            Some(f) => Some(Box::new(tree(*f))),
            None => None,
        },
        back: match n.back {
            Some(b) => Some(Box::new(tree(*b))),
            None => None,
        },
        polygons: polys(n.polygons@),
    }
}

pub open spec fn empty_tree() -> Tree {
    Tree { plane: None, front: None, back: None, polygons: Seq::empty() }
}

/// Where a piece of a polygon belongs.
#[derive(Clone, Copy, PartialEq, Eq, Structural, Debug)]
pub enum Bucket {
    /// In the plane, facing as the plane does.
    Along,
    /// In the plane, facing the other way.
    Against,
    Front,
    Back,
}

impl<
    A: Fn(Plane, Vertex) -> Side,
    B: Fn(Plane, Vertex, Vertex) -> Vertex,
    C: Fn(Vertex, Vertex, Vertex) -> Option<Plane>,
    D: Fn(Plane) -> Plane,
    E: Fn(Plane, Plane) -> bool,
> Kernel<A, B, C, D, E> {
    /// Every question can be asked, and has one answer.
    pub open spec fn answers(&self) -> bool {
        &&& forall|p: Plane, v: Vertex| #[trigger] self.side.requires((p, v))
        &&& forall|p: Plane, v: Vertex, s: Side, t: Side| #[trigger]
            self.side.ensures((p, v), s) && #[trigger] self.side.ensures((p, v), t) ==> s == t
        &&& forall|p: Plane, u: Vertex, v: Vertex| #[trigger] self.cross.requires((p, u, v))
        &&& forall|p: Plane, u: Vertex, v: Vertex, s: Vertex, t: Vertex| #[trigger]
            self.cross.ensures((p, u, v), s) && #[trigger] self.cross.ensures((p, u, v), t) ==> s == t
        &&& forall|u: Vertex, v: Vertex, w: Vertex| #[trigger] self.plane.requires((u, v, w))
        &&& forall|u: Vertex, v: Vertex, w: Vertex, s: Option<Plane>, t: Option<Plane>| #[trigger]
            self.plane.ensures((u, v, w), s) && #[trigger] self.plane.ensures((u, v, w), t) ==> s == t
        &&& forall|p: Plane| #[trigger] self.flip.requires((p,))
        &&& forall|p: Plane, s: Plane, t: Plane| #[trigger] self.flip.ensures((p,), s) && #[trigger] self.flip.ensures((p,), t) ==> s == t
        &&& forall|p: Plane, q: Plane| #[trigger] self.along.requires((p, q))
        &&& forall|p: Plane, q: Plane, s: bool, t: bool| #[trigger]
            self.along.ensures((p, q), s) && #[trigger] self.along.ensures((p, q), t) ==> s == t
    }

    pub open spec fn side_of(&self, p: Plane, v: Vertex) -> Side {
        choose|s: Side| self.side.ensures((p, v), s)
    }

    pub open spec fn crossing(&self, p: Plane, u: Vertex, v: Vertex) -> Vertex {
        choose|s: Vertex| self.cross.ensures((p, u, v), s)
    }

    pub open spec fn plane_of(&self, u: Vertex, v: Vertex, w: Vertex) -> Option<Plane> {
        choose|s: Option<Plane>| self.plane.ensures((u, v, w), s)
    }

    pub open spec fn flipped(&self, p: Plane) -> Plane {
        choose|s: Plane| self.flip.ensures((p,), s)
    }

    pub open spec fn faces_along(&self, p: Plane, q: Plane) -> bool {
        choose|s: bool| self.along.ensures((p, q), s)
    }

    /// Some of the first `n` vertices lie on this side of the plane.
    pub open spec fn reaches(&self, plane: Plane, vs: Seq<Vertex>, side: Side, n: int) -> bool {
        exists|i: int| 0 <= i < n && self.side_of(plane, #[trigger] vs[i]) == side
    }

    /// The outline of the part of a polygon in front of a plane, or behind it, from its first `n`
    /// edges: the vertices not on the other side, and where an edge passes through the plane.
    pub open spec fn half(&self, plane: Plane, vs: Seq<Vertex>, front: bool, n: int) -> Seq<Vertex>
        decreases n,
    {
        if n <= 0 {
            Seq::empty()
        } else {
            let i = n - 1;
            let j = after(i, vs.len() as int);
            let (s, t) = (self.side_of(plane, vs[i]), self.side_of(plane, vs[j]));
            let far = if front {
                Side::Back
            } else {
                Side::Front
            };
            let kept = if s != far {
                self.half(plane, vs, front, n - 1).push(vs[i])
            } else {
                self.half(plane, vs, front, n - 1)
            };
            if s != Side::On && t != Side::On && s != t {
                kept.push(self.crossing(plane, vs[i], vs[j]))
            } else {
                kept
            }
        }
    }

    /// The polygon with this outline, if its first corners span a plane.
    pub open spec fn polygon_of(&self, vs: Seq<Vertex>) -> Option<Poly> {
        if vs.len() < 3 {
            None
        } else {
            match self.plane_of(vs[0], vs[1], vs[2]) {
                Some(plane) => Some(Poly { vertices: vs, plane }),
                None => None,
            }
        }
    }

    /// What a plane makes of a polygon: all of it goes into one bucket, unless the polygon reaches
    /// through the plane and is cut into a part in front and a part behind.
    pub open spec fn piece(&self, plane: Plane, p: Poly, into: Bucket) -> Option<Poly> {
        let n = p.vertices.len() as int;
        let front = self.reaches(plane, p.vertices, Side::Front, n);
        let back = self.reaches(plane, p.vertices, Side::Back, n);
        if front && back {
            match into {
                Bucket::Front => self.polygon_of(self.half(plane, p.vertices, true, n)),
                Bucket::Back => self.polygon_of(self.half(plane, p.vertices, false, n)),
                _ => None,
            }
        } else if into == self.bucket(plane, p) {
            Some(p)
        } else {
            None
        }
    }

    /// The bucket of a polygon that does not reach through the plane.
    pub open spec fn bucket(&self, plane: Plane, p: Poly) -> Bucket {
        let n = p.vertices.len() as int;
        if self.reaches(plane, p.vertices, Side::Front, n) {
            Bucket::Front
        } else if self.reaches(plane, p.vertices, Side::Back, n) {
            Bucket::Back
        } else if self.faces_along(plane, p.plane) {
            Bucket::Along
        } else {
            Bucket::Against
        }
    }

    /// What goes into a bucket of the first `n` polygons.
    pub open spec fn sorted(&self, plane: Plane, ps: Seq<Poly>, into: Bucket, n: int) -> Seq<Poly>
        decreases n,
    {
        if n <= 0 {
            Seq::empty()
        } else {
            match self.piece(plane, ps[n - 1], into) {
                Some(q) => self.sorted(plane, ps, into, n - 1).push(q),
                None => self.sorted(plane, ps, into, n - 1),
            }
        }
    }

    pub open spec fn all_sorted(&self, plane: Plane, ps: Seq<Poly>, into: Bucket) -> Seq<Poly> {
        self.sorted(plane, ps, into, ps.len() as int)
    }

    /// The polygons without what lies inside the tree's solid.
    pub open spec fn clipped(&self, t: Tree, ps: Seq<Poly>) -> Seq<Poly>
        decreases t,
    {
        match t.plane {
            None => ps,
            Some(plane) => {
                let front = self.all_sorted(plane, ps, Bucket::Front) + self.all_sorted(plane, ps, Bucket::Along);
                let back = self.all_sorted(plane, ps, Bucket::Back) + self.all_sorted(plane, ps, Bucket::Against);
                (match t.front {
                    Some(f) => self.clipped(*f, front),
                    None => front,
                }) + (match t.back {
                    Some(b) => self.clipped(*b, back),
                    None => Seq::empty(),
                })
            },
        }
    }

    /// The tree with all its polygons clipped by another.
    pub open spec fn clipped_to(&self, t: Tree, other: Tree) -> Tree
        decreases t,
    {
        Tree {
            plane: t.plane,
            front: match t.front {
                Some(f) => Some(Box::new(self.clipped_to(*f, other))),
                None => None,
            },
            back: match t.back {
                Some(b) => Some(Box::new(self.clipped_to(*b, other))),
                None => None,
            },
            polygons: self.clipped(other, t.polygons),
        }
    }

    pub open spec fn turned(&self, p: Poly) -> Poly {
        Poly { vertices: p.vertices.reverse(), plane: self.flipped(p.plane) }
    }

    /// The tree of the solid turned inside out.
    pub open spec fn inverted(&self, t: Tree) -> Tree
        decreases t,
    {
        Tree {
            plane: match t.plane {
                Some(p) => Some(self.flipped(p)),
                None => None,
            },
            front: match t.back {
                Some(b) => Some(Box::new(self.inverted(*b))),
                None => None,
            },
            back: match t.front {
                Some(f) => Some(Box::new(self.inverted(*f))),
                None => None,
            },
            polygons: Seq::new(t.polygons.len(), |i: int| self.turned(t.polygons[i])),
        }
    }

    /// The tree with more polygons put in, `depth` below the root.
    pub open spec fn built(&self, t: Tree, ps: Seq<Poly>, depth: nat) -> Tree
        decreases MAX_DEPTH - depth,
    {
        if ps.len() == 0 {
            t
        } else {
            let plane = match t.plane {
                Some(p) => p,
                None => ps[0].plane,
            };
            let here = t.polygons + self.all_sorted(plane, ps, Bucket::Along) + self.all_sorted(plane, ps, Bucket::Against);
            let front = self.all_sorted(plane, ps, Bucket::Front);
            let back = self.all_sorted(plane, ps, Bucket::Back);
            if depth >= MAX_DEPTH {
                Tree { plane: Some(plane), front: t.front, back: t.back, polygons: here + front + back }
            } else {
                Tree {
                    plane: Some(plane),
                    front: if front.len() == 0 {
                        t.front
                    } else {
                        Some(Box::new(self.built(branch(t.front), front, depth + 1)))
                    },
                    back: if back.len() == 0 {
                        t.back
                    } else {
                        Some(Box::new(self.built(branch(t.back), back, depth + 1)))
                    },
                    polygons: here,
                }
            }
        }
    }

    pub open spec fn tree_of(&self, ps: Seq<Poly>) -> Tree {
        self.built(empty_tree(), ps, 0)
    }

    /// The polygons of the solid that is either.
    pub open spec fn united(&self, a: Seq<Poly>, b: Seq<Poly>) -> Seq<Poly> {
        let ta = self.clipped_to(self.tree_of(a), self.tree_of(b));
        let tb = self.clipped_to(self.tree_of(b), ta);
        let tc = self.inverted(self.clipped_to(self.inverted(tb), ta));
        gathered(self.built(ta, gathered(tc), 0))
    }

    /// The polygons of the first solid without the second.
    pub open spec fn subtracted(&self, a: Seq<Poly>, b: Seq<Poly>) -> Seq<Poly> {
        let ta = self.clipped_to(self.inverted(self.tree_of(a)), self.tree_of(b));
        let tb = self.clipped_to(self.tree_of(b), ta);
        let tc = self.inverted(self.clipped_to(self.inverted(tb), ta));
        gathered(self.inverted(self.built(ta, gathered(tc), 0)))
    }

    // ---- asking ----

    fn ask_side(&self, p: Plane, v: Vertex) -> (s: Side)
        requires
            self.answers(),
        ensures
            s == self.side_of(p, v),
    {
        let f = &self.side;
        let s: Side = f(p, v);
        assert(self.side.ensures((p, v), s));
        s
    }

    fn ask_crossing(&self, p: Plane, u: Vertex, v: Vertex) -> (s: Vertex)
        requires
            self.answers(),
        ensures
            s == self.crossing(p, u, v),
    {
        let f = &self.cross;
        let s: Vertex = f(p, u, v);
        assert(self.cross.ensures((p, u, v), s));
        s
    }

    fn ask_plane(&self, u: Vertex, v: Vertex, w: Vertex) -> (s: Option<Plane>)
        requires
            self.answers(),
        ensures
            s == self.plane_of(u, v, w),
    {
        let f = &self.plane;
        let s: Option<Plane> = f(u, v, w);
        assert(self.plane.ensures((u, v, w), s));
        s
    }

    fn ask_flip(&self, p: Plane) -> (s: Plane)
        requires
            self.answers(),
        ensures
            s == self.flipped(p),
    {
        let f = &self.flip;
        let s: Plane = f(p);
        assert(self.flip.ensures((p,), s));
        s
    }

    fn ask_along(&self, p: Plane, q: Plane) -> (s: bool)
        requires
            self.answers(),
        ensures
            s == self.faces_along(p, q),
    {
        let f = &self.along;
        let s: bool = f(p, q);
        assert(self.along.ensures((p, q), s));
        s
    }
}

pub open spec fn branch(t: Option<Box<Tree>>) -> Tree {
    match t {
        Some(b) => *b,
        None => empty_tree(),
    }
}

/// All the polygons of a tree.
pub open spec fn gathered(t: Tree) -> Seq<Poly>
    decreases t,
{
    t.polygons + (match t.front {
        Some(f) => gathered(*f),
        None => Seq::empty(),
    }) + (match t.back {
        Some(b) => gathered(*b),
        None => Seq::empty(),
    })
}

// ---- the operations ----

pub open spec fn poly(p: Polygon) -> Poly {
    Poly { vertices: p.vertices@, plane: p.plane }
}

pub open spec fn with(ps: Seq<Poly>, q: Option<Poly>) -> Seq<Poly> {
    match q {
        Some(x) => ps.push(x),
        None => ps,
    }
}

fn copy_polygon(p: &Polygon) -> (q: Polygon)
    ensures
        poly(q) == poly(*p),
{
    let mut vertices: Vec<Vertex> = Vec::new();
    let mut i: usize = 0;
    while i < p.vertices.len()
        invariant
            i <= p.vertices@.len(),
            vertices@ == p.vertices@.take(i as int),
        decreases p.vertices@.len() - i,
    {
        vertices.push(p.vertices[i]);
        i = i + 1;
        assert(vertices@ =~= p.vertices@.take(i as int));
    }
    assert(p.vertices@.take(i as int) =~= p.vertices@);
    Polygon { vertices, plane: p.plane }
}

fn put(list: &mut Vec<Polygon>, p: Polygon)
    ensures
        polys(final(list)@) == polys(old(list)@).push(poly(p)),
{
    list.push(p);
    assert(polys(list@) =~= polys(old(list)@).push(poly(p)));
}

fn join(list: &mut Vec<Polygon>, more: Vec<Polygon>)
    ensures
        polys(final(list)@) == polys(old(list)@) + polys(more@),
{
    let mut rest: Vec<Polygon> = more;
    list.append(&mut rest);
    assert(polys(list@) =~= polys(old(list)@) + polys(more@));
}

impl Node {
    pub fn new() -> (n: Node)
        ensures
            tree(n) == empty_tree(),
    {
        let polygons: Vec<Polygon> = Vec::new();
        assert(polys(polygons@) =~= Seq::<Poly>::empty());
        Node { plane: None, front: None, back: None, polygons }
    }

    /// All the polygons of the tree.
    pub fn all_polygons(&self) -> (out: Vec<Polygon>)
        ensures
            polys(out@) == gathered(tree(*self)),
        decreases self,
    {
        let mut out: Vec<Polygon> = Vec::new();
        let mut i: usize = 0;
        assert(polys(out@) =~= polys(self.polygons@).take(0));
        while i < self.polygons.len()
            invariant
                i <= self.polygons@.len(),
                polys(out@) == polys(self.polygons@).take(i as int),
            decreases self.polygons@.len() - i,
        {
            put(&mut out, copy_polygon(&self.polygons[i]));
            i = i + 1;
            assert(polys(out@) =~= polys(self.polygons@).take(i as int));
        }
        assert(polys(self.polygons@).take(i as int) =~= polys(self.polygons@));
        match &self.front {
            Some(f) => {
                join(&mut out, f.all_polygons());
            },
            None => {},
        }
        match &self.back {
            Some(b) => {
                join(&mut out, b.all_polygons());
            },
            None => {},
        }
        assert(polys(out@) =~= gathered(tree(*self)));
        out
    }
}

impl<
    A: Fn(Plane, Vertex) -> Side,
    B: Fn(Plane, Vertex, Vertex) -> Vertex,
    C: Fn(Vertex, Vertex, Vertex) -> Option<Plane>,
    D: Fn(Plane) -> Plane,
    E: Fn(Plane, Plane) -> bool,
> Kernel<A, B, C, D, E> {
    /// Where each vertex lies, and whether any lies in front and any behind.
    #[verifier::loop_isolation(false)]
    fn sides(&self, plane: Plane, vs: &Vec<Vertex>) -> (r: (Vec<Side>, bool, bool))
        requires
            self.answers(),
        ensures
            r.0@.len() == vs@.len(),
            forall|i: int| 0 <= i < vs@.len() ==> #[trigger] r.0@[i] == self.side_of(plane, vs@[i]),
            r.1 == self.reaches(plane, vs@, Side::Front, vs@.len() as int),
            r.2 == self.reaches(plane, vs@, Side::Back, vs@.len() as int),
    {
        let mut out: Vec<Side> = Vec::new();
        let mut front: bool = false;
        let mut back: bool = false;
        let mut i: usize = 0;
        while i < vs.len()
            invariant
                i <= vs@.len(),
                out@.len() == i,
                forall|k: int| 0 <= k < i ==> #[trigger] out@[k] == self.side_of(plane, vs@[k]),
                front == self.reaches(plane, vs@, Side::Front, i as int),
                back == self.reaches(plane, vs@, Side::Back, i as int),
            decreases vs@.len() - i,
        {
            let s: Side = self.ask_side(plane, vs[i]);
            assert(self.side_of(plane, vs@[i as int]) == s);
            if s == Side::Front {
                front = true;
            }
            if s == Side::Back {
                back = true;
            }
            out.push(s);
            i = i + 1;
        }
        (out, front, back)
    }

    /// The outline of one part of a polygon that a plane cuts.
    #[verifier::loop_isolation(false)]
    fn cut_half(&self, plane: Plane, vs: &Vec<Vertex>, sides: &Vec<Side>, front: bool) -> (out: Vec<Vertex>)
        requires
            self.answers(),
            sides@.len() == vs@.len(),
            forall|i: int| 0 <= i < vs@.len() ==> #[trigger] sides@[i] == self.side_of(plane, vs@[i]),
        ensures
            out@ == self.half(plane, vs@, front, vs@.len() as int),
    {
        let n: usize = vs.len();
        let far: Side = if front {
            Side::Back
        } else {
            Side::Front
        };
        let mut out: Vec<Vertex> = Vec::new();
        let mut i: usize = 0;
        while i < n
            invariant
                i <= n,
                out@ == self.half(plane, vs@, front, i as int),
            decreases n - i,
        {
            let j: usize = next(i, n);
            let (s, t): (Side, Side) = (sides[i], sides[j]);
            if s != far {
                out.push(vs[i]);
            }
            if s != Side::On && t != Side::On && s != t {
                out.push(self.ask_crossing(plane, vs[i], vs[j]));
            }
            i = i + 1;
        }
        out
    }

    /// The polygon with this outline, if its first corners span a plane.
    pub fn polygon(&self, vertices: Vec<Vertex>) -> (p: Option<Polygon>)
        requires
            self.answers(),
        ensures
            match p {
                Some(q) => self.polygon_of(vertices@) == Some(poly(q)),
                None => self.polygon_of(vertices@) is None,
            },
    {
        if vertices.len() < 3 {
            return None;
        }
        match self.ask_plane(vertices[0], vertices[1], vertices[2]) {
            Some(plane) => Some(Polygon { vertices, plane }),
            None => None,
        }
    }

    /// Split a polygon by a plane and put the pieces where they belong.
    fn split_polygon(
        &self,
        plane: Plane,
        p: &Polygon,
        along: &mut Vec<Polygon>,
        against: &mut Vec<Polygon>,
        front: &mut Vec<Polygon>,
        back: &mut Vec<Polygon>,
    )
        requires
            self.answers(),
        ensures
            polys(final(along)@) == with(polys(old(along)@), self.piece(plane, poly(*p), Bucket::Along)),
            polys(final(against)@) == with(polys(old(against)@), self.piece(plane, poly(*p), Bucket::Against)),
            polys(final(front)@) == with(polys(old(front)@), self.piece(plane, poly(*p), Bucket::Front)),
            polys(final(back)@) == with(polys(old(back)@), self.piece(plane, poly(*p), Bucket::Back)),
    {
        let (sides, has_front, has_back) = self.sides(plane, &p.vertices);
        if has_front && has_back {
            let f: Vec<Vertex> = self.cut_half(plane, &p.vertices, &sides, true);
            let b: Vec<Vertex> = self.cut_half(plane, &p.vertices, &sides, false);
            if let Some(q) = self.polygon(f) {
                put(front, q);
            }
            if let Some(q) = self.polygon(b) {
                put(back, q);
            }
        } else if has_front {
            put(front, copy_polygon(p));
        } else if has_back {
            put(back, copy_polygon(p));
        } else if self.ask_along(plane, p.plane) {
            put(along, copy_polygon(p));
        } else {
            put(against, copy_polygon(p));
        }
    }

    /// Split polygons by a plane: those along it, against it, in front of it and behind it.
    #[verifier::loop_isolation(false)]
    fn split_all(&self, plane: Plane, list: &Vec<Polygon>) -> (r: (Vec<Polygon>, Vec<Polygon>, Vec<Polygon>, Vec<Polygon>))
        requires
            self.answers(),
        ensures
            polys(r.0@) == self.all_sorted(plane, polys(list@), Bucket::Along),
            polys(r.1@) == self.all_sorted(plane, polys(list@), Bucket::Against),
            polys(r.2@) == self.all_sorted(plane, polys(list@), Bucket::Front),
            polys(r.3@) == self.all_sorted(plane, polys(list@), Bucket::Back),
    {
        let mut along: Vec<Polygon> = Vec::new();
        let mut against: Vec<Polygon> = Vec::new();
        let mut front: Vec<Polygon> = Vec::new();
        let mut back: Vec<Polygon> = Vec::new();
        let ghost ps = polys(list@);
        assert(polys(along@) =~= Seq::<Poly>::empty());
        let mut i: usize = 0;
        while i < list.len()
            invariant
                i <= list@.len(),
                polys(along@) == self.sorted(plane, ps, Bucket::Along, i as int),
                polys(against@) == self.sorted(plane, ps, Bucket::Against, i as int),
                polys(front@) == self.sorted(plane, ps, Bucket::Front, i as int),
                polys(back@) == self.sorted(plane, ps, Bucket::Back, i as int),
            decreases list@.len() - i,
        {
            assert(ps[i as int] == poly(list@[i as int]));
            self.split_polygon(plane, &list[i], &mut along, &mut against, &mut front, &mut back);
            i = i + 1;
        }
        (along, against, front, back)
    }

    /// Remove what lies inside the tree's solid.
    pub fn clip_polygons(&self, node: &Node, polygons: Vec<Polygon>) -> (out: Vec<Polygon>)
        requires
            self.answers(),
        ensures
            polys(out@) == self.clipped(tree(*node), polys(polygons@)),
        decreases node,
    {
        match node.plane {
            None => polygons,
            Some(plane) => {
                let (along, against, mut front, mut back) = self.split_all(plane, &polygons);
                join(&mut front, along);
                join(&mut back, against);
                let mut out: Vec<Polygon> = match &node.front {
                    Some(f) => self.clip_polygons(f, front),
                    None => front,
                };
                let rest: Vec<Polygon> = match &node.back {
                    Some(b) => self.clip_polygons(b, back),
                    None => Vec::new(),
                };
                assert(node.back is None ==> polys(rest@) =~= Seq::<Poly>::empty());
                join(&mut out, rest);
                out
            },
        }
    }

    /// Clip the polygons of a tree to another's solid.
    pub fn clip_to(&self, node: Node, other: &Node) -> (out: Node)
        requires
            self.answers(),
        ensures
            tree(out) == self.clipped_to(tree(node), tree(*other)),
        decreases node,
    {
        let Node { plane, front, back, polygons } = node;
        let polygons: Vec<Polygon> = self.clip_polygons(other, polygons);
        let front: Option<Box<Node>> = match front {
            Some(f) => Some(Box::new(self.clip_to(*f, other))),
            None => None,
        };
        let back: Option<Box<Node>> = match back {
            Some(b) => Some(Box::new(self.clip_to(*b, other))),
            None => None,
        };
        Node { plane, front, back, polygons }
    }

    #[verifier::loop_isolation(false)]
    fn turn(&self, p: &Polygon) -> (q: Polygon)
        requires
            self.answers(),
        ensures
            poly(q) == self.turned(poly(*p)),
    {
        let mut vertices: Vec<Vertex> = Vec::new();
        let n: usize = p.vertices.len();
        let mut i: usize = 0;
        while i < n
            invariant
                i <= n,
                vertices@.len() == i,
                forall|k: int| 0 <= k < i ==> #[trigger] vertices@[k] == p.vertices@[n - 1 - k],
            decreases n - i,
        {
            vertices.push(p.vertices[n - 1 - i]);
            i = i + 1;
        }
        assert(vertices@ =~= p.vertices@.reverse());
        let plane: Plane = self.ask_flip(p.plane);
        Polygon { vertices, plane }
    }

    /// Turn the solid of a tree inside out.
    #[verifier::loop_isolation(false)]
    pub fn invert(&self, node: Node) -> (out: Node)
        requires
            self.answers(),
        ensures
            tree(out) == self.inverted(tree(node)),
        decreases node,
    {
        let Node { plane, front, back, polygons } = node;
        let mut turned: Vec<Polygon> = Vec::new();
        let ghost ps = polys(polygons@);
        let mut i: usize = 0;
        while i < polygons.len()
            invariant
                i <= polygons@.len(),
                turned@.len() == i,
                forall|k: int| 0 <= k < i ==> poly(#[trigger] turned@[k]) == self.turned(ps[k]),
            decreases polygons@.len() - i,
        {
            turned.push(self.turn(&polygons[i]));
            i = i + 1;
        }
        assert(polys(turned@) =~= Seq::new(ps.len(), |i: int| self.turned(ps[i])));
        let plane: Option<Plane> = match plane {
            Some(p) => Some(self.ask_flip(p)),
            None => None,
        };
        let new_back: Option<Box<Node>> = match front {
            Some(f) => Some(Box::new(self.invert(*f))),
            None => None,
        };
        let new_front: Option<Box<Node>> = match back {
            Some(b) => Some(Box::new(self.invert(*b))),
            None => None,
        };
        Node { plane, front: new_front, back: new_back, polygons: turned }
    }

    /// Put more polygons into a tree. The plane of the first splits the others; a tree that is deep
    /// enough keeps what is left as it is.
    pub fn build(&self, node: Node, polygons: Vec<Polygon>, depth: u32) -> (out: Node)
        requires
            self.answers(),
        ensures
            tree(out) == self.built(tree(node), polys(polygons@), depth as nat),
        decreases (if depth <= MAX_DEPTH {
            MAX_DEPTH - depth
        } else {
            0
        }),
    {
        if polygons.len() == 0 {
            return node;
        }
        let ghost ps = polys(polygons@);
        let ghost t = tree(node);
        let Node { plane: held, front, back, polygons: own } = node;
        let plane: Plane = match held {
            Some(p) => p,
            None => polygons[0].plane,
        };
        assert(ps[0].plane == polygons@[0].plane);
        let (along, against, f, b) = self.split_all(plane, &polygons);
        let mut here: Vec<Polygon> = own;
        join(&mut here, along);
        join(&mut here, against);
        if depth >= MAX_DEPTH {
            join(&mut here, f);
            join(&mut here, b);
            return Node { plane: Some(plane), front, back, polygons: here };
        }
        let new_front: Option<Box<Node>> = if f.len() == 0 {
            front
        } else {
            let start: Node = match front {
                Some(n) => *n,
                None => Node::new(),
            };
            Some(Box::new(self.build(start, f, depth + 1)))
        };
        let new_back: Option<Box<Node>> = if b.len() == 0 {
            back
        } else {
            let start: Node = match back {
                Some(n) => *n,
                None => Node::new(),
            };
            Some(Box::new(self.build(start, b, depth + 1)))
        };
        Node { plane: Some(plane), front: new_front, back: new_back, polygons: here }
    }

    fn node_from(&self, polygons: Vec<Polygon>) -> (n: Node)
        requires
            self.answers(),
        ensures
            tree(n) == self.tree_of(polys(polygons@)),
    {
        self.build(Node::new(), polygons, 0)
    }

    /// The polygons of the solid that is either.
    pub fn union_polys(&self, a: Vec<Polygon>, b: Vec<Polygon>) -> (out: Vec<Polygon>)
        requires
            self.answers(),
        ensures
            polys(out@) == self.united(polys(a@), polys(b@)),
    {
        let na: Node = self.node_from(a);
        let nb: Node = self.node_from(b);
        let na: Node = self.clip_to(na, &nb);
        let nb: Node = self.clip_to(nb, &na);
        let nb: Node = self.invert(nb);
        let nb: Node = self.clip_to(nb, &na);
        let nb: Node = self.invert(nb);
        let na: Node = self.build(na, nb.all_polygons(), 0);
        na.all_polygons()
    }

    /// The polygons of the first solid without the second.
    pub fn subtract_polys(&self, a: Vec<Polygon>, b: Vec<Polygon>) -> (out: Vec<Polygon>)
        requires
            self.answers(),
        ensures
            polys(out@) == self.subtracted(polys(a@), polys(b@)),
    {
        let na: Node = self.node_from(a);
        let nb: Node = self.node_from(b);
        let na: Node = self.invert(na);
        let na: Node = self.clip_to(na, &nb);
        let nb: Node = self.clip_to(nb, &na);
        let nb: Node = self.invert(nb);
        let nb: Node = self.clip_to(nb, &na);
        let nb: Node = self.invert(nb);
        let na: Node = self.build(na, nb.all_polygons(), 0);
        let na: Node = self.invert(na);
        na.all_polygons()
    }

    /// Every polygon of the first `n` triangles that spans a plane.
    pub open spec fn soup(&self, points: Seq<Vertex>, tris: Seq<Tri>, n: int) -> Seq<Poly>
        decreases n,
    {
        if n <= 0 {
            Seq::empty()
        } else {
            let t = tris[n - 1];
            with(self.soup(points, tris, n - 1), self.polygon_of(seq![points[t.a as int], points[t.b as int], points[t.c as int]]))
        }
    }

    /// The triangles of a mesh as polygons, without those that are degenerate.
    #[verifier::loop_isolation(false)]
    pub fn mesh_to_polys(&self, points: &Vec<Vertex>, tris: &Vec<Tri>) -> (out: Vec<Polygon>)
        requires
            self.answers(),
            forall|i: int| 0 <= i < tris@.len() ==> (#[trigger] tris@[i]).a < points@.len() && tris@[i].b < points@.len() && tris@[i].c < points@.len(),
        ensures
            polys(out@) == self.soup(points@, tris@, tris@.len() as int),
    {
        let mut out: Vec<Polygon> = Vec::new();
        let mut i: usize = 0;
        assert(polys(out@) =~= Seq::<Poly>::empty());
        while i < tris.len()
            invariant
                i <= tris@.len(),
                polys(out@) == self.soup(points@, tris@, i as int),
            decreases tris@.len() - i,
        {
            let t: Tri = tris[i];
            assert(tris@[i as int].a < points@.len());
            let mut corners: Vec<Vertex> = Vec::new();
            corners.push(points[t.a as usize]);
            corners.push(points[t.b as usize]);
            corners.push(points[t.c as usize]);
            assert(corners@ =~= seq![points@[t.a as int], points@[t.b as int], points@[t.c as int]]);
            if let Some(p) = self.polygon(corners) {
                put(&mut out, p);
            }
            i = i + 1;
        }
        out
    }

    /// Turning a solid inside out twice gives it back, where that holds of a plane.
    pub proof fn inverting_twice(&self, t: Tree)
        requires
            forall|p: Plane| self.flipped(#[trigger] self.flipped(p)) == p,
        ensures
            self.inverted(self.inverted(t)) == t,
        decreases t,
    {
        let twice = self.inverted(self.inverted(t));
        match t.front {
            Some(f) => {
                self.inverting_twice(*f);
            },
            None => {},
        }
        match t.back {
            Some(b) => {
                self.inverting_twice(*b);
            },
            None => {},
        }
        assert forall|i: int| 0 <= i < t.polygons.len() implies self.turned(self.turned(#[trigger] t.polygons[i])) == t.polygons[i] by {
            let p = t.polygons[i];
            assert(p.vertices.reverse().reverse() =~= p.vertices);
            assert(self.flipped(self.flipped(p.plane)) == p.plane);
        }
        assert(twice.polygons =~= t.polygons);
        match t.plane {
            Some(p) => {
                assert(self.flipped(self.flipped(p)) == p);
            },
            None => {},
        }
    }

    /// A polygon that does not reach through a plane stays whole and goes into one bucket only.
    pub proof fn whole_polygons_stay_whole(&self, plane: Plane, p: Poly, into: Bucket)
        requires
            !(self.reaches(plane, p.vertices, Side::Front, p.vertices.len() as int) && self.reaches(
                plane,
                p.vertices,
                Side::Back,
                p.vertices.len() as int,
            )),
        ensures
            self.piece(plane, p, into) == if into == self.bucket(plane, p) {
                Some(p)
            } else {
                None
            },
    {
    }

    /// Cutting a polygon loses no corner: each is on the outline of the part in front or on that of
    /// the part behind.
    pub proof fn cutting_loses_no_corner(&self, plane: Plane, vs: Seq<Vertex>, n: int, i: int)
        requires
            0 <= i < n <= vs.len(),
        ensures
            self.half(plane, vs, true, n).contains(vs[i]) || self.half(plane, vs, false, n).contains(vs[i]),
        decreases n,
    {
        if i < n - 1 {
            self.cutting_loses_no_corner(plane, vs, n - 1, i);
            if self.half(plane, vs, true, n - 1).contains(vs[i]) {
                self.half_grows(plane, vs, true, n, vs[i]);
            } else {
                self.half_grows(plane, vs, false, n, vs[i]);
            }
        } else {
            let front = self.half(plane, vs, true, n - 1);
            let back = self.half(plane, vs, false, n - 1);
            if self.side_of(plane, vs[i]) != Side::Back {
                assert(self.half(plane, vs, true, n)[front.len() as int] == vs[i]);
            } else {
                assert(self.half(plane, vs, false, n)[back.len() as int] == vs[i]);
            }
        }
    }

    proof fn half_grows(&self, plane: Plane, vs: Seq<Vertex>, front: bool, n: int, v: Vertex)
        requires
            0 < n <= vs.len(),
            self.half(plane, vs, front, n - 1).contains(v),
        ensures
            self.half(plane, vs, front, n).contains(v),
    {
        let h = self.half(plane, vs, front, n - 1);
        let k = choose|k: int| 0 <= k < h.len() && h[k] == v;
        assert(self.half(plane, vs, front, n)[k] == v);
    }

    // ---- what is kept ----

    /// Some of the vertices lies in front of the plane, or all lie in it and the polygon faces as it
    /// does.
    pub open spec fn lies_outside(&self, plane: Plane, p: Poly) -> bool {
        ||| exists|i: int| 0 <= i < p.vertices.len() && self.side_of(plane, #[trigger] p.vertices[i]) == Side::Front
        ||| (forall|i: int| 0 <= i < p.vertices.len() ==> self.side_of(plane, #[trigger] p.vertices[i]) == Side::On) && self.faces_along(
            plane,
            p.plane,
        )
    }

    /// The plane does not cut the polygon.
    pub open spec fn leaves_whole(&self, plane: Plane, p: Poly) -> bool {
        forall|i: int, j: int|
            0 <= i < p.vertices.len() && 0 <= j < p.vertices.len() && self.side_of(plane, #[trigger] p.vertices[i]) == Side::Front
                ==> self.side_of(plane, #[trigger] p.vertices[j]) != Side::Back
    }

    proof fn whole_bucket(&self, plane: Plane, p: Poly, into: Bucket)
        requires
            self.leaves_whole(plane, p),
        ensures
            self.piece(plane, p, into) == (if into == self.bucket(plane, p) {
                Some(p)
            } else {
                None
            }),
            self.lies_outside(plane, p) <==> self.bucket(plane, p) == Bucket::Front || self.bucket(plane, p) == Bucket::Along,
    {
        let n = p.vertices.len() as int;
        let (front, back) = (self.reaches(plane, p.vertices, Side::Front, n), self.reaches(plane, p.vertices, Side::Back, n));
        if front && back {
            let i = choose|i: int| 0 <= i < n && self.side_of(plane, #[trigger] p.vertices[i]) == Side::Front;
            let j = choose|j: int| 0 <= j < n && self.side_of(plane, #[trigger] p.vertices[j]) == Side::Back;
            assert(self.side_of(plane, p.vertices[i]) == Side::Front);
        }
        if !front && !back {
            assert forall|i: int| 0 <= i < n implies self.side_of(plane, #[trigger] p.vertices[i]) == Side::On by {}
        }
    }

    /// The solid of a tree is convex: it lies behind each of these planes.
    pub open spec fn is_convex(&self, t: Tree, planes: Seq<Plane>) -> bool
        decreases t,
    {
        &&& planes.len() > 0
        &&& t.plane == Some(planes[0])
        &&& t.front is None
        &&& match t.back {
            Some(b) => self.is_convex(*b, planes.skip(1)),
            None => planes.len() == 1,
        }
    }

    /// Clipping by a convex solid keeps what lies outside one of its faces, and drops what lies behind
    /// all of them.
    #[verifier::spinoff_prover]
    #[verifier::rlimit(50)]
    pub proof fn convex_solids_clip_their_inside(&self, t: Tree, planes: Seq<Plane>, p: Poly)
        requires
            self.is_convex(t, planes),
            forall|k: int| 0 <= k < planes.len() ==> self.leaves_whole(#[trigger] planes[k], p),
        ensures
            self.clipped(t, seq![p]) == if exists|k: int| 0 <= k < planes.len() && self.lies_outside(#[trigger] planes[k], p) {
                seq![p]
            } else {
                Seq::empty()
            },
        decreases t,
    {
        let plane = planes[0];
        assert(self.leaves_whole(plane, p));
        self.whole_bucket(plane, p, Bucket::Front);
        self.whole_bucket(plane, p, Bucket::Along);
        self.whole_bucket(plane, p, Bucket::Back);
        self.whole_bucket(plane, p, Bucket::Against);
        let one = seq![p];
        reveal_with_fuel(Kernel::sorted, 2);
        let front = self.all_sorted(plane, one, Bucket::Front) + self.all_sorted(plane, one, Bucket::Along);
        let back = self.all_sorted(plane, one, Bucket::Back) + self.all_sorted(plane, one, Bucket::Against);
        if self.lies_outside(plane, p) {
            assert(front =~= one);
            assert(back =~= Seq::<Poly>::empty());
            if let Some(b) = t.back {
                self.clipping_nothing(*b);
            }
            assert(self.clipped(t, one) =~= one);
        } else {
            assert(front =~= Seq::<Poly>::empty());
            assert(back =~= one);
            match t.back {
                Some(b) => {
                    let rest = planes.skip(1);
                    assert forall|k: int| 0 <= k < rest.len() implies self.leaves_whole(#[trigger] rest[k], p) by {
                        assert(self.leaves_whole(planes[k + 1], p));
                    }
                    self.convex_solids_clip_their_inside(*b, rest, p);
                    if exists|k: int| 0 <= k < planes.len() && self.lies_outside(#[trigger] planes[k], p) {
                        let k = choose|k: int| 0 <= k < planes.len() && self.lies_outside(#[trigger] planes[k], p);
                        assert(self.lies_outside(rest[k - 1], p));
                    } else {
                        assert forall|k: int| 0 <= k < rest.len() implies !self.lies_outside(#[trigger] rest[k], p) by {
                            assert(!self.lies_outside(planes[k + 1], p));
                        }
                    }
                    assert(self.clipped(t, one) =~= self.clipped(*b, one));
                },
                None => {
                    assert(self.clipped(t, one) =~= Seq::<Poly>::empty());
                },
            }
        }
    }

    proof fn sorted_joins(&self, plane: Plane, a: Seq<Poly>, b: Seq<Poly>, into: Bucket, n: int)
        requires
            0 <= n <= b.len(),
        ensures
            self.sorted(plane, a + b, into, a.len() + n) == self.all_sorted(plane, a, into) + self.sorted(plane, b, into, n),
        decreases n,
    {
        if n > 0 {
            self.sorted_joins(plane, a, b, into, n - 1);
            assert((a + b)[a.len() + n - 1] == b[n - 1]);
            assert(self.sorted(plane, a + b, into, a.len() + n) =~= self.all_sorted(plane, a, into) + self.sorted(plane, b, into, n));
        } else {
            self.sorted_prefix(plane, a, a + b, into, a.len() as int);
            assert(self.sorted(plane, a + b, into, a.len() + n) =~= self.all_sorted(plane, a, into) + self.sorted(plane, b, into, n));
        }
    }

    proof fn sorted_prefix(&self, plane: Plane, a: Seq<Poly>, c: Seq<Poly>, into: Bucket, n: int)
        requires
            0 <= n <= a.len() <= c.len(),
            forall|i: int| 0 <= i < a.len() ==> a[i] == #[trigger] c[i],
        ensures
            self.sorted(plane, a, into, n) == self.sorted(plane, c, into, n),
        decreases n,
    {
        if n > 0 {
            self.sorted_prefix(plane, a, c, into, n - 1);
            assert(a[n - 1] == c[n - 1]);
        }
    }

    /// Polygons are clipped each for itself: the pieces that are left of two lists together are those
    /// left of the one and those left of the other.
    #[verifier::spinoff_prover]
    #[verifier::rlimit(50)]
    pub proof fn clipping_is_done_one_by_one(&self, t: Tree, a: Seq<Poly>, b: Seq<Poly>)
        ensures
            self.clipped(t, a + b).to_multiset() == self.clipped(t, a).to_multiset().add(self.clipped(t, b).to_multiset()),
        decreases t,
    {
        broadcast use vstd::seq_lib::group_to_multiset_ensures;

        match t.plane {
            None => {
                vstd::seq_lib::lemma_multiset_commutative(a, b);
            },
            Some(plane) => {
                let n = b.len() as int;
                self.sorted_joins(plane, a, b, Bucket::Front, n);
                self.sorted_joins(plane, a, b, Bucket::Along, n);
                self.sorted_joins(plane, a, b, Bucket::Back, n);
                self.sorted_joins(plane, a, b, Bucket::Against, n);
                let (fa, fb) = (self.all_sorted(plane, a, Bucket::Front), self.all_sorted(plane, b, Bucket::Front));
                let (la, lb) = (self.all_sorted(plane, a, Bucket::Along), self.all_sorted(plane, b, Bucket::Along));
                let (ba, bb) = (self.all_sorted(plane, a, Bucket::Back), self.all_sorted(plane, b, Bucket::Back));
                let (ga, gb) = (self.all_sorted(plane, a, Bucket::Against), self.all_sorted(plane, b, Bucket::Against));
                let (f, k) = ((fa + fb) + (la + lb), (ba + bb) + (ga + gb));
                self.left_of(t.front, true, (fa + fb), (la + lb));
                self.left_of(t.front, true, fa, fb);
                self.left_of(t.front, true, la, lb);
                self.left_of(t.front, true, fa, la);
                self.left_of(t.front, true, fb, lb);
                self.left_of(t.back, false, (ba + bb), (ga + gb));
                self.left_of(t.back, false, ba, bb);
                self.left_of(t.back, false, ga, gb);
                self.left_of(t.back, false, ba, ga);
                self.left_of(t.back, false, bb, gb);
                let (x, y) = (self.left(t.front, true, f), self.left(t.back, false, k));
                let (xa, ya) = (self.left(t.front, true, fa + la), self.left(t.back, false, ba + ga));
                let (xb, yb) = (self.left(t.front, true, fb + lb), self.left(t.back, false, bb + gb));
                vstd::seq_lib::lemma_multiset_commutative(x, y);
                vstd::seq_lib::lemma_multiset_commutative(xa, ya);
                vstd::seq_lib::lemma_multiset_commutative(xb, yb);
                assert(self.clipped(t, a + b) =~= x + y);
                assert(self.clipped(t, a) =~= xa + ya);
                assert(self.clipped(t, b) =~= xb + yb);
                assert((x + y).to_multiset() =~= (xa + ya).to_multiset().add((xb + yb).to_multiset()));
            },
        }
    }

    /// What a branch leaves of polygons; a side without one keeps all in front and nothing behind.
    spec fn left(&self, t: Option<Box<Tree>>, front: bool, ps: Seq<Poly>) -> Seq<Poly> {
        match t {
            Some(b) => self.clipped(*b, ps),
            None => if front {
                ps
            } else {
                Seq::empty()
            },
        }
    }

    proof fn left_of(&self, t: Option<Box<Tree>>, front: bool, a: Seq<Poly>, b: Seq<Poly>)
        ensures
            self.left(t, front, a + b).to_multiset() == self.left(t, front, a).to_multiset().add(self.left(t, front, b).to_multiset()),
        decreases t,
    {
        broadcast use vstd::seq_lib::group_to_multiset_ensures;

        match t {
            Some(x) => {
                self.clipping_is_done_one_by_one(*x, a, b);
            },
            None => {
                vstd::seq_lib::lemma_multiset_commutative(a, b);
                let none = Seq::<Poly>::empty();
                assert(none.to_multiset() =~= none.to_multiset().add(none.to_multiset()));
            },
        }
    }

    /// Taking nothing away leaves the polygons of the solid as its tree cuts them, facing as they did.
    pub proof fn subtracting_nothing(&self, a: Seq<Poly>)
        requires
            forall|p: Plane| self.flipped(#[trigger] self.flipped(p)) == p,
        ensures
            self.subtracted(a, Seq::empty()) == gathered(self.tree_of(a)),
    {
        let none = Seq::<Poly>::empty();
        let na = self.tree_of(a);
        let nb = self.tree_of(none);
        assert(nb == empty_tree());
        let ia = self.inverted(na);
        self.clipping_to_nothing(ia);
        self.nothing_stays_nothing(ia);
        self.inverting_twice(na);
    }

    /// Adding nothing leaves the polygons of the solid as its tree cuts them.
    pub proof fn uniting_with_nothing(&self, a: Seq<Poly>)
        ensures
            self.united(a, Seq::empty()) == gathered(self.tree_of(a)),
    {
        let none = Seq::<Poly>::empty();
        let na = self.tree_of(a);
        assert(self.tree_of(none) == empty_tree());
        self.clipping_to_nothing(na);
        self.nothing_stays_nothing(na);
    }

    proof fn clipping_to_nothing(&self, t: Tree)
        ensures
            self.clipped_to(t, empty_tree()) == t,
        decreases t,
    {
        if let Some(f) = t.front {
            self.clipping_to_nothing(*f);
        }
        if let Some(b) = t.back {
            self.clipping_to_nothing(*b);
        }
    }

    proof fn nothing_stays_nothing(&self, ta: Tree)
        ensures
            ({
                let tb = self.clipped_to(empty_tree(), ta);
                let tc = self.inverted(self.clipped_to(self.inverted(tb), ta));
                self.built(ta, gathered(tc), 0) == ta
            }),
    {
        let none = Seq::<Poly>::empty();
        self.clipping_nothing(ta);
        let tb = self.clipped_to(empty_tree(), ta);
        assert(tb.polygons =~= none);
        let ib = self.inverted(tb);
        assert(ib.polygons =~= none);
        let td = self.clipped_to(ib, ta);
        assert(td.polygons =~= none);
        let tc = self.inverted(td);
        assert(tc.polygons =~= none);
        assert(gathered(tc) =~= none);
    }

    #[verifier::spinoff_prover]
    #[verifier::rlimit(50)]
    proof fn sorting_loses_nothing(&self, plane: Plane, ps: Seq<Poly>, n: int)
        requires
            0 <= n <= ps.len(),
            forall|i: int| 0 <= i < ps.len() ==> self.leaves_whole(plane, #[trigger] ps[i]),
        ensures
            ps.take(n).to_multiset() == self.sorted(plane, ps, Bucket::Along, n).to_multiset().add(
                self.sorted(plane, ps, Bucket::Against, n).to_multiset(),
            ).add(self.sorted(plane, ps, Bucket::Front, n).to_multiset()).add(self.sorted(plane, ps, Bucket::Back, n).to_multiset()),
            forall|into: Bucket, k: int|
                0 <= k < self.sorted(plane, ps, into, n).len() ==> ps.contains(#[trigger] self.sorted(plane, ps, into, n)[k]),
        decreases n,
    {
        broadcast use vstd::seq_lib::group_to_multiset_ensures;

        if n > 0 {
            self.sorting_loses_nothing(plane, ps, n - 1);
            let p = ps[n - 1];
            assert(self.leaves_whole(plane, p));
            self.whole_bucket(plane, p, Bucket::Along);
            self.whole_bucket(plane, p, Bucket::Against);
            self.whole_bucket(plane, p, Bucket::Front);
            self.whole_bucket(plane, p, Bucket::Back);
            assert(ps.take(n) =~= ps.take(n - 1).push(p));
            let (l, g, f, b) = (
                self.sorted(plane, ps, Bucket::Along, n),
                self.sorted(plane, ps, Bucket::Against, n),
                self.sorted(plane, ps, Bucket::Front, n),
                self.sorted(plane, ps, Bucket::Back, n),
            );
            assert(ps.take(n).to_multiset() =~= l.to_multiset().add(g.to_multiset()).add(f.to_multiset()).add(b.to_multiset()));
            assert forall|into: Bucket, k: int| 0 <= k < self.sorted(plane, ps, into, n).len() implies ps.contains(
                #[trigger] self.sorted(plane, ps, into, n)[k],
            ) by {
                let rest = self.sorted(plane, ps, into, n - 1);
                if k < rest.len() {
                    assert(self.sorted(plane, ps, into, n)[k] == rest[k]);
                    assert(ps.contains(rest[k]));
                } else {
                    self.whole_bucket(plane, p, into);
                    assert(self.sorted(plane, ps, into, n)[k] == p);
                }
            }
        } else {
            assert(ps.take(0) =~= Seq::<Poly>::empty());
            assert(ps.take(0).to_multiset() =~= vstd::multiset::Multiset::empty());
        }
    }

    /// No polygon of the list is cut by the plane of another.
    pub open spec fn uncut(&self, ps: Seq<Poly>) -> bool {
        forall|i: int, j: int| 0 <= i < ps.len() && 0 <= j < ps.len() ==> #[trigger] self.leaves_whole(ps[i].plane, ps[j])
    }

    proof fn uncut_part(&self, ps: Seq<Poly>, part: Seq<Poly>)
        requires
            self.uncut(ps),
            forall|k: int| 0 <= k < part.len() ==> ps.contains(#[trigger] part[k]),
        ensures
            self.uncut(part),
    {
        assert forall|i: int, j: int| 0 <= i < part.len() && 0 <= j < part.len() implies #[trigger] self.leaves_whole(
            part[i].plane,
            part[j],
        ) by {
            assert(ps.contains(part[i]) && ps.contains(part[j]));
            let x = choose|x: int| 0 <= x < ps.len() && ps[x] == part[i];
            let y = choose|y: int| 0 <= y < ps.len() && ps[y] == part[j];
            assert(self.leaves_whole(ps[x].plane, ps[y]));
        }
    }

    #[verifier::spinoff_prover]
    #[verifier::rlimit(50)]
    proof fn building_anew_loses_nothing(&self, ps: Seq<Poly>, depth: nat)
        requires
            self.uncut(ps),
        ensures
            gathered(self.built(empty_tree(), ps, depth)).to_multiset() == ps.to_multiset(),
        decreases MAX_DEPTH - depth,
    {
        broadcast use vstd::seq_lib::group_to_multiset_ensures;

        let none = Seq::<Poly>::empty();
        if ps.len() > 0 {
            let plane = ps[0].plane;
            let n = ps.len() as int;
            assert forall|i: int| 0 <= i < ps.len() implies self.leaves_whole(plane, #[trigger] ps[i]) by {
                assert(self.leaves_whole(ps[0].plane, ps[i]));
            }
            self.sorting_loses_nothing(plane, ps, n);
            assert(ps.take(n) =~= ps);
            let (l, g, f, b) = (
                self.all_sorted(plane, ps, Bucket::Along),
                self.all_sorted(plane, ps, Bucket::Against),
                self.all_sorted(plane, ps, Bucket::Front),
                self.all_sorted(plane, ps, Bucket::Back),
            );
            let t = self.built(empty_tree(), ps, depth);
            let here = none + l + g;
            assert(here =~= l + g);
            vstd::seq_lib::lemma_multiset_commutative(l, g);
            assert(here.to_multiset() =~= l.to_multiset().add(g.to_multiset()));
            if depth >= MAX_DEPTH {
                vstd::seq_lib::lemma_multiset_commutative(here, f);
                vstd::seq_lib::lemma_multiset_commutative(here + f, b);
                assert(gathered(t) =~= here + f + b);
                assert(gathered(t).to_multiset() =~= ps.to_multiset());
            } else {
                self.uncut_part(ps, f);
                self.uncut_part(ps, b);
                self.building_anew_loses_nothing(f, depth + 1);
                self.building_anew_loses_nothing(b, depth + 1);
                let gf = if f.len() == 0 {
                    none
                } else {
                    gathered(self.built(empty_tree(), f, depth + 1))
                };
                let gb = if b.len() == 0 {
                    none
                } else {
                    gathered(self.built(empty_tree(), b, depth + 1))
                };
                assert(f.len() == 0 ==> f =~= none);
                assert(b.len() == 0 ==> b =~= none);
                assert(gathered(t) =~= here + gf + gb);
                vstd::seq_lib::lemma_multiset_commutative(here, gf);
                vstd::seq_lib::lemma_multiset_commutative(here + gf, gb);
                assert(gathered(t).to_multiset() =~= ps.to_multiset());
            }
        } else {
            assert(gathered(self.built(empty_tree(), ps, depth)) =~= none);
            assert(ps =~= none);
        }
    }

    /// The tree of polygons that do not cut each other holds each of them, whole and as often as it was
    /// given.
    pub proof fn trees_hold_their_polygons(&self, ps: Seq<Poly>)
        requires
            self.uncut(ps),
        ensures
            gathered(self.tree_of(ps)).to_multiset() == ps.to_multiset(),
    {
        self.building_anew_loses_nothing(ps, 0);
    }

    /// What an edge gives to the outline of a part: its first end, if that is not beyond the plane, and
    /// then the place where it passes through.
    pub open spec fn edge_gives(&self, plane: Plane, vs: Seq<Vertex>, front: bool, i: int) -> Seq<Vertex> {
        let (u, v) = (vs[i], vs[if i + 1 == vs.len() { 0 } else { i + 1 }]);
        let beyond = if front {
            Side::Back
        } else {
            Side::Front
        };
        (if self.side_of(plane, u) == beyond {
            Seq::empty()
        } else {
            seq![u]
        }) + (if self.side_of(plane, u) == Side::Front && self.side_of(plane, v) == Side::Back || self.side_of(plane, u) == Side::Back
            && self.side_of(plane, v) == Side::Front {
            seq![self.crossing(plane, u, v)]
        } else {
            Seq::empty()
        })
    }

    /// The outline of a part goes round as the polygon does, edge by edge.
    pub proof fn parts_go_round_as_the_polygon(&self, plane: Plane, vs: Seq<Vertex>, front: bool, n: int)
        requires
            0 <= n <= vs.len(),
        ensures
            self.half(plane, vs, front, n) == Seq::new(n as nat, |i: int| self.edge_gives(plane, vs, front, i)).flatten(),
        decreases n,
    {
        let f = |i: int| self.edge_gives(plane, vs, front, i);
        if n > 0 {
            self.parts_go_round_as_the_polygon(plane, vs, front, n - 1);
            assert(Seq::new(n as nat, f) =~= Seq::new((n - 1) as nat, f).push(f(n - 1)));
            Seq::new((n - 1) as nat, f).lemma_flatten_push(f(n - 1));
            assert(self.half(plane, vs, front, n) =~= self.half(plane, vs, front, n - 1) + f(n - 1));
        } else {
            assert(Seq::new(0, f) =~= Seq::<Seq<Vertex>>::empty());
            assert(Seq::new(0, f).flatten() =~= Seq::<Vertex>::empty());
        }
    }

    /// A polygon that reaches through a plane is cut into the part in front and the part behind, each
    /// with the plane that its own first corners span, unless they span none.
    #[verifier::spinoff_prover]
    #[verifier::rlimit(50)]
    pub proof fn cut_polygons_have_two_parts(&self, plane: Plane, p: Poly, front: bool)
        requires
            !self.leaves_whole(plane, p),
        ensures
            self.piece(plane, p, Bucket::Along) is None,
            self.piece(plane, p, Bucket::Against) is None,
            ({
                let outline = Seq::new(p.vertices.len(), |i: int| self.edge_gives(plane, p.vertices, front, i)).flatten();
                match self.piece(
                    plane,
                    p,
                    if front {
                        Bucket::Front
                    } else {
                        Bucket::Back
                    },
                ) {
                    Some(q) => outline.len() >= 3 && q.vertices == outline && self.plane_of(outline[0], outline[1], outline[2]) == Some(q.plane),
                    None => outline.len() < 3 || self.plane_of(outline[0], outline[1], outline[2]) is None,
                }
            }),
    {
        let n = p.vertices.len() as int;
        let (i, j) = choose|i: int, j: int|
            0 <= i < p.vertices.len() && 0 <= j < p.vertices.len() && self.side_of(plane, #[trigger] p.vertices[i]) == Side::Front
                && self.side_of(plane, #[trigger] p.vertices[j]) == Side::Back;
        assert(self.reaches(plane, p.vertices, Side::Front, n));
        assert(self.reaches(plane, p.vertices, Side::Back, n));
        self.parts_go_round_as_the_polygon(plane, p.vertices, front, n);
    }

    /// Every triangle that spans a plane is a polygon of the soup, and every polygon is one of them.
    pub proof fn soups_hold_the_triangles(&self, points: Seq<Vertex>, tris: Seq<Tri>, n: int, q: Poly)
        requires
            0 <= n <= tris.len(),
        ensures
            self.soup(points, tris, n).contains(q) <==> exists|i: int|
                0 <= i < n && {
                    let (u, v, w) = (points[(#[trigger] tris[i]).a as int], points[tris[i].b as int], points[tris[i].c as int]);
                    q.vertices == seq![u, v, w] && self.plane_of(u, v, w) == Some(q.plane)
                },
        decreases n,
    {
        let all = self.soup(points, tris, n);
        if n > 0 {
            self.soups_hold_the_triangles(points, tris, n - 1, q);
            let rest = self.soup(points, tris, n - 1);
            let t = tris[n - 1];
            let (u, v, w) = (points[t.a as int], points[t.b as int], points[t.c as int]);
            if rest.contains(q) {
                let k = choose|k: int| 0 <= k < rest.len() && rest[k] == q;
                assert(all[k] == q);
            }
            if q.vertices == seq![u, v, w] && self.plane_of(u, v, w) == Some(q.plane) {
                assert(all[rest.len() as int] == q);
            }
            if all.contains(q) {
                let k = choose|k: int| 0 <= k < all.len() && all[k] == q;
                if k < rest.len() {
                    assert(rest[k] == q);
                }
            }
        }
    }

    // ---- where the polygons come from, and which way they face ----

    /// Cutting keeps what `holds` says of a polygon, and turning it over changes its second half.
    pub open spec fn carries(&self, holds: spec_fn(Poly, bool) -> bool) -> bool {
        &&& forall|plane: Plane, p: Poly, into: Bucket, over: bool|
            #![trigger holds(p, over), self.piece(plane, p, into)]
            holds(p, over) && self.piece(plane, p, into) is Some ==> holds(self.piece(plane, p, into)->0, over)
        &&& forall|p: Poly, over: bool| #![trigger holds(p, over), self.turned(p)] holds(p, over) ==> holds(self.turned(p), !over)
    }

    proof fn sorting_carries(&self, holds: spec_fn(Poly, bool) -> bool, over: bool, plane: Plane, ps: Seq<Poly>, into: Bucket, n: int)
        requires
            self.carries(holds),
            0 <= n <= ps.len(),
            all_hold(holds, over, ps),
        ensures
            all_hold(holds, over, self.sorted(plane, ps, into, n)),
        decreases n,
    {
        if n > 0 {
            self.sorting_carries(holds, over, plane, ps, into, n - 1);
            assert(holds(ps[n - 1], over));
            let (rest, all) = (self.sorted(plane, ps, into, n - 1), self.sorted(plane, ps, into, n));
            if self.piece(plane, ps[n - 1], into) is Some {
                let q = self.piece(plane, ps[n - 1], into)->0;
                assert(holds(q, over));
                assert forall|i: int| 0 <= i < all.len() implies #[trigger] holds(all[i], over) by {
                    if i < rest.len() {
                        assert(holds(rest[i], over));
                    }
                }
            }
        }
    }

    proof fn clipping_carries(&self, holds: spec_fn(Poly, bool) -> bool, over: bool, t: Tree, ps: Seq<Poly>)
        requires
            self.carries(holds),
            all_hold(holds, over, ps),
        ensures
            all_hold(holds, over, self.clipped(t, ps)),
        decreases t,
    {
        if let Some(plane) = t.plane {
            let n = ps.len() as int;
            self.sorting_carries(holds, over, plane, ps, Bucket::Front, n);
            self.sorting_carries(holds, over, plane, ps, Bucket::Along, n);
            self.sorting_carries(holds, over, plane, ps, Bucket::Back, n);
            self.sorting_carries(holds, over, plane, ps, Bucket::Against, n);
            let front = self.all_sorted(plane, ps, Bucket::Front) + self.all_sorted(plane, ps, Bucket::Along);
            let back = self.all_sorted(plane, ps, Bucket::Back) + self.all_sorted(plane, ps, Bucket::Against);
            both_hold(holds, over, self.all_sorted(plane, ps, Bucket::Front), self.all_sorted(plane, ps, Bucket::Along));
            both_hold(holds, over, self.all_sorted(plane, ps, Bucket::Back), self.all_sorted(plane, ps, Bucket::Against));
            let one = match t.front {
                Some(f) => self.clipped(*f, front),
                None => front,
            };
            let two = match t.back {
                Some(b) => self.clipped(*b, back),
                None => Seq::empty(),
            };
            if let Some(f) = t.front {
                self.clipping_carries(holds, over, *f, front);
            }
            if let Some(b) = t.back {
                self.clipping_carries(holds, over, *b, back);
            }
            both_hold(holds, over, one, two);
        }
    }

    proof fn clipping_to_carries(&self, holds: spec_fn(Poly, bool) -> bool, over: bool, t: Tree, other: Tree)
        requires
            self.carries(holds),
            tree_holds(holds, over, t),
        ensures
            tree_holds(holds, over, self.clipped_to(t, other)),
        decreases t,
    {
        self.clipping_carries(holds, over, other, t.polygons);
        if let Some(f) = t.front {
            self.clipping_to_carries(holds, over, *f, other);
        }
        if let Some(b) = t.back {
            self.clipping_to_carries(holds, over, *b, other);
        }
    }

    proof fn inverting_carries(&self, holds: spec_fn(Poly, bool) -> bool, over: bool, t: Tree)
        requires
            self.carries(holds),
            tree_holds(holds, over, t),
        ensures
            tree_holds(holds, !over, self.inverted(t)),
        decreases t,
    {
        let now = self.inverted(t);
        let under = !over;
        assert forall|i: int| 0 <= i < now.polygons.len() implies #[trigger] holds(now.polygons[i], under) by {
            assert(holds(t.polygons[i], over));
            assert(now.polygons[i] == self.turned(t.polygons[i]));
        }
        if let Some(f) = t.front {
            self.inverting_carries(holds, over, *f);
        }
        if let Some(b) = t.back {
            self.inverting_carries(holds, over, *b);
        }
    }

    proof fn building_carries(&self, holds: spec_fn(Poly, bool) -> bool, over: bool, t: Tree, ps: Seq<Poly>, depth: nat)
        requires
            self.carries(holds),
            tree_holds(holds, over, t),
            all_hold(holds, over, ps),
        ensures
            tree_holds(holds, over, self.built(t, ps, depth)),
        decreases MAX_DEPTH - depth,
    {
        if ps.len() > 0 {
            let plane = match t.plane {
                Some(p) => p,
                None => ps[0].plane,
            };
            let n = ps.len() as int;
            self.sorting_carries(holds, over, plane, ps, Bucket::Front, n);
            self.sorting_carries(holds, over, plane, ps, Bucket::Along, n);
            self.sorting_carries(holds, over, plane, ps, Bucket::Back, n);
            self.sorting_carries(holds, over, plane, ps, Bucket::Against, n);
            let front = self.all_sorted(plane, ps, Bucket::Front);
            let back = self.all_sorted(plane, ps, Bucket::Back);
            let some = t.polygons + self.all_sorted(plane, ps, Bucket::Along);
            let here = some + self.all_sorted(plane, ps, Bucket::Against);
            both_hold(holds, over, t.polygons, self.all_sorted(plane, ps, Bucket::Along));
            both_hold(holds, over, some, self.all_sorted(plane, ps, Bucket::Against));
            if depth >= MAX_DEPTH {
                both_hold(holds, over, here, front);
                both_hold(holds, over, here + front, back);
            } else {
                if front.len() > 0 {
                    self.building_carries(holds, over, branch(t.front), front, depth + 1);
                }
                if back.len() > 0 {
                    self.building_carries(holds, over, branch(t.back), back, depth + 1);
                }
            }
        }
    }

    /// The two solids of a difference: the polygons of the first keep facing as they did, and those of
    /// the second come out turned over. Whatever cutting keeps of a polygon, and turning changes, that
    /// holds of the polygons of the first as they are and of the second as they are turned over, holds
    /// of every polygon of the difference.
    pub proof fn difference_carries(&self, holds: spec_fn(Poly, bool) -> bool, a: Seq<Poly>, b: Seq<Poly>)
        requires
            self.carries(holds),
            all_hold(holds, false, a),
            all_hold(holds, true, b),
        ensures
            all_hold(holds, false, self.subtracted(a, b)),
    {
        let (na, nb) = (self.tree_of(a), self.tree_of(b));
        self.building_carries(holds, false, empty_tree(), a, 0);
        self.building_carries(holds, true, empty_tree(), b, 0);
        let ia = self.inverted(na);
        self.inverting_carries(holds, false, na);
        self.clipping_to_carries(holds, true, ia, nb);
        let ta = self.clipped_to(ia, nb);
        let tb = self.clipped_to(nb, ta);
        self.clipping_to_carries(holds, true, nb, ta);
        self.inverting_carries(holds, true, tb);
        self.clipping_to_carries(holds, false, self.inverted(tb), ta);
        let td = self.clipped_to(self.inverted(tb), ta);
        self.inverting_carries(holds, false, td);
        let tc = self.inverted(td);
        gathering_holds(holds, true, tc);
        self.building_carries(holds, true, ta, gathered(tc), 0);
        let te = self.built(ta, gathered(tc), 0);
        self.inverting_carries(holds, true, te);
        gathering_holds(holds, false, self.inverted(te));
    }

    /// The polygons of a union keep facing as they did: whatever cutting keeps of a polygon, and
    /// turning changes, that holds of the polygons of both solids as they are, holds of every polygon
    /// of the union.
    pub proof fn union_carries(&self, holds: spec_fn(Poly, bool) -> bool, a: Seq<Poly>, b: Seq<Poly>)
        requires
            self.carries(holds),
            all_hold(holds, false, a),
            all_hold(holds, false, b),
        ensures
            all_hold(holds, false, self.united(a, b)),
    {
        let (na, nb) = (self.tree_of(a), self.tree_of(b));
        self.building_carries(holds, false, empty_tree(), a, 0);
        self.building_carries(holds, false, empty_tree(), b, 0);
        let ta = self.clipped_to(na, nb);
        self.clipping_to_carries(holds, false, na, nb);
        let tb = self.clipped_to(nb, ta);
        self.clipping_to_carries(holds, false, nb, ta);
        self.inverting_carries(holds, false, tb);
        let td = self.clipped_to(self.inverted(tb), ta);
        self.clipping_to_carries(holds, true, self.inverted(tb), ta);
        self.inverting_carries(holds, true, td);
        let tc = self.inverted(td);
        gathering_holds(holds, false, tc);
        self.building_carries(holds, false, ta, gathered(tc), 0);
        gathering_holds(holds, false, self.built(ta, gathered(tc), 0));
    }

    /// Whatever is clipped by the tree, `holds` says it of all that is left.
    pub open spec fn leaves_only(&self, t: Tree, holds: spec_fn(Poly, bool) -> bool, over: bool) -> bool {
        forall|ps: Seq<Poly>| all_hold(holds, over, #[trigger] self.clipped(t, ps))
    }

    /// Clipping goes by the planes of a tree, not by its polygons.
    proof fn clipping_goes_by_planes(&self, t: Tree, other: Tree, ps: Seq<Poly>)
        ensures
            self.clipped(self.clipped_to(t, other), ps) == self.clipped(t, ps),
        decreases t,
    {
        if let Some(plane) = t.plane {
            let front = self.all_sorted(plane, ps, Bucket::Front) + self.all_sorted(plane, ps, Bucket::Along);
            let back = self.all_sorted(plane, ps, Bucket::Back) + self.all_sorted(plane, ps, Bucket::Against);
            if let Some(f) = t.front {
                self.clipping_goes_by_planes(*f, other, front);
            }
            if let Some(b) = t.back {
                self.clipping_goes_by_planes(*b, other, back);
            }
        }
    }

    proof fn clipping_to_leaves(&self, t: Tree, other: Tree, like: Tree, holds: spec_fn(Poly, bool) -> bool, over: bool)
        requires
            self.leaves_only(other, holds, over),
            forall|ps: Seq<Poly>| #[trigger] self.clipped(like, ps) == self.clipped(other, ps),
        ensures
            tree_holds(holds, over, self.clipped_to(t, like)),
        decreases t,
    {
        let left = self.clipped(like, t.polygons);
        assert(left == self.clipped(other, t.polygons));
        assert(all_hold(holds, over, self.clipped(other, t.polygons)));
        if let Some(f) = t.front {
            self.clipping_to_leaves(*f, other, like, holds, over);
        }
        if let Some(b) = t.back {
            self.clipping_to_leaves(*b, other, like, holds, over);
        }
    }

    /// Polygons of the one sort, or of the two others at once.
    spec fn either(x: spec_fn(Poly, bool) -> bool, y: spec_fn(Poly, bool) -> bool, z: spec_fn(Poly, bool) -> bool) -> spec_fn(Poly, bool) -> bool {
        |p: Poly, over: bool| x(p, over) || y(p, over) && z(p, over)
    }

    proof fn either_carries(&self, x: spec_fn(Poly, bool) -> bool, y: spec_fn(Poly, bool) -> bool, z: spec_fn(Poly, bool) -> bool)
        requires
            self.carries(x),
            self.carries(y),
            self.carries(z),
        ensures
            self.carries(Self::either(x, y, z)),
    {
        let e = Self::either(x, y, z);
        assert forall|plane: Plane, p: Poly, into: Bucket, over: bool|
            #![trigger e(p, over), self.piece(plane, p, into)]
            e(p, over) && self.piece(plane, p, into) is Some implies e(self.piece(plane, p, into)->0, over) by {
            let q = self.piece(plane, p, into)->0;
            assert(x(p, over) ==> x(q, over));
            assert(y(p, over) ==> y(q, over));
            assert(z(p, over) ==> z(q, over));
        }
        assert forall|p: Poly, over: bool| #![trigger e(p, over), self.turned(p)] e(p, over) implies e(self.turned(p), !over) by {
            let under = !over;
            assert(x(p, over) ==> x(self.turned(p), under));
            assert(y(p, over) ==> y(self.turned(p), under));
            assert(z(p, over) ==> z(self.turned(p), under));
        }
    }

    proof fn either_of_tree(x: spec_fn(Poly, bool) -> bool, y: spec_fn(Poly, bool) -> bool, z: spec_fn(Poly, bool) -> bool, over: bool, t: Tree)
        requires
            tree_holds(x, over, t),
        ensures
            tree_holds(Self::either(x, y, z), over, t),
        decreases t,
    {
        let e = Self::either(x, y, z);
        assert forall|i: int| 0 <= i < t.polygons.len() implies #[trigger] e(t.polygons[i], over) by {
            assert(x(t.polygons[i], over));
        }
        if let Some(f) = t.front {
            Self::either_of_tree(x, y, z, over, *f);
        }
        if let Some(b) = t.back {
            Self::either_of_tree(x, y, z, over, *b);
        }
    }

    proof fn joining_clipped_parts(
        &self,
        x: spec_fn(Poly, bool) -> bool,
        y: spec_fn(Poly, bool) -> bool,
        z: spec_fn(Poly, bool) -> bool,
        over: bool,
        ta: Tree,
        tc: Tree,
    )
        requires
            self.carries(x),
            self.carries(y),
            self.carries(z),
            tree_holds(x, over, ta),
            tree_holds(y, over, tc),
            tree_holds(z, over, tc),
        ensures
            tree_holds(Self::either(x, y, z), over, self.built(ta, gathered(tc), 0)),
    {
        let e = Self::either(x, y, z);
        self.either_carries(x, y, z);
        Self::either_of_tree(x, y, z, over, ta);
        gathering_holds(y, over, tc);
        gathering_holds(z, over, tc);
        let more = gathered(tc);
        assert forall|i: int| 0 <= i < more.len() implies #[trigger] e(more[i], over) by {
            assert(y(more[i], over) && z(more[i], over));
        }
        self.building_carries(e, over, ta, more, 0);
    }

    /// The two solids of a union are clipped by each other: what is left of the first is what clipping by
    /// the second leaves, and what is left of the second is what clipping by the first leaves, both as it
    /// is and turned over. So whatever cutting keeps of polygons, and these clippings leave of any, holds
    /// of every polygon of the union.
    #[verifier::spinoff_prover]
    #[verifier::rlimit(50)]
    pub proof fn unions_are_clipped(
        &self,
        x: spec_fn(Poly, bool) -> bool,
        y: spec_fn(Poly, bool) -> bool,
        z: spec_fn(Poly, bool) -> bool,
        a: Seq<Poly>,
        b: Seq<Poly>,
    )
        requires
            self.carries(x),
            self.carries(y),
            self.carries(z),
            self.leaves_only(self.tree_of(b), x, false),
            self.leaves_only(self.tree_of(a), y, false),
            self.leaves_only(self.tree_of(a), z, true),
        ensures
            forall|k: int| 0 <= k < self.united(a, b).len() ==> x(#[trigger] self.united(a, b)[k], false) || y(self.united(a, b)[k], false) && z(self.united(a, b)[k], false),
    {
        let (na, nb) = (self.tree_of(a), self.tree_of(b));
        let ta = self.clipped_to(na, nb);
        assert forall|ps: Seq<Poly>| #[trigger] self.clipped(ta, ps) == self.clipped(na, ps) by {
            self.clipping_goes_by_planes(na, nb, ps);
        }
        self.clipping_to_leaves(na, nb, nb, x, false);
        let tb = self.clipped_to(nb, ta);
        self.clipping_to_leaves(nb, na, ta, y, false);
        let ib = self.inverted(tb);
        self.inverting_carries(y, false, tb);
        let td = self.clipped_to(ib, ta);
        self.clipping_to_carries(y, true, ib, ta);
        self.clipping_to_leaves(ib, na, ta, z, true);
        let tc = self.inverted(td);
        self.inverting_carries(y, true, td);
        self.inverting_carries(z, true, td);
        self.joining_clipped_parts(x, y, z, false, ta, tc);
        let e = Self::either(x, y, z);
        let all = self.built(ta, gathered(tc), 0);
        gathering_holds(e, false, all);
        assert forall|k: int| 0 <= k < gathered(all).len() implies x(#[trigger] gathered(all)[k], false) || y(gathered(all)[k], false) && z(gathered(all)[k], false) by {
            assert(e(gathered(all)[k], false));
        }
    }

    /// The two solids of a difference are clipped by each other: what is left of the first, turned over, is
    /// what clipping by the second leaves, and what is left of the second is what clipping by the first,
    /// turned inside out, leaves, both as it is and turned over.
    #[verifier::spinoff_prover]
    #[verifier::rlimit(50)]
    pub proof fn differences_are_clipped(
        &self,
        x: spec_fn(Poly, bool) -> bool,
        y: spec_fn(Poly, bool) -> bool,
        z: spec_fn(Poly, bool) -> bool,
        a: Seq<Poly>,
        b: Seq<Poly>,
    )
        requires
            self.carries(x),
            self.carries(y),
            self.carries(z),
            self.leaves_only(self.tree_of(b), x, true),
            self.leaves_only(self.inverted(self.tree_of(a)), y, true),
            self.leaves_only(self.inverted(self.tree_of(a)), z, false),
        ensures
            forall|k: int|
                0 <= k < self.subtracted(a, b).len() ==> x(#[trigger] self.subtracted(a, b)[k], false) || y(self.subtracted(a, b)[k], false) && z(
                    self.subtracted(a, b)[k],
                    false,
                ),
    {
        let nb = self.tree_of(b);
        let na = self.inverted(self.tree_of(a));
        let ta = self.clipped_to(na, nb);
        assert forall|ps: Seq<Poly>| #[trigger] self.clipped(ta, ps) == self.clipped(na, ps) by {
            self.clipping_goes_by_planes(na, nb, ps);
        }
        self.clipping_to_leaves(na, nb, nb, x, true);
        let tb = self.clipped_to(nb, ta);
        self.clipping_to_leaves(nb, na, ta, y, true);
        let ib = self.inverted(tb);
        self.inverting_carries(y, true, tb);
        let td = self.clipped_to(ib, ta);
        self.clipping_to_carries(y, false, ib, ta);
        self.clipping_to_leaves(ib, na, ta, z, false);
        let tc = self.inverted(td);
        self.inverting_carries(y, false, td);
        self.inverting_carries(z, false, td);
        self.joining_clipped_parts(x, y, z, true, ta, tc);
        let e = Self::either(x, y, z);
        self.either_carries(x, y, z);
        let te = self.built(ta, gathered(tc), 0);
        self.inverting_carries(e, true, te);
        let all = self.inverted(te);
        gathering_holds(e, false, all);
        assert forall|k: int| 0 <= k < gathered(all).len() implies x(#[trigger] gathered(all)[k], false) || y(gathered(all)[k], false) && z(gathered(all)[k], false) by {
            assert(e(gathered(all)[k], false));
        }
    }

    /// The polygons turned over.
    pub open spec fn all_turned(&self, ps: Seq<Poly>) -> Seq<Poly> {
        ps.map_values(|p: Poly| self.turned(p))
    }

    #[verifier::spinoff_prover]
    #[verifier::rlimit(50)]
    proof fn clipping_of_tree(&self, t: Tree, other: Tree)
        ensures
            gathered(self.clipped_to(t, other)).to_multiset() == self.clipped(other, gathered(t)).to_multiset(),
        decreases t,
    {
        let none = Seq::<Poly>::empty();
        let f = match t.front {
            Some(f) => gathered(*f),
            None => none,
        };
        let b = match t.back {
            Some(b) => gathered(*b),
            None => none,
        };
        let now = self.clipped_to(t, other);
        let nf = match now.front {
            Some(f) => gathered(*f),
            None => none,
        };
        let nb = match now.back {
            Some(b) => gathered(*b),
            None => none,
        };
        if let Some(x) = t.front {
            self.clipping_of_tree(*x, other);
        } else {
            self.clipping_nothing(other);
        }
        if let Some(x) = t.back {
            self.clipping_of_tree(*x, other);
        } else {
            self.clipping_nothing(other);
        }
        self.clipping_is_done_one_by_one(other, t.polygons, f);
        self.clipping_is_done_one_by_one(other, t.polygons + f, b);
        vstd::seq_lib::lemma_multiset_commutative(now.polygons, nf);
        vstd::seq_lib::lemma_multiset_commutative(now.polygons + nf, nb);
    }

    proof fn turning_joins(&self, a: Seq<Poly>, b: Seq<Poly>)
        ensures
            self.all_turned(a + b).to_multiset() == self.all_turned(a).to_multiset().add(self.all_turned(b).to_multiset()),
    {
        assert(self.all_turned(a + b) =~= self.all_turned(a) + self.all_turned(b));
        vstd::seq_lib::lemma_multiset_commutative(self.all_turned(a), self.all_turned(b));
    }

    #[verifier::spinoff_prover]
    #[verifier::rlimit(50)]
    proof fn turning_of_tree(&self, t: Tree)
        ensures
            gathered(self.inverted(t)).to_multiset() == self.all_turned(gathered(t)).to_multiset(),
        decreases t,
    {
        let none = Seq::<Poly>::empty();
        let f = match t.front {
            Some(f) => gathered(*f),
            None => none,
        };
        let b = match t.back {
            Some(b) => gathered(*b),
            None => none,
        };
        let now = self.inverted(t);
        let nf = match now.front {
            Some(f) => gathered(*f),
            None => none,
        };
        let nb = match now.back {
            Some(b) => gathered(*b),
            None => none,
        };
        if let Some(x) = t.front {
            self.turning_of_tree(*x);
        } else {
            assert(self.all_turned(none) =~= none);
        }
        if let Some(x) = t.back {
            self.turning_of_tree(*x);
        } else {
            assert(self.all_turned(none) =~= none);
        }
        assert(now.polygons =~= self.all_turned(t.polygons));
        self.turning_joins(t.polygons, f);
        self.turning_joins(t.polygons + f, b);
        vstd::seq_lib::lemma_multiset_commutative(now.polygons, nf);
        vstd::seq_lib::lemma_multiset_commutative(now.polygons + nf, nb);
        assert(gathered(now).to_multiset() =~= self.all_turned(gathered(t)).to_multiset());
    }

    proof fn clipping_is_orderless(&self, t: Tree, a: Seq<Poly>, b: Seq<Poly>)
        requires
            a.to_multiset() == b.to_multiset(),
        ensures
            self.clipped(t, a).to_multiset() == self.clipped(t, b).to_multiset(),
    {
        let h = |s: Seq<Poly>| self.clipped(t, s).to_multiset();
        assert forall|x: Seq<Poly>, y: Seq<Poly>| #[trigger] h(x + y) == h(x).add(h(y)) by {
            self.clipping_is_done_one_by_one(t, x, y);
        }
        additive_is_orderless(h, a, b);
    }

    proof fn turning_is_orderless(&self, a: Seq<Poly>, b: Seq<Poly>)
        requires
            a.to_multiset() == b.to_multiset(),
        ensures
            self.all_turned(a).to_multiset() == self.all_turned(b).to_multiset(),
    {
        let h = |s: Seq<Poly>| self.all_turned(s).to_multiset();
        assert forall|x: Seq<Poly>, y: Seq<Poly>| #[trigger] h(x + y) == h(x).add(h(y)) by {
            self.turning_joins(x, y);
        }
        additive_is_orderless(h, a, b);
    }

    /// No plane of the tree cuts a polygon of the sort.
    pub open spec fn spares(&self, t: Tree, holds: spec_fn(Poly, bool) -> bool, over: bool) -> bool
        decreases t,
    {
        &&& t.plane matches Some(plane) ==> forall|p: Poly| #[trigger] holds(p, over) ==> self.leaves_whole(plane, p)
        &&& match t.front {
            Some(f) => self.spares(*f, holds, over),
            None => true,
        }
        &&& match t.back {
            Some(b) => self.spares(*b, holds, over),
            None => true,
        }
    }

    /// Polygons of the sort do not cut each other.
    pub open spec fn meet_whole(&self, holds: spec_fn(Poly, bool) -> bool, over: bool) -> bool {
        forall|p: Poly, q: Poly| #[trigger] holds(p, over) && #[trigger] holds(q, over) ==> self.leaves_whole(p.plane, q)
    }

    proof fn clipped_trees_spare(&self, t: Tree, other: Tree, holds: spec_fn(Poly, bool) -> bool, over: bool)
        requires
            self.spares(t, holds, over),
        ensures
            self.spares(self.clipped_to(t, other), holds, over),
        decreases t,
    {
        if let Some(f) = t.front {
            self.clipped_trees_spare(*f, other, holds, over);
        }
        if let Some(b) = t.back {
            self.clipped_trees_spare(*b, other, holds, over);
        }
    }

    proof fn plane_spares(&self, t: Tree, ps: Seq<Poly>, holds: spec_fn(Poly, bool) -> bool, over: bool)
        requires
            ps.len() > 0,
            all_hold(holds, over, ps),
            self.meet_whole(holds, over),
            self.spares(t, holds, over),
        ensures
            ({
                let plane = match t.plane {
                    Some(p) => p,
                    None => ps[0].plane,
                };
                forall|i: int| 0 <= i < ps.len() ==> self.leaves_whole(plane, #[trigger] ps[i])
            }),
    {
        let plane = match t.plane {
            Some(p) => p,
            None => ps[0].plane,
        };
        assert forall|i: int| 0 <= i < ps.len() implies self.leaves_whole(plane, #[trigger] ps[i]) by {
            assert(holds(ps[0], over));
            assert(holds(ps[i], over));
        }
    }

    #[verifier::rlimit(60)]
    #[verifier::spinoff_prover]
    proof fn building_loses_nothing(&self, t: Tree, ps: Seq<Poly>, depth: nat, holds: spec_fn(Poly, bool) -> bool, over: bool)
        requires
            self.carries(holds),
            all_hold(holds, over, ps),
            self.meet_whole(holds, over),
            self.spares(t, holds, over),
        ensures
            gathered(self.built(t, ps, depth)).to_multiset() == gathered(t).to_multiset().add(ps.to_multiset()),
        decreases MAX_DEPTH - depth,
    {
        let none = Seq::<Poly>::empty();
        let f0 = gathered(branch(t.front));
        let b0 = gathered(branch(t.back));
        assert(gathered(empty_tree()) =~= none);
        assert(gathered(t) =~= t.polygons + f0 + b0);
        if ps.len() > 0 {
            let plane = match t.plane {
                Some(p) => p,
                None => ps[0].plane,
            };
            let n = ps.len() as int;
            self.plane_spares(t, ps, holds, over);
            self.sorting_loses_nothing(plane, ps, n);
            assert(ps.take(n) =~= ps);
            let (l, g, f, b) = (
                self.all_sorted(plane, ps, Bucket::Along),
                self.all_sorted(plane, ps, Bucket::Against),
                self.all_sorted(plane, ps, Bucket::Front),
                self.all_sorted(plane, ps, Bucket::Back),
            );
            let now = self.built(t, ps, depth);
            let here = t.polygons + l + g;
            if depth >= MAX_DEPTH {
                assert(gathered(now) =~= here + f + b + f0 + b0);
                parts_add_up(t.polygons, l, g, f, b, f0, b0, f0 + f, b0 + b);
            } else {
                self.sorting_carries(holds, over, plane, ps, Bucket::Front, n);
                self.sorting_carries(holds, over, plane, ps, Bucket::Back, n);
                assert(self.spares(branch(t.front), holds, over));
                assert(self.spares(branch(t.back), holds, over));
                self.building_loses_nothing(branch(t.front), f, depth + 1, holds, over);
                self.building_loses_nothing(branch(t.back), b, depth + 1, holds, over);
                let f1 = gathered(branch(now.front));
                let b1 = gathered(branch(now.back));
                assert(f.len() == 0 ==> f =~= none);
                assert(b.len() == 0 ==> b =~= none);
                assert(f.len() == 0 ==> self.built(branch(t.front), f, depth + 1) == branch(t.front));
                assert(b.len() == 0 ==> self.built(branch(t.back), b, depth + 1) == branch(t.back));
                assert(f1 == gathered(self.built(branch(t.front), f, depth + 1)));
                assert(b1 == gathered(self.built(branch(t.back), b, depth + 1)));
                assert(gathered(now) =~= here + f1 + b1);
                vstd::seq_lib::lemma_multiset_commutative(f0, f);
                vstd::seq_lib::lemma_multiset_commutative(b0, b);
                parts_add_up(t.polygons, l, g, f, b, f0, b0, f1, b1);
            }
        } else {
            vstd::seq_lib::lemma_multiset_commutative(gathered(t), ps);
            assert(gathered(t) + ps =~= gathered(t));
        }
    }

    /// The polygons of a union, where none of the second's is cut on the way: all that clipping by the second
    /// leaves of the first, and all that clipping by the first leaves of the second, as it is and again
    /// turned over. Nothing else comes in, and nothing is lost.
    #[verifier::spinoff_prover]
    #[verifier::rlimit(50)]
    pub proof fn unions_lose_nothing(&self, holds: spec_fn(Poly, bool) -> bool, a: Seq<Poly>, b: Seq<Poly>)
        requires
            self.carries(holds),
            all_hold(holds, false, b),
            self.meet_whole(holds, false),
            self.spares(self.tree_of(a), holds, false),
        ensures
            ({
                let (na, nb) = (self.tree_of(a), self.tree_of(b));
                let once = self.clipped(na, gathered(nb));
                let twice = self.clipped(na, self.all_turned(once));
                self.united(a, b).to_multiset() == self.clipped(nb, gathered(na)).to_multiset().add(self.all_turned(twice).to_multiset())
            }),
    {
        let (na, nb) = (self.tree_of(a), self.tree_of(b));
        let ta = self.clipped_to(na, nb);
        self.clipping_of_tree(na, nb);
        let tc = self.second_part(na, nb, ta);
        self.building_carries(holds, false, empty_tree(), b, 0);
        self.clipping_to_carries(holds, false, nb, ta);
        let tb = self.clipped_to(nb, ta);
        self.inverting_carries(holds, false, tb);
        let td = self.clipped_to(self.inverted(tb), ta);
        self.clipping_to_carries(holds, true, self.inverted(tb), ta);
        self.inverting_carries(holds, true, td);
        gathering_holds(holds, false, tc);
        self.clipped_trees_spare(na, nb, holds, false);
        self.building_loses_nothing(ta, gathered(tc), 0, holds, false);
    }

    #[verifier::spinoff_prover]
    #[verifier::rlimit(50)]
    proof fn second_part(&self, na: Tree, nb: Tree, ta: Tree) -> (tc: Tree)
        requires
            exists|o: Tree| ta == #[trigger] self.clipped_to(na, o),
        ensures
            tc == self.inverted(self.clipped_to(self.inverted(self.clipped_to(nb, ta)), ta)),
            gathered(tc).to_multiset() == self.all_turned(self.clipped(na, self.all_turned(self.clipped(na, gathered(nb))))).to_multiset(),
    {
        let o = choose|o: Tree| ta == #[trigger] self.clipped_to(na, o);
        let tb = self.clipped_to(nb, ta);
        let once = self.clipped(na, gathered(nb));
        self.clipping_of_tree(nb, ta);
        self.clipping_goes_by_planes(na, o, gathered(nb));
        assert(gathered(tb).to_multiset() == once.to_multiset());
        let ib = self.inverted(tb);
        self.turning_of_tree(tb);
        self.turning_is_orderless(gathered(tb), once);
        let td = self.clipped_to(ib, ta);
        self.clipping_of_tree(ib, ta);
        self.clipping_goes_by_planes(na, o, gathered(ib));
        let twice = self.clipped(na, self.all_turned(once));
        self.clipping_is_orderless(na, gathered(ib), self.all_turned(once));
        assert(gathered(td).to_multiset() == twice.to_multiset());
        let tc = self.inverted(td);
        self.turning_of_tree(td);
        self.turning_is_orderless(gathered(td), twice);
        tc
    }

    /// The polygons of a difference, where none of the second's is cut on the way: all that clipping by the
    /// second leaves of the first, turned over and back, and all that clipping by the first, turned inside
    /// out, leaves of the second, as it is and again turned over, and then turned over to face into the cut.
    #[verifier::spinoff_prover]
    #[verifier::rlimit(50)]
    pub proof fn differences_lose_nothing(&self, holds: spec_fn(Poly, bool) -> bool, a: Seq<Poly>, b: Seq<Poly>)
        requires
            self.carries(holds),
            all_hold(holds, true, b),
            self.meet_whole(holds, true),
            self.spares(self.inverted(self.tree_of(a)), holds, true),
        ensures
            ({
                let (na, nb) = (self.tree_of(a), self.tree_of(b));
                let ia = self.inverted(na);
                let once = self.clipped(ia, gathered(nb));
                let twice = self.clipped(ia, self.all_turned(once));
                self.subtracted(a, b).to_multiset() == self.all_turned(self.clipped(nb, self.all_turned(gathered(na)))).to_multiset().add(
                    self.all_turned(self.all_turned(twice)).to_multiset(),
                )
            }),
    {
        let (na, nb) = (self.tree_of(a), self.tree_of(b));
        let ia = self.inverted(na);
        let ta = self.clipped_to(ia, nb);
        self.clipping_of_tree(ia, nb);
        self.turning_of_tree(na);
        self.clipping_is_orderless(nb, gathered(ia), self.all_turned(gathered(na)));
        let first = self.clipped(nb, self.all_turned(gathered(na)));
        assert(gathered(ta).to_multiset() == first.to_multiset());
        let tc = self.second_part(ia, nb, ta);
        let twice = self.clipped(ia, self.all_turned(self.clipped(ia, gathered(nb))));
        self.building_carries(holds, true, empty_tree(), b, 0);
        self.clipping_to_carries(holds, true, nb, ta);
        let tb = self.clipped_to(nb, ta);
        self.inverting_carries(holds, true, tb);
        let td = self.clipped_to(self.inverted(tb), ta);
        self.clipping_to_carries(holds, false, self.inverted(tb), ta);
        self.inverting_carries(holds, false, td);
        gathering_holds(holds, true, tc);
        self.clipped_trees_spare(ia, nb, holds, true);
        self.building_loses_nothing(ta, gathered(tc), 0, holds, true);
        let te = self.built(ta, gathered(tc), 0);
        self.turning_of_tree(te);
        let both = first + self.all_turned(twice);
        vstd::seq_lib::lemma_multiset_commutative(first, self.all_turned(twice));
        assert(gathered(te).to_multiset() == both.to_multiset());
        self.turning_is_orderless(gathered(te), both);
        self.turning_joins(first, self.all_turned(twice));
    }

    /// The kernel is true to the polygons of a kind: a polygon cut out of one lies in the same plane,
    /// and turning one over, or cutting it, gives one of the kind.
    pub open spec fn true_to(&self, flat: spec_fn(Poly) -> bool) -> bool {
        &&& forall|p: Plane| self.flipped(#[trigger] self.flipped(p)) == p
        &&& forall|plane: Plane, p: Poly, into: Bucket|
            flat(p) && (#[trigger] self.piece(plane, p, into)) is Some ==> flat(self.piece(plane, p, into)->0) && self.piece(
                plane,
                p,
                into,
            )->0.plane == p.plane
        &&& forall|p: Poly| flat(p) ==> #[trigger] flat(self.turned(p))
    }

    /// In exact geometry every polygon of a difference lies in the plane of a polygon of the first
    /// solid and faces as that does, or in the plane of a polygon of the second and faces the other
    /// way: what is left of the first still faces outwards, and the walls of the cut face into it.
    pub proof fn differences_face_outwards(&self, flat: spec_fn(Poly) -> bool, a: Seq<Poly>, b: Seq<Poly>)
        requires
            self.true_to(flat),
            forall|i: int| 0 <= i < a.len() ==> flat(#[trigger] a[i]),
            forall|i: int| 0 <= i < b.len() ==> flat(#[trigger] b[i]),
        ensures
            forall|k: int|
                0 <= k < self.subtracted(a, b).len() ==> {
                    ||| exists|i: int| 0 <= i < a.len() && (#[trigger] self.subtracted(a, b)[k]).plane == (#[trigger] a[i]).plane
                    ||| exists|i: int|
                        0 <= i < b.len() && (#[trigger] self.subtracted(a, b)[k]).plane == self.flipped((#[trigger] b[i]).plane)
                },
    {
        let holds = |q: Poly, over: bool| flat(q) && self.faces_as_made(a, b, q, over);
        assert(self.carries(holds)) by {
            assert forall|p: Poly, over: bool| #![trigger holds(p, over), self.turned(p)] holds(p, over) implies holds(self.turned(p), !over) by {
                assert(self.flipped(self.flipped(p.plane)) == p.plane);
                assert forall|i: int| 0 <= i < a.len() implies self.flipped(self.flipped((#[trigger] a[i]).plane)) == a[i].plane by {}
                assert forall|i: int| 0 <= i < b.len() implies self.flipped(self.flipped((#[trigger] b[i]).plane)) == b[i].plane by {}
            }
        }
        assert forall|i: int| 0 <= i < a.len() implies #[trigger] holds(a[i], false) by {}
        assert forall|i: int| 0 <= i < b.len() implies #[trigger] holds(b[i], true) by {}
        self.difference_carries(holds, a, b);
        let all = self.subtracted(a, b);
        assert forall|k: int| 0 <= k < all.len() implies {
            ||| exists|i: int| 0 <= i < a.len() && (#[trigger] all[k]).plane == (#[trigger] a[i]).plane
            ||| exists|i: int| 0 <= i < b.len() && (#[trigger] all[k]).plane == self.flipped((#[trigger] b[i]).plane)
        } by {
            assert(holds(all[k], false));
        }
    }

    /// Turned over an even number of times, `q` faces as a polygon of `a` does or against one of `b`;
    /// turned over an odd number of times it is the other way about.
    spec fn faces_as_made(&self, a: Seq<Poly>, b: Seq<Poly>, q: Poly, over: bool) -> bool {
        ||| exists|i: int|
            0 <= i < a.len() && q.plane == (if over {
                self.flipped((#[trigger] a[i]).plane)
            } else {
                a[i].plane
            })
        ||| exists|i: int|
            0 <= i < b.len() && q.plane == (if over {
                (#[trigger] b[i]).plane
            } else {
                self.flipped(b[i].plane)
            })
    }

    /// In exact geometry every polygon of a union lies in the plane of a polygon of one of the solids
    /// and faces as that does.
    pub proof fn unions_face_outwards(&self, flat: spec_fn(Poly) -> bool, a: Seq<Poly>, b: Seq<Poly>)
        requires
            self.true_to(flat),
            forall|i: int| 0 <= i < a.len() ==> flat(#[trigger] a[i]),
            forall|i: int| 0 <= i < b.len() ==> flat(#[trigger] b[i]),
        ensures
            forall|k: int|
                0 <= k < self.united(a, b).len() ==> {
                    ||| exists|i: int| 0 <= i < a.len() && (#[trigger] self.united(a, b)[k]).plane == (#[trigger] a[i]).plane
                    ||| exists|i: int| 0 <= i < b.len() && (#[trigger] self.united(a, b)[k]).plane == (#[trigger] b[i]).plane
                },
    {
        let none = Seq::<Poly>::empty();
        let both = a + b;
        let holds = |q: Poly, over: bool| flat(q) && self.faces_as_made(both, none, q, over);
        assert(self.carries(holds)) by {
            assert forall|p: Poly, over: bool| #![trigger holds(p, over), self.turned(p)] holds(p, over) implies holds(self.turned(p), !over) by {
                assert(self.flipped(self.flipped(p.plane)) == p.plane);
                assert forall|i: int| 0 <= i < both.len() implies self.flipped(self.flipped((#[trigger] both[i]).plane)) == both[i].plane by {}
            }
        }
        assert forall|i: int| 0 <= i < a.len() implies #[trigger] holds(a[i], false) by {
            assert(both[i] == a[i]);
        }
        assert forall|i: int| 0 <= i < b.len() implies #[trigger] holds(b[i], false) by {
            assert(both[a.len() + i] == b[i]);
        }
        self.union_carries(holds, a, b);
        let all = self.united(a, b);
        assert forall|k: int| 0 <= k < all.len() implies {
            ||| exists|i: int| 0 <= i < a.len() && (#[trigger] all[k]).plane == (#[trigger] a[i]).plane
            ||| exists|i: int| 0 <= i < b.len() && (#[trigger] all[k]).plane == (#[trigger] b[i]).plane
        } by {
            assert(holds(all[k], false));
            let i = choose|i: int| 0 <= i < both.len() && all[k].plane == (#[trigger] both[i]).plane;
            if i < a.len() {
                assert(all[k].plane == a[i].plane);
            } else {
                assert(all[k].plane == b[i - a.len()].plane);
            }
        }
    }

    /// Of no polygons, clipping leaves none.
    pub proof fn clipping_nothing(&self, t: Tree)
        ensures
            self.clipped(t, Seq::empty()) == Seq::<Poly>::empty(),
        decreases t,
    {
        let none = Seq::<Poly>::empty();
        match t.plane {
            Some(plane) => {
                assert(self.all_sorted(plane, none, Bucket::Front) + self.all_sorted(plane, none, Bucket::Along) =~= none);
                assert(self.all_sorted(plane, none, Bucket::Back) + self.all_sorted(plane, none, Bucket::Against) =~= none);
                match t.front {
                    Some(f) => {
                        self.clipping_nothing(*f);
                    },
                    None => {},
                }
                match t.back {
                    Some(b) => {
                        self.clipping_nothing(*b);
                    },
                    None => {},
                }
                assert(self.clipped(t, none) =~= none);
            },
            None => {},
        }
    }
}

/// It holds of all the polygons.
pub open spec fn all_hold(holds: spec_fn(Poly, bool) -> bool, over: bool, ps: Seq<Poly>) -> bool {
    forall|i: int| 0 <= i < ps.len() ==> #[trigger] holds(ps[i], over)
}

/// It holds of all the polygons of a tree.
spec fn tree_holds(holds: spec_fn(Poly, bool) -> bool, over: bool, t: Tree) -> bool
    decreases t,
{
    &&& all_hold(holds, over, t.polygons)
    &&& match t.front {
        Some(f) => tree_holds(holds, over, *f),
        None => true,
    }
    &&& match t.back {
        Some(b) => tree_holds(holds, over, *b),
        None => true,
    }
}

proof fn both_hold(holds: spec_fn(Poly, bool) -> bool, over: bool, a: Seq<Poly>, b: Seq<Poly>)
    requires
        all_hold(holds, over, a),
        all_hold(holds, over, b),
    ensures
        all_hold(holds, over, a + b),
{
    let c = a + b;
    assert forall|i: int| 0 <= i < c.len() implies #[trigger] holds(c[i], over) by {
        if i < a.len() {
            assert(holds(a[i], over));
        } else {
            assert(holds(b[i - a.len()], over));
        }
    }
}

proof fn gathering_holds(holds: spec_fn(Poly, bool) -> bool, over: bool, t: Tree)
    requires
        tree_holds(holds, over, t),
    ensures
        all_hold(holds, over, gathered(t)),
    decreases t,
{
    let front = match t.front {
        Some(f) => gathered(*f),
        None => Seq::empty(),
    };
    let back = match t.back {
        Some(b) => gathered(*b),
        None => Seq::empty(),
    };
    if let Some(f) = t.front {
        gathering_holds(holds, over, *f);
    }
    if let Some(b) = t.back {
        gathering_holds(holds, over, *b);
    }
    both_hold(holds, over, t.polygons, front);
    both_hold(holds, over, t.polygons + front, back);
}

// ---- back to triangles ----

/// A polygon soup as triangles: the corners of its polygons one after the other, each with the
/// polygon's normal, and the fan of every polygon.
#[derive(Debug)]
pub struct Soup {
    pub corners: Vec<Vertex>,
    pub normals: Vec<[u64; 3]>,
    pub tris: Vec<Tri>,
}

/// The corners of the first `n` polygons; one with fewer than three has none.
pub open spec fn soup_corners(ps: Seq<Poly>, n: int) -> Seq<Vertex>
    decreases n,
{
    if n <= 0 {
        Seq::empty()
    } else if ps[n - 1].vertices.len() < 3 {
        soup_corners(ps, n - 1)
    } else {
        soup_corners(ps, n - 1) + ps[n - 1].vertices
    }
}

/// The normals at those corners.
pub open spec fn soup_normals(ps: Seq<Poly>, n: int) -> Seq<[u64; 3]>
    decreases n,
{
    if n <= 0 {
        Seq::empty()
    } else if ps[n - 1].vertices.len() < 3 {
        soup_normals(ps, n - 1)
    } else {
        soup_normals(ps, n - 1) + Seq::new(ps[n - 1].vertices.len(), |k: int| ps[n - 1].plane.normal)
    }
}

/// The triangles over those corners.
pub open spec fn soup_tris(ps: Seq<Poly>, n: int) -> Seq<Tri>
    decreases n,
{
    if n <= 0 {
        Seq::empty()
    } else if ps[n - 1].vertices.len() < 3 {
        soup_tris(ps, n - 1)
    } else {
        soup_tris(ps, n - 1) + shifted(fan(ps[n - 1].vertices.len() as int), soup_corners(ps, n - 1).len() as int)
    }
}

/// Cut the polygons of a soup into triangles, each polygon a fan. There is no result where the
/// corners cannot be numbered.
#[verifier::loop_isolation(false)]
pub fn polys_to_mesh(polygons: &Vec<Polygon>) -> (soup: Option<Soup>)
    ensures
        soup is None <==> soup_corners(polys(polygons@), polygons@.len() as int).len() > usize::MAX,
        soup matches Some(s) ==> s.corners@ == soup_corners(polys(polygons@), polygons@.len() as int) && s.normals@ == soup_normals(
            polys(polygons@),
            polygons@.len() as int,
        ) && s.tris@ == soup_tris(polys(polygons@), polygons@.len() as int),
{
    let ghost ps = polys(polygons@);
    let mut corners: Vec<Vertex> = Vec::new();
    let mut normals: Vec<[u64; 3]> = Vec::new();
    let mut tris: Vec<Tri> = Vec::new();
    let mut i: usize = 0;
    while i < polygons.len()
        invariant
            i <= polygons@.len(),
            corners@ == soup_corners(ps, i as int),
            normals@ == soup_normals(ps, i as int),
            tris@ == soup_tris(ps, i as int),
        decreases polygons@.len() - i,
    {
        let p: &Polygon = &polygons[i];
        let m: usize = p.vertices.len();
        assert(ps[i as int].vertices == p.vertices@ && ps[i as int].plane == p.plane);
        if m >= 3 {
            let base: usize = corners.len();
            if m > usize::MAX - base {
                proof {
                    corners_grow(ps, i + 1, polygons@.len() as int);
                }
                return None;
            }
            let ghost (c0, n0, t0) = (corners@, normals@, tris@);
            let mut k: usize = 0;
            while k < m
                invariant
                    k <= m,
                    corners@ == c0 + p.vertices@.take(k as int),
                    normals@ == n0 + Seq::new(k as nat, |j: int| p.plane.normal),
                decreases m - k,
            {
                corners.push(p.vertices[k]);
                normals.push(p.plane.normal);
                k = k + 1;
                assert(corners@ =~= c0 + p.vertices@.take(k as int));
                assert(normals@ =~= n0 + Seq::new(k as nat, |j: int| p.plane.normal));
            }
            assert(p.vertices@.take(k as int) =~= p.vertices@);
            let f: Vec<Tri> = fan_tris(m);
            let ghost moved = shifted(fan(m as int), base as int);
            let mut t: usize = 0;
            while t < f.len()
                invariant
                    t <= f@.len(),
                    tris@ == t0 + moved.take(t as int),
                decreases f@.len() - t,
            {
                let x: Tri = f[t];
                tris.push(Tri { a: x.a + base, b: x.b + base, c: x.c + base });
                t = t + 1;
                assert(tris@ =~= t0 + moved.take(t as int));
            }
            assert(moved.take(t as int) =~= moved);
        }
        i = i + 1;
    }
    assert(corners.len() == corners@.len());
    Some(Soup { corners, normals, tris })
}

proof fn corners_grow(ps: Seq<Poly>, n: int, m: int)
    requires
        n <= m,
    ensures
        soup_corners(ps, n).len() <= soup_corners(ps, m).len(),
    decreases m,
{
    if n < m && m > 0 {
        corners_grow(ps, n, m - 1);
    }
}

/// Every triangle of a soup has its corners.
pub proof fn soup_in_range(ps: Seq<Poly>, n: int, t: int)
    requires
        0 <= n <= ps.len(),
        soup_corners(ps, n).len() <= usize::MAX,
        0 <= t < soup_tris(ps, n).len(),
    ensures
        soup_tris(ps, n)[t].a < soup_corners(ps, n).len(),
        soup_tris(ps, n)[t].b < soup_corners(ps, n).len(),
        soup_tris(ps, n)[t].c < soup_corners(ps, n).len(),
        soup_normals(ps, n).len() == soup_corners(ps, n).len(),
    decreases n,
{
    if n > 0 {
        corners_grow(ps, n - 1, n);
        normals_match(ps, n);
        if t < soup_tris(ps, n - 1).len() {
            soup_in_range(ps, n - 1, t);
        }
    }
}

proof fn normals_match(ps: Seq<Poly>, n: int)
    ensures
        soup_normals(ps, n).len() == soup_corners(ps, n).len(),
    decreases n,
{
    if n > 0 {
        normals_match(ps, n - 1);
    }
}

/// Every polygon comes out as a fan that faces as it does: for each two corners that follow each
/// other, other than the first, there is a triangle from the first corner over them, with the
/// polygon's own normal at its corners.
#[verifier::spinoff_prover]
#[verifier::rlimit(50)]
pub proof fn polygons_come_out_as_fans(ps: Seq<Poly>, n: int, i: int, k: int)
    requires
        0 <= i < n <= ps.len(),
        soup_corners(ps, n).len() <= usize::MAX,
        0 < k,
        k + 1 < ps[i].vertices.len(),
    ensures
        exists|t: int| 0 <= t < soup_tris(ps, n).len() && fans(ps, n, #[trigger] soup_tris(ps, n)[t], ps[i], k),
    decreases n,
{
    corners_grow(ps, n - 1, n);
    normals_match(ps, n - 1);
    normals_match(ps, n);
    let (rest, all) = (soup_tris(ps, n - 1), soup_tris(ps, n));
    if i < n - 1 {
        polygons_come_out_as_fans(ps, n - 1, i, k);
        let t = choose|t: int| 0 <= t < rest.len() && fans(ps, n - 1, #[trigger] rest[t], ps[i], k);
        assert(all[t] == rest[t]);
        soup_in_range(ps, n - 1, t);
        let x = rest[t];
        assert(soup_corners(ps, n)[x.a as int] == soup_corners(ps, n - 1)[x.a as int]);
        assert(soup_corners(ps, n)[x.b as int] == soup_corners(ps, n - 1)[x.b as int]);
        assert(soup_corners(ps, n)[x.c as int] == soup_corners(ps, n - 1)[x.c as int]);
        assert(soup_normals(ps, n)[x.a as int] == soup_normals(ps, n - 1)[x.a as int]);
        assert(soup_normals(ps, n)[x.b as int] == soup_normals(ps, n - 1)[x.b as int]);
        assert(soup_normals(ps, n)[x.c as int] == soup_normals(ps, n - 1)[x.c as int]);
        assert(fans(ps, n, all[t], ps[i], k));
    } else {
        let t = rest.len() + k - 1;
        let x = all[t];
        let base = soup_corners(ps, n - 1).len() as int;
        assert(x == shifted(fan(ps[i].vertices.len() as int), base)[k - 1]);
        assert(fans(ps, n, x, ps[i], k));
    }
}

/// The triangle runs from the first corner of the polygon over corner `k` to the one after it.
pub open spec fn fans(ps: Seq<Poly>, n: int, t: Tri, p: Poly, k: int) -> bool {
    let (corners, normals) = (soup_corners(ps, n), soup_normals(ps, n));
    &&& t.a < corners.len() && t.b < corners.len() && t.c < corners.len()
    &&& corners[t.a as int] == p.vertices[0] && corners[t.b as int] == p.vertices[k] && corners[t.c as int] == p.vertices[k + 1]
    &&& normals[t.a as int] == p.plane.normal && normals[t.b as int] == p.plane.normal && normals[t.c as int] == p.plane.normal
}

/// A soup has two triangles fewer than corners for each polygon, and no others.
pub proof fn soups_have_no_other_triangles(ps: Seq<Poly>, n: int)
    requires
        0 <= n <= ps.len(),
    ensures
        soup_tris(ps, n).len() + 2 * ps.take(n).filter(|p: Poly| p.vertices.len() >= 3).len() == soup_corners(ps, n).len(),
    decreases n,
{
    reveal(Seq::filter);
    if n > 0 {
        soups_have_no_other_triangles(ps, n - 1);
        assert(ps.take(n).drop_last() =~= ps.take(n - 1));
        assert(ps.take(n).last() == ps[n - 1]);
    }
}

proof fn parts_add_up(
    p: Seq<Poly>,
    l: Seq<Poly>,
    g: Seq<Poly>,
    f: Seq<Poly>,
    b: Seq<Poly>,
    f0: Seq<Poly>,
    b0: Seq<Poly>,
    f1: Seq<Poly>,
    b1: Seq<Poly>,
)
    requires
        f1.to_multiset() == (f0 + f).to_multiset(),
        b1.to_multiset() == (b0 + b).to_multiset(),
    ensures
        (p + l + g + f1 + b1).to_multiset() == (p + f0 + b0).to_multiset().add(
            l.to_multiset().add(g.to_multiset()).add(f.to_multiset()).add(b.to_multiset()),
        ),
        (p + l + g + f + b + f0 + b0).to_multiset() == (p + f0 + b0).to_multiset().add(
            l.to_multiset().add(g.to_multiset()).add(f.to_multiset()).add(b.to_multiset()),
        ),
{
    broadcast use vstd::seq_lib::lemma_multiset_commutative;

    let want = (p + f0 + b0).to_multiset().add(l.to_multiset().add(g.to_multiset()).add(f.to_multiset()).add(b.to_multiset()));
    assert((p + l + g + f1 + b1).to_multiset() =~= want);
    assert((p + l + g + f + b + f0 + b0).to_multiset() =~= want);
}

/// What a sum over the parts of a list gives does not depend on its order.
proof fn additive_is_orderless(
    h: spec_fn(Seq<Poly>) -> vstd::multiset::Multiset<Poly>,
    a: Seq<Poly>,
    b: Seq<Poly>,
)
    requires
        forall|x: Seq<Poly>, y: Seq<Poly>| #[trigger] h(x + y) == h(x).add(h(y)),
        a.to_multiset() == b.to_multiset(),
    ensures
        h(a) == h(b),
    decreases a.len(),
{
    broadcast use vstd::seq_lib::group_to_multiset_ensures;

    let none = Seq::<Poly>::empty();
    assert(a.len() == a.to_multiset().len() && b.len() == b.to_multiset().len());
    if a.len() == 0 {
        assert(a =~= b);
    } else {
        let x = a[0];
        assert(a.contains(x));
        assert(b.to_multiset().count(x) > 0);
        assert(b.contains(x));
        let j = choose|j: int| 0 <= j < b.len() && b[j] == x;
        let (l, r) = (b.take(j), b.skip(j + 1));
        let rest = a.drop_first();
        assert(a =~= seq![x] + rest);
        assert(b =~= (l + seq![x]) + r);
        vstd::seq_lib::lemma_multiset_commutative(seq![x], rest);
        vstd::seq_lib::lemma_multiset_commutative(l + seq![x], r);
        vstd::seq_lib::lemma_multiset_commutative(l, seq![x]);
        vstd::seq_lib::lemma_multiset_commutative(l, r);
        let one = seq![x].to_multiset();
        assert(rest.to_multiset() =~= (l + r).to_multiset()) by {
            assert(a.to_multiset() == one.add(rest.to_multiset()));
            assert(b.to_multiset() == l.to_multiset().add(one).add(r.to_multiset()));
            assert forall|p: Poly| #[trigger] rest.to_multiset().count(p) == (l + r).to_multiset().count(p) by {
                assert(a.to_multiset().count(p) == one.count(p) + rest.to_multiset().count(p));
                assert(b.to_multiset().count(p) == l.to_multiset().count(p) + one.count(p) + r.to_multiset().count(p));
            }
        }
        additive_is_orderless(h, rest, l + r);
        assert(h(seq![x] + rest) == h(seq![x]).add(h(rest)));
        assert(h((l + seq![x]) + r) == h(l + seq![x]).add(h(r)));
        assert(h(l + seq![x]) == h(l).add(h(seq![x])));
        assert(h(l + r) == h(l).add(h(r)));
        assert(h(a) =~= h(b));
    }
}

} // verus!
