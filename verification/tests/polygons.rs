use hcad::bsp::{polys_to_mesh, Kernel, Node, Plane, Polygon, Side, Vertex};
use hcad::mesh::Tri;

type V3 = [f64; 3];

fn point(v: Vertex) -> V3 {
    [f64::from_bits(v.pos[0]), f64::from_bits(v.pos[1]), f64::from_bits(v.pos[2])]
}

fn vertex(p: V3) -> Vertex {
    Vertex { pos: [p[0].to_bits(), p[1].to_bits(), p[2].to_bits()] }
}

fn normal(p: Plane) -> V3 {
    [f64::from_bits(p.normal[0]), f64::from_bits(p.normal[1]), f64::from_bits(p.normal[2])]
}

fn make_plane(n: V3, w: f64) -> Plane {
    Plane { normal: [n[0].to_bits(), n[1].to_bits(), n[2].to_bits()], w: w.to_bits() }
}

fn dot(a: V3, b: V3) -> f64 {
    a[0] * b[0] + a[1] * b[1] + a[2] * b[2]
}

fn sub(a: V3, b: V3) -> V3 {
    [a[0] - b[0], a[1] - b[1], a[2] - b[2]]
}

fn cross(a: V3, b: V3) -> V3 {
    [a[1] * b[2] - a[2] * b[1], a[2] * b[0] - a[0] * b[2], a[0] * b[1] - a[1] * b[0]]
}

fn side(p: Plane, v: Vertex) -> Side {
    let t = dot(normal(p), point(v)) - f64::from_bits(p.w);
    if t < -1e-5 {
        Side::Back
    } else if t > 1e-5 {
        Side::Front
    } else {
        Side::On
    }
}

fn meet(p: Plane, u: Vertex, v: Vertex) -> Vertex {
    let (n, a, b) = (normal(p), point(u), point(v));
    let t = (f64::from_bits(p.w) - dot(n, a)) / dot(n, sub(b, a));
    vertex([a[0] + t * (b[0] - a[0]), a[1] + t * (b[1] - a[1]), a[2] + t * (b[2] - a[2])])
}

fn through(a: Vertex, b: Vertex, c: Vertex) -> Option<Plane> {
    let (a, b, c) = (point(a), point(b), point(c));
    let n = cross(sub(b, a), sub(c, a));
    let len = dot(n, n).sqrt();
    if len < 1e-12 {
        return None;
    }
    let n = [n[0] / len, n[1] / len, n[2] / len];
    Some(make_plane(n, dot(n, a)))
}

fn flip(p: Plane) -> Plane {
    let n = normal(p);
    make_plane([-n[0], -n[1], -n[2]], -f64::from_bits(p.w))
}

fn along(p: Plane, q: Plane) -> bool {
    dot(normal(p), normal(q)) > 0.0
}

fn box_mesh(lo: V3, hi: V3) -> (Vec<Vertex>, Vec<Tri>) {
    let c = [
        [lo[0], lo[1], lo[2]],
        [hi[0], lo[1], lo[2]],
        [hi[0], hi[1], lo[2]],
        [lo[0], hi[1], lo[2]],
        [lo[0], lo[1], hi[2]],
        [hi[0], lo[1], hi[2]],
        [hi[0], hi[1], hi[2]],
        [lo[0], hi[1], hi[2]],
    ];
    let faces = [[0, 3, 2, 1], [4, 5, 6, 7], [0, 1, 5, 4], [1, 2, 6, 5], [2, 3, 7, 6], [3, 0, 4, 7]];
    let (mut points, mut tris) = (Vec::new(), Vec::new());
    for f in faces {
        let base = points.len();
        for i in f {
            points.push(vertex(c[i]));
        }
        tris.push(Tri { a: base, b: base + 1, c: base + 2 });
        tris.push(Tri { a: base, b: base + 2, c: base + 3 });
    }
    (points, tris)
}

fn volume(polys: &[Polygon]) -> f64 {
    let mut v = 0.0;
    for p in polys {
        for k in 1..p.vertices.len() - 1 {
            let (a, b, c) = (point(p.vertices[0]), point(p.vertices[k]), point(p.vertices[k + 1]));
            v += dot(a, cross(b, c)) / 6.0;
        }
    }
    v.abs()
}

fn bsp_union(a: &(Vec<Vertex>, Vec<Tri>), b: &(Vec<Vertex>, Vec<Tri>)) -> Vec<Polygon> {
    let k = Kernel { side, cross: meet, plane: through, flip, along };
    k.union_polys(k.mesh_to_polys(&a.0, &a.1), k.mesh_to_polys(&b.0, &b.1))
}

fn bsp_difference(a: &(Vec<Vertex>, Vec<Tri>), b: &(Vec<Vertex>, Vec<Tri>)) -> Vec<Polygon> {
    let k = Kernel { side, cross: meet, plane: through, flip, along };
    k.subtract_polys(k.mesh_to_polys(&a.0, &a.1), k.mesh_to_polys(&b.0, &b.1))
}

#[test]
fn union_of_two_overlapping_unit_cubes() {
    // Cubes overlapping by half in x: combined volume 1 + 1 - 0.5 = 1.5.
    let a = box_mesh([0.0, 0.0, 0.0], [1.0, 1.0, 1.0]);
    let b = box_mesh([0.5, 0.0, 0.0], [1.5, 1.0, 1.0]);
    let u = bsp_union(&a, &b);
    assert!(!u.is_empty(), "union produced no geometry");
    assert!((volume(&u) - 1.5).abs() < 1e-3, "union volume was {}", volume(&u));
}

#[test]
fn difference_carves_a_notch() {
    let a = box_mesh([0.0, 0.0, 0.0], [1.0, 1.0, 1.0]);
    let b = box_mesh([0.5, 0.25, 0.25], [1.5, 0.75, 0.75]);
    let d = bsp_difference(&a, &b);
    assert!((volume(&d) - (1.0 - 0.5 * 0.5 * 0.5)).abs() < 1e-3, "difference volume was {}", volume(&d));
}

#[test]
fn boss_flush_on_a_floor_unions_coplanar_faces() {
    let body = box_mesh([0.0, 0.0, 0.0], [4.0, 4.0, 1.0]);
    // Boss overlaps slightly into the body so it's a real union (z 0.9..3).
    let boss = box_mesh([1.0, 1.0, 0.9], [3.0, 3.0, 3.0]);
    let u = bsp_union(&body, &boss);
    let expect = 4.0 * 4.0 * 1.0 + 2.0 * 2.0 * 2.1 - 2.0 * 2.0 * 0.1;
    assert!((volume(&u) - expect).abs() < 1e-2, "flush-boss union volume was {} (want {expect})", volume(&u));
}

#[test]
fn clipping_against_an_empty_tree_keeps_everything() {
    let k = Kernel { side, cross: meet, plane: through, flip, along };
    let m = box_mesh([0.0, 0.0, 0.0], [1.0, 1.0, 1.0]);
    let kept = k.clip_polygons(&Node::new(), k.mesh_to_polys(&m.0, &m.1));
    assert_eq!(kept.len(), 12);
}

#[test]
fn turning_a_tree_inside_out_twice_gives_it_back() {
    let k = Kernel { side, cross: meet, plane: through, flip, along };
    let m = box_mesh([0.0, 0.0, 0.0], [1.0, 1.0, 1.0]);
    let once = k.build(Node::new(), k.mesh_to_polys(&m.0, &m.1), 0);
    let before = format!("{:?}", once.all_polygons());
    let twice = k.invert(k.invert(once));
    assert_eq!(format!("{:?}", twice.all_polygons()), before);
}

#[test]
fn a_sliver_without_a_plane_is_left_out() {
    let k = Kernel { side, cross: meet, plane: through, flip, along };
    let points = vec![vertex([0.0, 0.0, 0.0]), vertex([1.0, 0.0, 0.0]), vertex([2.0, 0.0, 0.0]), vertex([0.0, 1.0, 0.0])];
    let tris = vec![Tri { a: 0, b: 1, c: 2 }, Tri { a: 0, b: 1, c: 3 }];
    let polys = k.mesh_to_polys(&points, &tris);
    assert_eq!(polys.len(), 1);
    assert_eq!(polys[0].vertices.len(), 3);
    assert!(k.polygon(vec![points[0], points[1]]).is_none());
}

#[test]
fn polygons_are_cut_into_fans() {
    let k = Kernel { side, cross: meet, plane: through, flip, along };
    let at = |x: f64, y: f64| vertex([x, y, 0.0]);
    let square = k.polygon(vec![at(0.0, 0.0), at(1.0, 0.0), at(1.0, 1.0), at(0.0, 1.0)]).expect("a square");
    let corner = k.polygon(vec![at(2.0, 0.0), at(3.0, 0.0), at(2.0, 1.0)]).expect("a triangle");
    let soup = polys_to_mesh(&vec![square, corner]).expect("a soup");
    assert_eq!(soup.corners.len(), 7);
    assert_eq!(soup.normals.len(), 7);
    assert_eq!(soup.tris, vec![Tri { a: 0, b: 1, c: 2 }, Tri { a: 0, b: 2, c: 3 }, Tri { a: 4, b: 5, c: 6 }]);
    assert_eq!(f64::from_bits(soup.normals[6][2]), 1.0);
}
