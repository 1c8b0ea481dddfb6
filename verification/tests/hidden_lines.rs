//! Views of bodies with hidden lines: points are projected here, and the library decides what hides
//! what.

use hcad::feature_edges::{classify_edge, EdgeClass};
use hcad::mesh::{edge_table, Tri};
use hcad::solids::prism_tris;
use hcad::views::{grid_side, sample_count, split_runs, CellBox, DepthGrid};

type V3 = [f64; 3];
type P2 = [f64; 2];

fn sub(a: V3, b: V3) -> V3 {
    [a[0] - b[0], a[1] - b[1], a[2] - b[2]]
}

fn dot(a: V3, b: V3) -> f64 {
    a[0] * b[0] + a[1] * b[1] + a[2] * b[2]
}

fn cross(a: V3, b: V3) -> V3 {
    [a[1] * b[2] - a[2] * b[1], a[2] * b[0] - a[0] * b[2], a[0] * b[1] - a[1] * b[0]]
}

fn norm(a: V3) -> V3 {
    let l = dot(a, a).sqrt();
    [a[0] / l, a[1] / l, a[2] / l]
}

/// The frame of a view: `f` looks into the sheet, `r` runs right, `u` runs up.
struct View {
    f: V3,
    r: V3,
    u: V3,
}

fn looking_along(dir: V3, up: V3) -> View {
    let f = norm(dir);
    let r = norm(cross(f, up));
    View { f, r, u: norm(cross(r, f)) }
}

impl View {
    fn project(&self, p: V3) -> (P2, f64) {
        ([dot(p, self.r), dot(p, self.u)], dot(p, self.f))
    }
}

struct Body {
    points: Vec<V3>,
    tris: Vec<Tri>,
    edges: Vec<[V3; 2]>,
}

/// An outline drawn up to a height, and its sharp edges.
fn prism(outline: &[P2], height: f64) -> Body {
    let points: Vec<V3> = [0.0, height].iter().flat_map(|z| outline.iter().map(|p| [p[0], p[1], *z])).collect();
    let mut tris = prism_tris(outline.len());
    let volume: f64 = tris.iter().map(|t| dot(points[t.a], cross(points[t.b], points[t.c]))).sum();
    if volume < 0.0 {
        hcad::mesh::turn_all(&mut tris);
    }
    let normal = |t: Tri| norm(cross(sub(points[t.b], points[t.a]), sub(points[t.c], points[t.a])));
    let et = edge_table(&tris);
    let edges = (0..et.ends.len())
        .filter(|&e| {
            let d = dot(normal(tris[et.uses[e][0]]), normal(tris[et.uses[e][1]]));
            classify_edge(et.uses[e].len(), d < 0.86, d < 0.99, true) == EdgeClass::Sharp
        })
        .map(|e| [points[et.ends[e].0], points[et.ends[e].1]])
        .collect();
    Body { points, tris, edges }
}

struct Stroke {
    a: P2,
    b: P2,
    hidden: bool,
}

fn length(strokes: &[&Stroke]) -> f64 {
    strokes.iter().map(|s| (s.b[0] - s.a[0]).hypot(s.b[1] - s.a[1])).sum()
}

fn size(strokes: &[Stroke]) -> P2 {
    let ends = || strokes.iter().flat_map(|s| [s.a, s.b]);
    [0, 1].map(|k: usize| ends().fold(f64::MIN, |m, q| m.max(q[k])) - ends().fold(f64::MAX, |m, q| m.min(q[k])))
}

/// Project edges and split each into seen and hidden runs.
fn project(body: &Body, edges: &[[V3; 2]], view: &View, samples: usize) -> Vec<Stroke> {
    let mut faces: Vec<([P2; 3], V3)> = Vec::new();
    for t in &body.tris {
        let p = [body.points[t.a], body.points[t.b], body.points[t.c]];
        if dot(cross(sub(p[1], p[0]), sub(p[2], p[0])), view.f) < 0.0 {
            let q = p.map(|v| view.project(v));
            faces.push((q.map(|v| v.0), q.map(|v| v.1)));
        }
    }
    let lo = [0, 1].map(|k: usize| faces.iter().flat_map(|f| f.0).fold(f64::MAX, |m, q| m.min(q[k])));
    let hi = [0, 1].map(|k: usize| faces.iter().flat_map(|f| f.0).fold(f64::MIN, |m, q| m.max(q[k])));
    let inv = (faces.len() as f64).sqrt().clamp(4.0, 256.0) / (hi[0] - lo[0]).max(hi[1] - lo[1]).max(1e-9);
    let side = |k: usize| grid_side(((hi[k] - lo[k]) * inv).ceil() as usize + 1);
    let (nx, ny) = (side(0), side(1));
    let boxes: Vec<CellBox> = faces
        .iter()
        .map(|(c, _)| {
            let cell = |k: usize, n: usize, v: f64| (((v - lo[k]) * inv) as usize).min(n - 1);
            let least = |k: usize| c[0][k].min(c[1][k]).min(c[2][k]);
            let most = |k: usize| c[0][k].max(c[1][k]).max(c[2][k]);
            CellBox { x0: cell(0, nx, least(0)), x1: cell(0, nx, most(0)), y0: cell(1, ny, least(1)), y1: cell(1, ny, most(1)) }
        })
        .collect();
    let grid = DepthGrid::build(nx, ny, boxes);
    let eps = 5e-3;
    let occluded = |p: P2, depth: f64| {
        let covers = |t: usize| {
            let (c, d) = &faces[t];
            let (v0, v1, v2) =
                ([c[1][0] - c[0][0], c[1][1] - c[0][1]], [c[2][0] - c[0][0], c[2][1] - c[0][1]], [p[0] - c[0][0], p[1] - c[0][1]]);
            let den = v0[0] * v1[1] - v1[0] * v0[1];
            if den.abs() < 1e-15 {
                return false;
            }
            let (a, b) = ((v2[0] * v1[1] - v1[0] * v2[1]) / den, (v0[0] * v2[1] - v2[0] * v0[1]) / den);
            a >= 0.0 && b >= 0.0 && a + b <= 1.0 && d[0] + a * (d[1] - d[0]) + b * (d[2] - d[0]) < depth - eps
        };
        let cell = |k: usize| ((p[k] - lo[k]) * inv).floor() as i64;
        grid.occluded(cell(0), cell(1), &covers)
    };
    let n = sample_count(samples);
    let last = (n - 1) as f64;
    let mut out = Vec::new();
    for e in edges {
        let ((a, ad), (b, bd)) = (view.project(e[0]), view.project(e[1]));
        if (a[0] - b[0]).abs() < 1e-12 && (a[1] - b[1]).abs() < 1e-12 {
            continue;
        }
        let at = |t: f64| [a[0] + (b[0] - a[0]) * t, a[1] + (b[1] - a[1]) * t];
        let hidden: Vec<bool> = (0..n)
            .map(|i| {
                let t = (i as f64 / last).clamp(0.5 / last, 1.0 - 0.5 / last);
                occluded(at(t), ad + (bd - ad) * t)
            })
            .collect();
        for run in split_runs(&hidden) {
            out.push(Stroke { a: at(run.from as f64 / last), b: at(run.to as f64 / last), hidden: run.hidden });
        }
    }
    out
}

const SQUARE: [P2; 4] = [[0.0, 0.0], [10.0, 0.0], [10.0, 10.0], [0.0, 10.0]];

#[test]
fn cube_front_view_hides_the_back_face() {
    let cube = prism(&SQUARE, 10.0);
    let proj = project(&cube, &cube.edges, &looking_along([0.0, 0.0, -1.0], [0.0, 1.0, 0.0]), 24);
    assert!(!proj.is_empty(), "nothing projected");
    let vis: Vec<&Stroke> = proj.iter().filter(|e| !e.hidden).collect();
    let hid: Vec<&Stroke> = proj.iter().filter(|e| e.hidden).collect();
    assert!(!vis.is_empty(), "no visible edges");
    assert!(!hid.is_empty(), "the far face should be hidden behind the near one");
    let [w, h] = size(&proj);
    assert!((w - 10.0).abs() < 0.1, "width {w:.2}");
    assert!((h - 10.0).abs() < 0.1, "height {h:.2}");
    assert!((length(&vis) - 40.0).abs() < 4.0, "visible length {:.1}, wanted ~40", length(&vis));
    assert!(length(&hid) > 20.0, "hidden length {:.1}: the back face barely registered", length(&hid));
}

#[test]
fn depth_ordering_decides_visibility() {
    let bar = prism(&SQUARE, 40.0);
    let a = project(&bar, &bar.edges, &looking_along([0.0, 0.0, -1.0], [0.0, 1.0, 0.0]), 24);
    let b = project(&bar, &bar.edges, &looking_along([0.0, 0.0, 1.0], [0.0, 1.0, 0.0]), 24);
    assert!(a.iter().any(|e| e.hidden) && b.iter().any(|e| e.hidden));
    let total = |v: &[Stroke]| length(&v.iter().collect::<Vec<_>>());
    assert!((total(&a) - total(&b)).abs() < 1.0, "{:.1} vs {:.1}", total(&a), total(&b));
}

#[test]
fn side_view_shows_the_long_dimension() {
    let bar = prism(&SQUARE, 40.0);
    let [w, h] = size(&project(&bar, &bar.edges, &looking_along([-1.0, 0.0, 0.0], [0.0, 1.0, 0.0]), 24));
    assert!((w - 40.0).abs() < 0.1, "width {w:.2}, wanted the 40mm length");
    assert!((h - 10.0).abs() < 0.1, "height {h:.2}");
}

#[test]
fn a_cylinder_shows_its_silhouette_from_the_side() {
    let circle: Vec<P2> = (0..64)
        .map(|i| {
            let a = std::f64::consts::TAU * i as f64 / 64.0;
            [10.0 * a.cos(), 10.0 * a.sin()]
        })
        .collect();
    let barrel = prism(&circle, 30.0);
    let proj = project(&barrel, &barrel.edges, &looking_along([-1.0, 0.0, 0.0], [0.0, 1.0, 0.0]), 24);
    assert!(!proj.is_empty(), "cylinder projected nothing at all");
    let [w, h] = size(&proj);
    assert!((w - 30.0).abs() < 0.3, "width {w:.2}, wanted the 30mm length");
    assert!((h - 20.0).abs() < 0.3, "height {h:.2}, wanted the 20mm diameter");
}

#[test]
fn the_near_face_is_the_visible_one() {
    let cube = prism(&SQUARE, 10.0);
    let view = looking_along([0.0, 0.0, -1.0], [0.0, 1.0, 0.0]);
    let (mut near_vis, mut near_hid, mut far_vis, mut far_hid) = (0, 0, 0, 0);
    for e in &cube.edges {
        let zmid = (e[0][2] + e[1][2]) * 0.5;
        let vis = project(&cube, &[*e], &view, 24).iter().any(|r| !r.hidden);
        if zmid > 9.9 {
            if vis {
                near_vis += 1
            } else {
                near_hid += 1
            }
        } else if zmid < 0.1 {
            if vis {
                far_vis += 1
            } else {
                far_hid += 1
            }
        }
    }
    assert!(near_vis > 0 && near_hid == 0, "the NEAR face should be fully visible ({near_vis} vis / {near_hid} hidden)");
    assert!(far_hid > 0 && far_vis == 0, "the FAR face should be fully hidden ({far_vis} vis / {far_hid} hidden)");
}
