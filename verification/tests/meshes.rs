use hcad::blend::{is_piecewise_straight, Turn};
use hcad::bodies::{open_sides, plan_loft, revolve_tris, slab_tris, turn_ring};
use hcad::booleans::{feature_edges_by_face, nudge, number_faces, too_dense_for_bsp, weld, Counters, Fallback};
use hcad::cleanup::{clean_feature_edges, prune_tiny_open_fragments};
use hcad::ears::ear_clip;
use hcad::exchange::{export_stl, mesh_to_solid};
use hcad::feature_edges::{classify_edge, EdgeClass};
use hcad::first_seen::{number_keys, Key, KeyTable};
use hcad::mesh::{edge_stats, edge_table, is_closed, orient_consistently, triangles, turn_all, walks, weld_triangles, Tri};
use hcad::patterns::{cone_tris, fan_around_tris, fan_tris, wall_tris};
use hcad::profile::{reverse_segs, ring_to_segs, seg_starts, ArcSpan, PathSeg, RingMarks, Transit};
use hcad::rings::{clean_loop, collapse_ring, thin};
use hcad::solids::{append_indices, box_tris, coil_tris, dome_tris, prism_tris, strip_tris, tube_tris, wedge_tris};
use hcad::topo::{build_topo, Topo};
use hcad::trails::{empty_stacks, tour};
use hcad::union_find::Uf;

type V3 = [f64; 3];

fn sub(a: V3, b: V3) -> V3 {
    [a[0] - b[0], a[1] - b[1], a[2] - b[2]]
}

fn dot(a: V3, b: V3) -> f64 {
    a[0] * b[0] + a[1] * b[1] + a[2] * b[2]
}

fn cross(a: V3, b: V3) -> V3 {
    [a[1] * b[2] - a[2] * b[1], a[2] * b[0] - a[0] * b[2], a[0] * b[1] - a[1] * b[0]]
}

fn len(a: V3) -> f64 {
    dot(a, a).sqrt()
}

fn norm(a: V3) -> V3 {
    let l = len(a);
    [a[0] / l, a[1] / l, a[2] / l]
}

fn normal(p: &[V3], t: Tri) -> V3 {
    norm(cross(sub(p[t.b], p[t.a]), sub(p[t.c], p[t.a])))
}

/// Every directed side is walked once, and so is its reverse.
fn is_watertight(tris: &[Tri]) -> bool {
    let mut sides: Vec<(usize, usize)> = Vec::new();
    for t in tris {
        for s in [(t.a, t.b), (t.b, t.c), (t.c, t.a)] {
            if sides.contains(&s) {
                return false;
            }
            sides.push(s);
        }
    }
    sides.iter().all(|s| sides.contains(&(s.1, s.0)))
}

/// The faces of a mesh whose neighbours count as flat where their normals agree.
fn topology(points: &[V3], tris: Vec<Tri>) -> Topo {
    let et = edge_table(&tris);
    let smooth: Vec<bool> = et.uses.iter().map(|u| u.len() == 2 && dot(normal(points, tris[u[0]]), normal(points, tris[u[1]])) > 0.9999).collect();
    build_topo(points.len(), tris, &et, &smooth)
}

fn prism_points(ring: &[[f64; 2]], h: f64) -> Vec<V3> {
    let mut out: Vec<V3> = Vec::new();
    for z in [0.0, h] {
        for p in ring {
            out.push([p[0], p[1], z]);
        }
    }
    out
}

#[test]
fn box_topology_is_6_faces_12_edges_8_verts() {
    let sq = [[0.0, 0.0], [4.0, 0.0], [4.0, 4.0], [0.0, 4.0]];
    let topo = topology(&prism_points(&sq, 4.0), prism_tris(4));
    assert_eq!(topo.verts, 8, "cube has 8 corners");
    assert_eq!(topo.faces.len(), 6, "cube has 6 flat faces");
    // 12 model edges, each shared by exactly 2 faces.
    assert_eq!(topo.edges.len(), 12, "cube has 12 edges");
    assert!(topo.edges.iter().all(|e| e.faces.len() == 2), "every cube edge joins 2 faces");
    // Every corner of a cube is a 3-edge, 3-face vertex.
    assert!(topo.vert_edges.iter().all(|e| e.len() == 3), "each cube corner has 3 edges");
    assert!(topo.vert_faces.iter().all(|f| f.len() == 3), "each cube corner touches 3 faces");
    // Each face is a single 4-vertex boundary loop.
    for f in &topo.faces {
        assert_eq!(f.loops.len(), 1, "cube face has one boundary loop");
        assert_eq!(f.loops[0].len(), 4, "cube face loop has 4 corners");
    }
}

#[test]
fn frame_top_face_has_two_loops() {
    // A square tube (frame prism): outer square with a square hole, extruded up. Its top
    // and bottom faces are annuli — one outer loop + one inner (hole) loop each.
    let outer = [[0.0, 0.0], [10.0, 0.0], [10.0, 10.0], [0.0, 10.0]];
    let hole = [[3.0, 3.0], [7.0, 3.0], [7.0, 7.0], [3.0, 7.0]];
    let mut points: Vec<V3> = Vec::new();
    // Rings of vertices: outer bottom, inner bottom, outer top, inner top.
    for z in [0.0, 5.0] {
        for p in outer.iter().chain(hole.iter()) {
            points.push([p[0], p[1], z]);
        }
    }
    let mut tris: Vec<Tri> = Vec::new();
    let mut quad = |a: usize, b: usize, c: usize, d: usize| {
        tris.push(Tri { a, b, c });
        tris.push(Tri { a, b: c, c: d });
    };
    for k in 0..4 {
        let n = (k + 1) % 4;
        quad(k, n, 8 + n, 8 + k); // outer wall
        quad(4 + n, 4 + k, 12 + k, 12 + n); // inner wall
        quad(k, 4 + k, 4 + n, n); // bottom
        quad(8 + k, 8 + n, 12 + n, 12 + k); // top
    }
    assert!(is_closed(&tris));
    let topo = topology(&points, tris);
    let annuli = topo.faces.iter().filter(|f| f.loops.len() == 2).count();
    assert_eq!(annuli, 2, "top and bottom of a square tube are 2-loop annuli");
    assert_eq!(topo.faces.len(), 10);
}

#[test]
fn edges_are_found_from_either_end() {
    let sq = [[0.0, 0.0], [4.0, 0.0], [4.0, 4.0], [0.0, 4.0]];
    let topo = topology(&prism_points(&sq, 4.0), prism_tris(4));
    for (a, b) in [(0, 1), (0, 4), (5, 6)] {
        let there = topo.edge_between(a, b);
        assert!(there.is_some());
        assert_eq!(there, topo.edge_between(b, a));
    }
    // A diagonal of a face is no model edge.
    assert_eq!(topo.edge_between(0, 2), None);
}

// ---- solids ----

#[test]
fn thread_coil_is_manifold() {
    // A coil of 9 mm at a pitch of 0.8, 32 steps to the turn.
    let (pitch, length, spt) = (0.8, 9.0, 32.0);
    let n = ((length / pitch * spt) as f64).ceil() as usize;
    let coil = coil_tris(n);
    assert!(is_closed(&coil), "thread coil mesh is not 2-manifold");
    assert_eq!(edge_stats(&coil), (0, 0));
    // In a consistently-wound closed mesh every directed edge appears exactly once.
    assert!(is_watertight(&coil_tris(6)));
}

#[test]
fn bore_cylinder_is_manifold() {
    let cyl = prism_tris(48);
    assert!(is_closed(&cyl), "bore cylinder mesh is not 2-manifold");
    assert!(is_watertight(&cyl));
}

#[test]
fn revolve_mesh_is_a_valid_manifold() {
    assert!(is_closed(&prism_tris(48)), "extrude mesh isn't manifold");
    let torus = revolve_tris(64, &vec![32]);
    assert!(is_closed(&torus), "full-turn revolve mesh isn't manifold (booleans will tear)");
    // A profile with a hole turns into two shells.
    let two = revolve_tris(3, &vec![4, 3]);
    assert_eq!(two.len(), 2 * 3 * 4 + 2 * 3 * 3);
    assert!(is_watertight(&two));
}

/// Six times the volume inside the triangles is the sum of these determinants.
fn volume(points: &[V3], tris: &[Tri]) -> f64 {
    tris.iter().map(|t| dot(points[t.a], cross(points[t.b], points[t.c]))).sum::<f64>().abs() / 6.0
}

#[test]
fn revolve_rectangle_full_turn_is_a_washer() {
    // Rectangle u in 1..2, v in 0..4 revolved once about the v axis: inner radius 1, outer radius 2,
    // height 4. Volume = pi (2^2 - 1^2) 4 = 12 pi.
    let prof = [[1.0, 0.0], [2.0, 0.0], [2.0, 4.0], [1.0, 4.0]];
    let rings = 32;
    let mut points: Vec<V3> = Vec::new();
    for k in 0..rings {
        let a = std::f64::consts::TAU * k as f64 / rings as f64;
        points.extend(prof.iter().map(|p| [p[0] * a.cos(), p[1], -p[0] * a.sin()]));
    }
    let m = revolve_tris(rings, &vec![4]);
    assert!(is_closed(&m), "a full turn closes");
    let want = std::f64::consts::PI * 3.0 * 4.0;
    let got = volume(&points, &m);
    assert!((got - want).abs() < 1.0, "washer volume {got} (want {want})");
}

fn circle3(cz: f64, r: f64, n: usize) -> Vec<V3> {
    (0..n)
        .map(|k| {
            let a = std::f64::consts::TAU * k as f64 / n as f64;
            [r * a.cos(), r * a.sin(), cz]
        })
        .collect()
}

const LOFT_POINTS: usize = 96;

/// A loop sampled evenly along its length.
fn resample(l: &[V3]) -> Vec<V3> {
    let m = l.len();
    let away = |i: usize| (0..3).map(|k| (l[(i + 1) % m][k] - l[i][k]).powi(2)).sum::<f64>().sqrt();
    let step = (0..m).map(away).sum::<f64>() / LOFT_POINTS as f64;
    let (mut si, mut acc) = (0, 0.0);
    (0..LOFT_POINTS)
        .map(|k| {
            let target = k as f64 * step;
            while si < m && acc + away(si) < target {
                acc += away(si);
                si += 1;
            }
            let (a, b) = (l[si % m], l[(si + 1) % m]);
            let t = (target - acc) / away(si % m);
            [0, 1, 2].map(|c| a[c] + (b[c] - a[c]) * t)
        })
        .collect()
}

/// `next` turned to lie closest to `prev`.
fn align(prev: &[V3], next: Vec<V3>) -> Vec<V3> {
    let apart = |off: usize| -> f64 {
        (0..LOFT_POINTS)
            .map(|k| (0..3).map(|c| (next[(k + off) % LOFT_POINTS][c] - prev[k][c]).powi(2)).sum::<f64>().sqrt())
            .sum()
    };
    let off = (0..LOFT_POINTS).min_by(|&a, &b| apart(a).total_cmp(&apart(b))).unwrap();
    turn_ring(LOFT_POINTS, off).into_iter().map(|k| next[k]).collect()
}

/// Triangles with their points renamed.
fn renamed(tris: Vec<Tri>, name: impl Fn(usize) -> usize) -> Vec<Tri> {
    tris.into_iter().map(|t| Tri { a: name(t.a), b: name(t.b), c: name(t.c) }).collect()
}

#[test]
fn loft_two_circles_is_a_clean_frustum() {
    // Loft a circle of radius 5 at z=0 to one of radius 2 at z=10: a cone frustum. It must be
    // watertight and have the volume pi h (R^2 + R r + r^2) / 3.
    let (a, b) = (circle3(0.0, 5.0, 40), circle3(10.0, 2.0, 24));
    let plan = plan_loft(&vec![a.len(), b.len()], &vec![0, 0]).expect("loft builds");
    assert_eq!((plan.profiles.len(), plan.holes), (2, 0));
    let bottom = resample(&a);
    let top = align(&bottom, resample(&b));
    let points: Vec<V3> = bottom.into_iter().chain(top).collect();
    let n = LOFT_POINTS;
    let mut tris = wall_tris(1, n);
    let mut under = fan_tris(n);
    turn_all(&mut under);
    tris.extend(under);
    tris.extend(renamed(fan_tris(n), |k| n + k));
    assert!(is_closed(&tris), "loft result isn't watertight");
    assert!(is_watertight(&tris));
    let want = std::f64::consts::PI * 10.0 * (25.0 + 10.0 + 4.0) / 3.0;
    let got = volume(&points, &tris);
    assert!((got - want).abs() / want < 0.02, "frustum volume {got:.1} (want {want:.1})");
}

#[test]
fn loft_two_annuli_keeps_the_hole() {
    // Loft a ring (outer 5, hole 3) at z=0 to a ring (outer 8, hole 4) at z=10. The result must be a
    // hollow tapered tube: watertight, its volume the outer frustum less the inner one.
    let frustum = |big: f64, small: f64| std::f64::consts::PI * 10.0 * (big * big + big * small + small * small) / 3.0;
    let plan = plan_loft(&vec![48, 48], &vec![1, 1]).expect("annulus loft builds");
    assert_eq!((plan.profiles.len(), plan.holes), (2, 1));
    let n = LOFT_POINTS;
    let mut points: Vec<V3> = Vec::new();
    for (low, high, size, inwards) in [(5.0, 8.0, 48, false), (3.0, 4.0, 40, true)] {
        let (mut bottom, mut top) = (resample(&circle3(0.0, low, size)), resample(&circle3(10.0, high, size)));
        if inwards {
            bottom.reverse();
            top.reverse();
        }
        let top = align(&bottom, top);
        points.extend(bottom.into_iter().chain(top));
    }
    let mut tris = wall_tris(1, n);
    tris.extend(renamed(wall_tris(1, n), |k| 2 * n + k));
    // Each end is a strip between its outer ring and its inner one, which runs the other way.
    let end = |row: usize| renamed(wall_tris(1, n), |k| if k < n { row * n + k } else { (2 + row) * n + (2 * n - 1 - k) });
    let mut under = end(0);
    turn_all(&mut under);
    tris.extend(under);
    tris.extend(end(1));
    assert!(is_closed(&tris), "annular loft isn't watertight (hole not skinned/capped)");
    assert!(is_watertight(&tris));
    let want = frustum(5.0, 8.0) - frustum(3.0, 4.0);
    let got = volume(&points, &tris);
    assert!((got - want).abs() / want < 0.03, "hollow loft volume {got:.1} (want {want:.1})");
}

#[test]
fn winding_spreads_over_surfaces_that_have_no_sides() {
    let tri = |a: usize, b: usize, c: usize| Tri { a, b, c };
    // Three triangles at one edge: the first stays, and both others walk the edge against it.
    let mut fin = vec![tri(0, 1, 2), tri(0, 1, 3), tri(0, 1, 4)];
    orient_consistently(&mut fin);
    assert_eq!(fin, vec![tri(0, 1, 2), tri(0, 3, 1), tri(0, 4, 1)]);
    // A strip that closes with a twist.
    let mut band: Vec<Tri> = (0..5).map(|i| tri(i, (i + 1) % 5, (i + 2) % 5)).collect();
    orient_consistently(&mut band);
    assert_eq!(band, vec![tri(0, 1, 2), tri(1, 3, 2), tri(2, 3, 4), tri(3, 0, 4), tri(4, 1, 0)]);
}

#[test]
fn solids_are_watertight() {
    assert!(is_watertight(&box_tris()));
    assert!(is_watertight(&tube_tris(3, 3)));
    assert!(is_watertight(&tube_tris(5, 4)));
    assert!(!is_watertight(&strip_tris(4)));
}

#[test]
fn patches_have_their_exact_triangles() {
    assert_eq!(fan_tris(4), vec![Tri { a: 0, b: 1, c: 2 }, Tri { a: 0, b: 2, c: 3 }]);
    assert!(fan_tris(2).is_empty());
    assert_eq!(fan_around_tris(1, 4).len(), 2);
    assert_eq!(cone_tris(0, 3, 9), vec![Tri { a: 0, b: 1, c: 9 }, Tri { a: 1, b: 2, c: 9 }, Tri { a: 2, b: 0, c: 9 }]);
    assert_eq!(wedge_tris(), vec![Tri { a: 0, b: 2, c: 3 }, Tri { a: 0, b: 3, c: 1 }]);
    assert_eq!(dome_tris(4, 2).len(), 2 * 4 + 4);
    let mut out: Vec<u32> = vec![7];
    append_indices(&wedge_tris(), 10, &mut out);
    assert_eq!(out, vec![7, 10, 12, 13, 10, 13, 11]);
}

#[test]
fn a_slab_over_an_open_patch_is_watertight() {
    let patch = fan_tris(5);
    let et = edge_table(&patch);
    let open = open_sides(&patch, &et);
    assert_eq!(open.len(), 5);
    assert!(is_watertight(&slab_tris(&patch, &open, 5)));
}

#[test]
fn lofts_need_two_profiles() {
    assert!(plan_loft(&vec![4, 2], &vec![0, 0]).is_none());
    let plan = plan_loft(&vec![4, 2, 9], &vec![1, 5, 1]).expect("two usable profiles");
    assert_eq!(plan.profiles, vec![0, 2]);
    assert_eq!(plan.holes, 1);
    // Holes that do not match are left out.
    assert_eq!(plan_loft(&vec![4, 9], &vec![1, 2]).unwrap().holes, 0);
    assert_eq!(turn_ring(4, 3), vec![3, 0, 1, 2]);
}

// ---- rings ----

/// Which points of a ring coincide.
fn ring_close(pts: &[[f64; 2]]) -> impl Fn(usize, usize) -> bool + '_ {
    move |i: usize, j: usize| (pts[i][0] - pts[j][0]).hypot(pts[i][1] - pts[j][1]) < 1e-4
}

#[test]
fn clean_loop_removes_spikes_and_duplicates() {
    let pts = [[0.0, 0.0], [2.0, 0.0], [2.0, 0.0], [2.0, 2.0], [1.0, 3.0], [2.0, 2.0], [0.0, 2.0]];
    assert_eq!(clean_loop(pts.len(), &ring_close(&pts)).len(), 4, "should reduce to a clean quad");
}

#[test]
fn degenerate_contour_is_cleaned_not_crashed() {
    // A loop with a duplicate vertex and an antenna spike.
    let pts = [
        [0.0, 0.0],
        [2.0, 0.0],
        [2.0, 0.0], // duplicate
        [2.0, 2.0],
        [1.0, 3.0], // spike tip
        [2.0, 2.0], // back — spike
        [0.0, 2.0],
    ];
    let kept = clean_loop(pts.len(), &ring_close(&pts));
    let ring: Vec<[f64; 2]> = kept.iter().map(|&k| pts[k]).collect();
    // Cleaned to a 4-edge square prism: 12 feature edges.
    let points = prism_points(&ring, 1.0);
    assert_eq!(topology(&points, prism_tris(ring.len())).edges.len(), 12);
}

#[test]
fn duplicates_are_thinned_and_rings_collapsed() {
    let pts = [[0.0, 0.0], [0.0, 0.0], [1.0, 0.0], [1.0, 1.0], [0.0, 0.0]];
    assert_eq!(thin(pts.len(), &ring_close(&pts)), vec![0, 2, 3, 4]);
    assert_eq!(collapse_ring(pts.len(), &ring_close(&pts)), vec![0, 2, 3]);
    assert!(clean_loop(0, &|_: usize, _: usize| true).is_empty());
}

/// What a ring does at each of its points, in billionths of a radian.
fn turns(chain: &[V3]) -> Vec<Turn> {
    let n = chain.len();
    let mut nrm = [0.0; 3];
    for i in 0..n {
        let (p, q) = (chain[i], chain[(i + 1) % n]);
        nrm[0] += (p[1] - q[1]) * (p[2] + q[2]);
        nrm[1] += (p[2] - q[2]) * (p[0] + q[0]);
        nrm[2] += (p[0] - q[0]) * (p[1] + q[1]);
    }
    let axis = if len(nrm) > 1e-9 { norm(nrm) } else { [0.0, 0.0, 1.0] };
    (0..n)
        .map(|i| {
            let (a, b, c) = (chain[(i + n - 1) % n], chain[i], chain[(i + 1) % n]);
            if len(sub(b, a)) < 1e-9 || len(sub(c, b)) < 1e-9 {
                return Turn::Straight;
            }
            let (t_in, t_out) = (norm(sub(b, a)), norm(sub(c, b)));
            let d = dot(t_in, t_out);
            if d < 0.7 {
                return Turn::Corner;
            }
            let ang = d.clamp(-1.0, 1.0).acos();
            if ang < 1e-5 {
                return Turn::Straight;
            }
            Turn::Bend { left: dot(cross(t_in, t_out), axis) >= 0.0, angle: (ang * 1e9).round() as u64 }
        })
        .collect()
}

#[test]
fn a_finely_tessellated_arc_is_not_mistaken_for_a_straight_run() {
    let arc = |r: f64, n: usize, sweep: f64| -> Vec<V3> {
        (0..n)
            .map(|k| {
                let t = sweep * k as f64 / (n - 1) as f64;
                [r * t.cos(), r * t.sin(), 0.0]
            })
            .collect()
    };
    // A full circle, at tessellations from coarse to very fine. Every one is a curve.
    for n in [12usize, 24, 48, 96, 192] {
        let ring: Vec<V3> = arc(10.0, n + 1, std::f64::consts::TAU)[..n].to_vec();
        assert!(!is_piecewise_straight(&turns(&ring)), "a {n}-facet circle read as piecewise straight");
    }
    // A genuine polygon still does — that is what the classification is FOR.
    for sides in [3usize, 4, 6] {
        let poly: Vec<V3> = (0..sides)
            .map(|k| {
                let t = std::f64::consts::TAU * k as f64 / sides as f64;
                [10.0 * t.cos(), 10.0 * t.sin(), 0.0]
            })
            .collect();
        assert!(is_piecewise_straight(&turns(&poly)), "a {sides}-gon was not seen as piecewise straight");
    }
    // A closed rim of two arcs joined by two straight radial ends — an annular sector. It contains
    // curves, so it is not piecewise straight.
    let mut rim: Vec<V3> = Vec::new();
    let sweep = 2.0;
    for p in arc(12.5, 60, sweep) {
        rim.push(p);
    }
    for p in arc(9.5, 60, sweep).into_iter().rev() {
        rim.push(p);
    }
    assert!(!is_piecewise_straight(&turns(&rim)), "an annular-sector rim read as piecewise straight");
    // ...and a rectangle of the same point count still does, however finely its SIDES are
    // subdivided — subdivision alone must not change the answer either way.
    let mut rect: Vec<V3> = Vec::new();
    for (a, b) in [([0.0, 0.0], [20.0, 0.0]), ([20.0, 0.0], [20.0, 8.0]), ([20.0, 8.0], [0.0, 8.0]), ([0.0, 8.0], [0.0, 0.0])] {
        for k in 0..30 {
            let t = k as f64 / 30.0;
            rect.push([a[0] + (b[0] - a[0]) * t, a[1] + (b[1] - a[1]) * t, 0.0]);
        }
    }
    assert!(is_piecewise_straight(&turns(&rect)), "a finely subdivided rectangle stopped reading as straight");
    assert!(!is_piecewise_straight(&vec![Turn::Straight, Turn::Straight]), "two points make no ring");
}

// ---- edges ----

/// Tidy edges between points, with lengths in millionths.
fn clean(ids: &Vec<(usize, usize)>, pos: &[[f32; 3]], diag: f32) -> Vec<(usize, usize)> {
    let length = |a: usize, b: usize| -> u64 {
        let d: f64 = (0..3).map(|k| ((pos[a][k] - pos[b][k]) as f64).powi(2)).sum();
        (d.sqrt() * 1e6).round() as u64
    };
    let share = |f: f32| (diag as f64 * f as f64 * 1e6).round() as u64;
    clean_feature_edges(ids, pos.len(), &length, share(0.08) as u128, share(0.05) as u128, share(0.2))
}

#[test]
fn cleanup_prunes_a_short_spur() {
    // A closed 10×10 square plus a tiny spur off a corner (a boolean-seam sliver). The short spur
    // is pruned; the four loop edges stay.
    let pos = vec![[0.0, 0.0, 0.0], [10.0, 0.0, 0.0], [10.0, 10.0, 0.0], [0.0, 10.0, 0.0], [10.4, 10.4, 0.0]];
    let ids = vec![(0, 1), (1, 2), (2, 3), (3, 0), (2, 4)]; // (2,4) is a ~0.57mm spur
    let out = clean(&ids, &pos, 14.14);
    assert_eq!(out.len(), 4, "the short spur should be pruned, the square loop kept");
}

#[test]
fn cleanup_keeps_a_long_dangling_chain() {
    // A long dead-end is a real edge that lost a neighbour at a non-manifold seam (not a stray), so
    // it must be KEPT — deleting it is what erased real cut edges.
    let pos = vec![
        [0.0, 0.0, 0.0], [10.0, 0.0, 0.0], [10.0, 10.0, 0.0], [0.0, 10.0, 0.0],
        [25.0, 25.0, 0.0], [40.0, 40.0, 0.0], // a long 2-segment chain off corner 2
    ];
    let ids = vec![(0, 1), (1, 2), (2, 3), (3, 0), (2, 4), (4, 5)];
    let out = clean(&ids, &pos, 56.6);
    assert_eq!(out.len(), 6, "a long dangling chain is a real edge and must be kept");
}

#[test]
fn cleanup_closes_a_gapped_loop() {
    // A finely-faceted circle (a real curved rim) that lost ONE segment at a seam: an isolated
    // open path whose two ends are one facet apart. It must be closed back into a full loop.
    let n = 48usize;
    let r = 10.0f32;
    let pos: Vec<[f32; 3]> = (0..n)
        .map(|k| {
            let a = std::f32::consts::TAU * k as f32 / n as f32;
            [r * a.cos(), r * a.sin(), 0.0]
        })
        .collect();
    let ids: Vec<(usize, usize)> = (0..n - 1).map(|k| (k, k + 1)).collect(); // missing (n-1, 0)
    let out = clean(&ids, &pos, 2.0 * r);
    assert_eq!(out.len(), n, "the one-facet gap should be closed back into the full loop");
    assert!(out.contains(&(0, n - 1)) || out.contains(&(n - 1, 0)));
}

#[test]
fn cleanup_drops_a_long_floating_stray() {
    // An isolated open path whose ends are far apart isn't a loop — it's a stray streak. Drop it.
    let pos = vec![[0.0, 0.0, 0.0], [10.0, 0.0, 0.0], [20.0, 0.0, 0.0], [30.0, 0.0, 0.0]];
    let ids = vec![(0, 1), (1, 2), (2, 3)];
    let out = clean(&ids, &pos, 30.0);
    assert!(out.is_empty(), "a long straight floating path is a stray, not a loop");
}

#[test]
fn scraps_and_short_stubs_are_pruned() {
    // A big loop of four edges, a short open scrap apart from it, and a short stub on the loop.
    let at = [0, 100, 200, 300, 1000, 1001, 303];
    let ids = vec![(0, 1), (1, 2), (2, 3), (3, 0), (4, 5), (3, 6)];
    let length = |a: usize, b: usize| (at[a] as i64 - at[b] as i64).unsigned_abs();
    assert_eq!(prune_tiny_open_fragments(&ids, 7, &length, 10), vec![true, true, true, true, false, false]);
    // A long stub stays.
    assert_eq!(prune_tiny_open_fragments(&ids, 7, &length, 2), vec![true, true, true, true, false, true]);
    // A single edge is left alone.
    assert_eq!(prune_tiny_open_fragments(&vec![(4, 5)], 7, &length, 10), vec![true]);
}

#[test]
fn small_closed_loops_are_kept() {
    // A square of side 100, and a tiny triangle that closes on itself.
    let pos: Vec<[f64; 3]> = vec![
        [0.0, 0.0, 0.0], [100.0, 0.0, 0.0], [100.0, 100.0, 0.0], [0.0, 100.0, 0.0],
        [50.0, 50.0, 0.0], [50.1, 50.0, 0.0], [50.0, 50.1, 0.0],
    ];
    let ids = vec![(0, 1), (1, 2), (2, 3), (3, 0), (4, 5), (5, 6), (6, 4)];
    let length = |a: usize, b: usize| -> u64 {
        let d: f64 = (0..3).map(|k| (pos[a][k] - pos[b][k]).powi(2)).sum();
        (d.sqrt() * 1e6).round() as u64
    };
    let min = (100.0 * 2.0f64.sqrt() * 0.015 * 1e6).round() as u128;
    assert_eq!(prune_tiny_open_fragments(&ids, 7, &length, min), vec![true; 7]);
    // With one side gone the triangle is an open scrap.
    let open: Vec<(usize, usize)> = ids[..6].to_vec();
    assert_eq!(prune_tiny_open_fragments(&open, 7, &length, min), vec![true, true, true, true, false, false]);
}

#[test]
fn edges_are_classified_by_their_faces() {
    assert_eq!(classify_edge(2, true, true, true), EdgeClass::Sharp);
    assert_eq!(classify_edge(2, false, true, true), EdgeClass::Tangent);
    assert_eq!(classify_edge(2, false, false, true), EdgeClass::Hidden);
    // Open edges and edges with three faces are left out where only manifold ones are wanted.
    assert_eq!(classify_edge(1, false, false, true), EdgeClass::Hidden);
    assert_eq!(classify_edge(1, false, false, false), EdgeClass::Sharp);
    assert_eq!(classify_edge(3, true, true, true), EdgeClass::Hidden);
    assert_eq!(classify_edge(3, true, true, false), EdgeClass::Sharp);
    assert_eq!(classify_edge(3, false, true, false), EdgeClass::Tangent);
    assert_eq!(classify_edge(3, false, false, false), EdgeClass::Hidden);
}

#[test]
fn cylinder_rims_are_clean_closed_loops() {
    // A plain cylinder's top + bottom rims must each be a clean closed loop: the walls are smooth
    // across their facets, so only the two rims are left.
    let circle: Vec<[f64; 2]> = (0..48)
        .map(|k| {
            let a = std::f64::consts::TAU * k as f64 / 48.0;
            [20.0 * a.cos(), 20.0 * a.sin()]
        })
        .collect();
    let points = prism_points(&circle, 50.0);
    let tris = prism_tris(48);
    let et = edge_table(&tris);
    // Every facet of the wall is a face of its own, and so is each cap.
    let ids: Vec<u32> = tris.iter().map(|t| {
        let n = normal(&points, *t);
        if n[2] > 0.5 { 1000 } else if n[2] < -0.5 { 1001 } else { ((n[1].atan2(n[0]) + 4.0) * 1e4) as u32 }
    }).collect();
    let (face, faces) = number_faces(&ids);
    assert_eq!(faces, 50);
    let cos = |e: usize| dot(normal(&points, tris[et.uses[e][0]]), normal(&points, tris[et.uses[e][1]]));
    let smooth: Vec<bool> = (0..et.uses.len()).map(|e| cos(e) > 0.9).collect();
    let sharp: Vec<bool> = (0..et.uses.len()).map(|e| cos(e) < 0.8).collect();
    let (hard, gentle) = feature_edges_by_face(&et.uses, &face, faces, &smooth, &sharp);
    assert_eq!(hard.len(), 96, "two 48-segment rims");
    assert!(gentle.is_empty());
    let mut deg = vec![0; points.len()];
    for e in hard {
        deg[et.ends[e].0] += 1;
        deg[et.ends[e].1] += 1;
    }
    assert!(deg.iter().all(|&d| d == 2), "every rim vertex should have degree 2 (closed loops)");
}

#[test]
fn gentle_edges_are_listed_apart_from_hard_ones() {
    // A strip of five faces: the first two meet within the tangent angle, the next two between the
    // tangent and the crease angle, the next two in a corner, and the last is cut in two triangles.
    let uses = vec![vec![0], vec![0, 1], vec![1, 2], vec![2, 3], vec![3, 4], vec![4]];
    let face = vec![0, 1, 2, 3, 3];
    let smooth = vec![false, true, true, false, true, false];
    let sharp = vec![false, false, true, true, false, false];
    let (hard, gentle) = feature_edges_by_face(&uses, &face, 4, &smooth, &sharp);
    assert_eq!(hard, vec![0, 3, 5]);
    assert_eq!(gentle, vec![2]);
    // With a tangent angle beyond the crease angle a boundary can bend less than it, and is gentle.
    let (hard, gentle) = feature_edges_by_face(&vec![vec![0, 1]], &vec![0, 1], 2, &vec![false], &vec![false]);
    assert!(hard.is_empty());
    assert_eq!(gentle, vec![0]);
}

// ---- tables ----

#[test]
fn indices_become_triangles_and_collapse_when_welded() {
    let tris = triangles(&vec![0, 1, 2, 2, 1, 3, 9]);
    assert_eq!(tris, vec![Tri { a: 0, b: 1, c: 2 }, Tri { a: 2, b: 1, c: 3 }]);
    assert_eq!(weld_triangles(&tris, &vec![0, 1, 1, 2]), Vec::<Tri>::new());
    assert_eq!(weld_triangles(&tris, &vec![0, 1, 2, 0]).len(), 2);
    assert_eq!(edge_stats(&tris), (4, 0));
    assert!(!is_closed(&tris));
    assert!(walks(tris[0], 1, 2) && !walks(tris[0], 2, 1));
}

#[test]
fn neighbours_are_turned_to_agree() {
    let mut tris = vec![Tri { a: 0, b: 1, c: 2 }, Tri { a: 1, b: 2, c: 3 }];
    orient_consistently(&mut tris);
    assert_eq!(tris[0], Tri { a: 0, b: 1, c: 2 });
    assert!(walks(tris[1], 2, 1), "the shared edge is walked the same way twice");
    turn_all(&mut tris);
    assert!(walks(tris[0], 1, 0));
}

#[test]
fn classes_merge_and_keep_a_root() {
    let mut uf = Uf::new(5);
    uf.union(0, 1);
    uf.union(3, 1);
    assert_eq!(uf.find(0), 1);
    assert_eq!(uf.find(3), 1);
    assert_eq!(uf.find(2), 2);
    assert_eq!(uf.len(), 5);
    assert_eq!(uf.number_classes(&vec![2, 0, 3, 4]), (vec![0, 1, 1, 2], 3));
}

#[test]
fn keys_are_numbered_as_they_turn_up() {
    let k = |x: i128| Key { x, y: -x, z: 0 };
    let (mut table, ids) = number_keys(&vec![k(5), k(2), k(5), k(9)]);
    assert_eq!(ids, vec![0, 1, 0, 2]);
    assert_eq!(table.len(), 3);
    assert_eq!(table.find(k(9)), Some(2));
    assert_eq!(table.find(k(1)), None);
    assert_eq!(table.id_of(k(1)), 3);
    assert_eq!(table.key(1), k(2));
    assert_eq!(KeyTable::new(4).len(), 0);
}

#[test]
fn a_tour_walks_every_side_once() {
    // Two triangles that share a point.
    let src = vec![0, 1, 2, 2, 3, 4];
    let dst = vec![1, 2, 0, 3, 4, 2];
    let mut stacks = empty_stacks(5);
    let trails = tour(&src, &dst, &mut stacks);
    let mut walked: Vec<usize> = trails.iter().flatten().copied().collect();
    walked.sort();
    assert_eq!(walked, vec![0, 1, 2, 3, 4, 5]);
    assert!(trails.iter().all(|t| dst[t[t.len() - 1]] == src[t[0]]));
    assert!(stacks.iter().all(|s| s.is_empty()));
}

#[test]
fn polygons_are_cut_into_ears() {
    // An L, counter-clockwise.
    let p = [[0.0, 0.0], [4.0, 0.0], [4.0, 1.0], [1.0, 1.0], [1.0, 4.0], [0.0, 4.0]];
    let area = |a: usize, b: usize, c: usize| -> f64 {
        (p[b][0] - p[a][0]) * (p[c][1] - p[a][1]) - (p[b][1] - p[a][1]) * (p[c][0] - p[a][0])
    };
    let convex = |a: usize, b: usize, c: usize| area(a, b, c) > 1e-12;
    let covers = |a: usize, b: usize, c: usize, q: usize| area(a, b, q) > -1e-12 && area(b, c, q) > -1e-12 && area(c, a, q) > -1e-12;
    let tris = ear_clip(6, false, &convex, &covers);
    assert_eq!(tris.len(), 4);
    let total: f64 = tris.iter().map(|t| area(t.a, t.b, t.c) / 2.0).sum();
    assert!((total - 7.0).abs() < 1e-9, "area {total}");
}

// ---- booleans ----

#[test]
fn declined_booleans_are_counted() {
    let mut c = Counters::new();
    assert_eq!(c.declined(300, 300), Fallback::Clip);
    assert_eq!(c.declined(60_000, 300), Fallback::KeepBase);
    assert_eq!(c.declined(3, 3), Fallback::Clip);
    assert_eq!(c.take_fallback_count(), 2);
    assert_eq!(c.take_fallback_count(), 0);
    assert_eq!(c.take_dense_skip_count(), 1);
    assert_eq!(c.take_dense_skip_count(), 0);
    assert!(!too_dense_for_bsp(30_000, 30_000));
    assert!(too_dense_for_bsp(30_003, 30_000));
}

#[test]
fn a_boolean_is_nudged_four_times() {
    assert_eq!(nudge(0), Some([0, 0, 0]));
    assert!(nudge(3).is_some());
    assert_eq!(nudge(4), None);
}

#[test]
fn points_weld_across_cells() {
    let x = [0.0, 0.9, 1.1, 5.0, 0.05];
    let cells: Vec<(i64, i64, i64)> = x.iter().map(|v| (*v as i64, 0, 0)).collect();
    let (kept, remap) = weld(&cells, &|i: usize, j: usize| (x[i] as f64 - x[j]).abs() < 0.5);
    assert_eq!(kept, vec![0, 1, 3]);
    assert_eq!(remap, vec![0, 1, 1, 2, 0]);
}

// ---- exchange ----

#[test]
fn step_and_stl_export_are_well_formed() {
    let circle: Vec<[f64; 2]> = (0..32)
        .map(|k| {
            let a = std::f64::consts::TAU * k as f64 / 32.0;
            [5.0 * a.cos(), 5.0 * a.sin()]
        })
        .collect();
    let points = prism_points(&circle, 10.0);
    let tris = prism_tris(32);
    let records: Vec<[u32; 12]> = tris
        .iter()
        .map(|t| {
            let mut r = [0u32; 12];
            for (k, v) in [normal(&points, *t), points[t.a], points[t.b], points[t.c]].iter().enumerate() {
                for c in 0..3 {
                    r[3 * k + c] = (v[c] as f32).to_bits();
                }
            }
            r
        })
        .collect();
    let stl = export_stl(&records);
    assert_eq!(stl.len(), 84 + tris.len() * 50, "binary STL size wrong");
    assert_eq!(u32::from_le_bytes([stl[80], stl[81], stl[82], stl[83]]) as usize, tris.len());
    // The first corner of the second triangle reads back.
    let at = 84 + 50 + 12;
    let x = f32::from_bits(u32::from_le_bytes([stl[at], stl[at + 1], stl[at + 2], stl[at + 3]]));
    assert_eq!(x, points[tris[1].a][0] as f32);
}

#[test]
fn a_faceted_solid_shares_its_edges() {
    let solid = mesh_to_solid(&box_tris()).expect("a box");
    assert_eq!(solid.edges.len(), 18);
    assert_eq!(solid.faces.len(), 12);
    let mut uses = vec![(0, 0); solid.edges.len()];
    for f in &solid.faces {
        for s in f {
            if s.forward {
                uses[s.edge].0 += 1;
            } else {
                uses[s.edge].1 += 1;
            }
        }
    }
    assert!(uses.iter().all(|u| *u == (1, 1)), "a shared edge is used once each way");
    assert!(mesh_to_solid(&fan_tris(5)).is_none(), "three faces make no solid");
}

// ---- profiles ----

fn marks(n: usize, spans: usize) -> RingMarks {
    RingMarks { apart: vec![true; n], open: vec![true; spans], projectable: vec![true; spans], bowed: vec![true; spans] }
}

#[test]
fn a_ring_turns_back_into_lines_and_arcs() {
    // A ring of six whose edges 2, 3 and 4 were cut from one circle.
    let segs = ring_to_segs(6, &vec![ArcSpan { first_edge: 2, count: 3 }], &marks(6, 1)).expect("a profile");
    assert_eq!(segs.len(), 4);
    assert!(segs.iter().any(|s| matches!(s, PathSeg::Arc { a: 2, b: 5, .. })));
    let back = reverse_segs(&segs);
    assert_eq!(seg_starts(&back).len(), 4);
    assert_eq!(reverse_segs(&back), segs);
    // A whole circle comes back as two halves.
    let whole = ring_to_segs(8, &vec![ArcSpan { first_edge: 0, count: 8 }], &marks(8, 1)).expect("a circle");
    assert_eq!(whole.len(), 2);
    assert!(whole.iter().all(|s| matches!(s, PathSeg::Arc { transit: Transit::Vertex(_), .. })));
    // Spans that overlap cannot be laid out, and two points make no ring.
    assert!(ring_to_segs(6, &vec![ArcSpan { first_edge: 0, count: 3 }, ArcSpan { first_edge: 2, count: 2 }], &marks(6, 2)).is_none());
    assert!(ring_to_segs(2, &Vec::new(), &marks(2, 0)).is_none());
}

#[test]
fn a_dome_is_open_along_its_ring_only() {
    let tris = dome_tris(5, 3);
    let runs = |p: usize, q: usize| tris.iter().filter(|t| walks(**t, p, q)).count();
    for p in 0..16 {
        for q in 0..16 {
            let open = runs(p, q) == 1 && runs(q, p) == 0;
            assert_eq!(open, p < 5 && q == (p + 1) % 5, "{p} to {q}");
        }
    }
}
