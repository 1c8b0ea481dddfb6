//! Bevelling whole bodies: every point is placed here, and the library decides all the rest.

use std::collections::HashMap;

use hcad::ears::ear_clip;
use hcad::feature_edges::{classify_edge, EdgeClass};
use hcad::first_seen::{number_keys, Key};
use hcad::mesh::{edge_table, is_closed, orient_consistently, turn_all, weld_triangles, Tri};
use hcad::patches::{apex_face, arcs_at, feature_sides, is_domed, loop_dir, patch_rim, plan_surgery, Piece, RimSpot};
use hcad::patterns::{cone_tris, fan_around_tris};
use hcad::rings::collapse_ring;
use hcad::solids::{dome_tris, strip_tris, wedge_tris};
use hcad::surgery::{any_selected, count_selected, hands_over, spliced_loop, terminal_splice, wedge_faces, weld_pair, Spot};
use hcad::topo::Topo;

type V3 = [f64; 3];

fn add(a: V3, b: V3) -> V3 {
    [a[0] + b[0], a[1] + b[1], a[2] + b[2]]
}

fn sub(a: V3, b: V3) -> V3 {
    [a[0] - b[0], a[1] - b[1], a[2] - b[2]]
}

fn scale(a: V3, s: f64) -> V3 {
    [a[0] * s, a[1] * s, a[2] * s]
}

fn dot(a: V3, b: V3) -> f64 {
    a[0] * b[0] + a[1] * b[1] + a[2] * b[2]
}

fn cross(a: V3, b: V3) -> V3 {
    [a[1] * b[2] - a[2] * b[1], a[2] * b[0] - a[0] * b[2], a[0] * b[1] - a[1] * b[0]]
}

fn len(a: V3) -> f64 {
    dot(a, a).sqrt()
}

fn norm(a: V3) -> V3 {
    let l = len(a);
    if l > 1e-12 {
        scale(a, 1.0 / l)
    } else {
        [0.0; 3]
    }
}

fn lerp(a: V3, b: V3, t: f64) -> V3 {
    add(a, scale(sub(b, a), t))
}

fn point_seg_dist2(p: V3, a: V3, b: V3) -> f64 {
    let ab = sub(b, a);
    let l2 = dot(ab, ab);
    let t = if l2 > 1e-12 { (dot(sub(p, a), ab) / l2).clamp(0.0, 1.0) } else { 0.0 };
    apart2(p, add(a, scale(ab, t)))
}

fn signed_volume6(pos: &[V3], tris: &[Tri]) -> f64 {
    tris.iter().map(|t| dot(pos[t.a], cross(pos[t.b], pos[t.c]))).sum()
}

fn weld_points(points: &[V3], scale: f64) -> (Vec<V3>, Vec<usize>) {
    let cell = |c: f64| (c * scale).round() as i64 as i128;
    let keys: Vec<Key> = points.iter().map(|p| Key { x: cell(p[0]), y: cell(p[1]), z: cell(p[2]) }).collect();
    let (table, ids) = number_keys(&keys);
    let mut kept: Vec<Option<V3>> = vec![None; table.len()];
    for (p, &i) in points.iter().zip(&ids) {
        kept[i].get_or_insert(*p);
    }
    (kept.into_iter().flatten().collect(), ids)
}

/// A body by its points and triangles.
#[derive(Clone, Default)]
struct Mesh {
    points: Vec<V3>,
    tris: Vec<Tri>,
}

impl Mesh {
    fn quad(&mut self, p: [V3; 4]) {
        let base = self.points.len();
        self.points.extend(p);
        self.tris.extend([Tri { a: base, b: base + 1, c: base + 2 }, Tri { a: base, b: base + 2, c: base + 3 }]);
    }

    fn tri(&mut self, p: [V3; 3]) {
        let base = self.points.len();
        self.points.extend(p);
        self.tris.push(Tri { a: base, b: base + 1, c: base + 2 });
    }

    fn volume(&self) -> f64 {
        (signed_volume6(&self.points, &self.tris) / 6.0).abs()
    }

    fn is_watertight(&self) -> bool {
        let (_, remap) = weld_points(&self.points, 1e4);
        is_closed(&weld_triangles(&self.tris, &remap))
    }
}

/// Points on one grid of this many cells a unit are one.
const GRID: f64 = 1.0e5;

/// A body by its flat faces.
struct Body {
    verts: Vec<V3>,
    topo: Topo,
    /// The outward normal of each face.
    normals: Vec<V3>,
}

/// A body prepared for a bevel.
struct Prepared {
    body: Body,
    selected: Vec<bool>,
    /// Where each face's corner at a vertex moves to.
    corners: HashMap<(usize, usize), V3>,
}

impl Prepared {
    fn corner(&self, v: usize, f: usize) -> V3 {
        self.corners.get(&(v, f)).copied().unwrap_or(self.body.verts[v])
    }
}

fn apart2(p: V3, q: V3) -> f64 {
    let d = sub(p, q);
    dot(d, d)
}

fn centroid(points: &[V3]) -> V3 {
    scale(points.iter().fold([0.0; 3], |s, p| add(s, *p)), 1.0 / points.len() as f64)
}

/// Wind triangles one way, and outwards.
fn face_outwards(points: &[V3], tris: &mut Vec<Tri>) {
    orient_consistently(tris);
    if signed_volume6(points, tris) < 0.0 {
        turn_all(tris);
    }
}

/// Rebuild the flat faces of a mesh. normals decide which triangles lie flat.
fn build_topo(mesh: &Mesh) -> Body {
    let (verts, remap) = weld_points(&mesh.points, GRID);
    let mut tris = weld_triangles(&mesh.tris, &remap);
    face_outwards(&verts, &mut tris);
    let tnorm: Vec<V3> = tris.iter().map(|t| norm(cross(sub(verts[t.b], verts[t.a]), sub(verts[t.c], verts[t.a])))).collect();
    let et = edge_table(&tris);
    let smooth: Vec<bool> = et.uses.iter().map(|u| u.len() == 2 && dot(tnorm[u[0]], tnorm[u[1]]) > 0.9995).collect();
    let topo = hcad::topo::build_topo(verts.len(), tris, &et, &smooth);
    let normals = topo.faces.iter().map(|f| norm(f.tris.iter().fold([0.0; 3], |s, &t| add(s, tnorm[t])))).collect();
    Body { verts, topo, normals }
}

/// how far the contact line of a ball of radius `r` lies from an edge.
fn edge_setback(na: V3, nb: V3, r: f64) -> Option<f64> {
    let beta = dot(na, nb).clamp(-1.0, 1.0).acos();
    if beta <= 1e-4 || beta >= std::f64::consts::PI - 1e-4 {
        return None;
    }
    Some(r * (beta * 0.5).tan())
}

/// the loops of a face, moved in along the selected edges.
fn inset_loops(body: &Body, fi: usize, r: f64, selected: &[bool]) -> Vec<Vec<V3>> {
    let n = body.normals[fi];
    let setback = |a: usize, b: usize| {
        let e = body.topo.edge_between(a, b)?;
        if !selected[e] {
            return None;
        }
        let other = body.topo.edges[e].faces.iter().copied().find(|&g| g != fi)?;
        edge_setback(n, body.normals[other], r)
    };
    let inset = |lp: &Vec<usize>| {
        let m = lp.len();
        let dirs: Vec<V3> = (0..m).map(|i| norm(sub(body.verts[lp[(i + 1) % m]], body.verts[lp[i]]))).collect();
        let backs: Vec<f64> = (0..m).map(|i| setback(lp[i], lp[(i + 1) % m]).unwrap_or(0.0)).collect();
        (0..m)
            .map(|i| {
                let (v, prev) = (body.verts[lp[i]], (i + m - 1) % m);
                let p_in = add(v, scale(norm(cross(n, dirs[prev])), backs[prev]));
                let p_out = add(v, scale(norm(cross(n, dirs[i])), backs[i]));
                // Between collinear sides the lines meet far away: step straight in there.
                let reach = 2.5 * backs[prev].max(backs[i]) + 1e-9;
                line_intersect(p_in, dirs[prev], p_out, dirs[i], n).filter(|p| len(sub(*p, v)) <= reach).unwrap_or(p_out)
            })
            .collect()
    };
    body.topo.faces[fi].loops.iter().map(inset).collect()
}

/// where two lines in the plane with normal `n` meet.
fn line_intersect(p: V3, d: V3, q: V3, e: V3, n: V3) -> Option<V3> {
    let denom = dot(cross(d, e), n);
    if denom.abs() < 1e-9 {
        return None;
    }
    Some(add(p, scale(d, dot(cross(sub(q, p), e), n) / denom)))
}

/// the direction a part `t` of the way from `a` to `b`.
fn slerp(a: V3, b: V3, t: f64) -> V3 {
    let om = dot(a, b).clamp(-1.0, 1.0).acos();
    if om < 1e-6 {
        return norm(lerp(a, b, t));
    }
    norm(add(scale(a, ((1.0 - t) * om).sin()), scale(b, (t * om).sin())))
}

/// the point whose products with three rows are `rhs`.
fn solve3(m0: V3, m1: V3, m2: V3, rhs: V3) -> Option<V3> {
    let det = dot(m0, cross(m1, m2));
    if det.abs() < 1e-9 {
        return None;
    }
    let x = add(add(scale(cross(m1, m2), rhs[0]), scale(cross(m2, m0), rhs[1])), scale(cross(m0, m1), rhs[2]));
    Some(scale(x, 1.0 / det))
}

/// `-1` where an edge stands out, `1` where it runs in a notch, `0` where it is flat.
fn edge_sign(body: &Body, edge: usize) -> i32 {
    let e = &body.topo.edges[edge];
    let Some((x, y)) = loop_dir(&body.topo.faces[e.faces[0]].loops, e.a, e.b) else { return 0 };
    let t = norm(sub(body.verts[y], body.verts[x]));
    let d = dot(cross(body.normals[e.faces[0]], t), body.normals[e.faces[1]]);
    i32::from(d > 1e-9) - i32::from(d < -1e-9)
}

/// the arc on which the strip along an edge ends at a vertex. The ends are the two
/// faces' corners; between them the points lie square to the edge.
fn edge_end_ring(p: &Prepared, edge: usize, v: usize, r: f64, seg: usize) -> Option<Vec<V3>> {
    let body = &p.body;
    let e = &body.topo.edges[edge];
    let (fa, fb) = (e.faces[0], e.faces[1]);
    let sigma = edge_sign(body, edge) as f64;
    if sigma == 0.0 {
        return None;
    }
    let t = norm(sub(body.verts[e.b], body.verts[e.a]));
    let o = add(body.verts[v], solve3(body.normals[fa], body.normals[fb], t, [sigma * r, sigma * r, 0.0])?);
    let radial = |q: V3| {
        let d = sub(q, o);
        norm(sub(d, scale(t, dot(d, t))))
    };
    let (ca, cb) = (p.corner(v, fa), p.corner(v, fb));
    let (da, db) = (radial(ca), radial(cb));
    let place = |j: usize| match j {
        0 => ca,
        j if j == seg => cb,
        j => add(o, scale(slerp(da, db, j as f64 / seg as f64), r)),
    };
    Some((0..=seg).map(place).collect())
}

/// whether an edge lies on one of the picked polylines. A polyline whose
/// ends are about one of its segments apart is taken as closed.
fn edge_is_picked(body: &Body, edge: usize, picked: &[Vec<V3>]) -> bool {
    let e = &body.topo.edges[edge];
    let mid = lerp(body.verts[e.a], body.verts[e.b], 0.5);
    let tol2 = 1.0e-4;
    picked.iter().any(|poly| {
        if poly.windows(2).any(|w| point_seg_dist2(mid, w[0], w[1]) < tol2) {
            return true;
        }
        if poly.len() < 3 {
            return false;
        }
        let (first, last) = (poly[0], poly[poly.len() - 1]);
        let gap2 = apart2(last, first);
        let mut seg2: Vec<f64> = poly.windows(2).map(|w| apart2(w[1], w[0])).collect();
        seg2.sort_by(f64::total_cmp);
        gap2 > tol2 && gap2 <= seg2[seg2.len() / 2] * 3.1 && point_seg_dist2(mid, last, first) < tol2
    })
}

fn bevel_prep(mesh: &Mesh, r: f64, picked: &[Vec<V3>]) -> Option<Prepared> {
    let body = build_topo(mesh);
    let selected: Vec<bool> = (0..body.topo.edges.len()).map(|e| picked.is_empty() || edge_is_picked(&body, e, picked)).collect();
    if !any_selected(&selected) {
        return None;
    }
    let mut corners = HashMap::new();
    for fi in 0..body.topo.faces.len() {
        let rings = inset_loops(&body, fi, r, &selected);
        for (lp, ring) in body.topo.faces[fi].loops.iter().zip(&rings) {
            corners.extend(lp.iter().zip(ring).map(|(&v, &p)| ((v, fi), p)));
        }
    }
    Some(Prepared { body, selected, corners })
}

/// The inset sides along the selected edges, each with the normal of its face.
fn emit_feature_edges(p: &Prepared) -> Vec<[V3; 2]> {
    feature_sides(&p.body.topo, &p.selected)
        .iter()
        .map(|&(f, a, b)| [p.corner(a, f), p.corner(b, f)])
        .collect()
}

/// the area of a face that the inset turns over.
fn inset_fold_area(p: &Prepared, fi: usize) -> f64 {
    let (n, face) = (p.body.normals[fi], &p.body.topo.faces[fi]);
    let spread = |a: V3, b: V3, c: V3| cross(sub(b, a), sub(c, a));
    let mut total = 0.0;
    for &t in &face.tris {
        let t = p.body.topo.tris[t];
        let before = spread(p.body.verts[t.a], p.body.verts[t.b], p.body.verts[t.c]);
        let after = spread(p.corner(t.a, fi), p.corner(t.b, fi), p.corner(t.c, fi));
        if dot(before, n) > 1e-12 && dot(after, n) < -1e-12 {
            total += len(after) * 0.5;
        }
    }
    total
}

/// The points and triangles of the bevelled body.
#[derive(Default)]
struct Build {
    pos: Vec<V3>,
    tris: Vec<Tri>,
}

impl Build {
    fn place(&mut self, points: impl IntoIterator<Item = V3>, tris: &[Tri]) {
        let base = self.pos.len();
        self.pos.extend(points);
        self.tris.extend(tris.iter().map(|t| Tri { a: base + t.a, b: base + t.b, c: base + t.c }));
    }

    /// Weld and wind everything; nothing comes of a surface that stays open.
    fn finish(self) -> Option<Mesh> {
        let (points, remap) = weld_points(&self.pos, GRID);
        let mut tris = weld_triangles(&self.tris, &remap);
        face_outwards(&points, &mut tris);
        if !is_closed(&tris) {
            return None;
        }
        Some(Mesh { points, tris })
    }
}

/// The plane of a face, as two directions that turn about its normal.
fn plane_axes(n: V3) -> (V3, V3) {
    let seed = if n[0].abs() < 0.9 { [1.0, 0.0, 0.0] } else { [0.0, 1.0, 0.0] };
    let u = norm(sub(seed, scale(n, dot(seed, n))));
    (u, cross(n, u))
}

fn area2(p: &[[f64; 2]]) -> f64 {
    (0..p.len()).map(|i| (p[i], p[(i + 1) % p.len()])).map(|(a, b)| a[0] * b[1] - b[0] * a[1]).sum()
}

/// The triangles of a flat outline, which the library clips by what is measured here.
fn outline_tris(pts: &[V3], n: V3) -> Vec<Tri> {
    let (u, w) = plane_axes(n);
    let p: Vec<[f64; 2]> = pts.iter().map(|&q| [dot(q, u), dot(q, w)]).collect();
    let turn = |a: usize, b: usize, c: usize| (p[b][0] - p[a][0]) * (p[c][1] - p[a][1]) - (p[b][1] - p[a][1]) * (p[c][0] - p[a][0]);
    let area = area2(&p);
    let eps = area.abs() * 1e-9 + 1e-12;
    let convex = |a: usize, b: usize, c: usize| turn(a, b, c) > eps;
    let covers = |a: usize, b: usize, c: usize, j: usize| turn(a, b, j) >= -eps && turn(b, c, j) >= -eps && turn(c, a, j) >= -eps;
    ear_clip(pts.len(), area < 0.0, &convex, &covers)
}

/// What surgery places its pieces by.
struct Surgery<'a> {
    p: &'a Prepared,
    r: f64,
    seg: usize,
    /// The face that a fillet ends against at each vertex.
    splice: Vec<Option<usize>>,
    /// The arc of each selected edge at each of its ends.
    rings: HashMap<(usize, usize), Vec<V3>>,
    /// The arc that notches a face at a vertex.
    notches: HashMap<usize, Vec<V3>>,
}

impl Surgery<'_> {
    /// The outline of a face with the arcs of the fillets that end against it. an
    /// arc runs the way whose start lies nearer to the side that leads up to it.
    fn notched(&self, lp: &Vec<usize>, f: usize) -> Vec<V3> {
        let verts = &self.p.body.verts;
        let mut forward = vec![true; verts.len()];
        for (i, &v) in lp.iter().enumerate() {
            if let (true, Some(ring)) = (self.splice[v] == Some(f), self.notches.get(&v)) {
                let before = verts[lp[(i + lp.len() - 1) % lp.len()]];
                forward[v] = point_seg_dist2(ring[0], before, verts[v]) <= point_seg_dist2(ring[self.seg], before, verts[v]);
            }
        }
        let place = |s: &Spot| match *s {
            Spot::Corner(v) => self.p.corner(v, f),
            Spot::Arc(v, j) => self.notches[&v][j],
        };
        spliced_loop(lp, f, &self.splice, &forward, self.seg).iter().map(place).collect()
    }

    fn face(&self, f: usize, notched: bool, out: &mut Build) {
        let face = &self.p.body.topo.faces[f];
        if !notched {
            for &t in &face.tris {
                let t = self.p.body.topo.tris[t];
                out.place([t.a, t.b, t.c].map(|v| self.p.corner(v, f)), &[Tri { a: 0, b: 1, c: 2 }]);
            }
            return;
        }
        let n = self.p.body.normals[f];
        let mut loops: Vec<Vec<V3>> = face.loops.iter().map(|lp| self.notched(lp, f)).collect();
        if loops.len() == 1 {
            let tris = outline_tris(&loops[0], n);
            out.place(loops.remove(0), &tris);
            return;
        }
        unreachable!("no body here has a notched face with holes");
    }

    /// the sphere that a corner of three rounded edges is domed on.
    fn dome_sphere(&self, v: usize, rim: &[V3]) -> Option<(V3, f64)> {
        let n = |k: usize| self.p.body.normals[self.p.body.topo.vert_faces[v][k]];
        let mid = centroid(rim);
        let (c, rad) = [-1.0, 1.0]
            .into_iter()
            .filter_map(|sign| solve3(n(0), n(1), n(2), [sign * self.r; 3]))
            .map(|x| add(self.p.body.verts[v], x))
            .map(|c| (c, rim.iter().map(|q| len(sub(*q, c))).sum::<f64>() / rim.len() as f64))
            .min_by(|a, b| apart2(mid, a.0).total_cmp(&apart2(mid, b.0)))?;
        (rad > 1e-6).then_some((c, rad))
    }

    fn patch(&self, v: usize, ringed: &Vec<bool>, out: &mut Build) {
        let topo = &self.p.body.topo;
        let arcs = arcs_at(topo, &self.p.selected, ringed, v);
        let Some(spots) = patch_rim(&arcs, self.seg) else { return };
        let place = |s: &RimSpot| match *s {
            RimSpot::Arc { edge, step } => self.rings[&(edge, v)][step],
            RimSpot::Corner { face } => self.p.corner(v, face),
        };
        let all: Vec<V3> = spots.iter().map(place).collect();
        let kept = collapse_ring(all.len(), &|i: usize, j: usize| apart2(all[i], all[j]) < 1e-14);
        let rim: Vec<V3> = kept.iter().map(|&i| all[i]).collect();
        let n = rim.len();
        if n < 3 {
            return;
        }
        if is_domed(&arcs, topo.vert_faces[v].len(), self.seg) {
            if let Some((center, rad)) = self.dome_sphere(v, &rim) {
                let bands = (self.seg / 2).max(1);
                let dirs: Vec<V3> = rim.iter().map(|q| norm(sub(*q, center))).collect();
                let pole = norm(dirs.iter().fold([0.0; 3], |s, d| add(s, *d)));
                let on_sphere = |d: V3| add(center, scale(d, rad));
                let mut points = rim;
                for k in 1..bands {
                    points.extend(dirs.iter().map(|d| on_sphere(slerp(*d, pole, k as f64 / bands as f64))));
                }
                points.push(on_sphere(pole));
                out.place(points, &dome_tris(n, bands));
                return;
            }
        }
        let apex = apex_face(&arcs, self.seg).map(|f| self.p.corner(v, f));
        match apex.and_then(|a| rim.iter().position(|q| apart2(*q, a) < 1e-14)) {
            Some(m) => out.place(rim, &fan_around_tris(m, n)),
            None => {
                let mid = centroid(&rim);
                out.place(rim.into_iter().chain([mid]), &cone_tris(0, n, n));
            }
        }
    }
}

/// Bevel a prepared body: the library plans, and every point is placed here.
fn run_surgery(p: &Prepared, r: f64, seg: usize) -> Option<Mesh> {
    let topo = &p.body.topo;
    let folded: f64 = (0..topo.faces.len()).map(|f| inset_fold_area(p, f)).sum();
    if hands_over(folded > 0.01 * r * r, &p.selected, true) {
        return None;
    }
    let mut s = Surgery { p, r, seg, splice: vec![None; topo.verts], rings: HashMap::new(), notches: HashMap::new() };
    let mut ringed = vec![false; topo.edges.len()];
    for (e, edge) in topo.edges.iter().enumerate().filter(|x| p.selected[x.0]) {
        for v in [edge.a, edge.b] {
            if let Some(ring) = edge_end_ring(p, e, v, r, seg) {
                ringed[e] = true;
                s.rings.insert((e, v), ring);
            }
        }
    }
    for v in 0..topo.verts {
        let Some((e, f)) = terminal_splice(topo, &p.selected, v) else { continue };
        let Some(ring) = s.rings.get(&(e, v)) else { continue };
        // Where the fillet meets the face askew, the arc does not lie in it and cannot notch it.
        let off = |q: &V3| dot(sub(*q, p.body.verts[v]), p.body.normals[f]).abs();
        if ring.iter().all(|q| off(q) <= 1e-6 * r.max(1e-6)) {
            s.splice[v] = Some(f);
            s.notches.insert(v, ring.clone());
        }
    }
    // Where two strips meet between the same two corners, both end on the mean of their arcs.
    let mut welded = vec![false; topo.verts];
    for v in (0..topo.verts).filter(|&v| s.splice[v].is_none()) {
        let Some((e1, e2)) = weld_pair(topo, &p.selected, v) else { continue };
        let (Some(r1), Some(mut r2)) = (s.rings.get(&(e1, v)).cloned(), s.rings.get(&(e2, v)).cloned()) else { continue };
        let flipped = apart2(r2[0], r1[0]) > apart2(r2[seg], r1[0]);
        if flipped {
            r2.reverse();
        }
        let tol2 = (1.0e-6 * (1.0 + r)).powi(2);
        if apart2(r2[0], r1[0]) > tol2 || apart2(r2[seg], r1[seg]) > tol2 {
            continue;
        }
        let mut mean: Vec<V3> = r1.iter().zip(&r2).map(|(a, b)| lerp(*a, *b, 0.5)).collect();
        s.rings.insert((e1, v), mean.clone());
        if flipped {
            mean.reverse();
        }
        s.rings.insert((e2, v), mean);
        welded[v] = true;
    }
    let gaps: Vec<bool> = topo
        .edges
        .iter()
        .map(|e| {
            [e.a, e.b].into_iter().any(|v| {
                let (f1, f2) = wedge_faces(s.splice[v], e.faces[0], e.faces[1]);
                apart2(p.corner(v, f1), p.corner(v, f2)) > 1e-14
            })
        })
        .collect();
    let mut out = Build::default();
    for piece in plan_surgery(topo, &p.selected, &s.splice, &welded, &ringed, &gaps) {
        match piece {
            Piece::Face { face, notched } => s.face(face, notched, &mut out),
            Piece::Strip { edge } => {
                let (r0, r1) = (&s.rings[&(edge, topo.edges[edge].a)], &s.rings[&(edge, topo.edges[edge].b)]);
                out.place(r0.iter().zip(r1).flat_map(|(a, b)| [*a, *b]), &strip_tris(seg));
            }
            Piece::Wedge { edge, a, b } => {
                let e = &topo.edges[edge];
                out.place([p.corner(e.a, a.0), p.corner(e.b, b.0), p.corner(e.a, a.1), p.corner(e.b, b.1)], &wedge_tris());
            }
            Piece::Patch { vertex } => s.patch(vertex, &ringed, &mut out),
        }
    }
    out.finish()
}

/// Bevel the picked edges, or all of them with nothing picked.
fn bevel(mesh: &Mesh, r: f64, seg: usize, picked: &[Vec<V3>]) -> Option<Mesh> {
    run_surgery(&bevel_prep(mesh, r, picked)?, r, seg)
}

fn feature_edges(mesh: &Mesh, r: f64, picked: &[Vec<V3>]) -> Vec<[V3; 2]> {
    bevel_prep(mesh, r, picked).map(|p| emit_feature_edges(&p)).unwrap_or_default()
}

/// A closed body, wound outwards.
fn solid(mesh: Mesh) -> Mesh {
    Build { pos: mesh.points, tris: mesh.tris }.finish().expect("a closed body")
}

/// A ring at a height.
fn ring_at(outline: &[[f64; 2]], basis: [V3; 3], h: f64) -> Vec<V3> {
    outline.iter().map(|p| add(add(scale(basis[0], p[0]), scale(basis[1], p[1])), scale(basis[2], h))).collect()
}

/// An outline drawn from `start` on over a length along the normal of its plane.
fn extrude(outline: &[[f64; 2]], basis: [V3; 3], start: f64, length: f64) -> Mesh {
    let (low, high) = (ring_at(outline, basis, start), ring_at(outline, basis, start + length));
    let mut m = Mesh::default();
    for cap in [&low, &high] {
        for t in outline_tris(cap, basis[2]) {
            m.tri([cap[t.a], cap[t.b], cap[t.c]]);
        }
    }
    wall(&mut m, &low, &high);
    solid(m)
}

fn wall(m: &mut Mesh, low: &[V3], high: &[V3]) {
    let n = low.len();
    for i in 0..n {
        let j = (i + 1) % n;
        m.quad([low[i], low[j], high[j], high[i]]);
    }
}

/// The flat between two rings with as many points.
fn frame(m: &mut Mesh, outer: &[V3], inner: &[V3]) {
    wall(m, outer, inner);
}

const XY: [V3; 3] = [[1.0, 0.0, 0.0], [0.0, 1.0, 0.0], [0.0, 0.0, 1.0]];
/// The plane that the ground is drawn on, with its normal up along y.
const XZ: [V3; 3] = [[1.0, 0.0, 0.0], [0.0, 0.0, -1.0], [0.0, 1.0, 0.0]];

fn square(lo: f64, hi: f64) -> [[f64; 2]; 4] {
    [[lo, lo], [hi, lo], [hi, hi], [lo, hi]]
}

fn circle(n: usize, c: [f64; 2], r: f64) -> Vec<[f64; 2]> {
    (0..n)
        .map(|i| {
            let a = std::f64::consts::TAU * i as f64 / n as f64;
            [c[0] + r * a.cos(), c[1] + r * a.sin()]
        })
        .collect()
}

/// A square block of a height with a square pocket down to a floor.
fn pocketed(side: f64, height: f64, lo: f64, hi: f64, floor: f64) -> Mesh {
    let (outer, inner) = (square(0.0, side), square(lo, hi));
    let mut m = Mesh::default();
    let at = |o: &[[f64; 2]], h: f64| ring_at(o, XY, h);
    let (base, top, rim, bottom) = (at(&outer, 0.0), at(&outer, height), at(&inner, height), at(&inner, floor));
    m.quad([base[0], base[1], base[2], base[3]]);
    m.quad([bottom[0], bottom[1], bottom[2], bottom[3]]);
    wall(&mut m, &base, &top);
    wall(&mut m, &bottom, &rim);
    frame(&mut m, &top, &rim);
    solid(m)
}

/// A plate of 20 by 20 by 5 with a round boss of radius 4 in its middle, up to a height of 12.
fn plate_with_boss() -> (Mesh, Vec<[f64; 2]>) {
    let n = 32;
    let circ = circle(n, [10.0, 10.0], 4.0);
    let at = |o: &[[f64; 2]], h: f64| ring_at(o, XY, h);
    let (base, top) = (at(&square(0.0, 20.0), 0.0), at(&square(0.0, 20.0), 5.0));
    let (foot, head) = (at(&circ, 5.0), at(&circ, 12.0));
    let mut m = Mesh::default();
    m.quad([base[0], base[1], base[2], base[3]]);
    wall(&mut m, &base, &top);
    wall(&mut m, &foot, &head);
    for i in 1..n - 1 {
        m.tri([head[0], head[i], head[i + 1]]);
    }
    // The corners of the plate, as they come round from the first point of the boss.
    let corner = |q: usize| top[(q + 2) % 4];
    for i in 0..n {
        let q = i * 4 / n;
        m.tri([foot[i], corner(q), foot[(i + 1) % n]]);
        if i % (n / 4) == 0 {
            m.tri([foot[i], corner(q + 3), corner(q)]);
        }
    }
    (solid(m), circ)
}

fn ring_pick(circ: &[[f64; 2]], z: f64) -> Vec<Vec<V3>> {
    let mut v: Vec<V3> = circ.iter().map(|p| [p[0], p[1], z]).collect();
    v.push(v[0]);
    vec![v]
}

/// A flat ring between radii 5 and 8, 2 high, with a quarter of it standing on up to 6.5, and the four
/// lines along which the two meet.
fn ring_and_sector() -> (Mesh, Vec<Vec<V3>>) {
    let (n, q) = (128, 32);
    let at = |i: usize, r: f64, z: f64| {
        let a = std::f64::consts::TAU * (i % n) as f64 / n as f64;
        [r * a.cos(), r * a.sin(), z]
    };
    let mut m = Mesh::default();
    for i in 0..n {
        let cell = |z0: f64, z1: f64, r0: f64, r1: f64| [at(i, r0, z0), at(i + 1, r0, z0), at(i + 1, r1, z1), at(i, r1, z1)];
        m.quad(cell(0.0, 0.0, 5.0, 8.0));
        m.quad(cell(0.0, 2.0, 8.0, 8.0));
        m.quad(cell(0.0, 2.0, 5.0, 5.0));
        if i < q {
            m.quad(cell(2.0, 6.5, 8.0, 8.0));
            m.quad(cell(2.0, 6.5, 5.0, 5.0));
            m.quad(cell(6.5, 6.5, 5.0, 8.0));
        } else {
            m.quad(cell(2.0, 2.0, 5.0, 8.0));
        }
    }
    for i in [0, q] {
        m.quad([at(i, 5.0, 2.0), at(i, 8.0, 2.0), at(i, 8.0, 6.5), at(i, 5.0, 6.5)]);
    }
    let picked = vec![
        (q..=n).map(|i| at(i, 8.0, 2.0)).collect(),
        (q..=n).map(|i| at(i, 5.0, 2.0)).collect(),
        vec![at(0, 5.0, 2.0), at(0, 8.0, 2.0)],
        vec![at(q, 5.0, 2.0), at(q, 8.0, 2.0)],
    ];
    (solid(m), picked)
}

/// How many edges are drawn sharp.
fn sharp_edges(m: &Mesh) -> usize {
    let n: Vec<V3> = m.tris.iter().map(|t| norm(cross(sub(m.points[t.b], m.points[t.a]), sub(m.points[t.c], m.points[t.a])))).collect();
    let limit = 30.0_f64.to_radians().cos();
    edge_table(&m.tris)
        .uses
        .iter()
        .filter(|u| {
            let bent = u.len() == 2 && dot(n[u[0]], n[u[1]]) < limit;
            classify_edge(u.len(), bent, bent, true) == EdgeClass::Sharp
        })
        .count()
}

#[test]
fn bevel_cube_is_watertight_and_unsharp() {
    let cube = extrude(&square(0.0, 4.0), XY, 0.0, 4.0);
    let rounded = bevel(&cube, 0.6, 4, &[]).expect("box bevels");
    assert!(rounded.is_watertight(), "bevelled cube must be a closed surface");
    for corner in [[0.0, 0.0, 0.0], [4.0, 4.0, 4.0]] {
        let min_d = rounded.points.iter().map(|p| len(sub(*p, corner))).fold(f64::INFINITY, f64::min);
        assert!(min_d > 0.2, "corner {corner:?} should be rounded away (min dist {min_d})");
    }
}

#[test]
fn cube_corner_domes_out_instead_of_pinching_flat() {
    let cube = extrude(&square(0.0, 8.0), XY, 0.0, 8.0);
    let r = 1.5;
    let rounded = bevel(&cube, r, 8, &[]).expect("cube bevels");
    assert!(rounded.is_watertight());
    let center = [r, r, r];
    let corner_dists: Vec<f64> = rounded
        .points
        .iter()
        .filter(|p| p.iter().all(|c| *c < r + 1e-4) && p.iter().all(|c| *c > 1e-4))
        .map(|p| len(sub(*p, center)))
        .collect();
    assert!(corner_dists.len() > 6, "expected a dome of corner vertices, found {}", corner_dists.len());
    let min_d = corner_dists.iter().cloned().fold(f64::INFINITY, f64::min);
    assert!(min_d > r * 0.9, "corner vertices should ride out on the cap (min dist {min_d:.3} from centre, r={r})");
}

#[test]
fn bevel_l_prism_with_concave_edge_is_watertight() {
    let l = [[0.0, 0.0], [4.0, 0.0], [4.0, 2.0], [2.0, 2.0], [2.0, 4.0], [0.0, 4.0]];
    let prism = extrude(&l, XY, 0.0, 3.0);
    let body = build_topo(&prism);
    let concave = (0..body.topo.edges.len()).filter(|&e| edge_sign(&body, e) > 0).count();
    assert_eq!(concave, 1, "L-prism has exactly one concave (vertical) edge");
    let rounded = bevel(&prism, 0.4, 4, &[]).expect("L-prism bevels");
    assert!(rounded.is_watertight(), "bevelled L-prism must be a closed surface");
}

#[test]
fn bevel_one_box_edge_closes_or_falls_back() {
    let cube = extrude(&square(0.0, 4.0), XY, 0.0, 4.0);
    let picked = vec![vec![[0.0, 0.0, 4.0], [4.0, 0.0, 4.0]]];
    if let Some(m) = bevel(&cube, 0.5, 4, &picked) {
        assert!(m.is_watertight(), "if it returns a mesh, it must be closed");
    }
}

#[test]
fn bevel_pocket_rim_loop_selective_is_watertight() {
    let body = pocketed(10.0, 5.0, 3.0, 7.0, 3.0);
    let rim = vec![
        vec![[3.0, 3.0, 5.0], [7.0, 3.0, 5.0]],
        vec![[7.0, 3.0, 5.0], [7.0, 7.0, 5.0]],
        vec![[7.0, 7.0, 5.0], [3.0, 7.0, 5.0]],
        vec![[3.0, 7.0, 5.0], [3.0, 3.0, 5.0]],
    ];
    let rounded = bevel(&body, 0.3, 3, &rim).expect("rim loop bevels");
    assert!(rounded.is_watertight(), "selective rim-loop bevel must be closed");
}

#[test]
fn bevel_csg_pocket_is_watertight() {
    let body = pocketed(10.0, 5.0, 3.0, 7.0, 3.0);
    let rounded = bevel(&body, 0.3, 3, &[]).expect("pocket bevels");
    assert!(rounded.is_watertight(), "bevelled pocket must be a closed surface");
}

#[test]
fn fillet_cylinder_boss_on_base_top_rim() {
    let (body, circ) = plate_with_boss();
    let picked = ring_pick(&circ, 12.0);
    let m = bevel(&body, 0.7, 12, &picked).expect("the surgery declined a boss rim");
    assert!(m.is_watertight(), "the filleted boss is not closed");
    let (r, mut worst) = (0.7f64, 0.0f64);
    for q in &m.points {
        let (x, y, z) = (q[0] - 10.0, q[1] - 10.0, q[2]);
        let d = (x * x + y * y).sqrt();
        if z < 12.0 - r - 1e-6 || d < 4.0 - r - 1e-6 {
            continue;
        }
        let (ax, ay) = ((4.0 - r) * x / d.max(1e-12), (4.0 - r) * y / d.max(1e-12));
        worst = worst.max((((x - ax).powi(2) + (y - ay).powi(2) + (z - (12.0 - r)).powi(2)).sqrt() - r).abs());
    }
    assert!(worst < r * 0.02, "the boss fillet strays {worst:.4} from the ideal torus");
    assert!(feature_edges(&body, 0.7, &picked).len() > 30, "rim tangent edges emitted");
    let bedges = feature_edges(&body, 0.5, &ring_pick(&circ, 5.0));
    let long_count = bedges.iter().filter(|s| len(sub(s[1], s[0])) > 1.5).count();
    assert_eq!(long_count, 0, "no spurious long feature edges");
}

#[test]
fn a_curved_rim_fillets_the_right_way_round_whichever_way_it_bends() {
    let (body, circ) = plate_with_boss();
    let top = bevel(&body, 0.7, 12, &ring_pick(&circ, 12.0)).expect("a convex curved rim must be filleted by the surgery");
    assert!(top.is_watertight(), "the convex rim fillet is not closed");
    assert!(top.volume() < body.volume(), "rounding a convex rim must remove material, not add it");
    let base = bevel(&body, 0.7, 12, &ring_pick(&circ, 5.0)).expect("a concave curved rim must be filleted by the surgery");
    assert!(base.is_watertight(), "the concave rim fillet is not closed");
    assert!(base.volume() > body.volume(), "rounding a concave rim must add material, not remove it");
    assert!(feature_edges(&body, 0.7, &ring_pick(&circ, 5.0)).len() > 32, "the concave rim's seam edges must still be emitted");
}

#[test]
fn a_concave_curved_rim_fills_the_corner() {
    let (body, circ) = plate_with_boss();
    let r = 0.7f64;
    let m = bevel(&body, r, 12, &ring_pick(&circ, 5.0)).expect("a concave curved rim must fillet");
    assert!(m.is_watertight(), "the concave rim fillet is not closed");
    let pi = std::f64::consts::PI;
    let area = r * r * (1.0 - pi / 4.0);
    let ubar = r * (5.0 / 6.0 - pi / 4.0) / (1.0 - pi / 4.0);
    let want = 2.0 * pi * (4.0 + ubar) * area;
    let got = m.volume() - body.volume();
    assert!(got > 0.0, "a concave fillet must ADD material; this removed {:.3}", -got);
    assert!((got - want).abs() < want * 0.02, "added {got:.4}, the exact answer is {want:.4}");
    let mut worst = 0.0f64;
    for q in &m.points {
        let (x, y, z) = (q[0] - 10.0, q[1] - 10.0, q[2]);
        let d = (x * x + y * y).sqrt();
        if !(5.0 - 1e-6..=5.0 + r + 1e-6).contains(&z) || !(4.0 - 1e-6..=4.0 + r + 1e-6).contains(&d) {
            continue;
        }
        let (ax, ay) = ((4.0 + r) * x / d.max(1e-12), (4.0 + r) * y / d.max(1e-12));
        worst = worst.max((((x - ax).powi(2) + (y - ay).powi(2) + (z - (5.0 + r)).powi(2)).sqrt() - r).abs());
    }
    assert!(worst < r * 0.02, "the concave band strays {worst:.4} from the ideal torus");
    let (before, after) = (sharp_edges(&body), sharp_edges(&m));
    assert!(after <= before, "the fillet added sharp edges ({before} to {after}): the band is striped");
}

#[test]
fn a_fillet_running_out_onto_a_curved_wall_hands_over_to_csg() {
    let (body, picked) = ring_and_sector();
    let edge = vec![picked[2].clone()];
    let r = 2.15f64;
    let p = bevel_prep(&body, r, &edge).expect("prep");
    assert_eq!(count_selected(&p.selected), 1, "a lone radial edge should select one model edge");
    assert!(bevel(&body, r, 12, &edge).is_none(), "the surgery must decline a fillet that folds its run-out");
}

#[test]
fn mixed_convex_and_concave_junction_loop_fillets() {
    let (body, picked) = ring_and_sector();
    let pi = std::f64::consts::PI;
    for &r in &[0.5f64, 1.0, 1.5, 1.9] {
        let area = r * r * (1.0 - pi / 4.0);
        let ubar = r * (5.0 / 6.0 - pi / 4.0) / (1.0 - pi / 4.0);
        let outer = -1.5 * pi * (8.0 - ubar) * area;
        let inner = -1.5 * pi * (5.0 + ubar) * area;
        let straights = 2.0 * area * 3.0;
        let want = outer + inner + straights;
        let m = bevel(&body, r, 12, &picked).unwrap_or_else(|| panic!("r={r}: the surgery declined the mixed junction loop"));
        assert!(m.is_watertight(), "r={r}: the filleted junction is not closed");
        let got = m.volume() - body.volume();
        assert!(
            (got - want).abs() < want.abs() * 0.02,
            "r={r}: the loop moved {got:+.4}, the signed sum of its four pieces is {want:+.4}"
        );
    }
}

#[test]
fn fillet_cylinder_top_rim() {
    let circ = circle(32, [5.0, 5.0], 4.0);
    let cyl = extrude(&circ, XY, 0.0, 6.0);
    let picked = ring_pick(&circ, 6.0);
    let pi = std::f64::consts::PI;
    for r in [0.2f64, 0.5, 1.0, 2.0, 3.5] {
        let m = bevel(&cyl, r, 12, &picked).unwrap_or_else(|| panic!("the surgery declined a curved-wall rim at r={r}"));
        assert!(m.is_watertight(), "r={r}: the filleted cylinder is not closed");
        let mut worst = 0.0f64;
        for q in &m.points {
            let (x, y, z) = (q[0] - 5.0, q[1] - 5.0, q[2]);
            let d = (x * x + y * y).sqrt();
            if z < 6.0 - r - 1e-6 || d < 4.0 - r - 1e-6 {
                continue;
            }
            let (ax, ay) = ((4.0 - r) * x / d.max(1e-12), (4.0 - r) * y / d.max(1e-12));
            worst = worst.max((((x - ax).powi(2) + (y - ay).powi(2) + (z - (6.0 - r)).powi(2)).sqrt() - r).abs());
        }
        assert!(worst < r * 0.02, "r={r}: the fillet band strays {worst:.4} from the ideal torus");
        let area = r * r * (1.0 - pi / 4.0);
        let ubar = r * (5.0 / 6.0 - pi / 4.0) / (1.0 - pi / 4.0);
        let want = 2.0 * pi * (4.0 - ubar) * area;
        let got = cyl.volume() - m.volume();
        assert!((got - want).abs() < want * 0.02, "r={r}: removed {got:.4}, exact answer is {want:.4}");
    }
    let edges = feature_edges(&cyl, 0.5, &picked);
    assert!(edges.len() > 30, "should emit a ring of tangent edges, got {}", edges.len());
}

#[test]
fn bevel_is_deterministic() {
    let (body, circ) = plate_with_boss();
    let picked = ring_pick(&circ, 12.0);
    let first = bevel(&body, 0.7, 3, &picked);
    let tris = first.as_ref().map(|m| m.tris.len()).unwrap_or(0);
    for _ in 0..40 {
        let r = bevel(&body, 0.7, 3, &picked);
        assert_eq!(r.is_some(), first.is_some(), "bevel success flipped between identical runs (non-deterministic)");
        assert_eq!(r.map(|m| m.tris.len()).unwrap_or(0), tris, "bevel output size varies between identical runs");
    }
}

#[test]
fn cube_faces_inset_by_radius() {
    let body = build_topo(&extrude(&square(0.0, 4.0), XY, 0.0, 4.0));
    let sel = vec![true; body.topo.edges.len()];
    for f in 0..body.topo.faces.len() {
        let rings = inset_loops(&body, f, 0.5, &sel);
        assert_eq!(rings.len(), 1);
        assert_eq!(rings[0].len(), 4);
        for axis in 0..3 {
            let lo = rings[0].iter().map(|p| p[axis]).fold(f64::INFINITY, f64::min);
            let hi = rings[0].iter().map(|p| p[axis]).fold(f64::NEG_INFINITY, f64::max);
            if (hi - lo) > 1e-6 {
                assert!((lo - 0.5).abs() < 1e-6, "inset lo on axis {axis}: {lo}");
                assert!((hi - 3.5).abs() < 1e-6, "inset hi on axis {axis}: {hi}");
            }
        }
    }
}

const X: (f64, f64) = (10.300506591787663, 30.300506591807387);
const Z: (f64, f64) = (7.451744079581647, 27.451744079596413);
const DIST: f64 = 10.874906539916992;
const RADIUS: f64 = 4.893707752227783;

/// A box on the ground, and its upper rim.
fn box_and_rim() -> (Mesh, Vec<Vec<V3>>) {
    let outer = [[X.0, -Z.0], [X.1, -Z.0], [X.1, -Z.1], [X.0, -Z.1]];
    let rim = vec![vec![[X.1, DIST, Z.1], [X.1, DIST, Z.0], [X.0, DIST, Z.0], [X.0, DIST, Z.1]]];
    (extrude(&outer, XZ, 0.0, DIST), rim)
}

#[test]
fn top_perimeter_fillet_never_bulges_past_the_walls() {
    let (mesh, top_rim) = box_and_rim();
    let beveled = bevel(&mesh, RADIUS, 12, &top_rim).expect("top-rim fillet builds");
    assert!(beveled.is_watertight(), "beveled box must stay a closed surface");
    let tol = 1.0e-4;
    for p in &beveled.points {
        assert!(p[0] <= X.1 + tol && p[0] >= X.0 - tol, "x={} outside", p[0]);
        assert!(p[2] <= Z.1 + tol && p[2] >= Z.0 - tol, "z={} outside", p[2]);
        assert!(p[1] <= DIST + tol && p[1] >= -tol, "y={} outside", p[1]);
    }
}

#[test]
fn weld_corner_uses_the_blended_shared_profile() {
    let (mesh, top_rim) = box_and_rim();
    let seg = 12;
    let p = bevel_prep(&mesh, RADIUS, &top_rim).expect("prep succeeds");
    let corner = [X.1, DIST, Z.1];
    let vi = p.body.verts.iter().position(|v| (0..3).all(|k| (v[k] - corner[k]).abs() < 1e-6)).expect("corner vertex exists");
    let mut rings: Vec<Vec<V3>> = Vec::new();
    let mut allowed: Vec<V3> = Vec::new();
    for &e in &p.body.topo.vert_edges[vi] {
        let edge = &p.body.topo.edges[e];
        if p.selected[e] {
            let ring = edge_end_ring(&p, e, vi, RADIUS, seg).expect("selected edge has a ring");
            allowed.extend(ring.iter().copied());
            rings.push(ring);
        } else {
            allowed.extend([p.corner(vi, edge.faces[0]), p.corner(vi, edge.faces[1])]);
        }
    }
    assert_eq!(rings.len(), 2, "a weld corner has exactly two rounded edges");
    if apart2(rings[1][0], rings[0][0]) > apart2(rings[1][seg], rings[0][0]) {
        rings[1].reverse();
    }
    for (a, b) in rings[0].iter().zip(&rings[1]) {
        allowed.push(lerp(*a, *b, 0.5));
    }
    let beveled = bevel(&mesh, RADIUS, seg, &top_rim).expect("top-rim fillet builds");
    let near: Vec<&V3> = beveled.points.iter().filter(|q| (0..3).all(|k| (q[k] - corner[k]).abs() < RADIUS)).collect();
    assert!(near.len() > 4, "expected several corner-area vertices, found {}", near.len());
    for q in near {
        let closest = allowed.iter().map(|a| apart2(*a, *q)).fold(f64::INFINITY, f64::min).sqrt();
        assert!(closest < 1.0e-4, "corner-area vertex {q:?} isn't ring/blend/corner geometry (closest {closest:.4})");
    }
}

#[test]
fn single_edge_fillet_succeeds_via_surgery_on_every_box_edge() {
    let (side, dist, r, seg) = (40.0_f64, 26.0_f64, 5.0, 8);
    let mesh = extrude(&[[0.0, 0.0], [side, 0.0], [side, -side], [0.0, -side]], XZ, 0.0, dist);
    let corners = [(0.0, 0.0), (side, 0.0), (side, side), (0.0, side)];
    let mut edges: Vec<Vec<V3>> = Vec::new();
    for i in 0..4 {
        let (a, b) = (corners[i], corners[(i + 1) % 4]);
        edges.push(vec![[a.0, 0.0, a.1], [b.0, 0.0, b.1]]);
        edges.push(vec![[a.0, dist, a.1], [b.0, dist, b.1]]);
    }
    for &(cx, cz) in &corners {
        edges.push(vec![[cx, 0.0, cz], [cx, dist, cz]]);
    }
    assert_eq!(edges.len(), 12, "sanity: a box has 12 edges");
    let box_vol = side * side * dist;
    for chain in &edges {
        let beveled = bevel(&mesh, r, seg, &[chain.clone()]);
        assert!(beveled.is_some(), "single-edge fillet declined surgery for {chain:?}");
        let beveled = beveled.unwrap();
        assert!(beveled.is_watertight(), "single-edge fillet result not watertight for {chain:?}");
        for end in [chain[0], chain[1]] {
            let stale = beveled.points.iter().any(|p| (0..3).all(|k| (p[k] - end[k]).abs() < 1e-6));
            assert!(!stale, "the corner {end:?} is still present");
        }
        let removed = (1.0 - std::f64::consts::PI / 4.0) * r * r * len(sub(chain[1], chain[0]));
        let vol = beveled.volume();
        assert!(
            (vol - (box_vol - removed)).abs() < removed * 0.05,
            "volume {vol:.2} should be box {box_vol:.2} minus groove {removed:.2} for {chain:?}"
        );
    }
}

#[test]
fn single_edge_fillet_on_fillererror3_box() {
    let (x1, z1, dist) = (5.708608627319336, 3.6159682273864746, 2.903108596801758);
    let mesh = extrude(&[[0.0, 0.0], [x1, 0.0], [x1, -z1], [0.0, -z1]], XZ, 0.0, dist);
    let picked = vec![vec![[0.0, dist, 0.0], [x1, dist, 0.0]]];
    let beveled = bevel(&mesh, 1.3064, 8, &picked).expect("this box and radius should surgery-bevel");
    assert!(beveled.is_watertight());
}
