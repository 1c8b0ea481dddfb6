use hcad::chains::closed_chains;
use hcad::feature_edges::{classify_edge, EdgeClass};
use hcad::mesh::{edge_table, Tri};
use hcad::sheet::{to_svg, to_svg_with_dims, Caption, Head, Page, RefKind, SheetDim, SheetItem, Spot, Stroke, TitleBlock, TitleRow, ViewEdge};
use hcad::solids::{box_tris, prism_tris};
use hcad::text::{format_dim, xml_escape};
use hcad::views::{
    grid_side, hatch_ends, keep_distinct, list_candidates, pick_penalty, pick_target, resolve_ref, sample_count, split_runs, CellBox, DepthGrid, Run,
};

type V3 = [f64; 3];

fn num(v: f64) -> String {
    format!("{v:.3}")
}

fn at(x: f64, y: f64) -> Spot {
    Spot { x: num(x), y: num(y) }
}

fn page(w: f64, h: f64) -> Page {
    Page { width: format!("{w}"), height: format!("{h}"), inner_width: num(w - 20.0), inner_height: num(h - 20.0) }
}

/// A view of edges about a centre, on a sheet whose coordinates run up.
fn view(edges: &[([f64; 2], [f64; 2], bool)], center: [f64; 2], scale: f64, show_hidden: bool, label: Option<&str>, sheet_h: f64) -> SheetItem {
    let place = |p: [f64; 2]| at(center[0] + p[0] * scale, sheet_h - (center[1] + p[1] * scale));
    SheetItem {
        edges: edges.iter().map(|e| ViewEdge { stroke: Stroke { from: place(e.0), to: place(e.1) }, hidden: e.2 }).collect(),
        show_hidden,
        hatch: Vec::new(),
        label: label.map(|t| Caption { at: place([0.0, 0.0]), text: t.to_string() }),
    }
}

fn title(rows: &[(&str, &str)]) -> TitleBlock {
    TitleBlock {
        corner: at(180.0, 170.0),
        width: num(100.0),
        height: num(8.0),
        rows: rows
            .iter()
            .map(|r| TitleRow {
                rule: Stroke { from: at(180.0, 170.0), to: at(280.0, 170.0) },
                name: Caption { at: at(182.0, 176.0), text: r.0.to_string() },
                value: Caption { at: at(212.0, 176.0), text: r.1.to_string() },
            })
            .collect(),
    }
}

#[test]
fn svg_is_well_formed_and_scales() {
    let edges = [([0.0, 0.0], [10.0, 0.0], false), ([0.0, 0.0], [0.0, 10.0], true)];
    let items = vec![view(&edges, [100.0, 100.0], 2.0, true, Some("Front"), 210.0)];
    let svg = to_svg(&page(297.0, 210.0), &items, &title(&[("PART", "bracket & pin")]));
    assert!(svg.starts_with("<svg"), "no svg root");
    assert!(svg.trim_end().ends_with("</svg>"));
    assert_eq!(svg.matches("<svg").count(), 1);
    // The visible edge runs 10mm at 2x from x=100, so it must end at x=120.
    assert!(svg.contains("M100.000,110.000 L120.000,110.000"), "solid edge misplaced:\n{svg}");
    // Hidden edges are dashed, and only drawn when asked for.
    assert!(svg.contains("stroke-dasharray"));
    let plain = vec![view(&edges, [100.0, 100.0], 2.0, false, None, 210.0)];
    let no_hidden = to_svg(&page(297.0, 210.0), &plain, &title(&[]));
    assert!(!no_hidden.contains("stroke-dasharray"), "hidden lines drawn when switched off");
    // A part name with an ampersand must not produce invalid XML.
    assert!(svg.contains("bracket &amp; pin"));
    assert!(!svg.contains("bracket & pin"));
}

/// Sheet coordinates run up from the bottom-left; SVG runs down. A view near the sheet
/// bottom must land near the BOTTOM of the file, not the top.
#[test]
fn svg_flips_the_y_axis() {
    let e = [([0.0, 0.0], [1.0, 0.0], false)];
    let low = to_svg(&page(100.0, 100.0), &vec![view(&e, [50.0, 10.0], 1.0, false, None, 100.0)], &title(&[]));
    assert!(low.contains("M50.000,90.000"), "y not flipped:\n{low}");
}

#[test]
fn without_hidden_strokes_only_what_is_seen_counts() {
    let a = [([0.0, 0.0], [1.0, 0.0], false), ([0.0, 0.0], [5.0, 5.0], true)];
    let b = [([9.0, 9.0], [7.0, 7.0], true), ([0.0, 0.0], [1.0, 0.0], false)];
    let draw = |e: &[([f64; 2], [f64; 2], bool)]| to_svg(&page(100.0, 100.0), &vec![view(e, [50.0, 50.0], 1.0, false, None, 100.0)], &title(&[]));
    assert_eq!(draw(&a), draw(&b));
}

#[test]
fn an_empty_sheet_is_exactly_its_frame() {
    let svg = to_svg(&page(100.0, 50.0), &Vec::new(), &title(&[]));
    assert_eq!(
        svg,
        "<svg xmlns=\"http://www.w3.org/2000/svg\" width=\"100mm\" height=\"50mm\" viewBox=\"0 0 100 50\">\n\
         <rect x=\"0\" y=\"0\" width=\"100%\" height=\"100%\" fill=\"white\"/>\n\
         <rect x=\"10\" y=\"10\" width=\"80.000\" height=\"30.000\" fill=\"none\" stroke=\"black\" stroke-width=\"0.5\"/>\n</svg>\n"
    );
}

#[test]
fn title_rows_are_ruled_below_the_first() {
    let svg = to_svg(&page(297.0, 210.0), &Vec::new(), &title(&[("PART", "a"), ("SCALE", "1:1"), ("DATE", "today")]));
    assert_eq!(svg.matches("<line ").count(), 2);
    assert_eq!(svg.matches("<text ").count(), 6);
}

#[test]
fn dimensions_are_drawn_with_their_heads() {
    let head = |x: f64| Head { tip: at(x, 0.0), left: at(x + 1.0, 1.0), right: at(x + 1.0, -1.0) };
    let text = || Caption { at: at(5.0, 5.0), text: "<10>".to_string() };
    let dims = vec![
        SheetDim::Linear {
            start: head(0.0),
            finish: head(10.0),
            witnesses: [Stroke { from: at(0.0, 9.0), to: at(0.0, 0.0) }, Stroke { from: at(10.0, 9.0), to: at(10.0, 0.0) }],
            text: text(),
        },
        SheetDim::Radial { centre: at(50.0, 50.0), label: at(70.0, 50.0), shoulder: at(76.0, 50.0), near: head(60.0), far: None, text: text() },
        SheetDim::Radial { centre: at(50.0, 50.0), label: at(70.0, 50.0), shoulder: at(76.0, 50.0), near: head(60.0), far: Some(head(40.0)), text: text() },
        SheetDim::Mark { cross: vec![Stroke { from: at(1.0, 1.0), to: at(2.0, 2.0) }], arms: vec![Stroke { from: at(3.0, 3.0), to: at(4.0, 4.0) }] },
    ];
    let svg = to_svg_with_dims(&page(100.0, 100.0), &Vec::new(), &dims, &title(&[]));
    assert!(svg.contains("<path d=\"M0.000,0.000 L10.000,0.000\""), "no dimension line:\n{svg}");
    assert_eq!(svg.matches("<polygon ").count(), 2 + 1 + 2);
    // A radius leads from the centre, a diameter clean across from the far rim.
    assert!(svg.contains("M50.000,50.000 L70.000,50.000"));
    assert!(svg.contains("M40.000,0.000 L70.000,50.000"));
    assert!(svg.contains("M3.000,3.000 L4.000,4.000\" fill=\"none\" stroke=\"black\" stroke-width=\"0.2\" stroke-dasharray=\"3,1,0.6,1\"/>"));
    assert!(svg.contains("&lt;10&gt;"));
}

#[test]
fn lengths_are_trimmed() {
    assert_eq!(format_dim(1000), "10");
    assert_eq!(format_dim(1050), "10.5");
    assert_eq!(format_dim(1025), "10.25");
    assert_eq!(format_dim(-1025), "-10.25");
    assert_eq!(format_dim(5), "0.05");
    assert_eq!(format_dim(0), "0");
}

#[test]
fn metacharacters_are_escaped() {
    assert_eq!(xml_escape("a<b>&\"c'"), "a&lt;b&gt;&amp;&quot;c&apos;");
    assert_eq!(xml_escape("plain"), "plain");
}

// ---- runs ----

#[test]
fn empty_input_is_safe() {
    // No triangle hides anything, and a sheet without views is still a sheet.
    let g = DepthGrid::build(1, 1, Vec::new());
    assert!(!g.occluded(0, 0, &|_: usize| true));
    assert!(closed_chains(&Vec::new(), 0).is_empty());
    assert!(list_candidates(&Vec::new(), 0).is_empty());
    assert!(to_svg(&page(10.0, 10.0), &Vec::new(), &title(&[])).ends_with("</svg>\n"));
}

#[test]
fn an_edge_splits_where_it_passes_behind_something() {
    let runs = split_runs(&vec![false, false, true, true, false]);
    assert_eq!(
        runs,
        vec![Run { from: 0, to: 2, hidden: false }, Run { from: 2, to: 4, hidden: true }]
    );
    assert_eq!(split_runs(&vec![true, true]), vec![Run { from: 0, to: 1, hidden: true }]);
    assert_eq!(sample_count(0), 2);
    assert_eq!(sample_count(24), 24);
}

// ---- targets ----

#[derive(Clone, Copy)]
struct Target {
    kind: RefKind,
    model: V3,
    hidden: bool,
}

fn dist(a: V3, b: V3) -> f64 {
    ((a[0] - b[0]).powi(2) + (a[1] - b[1]).powi(2) + (a[2] - b[2]).powi(2)).sqrt()
}

fn mid(a: V3, b: V3) -> V3 {
    [(a[0] + b[0]) * 0.5, (a[1] + b[1]) * 0.5, (a[2] + b[2]) * 0.5]
}

fn normal(p: &[V3], t: Tri) -> V3 {
    let (a, b, c) = (p[t.a], p[t.b], p[t.c]);
    let (u, v) = ([b[0] - a[0], b[1] - a[1], b[2] - a[2]], [c[0] - a[0], c[1] - a[1], c[2] - a[2]]);
    let n = [u[1] * v[2] - u[2] * v[1], u[2] * v[0] - u[0] * v[2], u[0] * v[1] - u[1] * v[0]];
    let l = (n[0] * n[0] + n[1] * n[1] + n[2] * n[2]).sqrt();
    [n[0] / l, n[1] / l, n[2] / l]
}

/// The sharp edges of a mesh.
fn sharp_edges(points: &[V3], tris: &Vec<Tri>) -> Vec<(usize, usize)> {
    let et = edge_table(tris);
    let mut out = Vec::new();
    for e in 0..et.ends.len() {
        let u = &et.uses[e];
        let (p, q) = (normal(points, tris[u[0]]), normal(points, tris[u[1]]));
        let d = p[0] * q[0] + p[1] * q[1] + p[2] * q[2];
        if classify_edge(u.len(), d < 0.7, d < 0.999, true) == EdgeClass::Sharp {
            out.push(et.ends[e]);
        }
    }
    out
}

/// A box `w` x `d` x `h`: its corners and its edges.
fn box_geom(w: f64, d: f64, h: f64) -> (Vec<V3>, Vec<(usize, usize)>) {
    let ring = [[0.0, 0.0], [w, 0.0], [w, d], [0.0, d]];
    let mut points: Vec<V3> = Vec::new();
    for z in [0.0, h] {
        for p in ring {
            points.push([p[0], p[1], z]);
        }
    }
    let edges = sharp_edges(&points, &prism_tris(4));
    (points, edges)
}

/// What a dimension may attach to, seen from +Z: what lies below the top of the part is hidden
/// where the top covers it.
fn snap_targets(points: &[V3], edges: &[(usize, usize)]) -> Vec<Target> {
    let top = points.iter().fold(f64::MIN, |m, p| m.max(p[2]));
    let short: Vec<bool> = edges.iter().map(|e| dist(points[e.0], points[e.1]) < 1e-6).collect();
    let rims = closed_chains(&edges.to_vec(), points.len());
    let list = list_candidates(&short, rims.len());
    let model = |i: usize| -> V3 {
        let c = list[i];
        match c.kind {
            RefKind::Circle => {
                let r = &rims[c.index];
                let s = r.iter().fold([0.0; 3], |s, &v| [s[0] + points[v][0], s[1] + points[v][1], s[2] + points[v][2]]);
                [s[0] / r.len() as f64, s[1] / r.len() as f64, s[2] / r.len() as f64]
            }
            RefKind::Edge => mid(points[edges[c.index].0], points[edges[c.index].1]),
            RefKind::Vertex => points[if c.second { edges[c.index].1 } else { edges[c.index].0 }],
        }
    };
    let kept = keep_distinct(&list, &|i: usize, j: usize| dist(model(i), model(j)) < 1e-4);
    kept.iter().map(|&i| Target { kind: list[i].kind, model: model(i), hidden: model(i)[2] < top - 1e-6 }).collect()
}

/// A box must offer its eight corners and twelve edge midpoints to attach to.
#[test]
fn snap_targets_cover_a_box() {
    let (points, edges) = box_geom(20.0, 15.0, 10.0);
    let ts = snap_targets(&points, &edges);
    let corners: Vec<&Target> = ts.iter().filter(|t| t.kind == RefKind::Vertex).collect();
    assert_eq!(corners.len(), 8, "expected 8 corners, got {}", corners.len());
    let mids: Vec<&Target> = ts.iter().filter(|t| t.kind == RefKind::Edge).collect();
    assert_eq!(mids.len(), 12, "expected 12 edge midpoints, got {}", mids.len());
    // Every corner of the box is present.
    for c in [
        [0.0, 0.0, 0.0], [20.0, 0.0, 0.0], [20.0, 15.0, 0.0], [0.0, 15.0, 0.0],
        [0.0, 0.0, 10.0], [20.0, 0.0, 10.0], [20.0, 15.0, 10.0], [0.0, 15.0, 10.0],
    ] {
        assert!(corners.iter().any(|t| dist(t.model, c) < 1e-6), "missing corner {c:?}");
    }
    // Corners on the far face are behind the near one.
    assert!(corners.iter().any(|t| t.hidden), "no corner reported hidden");
    assert!(corners.iter().any(|t| !t.hidden), "no corner reported visible");
}

/// A hole's rim must be offered as a circle about its true centre.
#[test]
fn snap_targets_find_a_hole_rim() {
    let n = 48;
    let mut points: Vec<V3> = Vec::new();
    let mut edges: Vec<(usize, usize)> = Vec::new();
    for z in [0.0, 8.0] {
        let base = points.len();
        for p in [[0.0, 0.0], [40.0, 0.0], [40.0, 40.0], [0.0, 40.0]] {
            points.push([p[0], p[1], z]);
        }
        for k in 0..4 {
            edges.push((base + k, base + (k + 1) % 4));
        }
        let base = points.len();
        for i in 0..n {
            let a = std::f64::consts::TAU * i as f64 / n as f64;
            points.push([20.0 + 6.0 * a.cos(), 20.0 + 6.0 * a.sin(), z]);
        }
        for k in 0..n {
            edges.push((base + k, base + (k + 1) % n));
        }
    }
    for k in 0..4 {
        edges.push((k, 4 + n + k));
    }
    let ts = snap_targets(&points, &edges);
    let circles: Vec<&Target> = ts.iter().filter(|c| c.kind == RefKind::Circle).collect();
    assert_eq!(circles.len(), 2, "the hole rims were not offered as circles");
    let top = circles.iter().find(|c| (c.model[2] - 8.0).abs() < 0.1).expect("no rim on the top face");
    assert!((top.model[0] - 20.0).abs() < 0.05 && (top.model[1] - 20.0).abs() < 0.05, "centre off: {:?}", top.model);
}

fn resolve(ts: &[Target], kind: RefKind, point: V3, tol: f64) -> Option<V3> {
    let kinds: Vec<RefKind> = ts.iter().map(|t| t.kind).collect();
    let away: Vec<f64> = ts.iter().map(|t| dist(t.model, point)).collect();
    let near: Vec<bool> = away.iter().map(|d| *d <= tol).collect();
    resolve_ref(&kinds, kind, &near, &|i: usize, j: usize| away[i] < away[j], &|_: usize, _: usize| false).map(|i| ts[i].model)
}

#[test]
fn distance_leads_and_fit_breaks_ties() {
    let kinds = vec![RefKind::Edge; 3];
    let near = vec![true; 3];
    let find = |away: [u32; 3], skew: [u32; 3]| {
        resolve_ref(&kinds, RefKind::Edge, &near, &|i: usize, j: usize| away[i] < away[j], &|i: usize, j: usize| skew[i] < skew[j])
    };
    // The nearest wins though it is skew and the others are not.
    assert_eq!(find([5, 1, 7], [0, 10, 0]), Some(1));
    // Of those as near as each other the one that fits best does, and then the first.
    assert_eq!(find([4, 4, 4], [3, 9, 2]), Some(2));
    assert_eq!(find([4, 4, 4], [3, 3, 3]), Some(0));
    // What is out of reach or of another kind does not count.
    assert_eq!(resolve_ref(&kinds, RefKind::Vertex, &near, &|_: usize, _: usize| false, &|_: usize, _: usize| false), None);
}

/// A reference taken on one build must resolve to the same feature after the part is rebuilt at a
/// different size, following the geometry to its new position.
#[test]
fn a_reference_follows_the_geometry_through_an_edit() {
    let (p1, e1) = box_geom(20.0, 15.0, 10.0);
    let t1 = snap_targets(&p1, &e1);
    // Attach to the top-front-right corner (20, 0, 10).
    let picked = t1.iter().find(|t| t.kind == RefKind::Vertex && dist(t.model, [20.0, 0.0, 10.0]) < 1e-6).expect("corner not offered");
    // Rebuild 2mm taller and 2mm wider: that corner moves to (22, 0, 12).
    let (p2, e2) = box_geom(22.0, 15.0, 12.0);
    let t2 = snap_targets(&p2, &e2);
    let got = resolve(&t2, RefKind::Vertex, picked.model, 5.0).expect("reference went dangling on a small edit");
    assert!(dist(got, [22.0, 0.0, 12.0]) < 1e-6, "resolved to {got:?}, wanted the moved corner (22, 0, 12)");
    // And emphatically NOT the stale coordinates.
    assert!(dist(got, picked.model) > 1.0, "resolved back to the old position");
}

/// An edit that moves geometry further than the tolerance must go dangling, not silently
/// grab a neighbouring corner and measure something else.
#[test]
fn a_reference_goes_dangling_rather_than_grabbing_a_neighbour() {
    let at = [20.0, 0.0, 10.0];
    // Rebuild far larger, with a tight tolerance: nothing is close enough to be honest.
    let (p2, e2) = box_geom(60.0, 15.0, 40.0);
    let t2 = snap_targets(&p2, &e2);
    assert!(resolve(&t2, RefKind::Vertex, at, 2.0).is_none(), "latched onto a neighbour instead of going dangling");
    // A kind mismatch never resolves either.
    let vertex_only: Vec<Target> = t2.iter().copied().filter(|t| t.kind == RefKind::Vertex).collect();
    assert!(resolve(&vertex_only, RefKind::Edge, at, 100.0).is_none(), "an Edge ref matched a Vertex target");
}

/// A click on the sheet resolves to the target under it, preferring a hole centre over
/// the edges around it, and visible geometry over hidden.
#[test]
fn picking_prefers_the_useful_target() {
    let (points, edges) = box_geom(20.0, 15.0, 10.0);
    let ts = snap_targets(&points, &edges);
    let pick = |sheet: [f64; 2], tol: f64| {
        let flat: Vec<f64> = ts.iter().map(|t| (t.model[0] - sheet[0]).hypot(t.model[1] - sheet[1])).collect();
        let near: Vec<bool> = flat.iter().map(|d| *d <= tol).collect();
        let score: Vec<f64> = (0..ts.len()).map(|i| flat[i] + tol * pick_penalty(ts[i].kind, ts[i].hidden) as f64 / 100.0).collect();
        pick_target(&near, &|i: usize, j: usize| score[i] < score[j]).map(|i| ts[i])
    };
    // The front-top-right corner projects to sheet (20, 15) in this view.
    let hit = pick([20.0, 15.0], 1.0).expect("nothing picked at a corner");
    assert_eq!(hit.kind, RefKind::Vertex, "expected the corner, got {:?}", hit.kind);
    assert!(!hit.hidden, "picked the hidden corner behind the visible one");
    // Far from anything, nothing is picked.
    assert!(pick([500.0, 500.0], 1.0).is_none(), "picked something from far away");
}

#[test]
fn penalties_rank_kinds_and_visibility() {
    assert_eq!(pick_penalty(RefKind::Circle, false), 0);
    assert_eq!(pick_penalty(RefKind::Vertex, false), 15);
    assert_eq!(pick_penalty(RefKind::Edge, false), 35);
    assert_eq!(pick_penalty(RefKind::Circle, true), 50);
    assert_eq!(pick_penalty(RefKind::Edge, true), 85);
}

#[test]
fn of_equal_scores_the_first_is_taken() {
    let score = [3, 1, 1, 2];
    let below = |i: usize, j: usize| score[i] < score[j];
    assert_eq!(pick_target(&vec![true, true, true, true], &below), Some(1));
    assert_eq!(pick_target(&vec![true, false, false, true], &below), Some(3));
    assert_eq!(pick_target(&vec![false; 4], &below), None);
}

#[test]
fn seven_edges_make_no_rim_and_eight_do() {
    let ring = |n: usize| (0..n).map(|k| (k, (k + 1) % n)).collect::<Vec<(usize, usize)>>();
    assert!(closed_chains(&ring(7), 7).is_empty());
    let rims = closed_chains(&ring(8), 8);
    assert_eq!(rims.len(), 1);
    assert_eq!(rims[0].len(), 8);
    // An edge that has shrunk to a point changes nothing.
    let mut stub = ring(8);
    stub.insert(3, (2, 2));
    assert_eq!(closed_chains(&stub, 8), rims);
    // An open chain is no rim.
    let mut open = ring(9);
    open.pop();
    assert!(closed_chains(&open, 9).is_empty());
}

// ---- depth ----

#[test]
fn a_grid_finds_the_triangles_over_a_point() {
    assert_eq!(grid_side(0), 1);
    assert_eq!(grid_side(20), 20);
    assert_eq!(grid_side(5000), 512);
    let g = DepthGrid::build(4, 4, vec![CellBox { x0: 0, x1: 1, y0: 0, y1: 1 }, CellBox { x0: 2, x1: 9, y0: 2, y1: 9 }]);
    assert!(g.occluded(1, 1, &|t: usize| t == 0));
    assert!(!g.occluded(1, 1, &|t: usize| t == 1));
    assert!(g.occluded(3, 3, &|t: usize| t == 1));
    assert!(!g.occluded(-1, 0, &|_: usize| true));
    assert!(!g.occluded(4, 0, &|_: usize| true));
}

#[test]
fn a_hatch_line_runs_between_its_outermost_points() {
    let along = [0.5, -1.0, 2.0];
    let before = |i: usize, j: usize| along[i] < along[j];
    assert_eq!(hatch_ends(3, &before), Some((1, 2)));
    assert_eq!(hatch_ends(1, &before), None);
}

#[test]
fn a_box_has_twelve_sharp_edges() {
    let c: Vec<V3> = (0..8).map(|i| [(i & 1) as f64, ((i >> 1) & 1) as f64, ((i >> 2) & 1) as f64]).collect();
    assert_eq!(sharp_edges(&c, &box_tris()).len(), 12);
}
