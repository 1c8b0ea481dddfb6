use hcad::icons::{prims, Icon, Mark, Prim};

const ALL: [(&str, Icon); 43] = [
    ("Select", Icon::Select),
    ("Line", Icon::Line),
    ("Circle", Icon::Circle),
    ("Arc", Icon::Arc),
    ("Rectangle", Icon::Rectangle),
    ("Slot", Icon::Slot),
    ("Polygon", Icon::Polygon),
    ("Spline", Icon::Spline),
    ("Text", Icon::Text),
    ("Dimension", Icon::Dimension),
    ("Pattern", Icon::Pattern),
    ("Mirror", Icon::Mirror),
    ("Trim", Icon::Trim),
    ("ConstructionLine", Icon::ConstructionLine),
    ("MidpointLine", Icon::MidpointLine),
    ("CenterLine", Icon::CenterLine),
    ("PerimeterCircle", Icon::PerimeterCircle),
    ("CenterRectangle", Icon::CenterRectangle),
    ("Parallelogram", Icon::Parallelogram),
    ("SplineThrough", Icon::SplineThrough),
    ("SplineControl", Icon::SplineControl),
    ("CenterpointSlot", Icon::CenterpointSlot),
    ("ArcSlot", Icon::ArcSlot),
    ("FillPattern", Icon::FillPattern),
    ("PowerTrim", Icon::PowerTrim),
    ("TrimCorner", Icon::TrimCorner),
    ("Boss", Icon::Boss),
    ("Revolve", Icon::Revolve),
    ("Loft", Icon::Loft),
    ("Sweep", Icon::Sweep),
    ("Cut", Icon::Cut),
    ("RevolveCut", Icon::RevolveCut),
    ("LoftCut", Icon::LoftCut),
    ("SweepCut", Icon::SweepCut),
    ("Hole", Icon::Hole),
    ("Fillet", Icon::Fillet),
    ("Chamfer", Icon::Chamfer),
    ("Shell", Icon::Shell),
    ("LinearPattern", Icon::LinearPattern),
    ("CircularPattern", Icon::CircularPattern),
    ("MirrorFeature", Icon::MirrorFeature),
    ("Plane", Icon::Plane),
    ("Sketch", Icon::Sketch),
];

fn unit(q: (i32, i32)) -> [f32; 2] {
    [q.0 as f32 / 1000.0, q.1 as f32 / 1000.0]
}

fn on_rim(c: [f32; 2], r: f32, degrees: f32) -> [f32; 2] {
    let a = degrees.to_radians();
    [c[0] + r * a.cos(), c[1] + r * a.sin()]
}

/// The points that a mark is drawn through.
fn points(m: Mark) -> Vec<[f32; 2]> {
    let len = |v: i32| v as f32 / 1000.0;
    match m {
        Mark::Dot(c) => vec![unit(c)],
        Mark::Circle(c, r) | Mark::DashRing(c, r) => {
            let (c, r) = (unit(c), len(r));
            vec![[c[0] - r, c[1] - r], [c[0] + r, c[1] + r]]
        }
        Mark::Arc(c, r, a0, a1) => (0..=24).map(|i| on_rim(unit(c), len(r), a0 as f32 + (a1 - a0) as f32 * i as f32 / 24.0)).collect(),
        Mark::Head(tip, tail) => {
            let (t, f) = (unit(tip), unit(tail));
            let d = [t[0] - f[0], t[1] - f[1]];
            let n = (d[0] * d[0] + d[1] * d[1]).sqrt();
            let (ux, uy) = (d[0] / n, d[1] / n);
            let b = [t[0] - ux * 0.2, t[1] - uy * 0.2];
            vec![t, [b[0] - uy * 0.085, b[1] + ux * 0.085], [b[0] + uy * 0.085, b[1] - ux * 0.085]]
        }
        Mark::Ngon(c, r, n, a) => (0..n).map(|k| on_rim(unit(c), len(r), a as f32 + 360.0 * k as f32 / n as f32)).collect(),
        Mark::Curve(p0, p1, p2, p3, _) => {
            let (p0, p1, p2, p3) = (unit(p0), unit(p1), unit(p2), unit(p3));
            (0..=24)
                .map(|i| {
                    let t = i as f32 / 24.0;
                    let s = 1.0 - t;
                    let w = [s * s * s, 3.0 * s * s * t, 3.0 * s * t * t, t * t * t];
                    let at = |k: usize| w[0] * p0[k] + w[1] * p1[k] + w[2] * p2[k] + w[3] * p3[k];
                    [at(0), at(1)]
                })
                .collect()
        }
        Mark::RimDot(c, r, a) => vec![on_rim(unit(c), len(r), a as f32)],
        Mark::RimBox(c, r, a, half) => {
            let q = on_rim(unit(c), len(r), a as f32);
            vec![[q[0] - len(half), q[1] - len(half)], [q[0] + len(half), q[1] + len(half)]]
        }
    }
}

/// Every icon must actually draw something, and stay inside the unit box (a stray
/// coordinate would clip against the neighbouring button).
#[test]
fn icons_are_non_empty_and_in_bounds() {
    for (name, icon) in ALL {
        let ps = prims(icon);
        assert!(!ps.is_empty(), "{name} draws nothing");
        for prim in ps {
            let pts: Vec<[f32; 2]> = match prim {
                Prim::Path(v, _) | Prim::Dash(v) | Prim::Fill(v) => v.into_iter().map(unit).collect(),
                Prim::Mark(m) => points(m),
            };
            for q in pts {
                assert!(
                    (-0.02..=1.02).contains(&q[0]) && (-0.02..=1.02).contains(&q[1]),
                    "{name} has a point outside the unit box: {q:?}"
                );
            }
        }
    }
}

#[test]
fn different_icons_look_different() {
    let mut seen: Vec<String> = Vec::new();
    for (name, icon) in ALL {
        // The two mirrors share their artwork.
        if icon == Icon::MirrorFeature {
            continue;
        }
        let art = format!("{:?}", prims(icon));
        assert!(!seen.contains(&art), "{name} looks like another icon");
        seen.push(art);
    }
}
