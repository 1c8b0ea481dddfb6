use hcad::gears::{gear_outline, gt2_outline, space_ring, GearPoint, PulleyPoint};

#[derive(Clone, Copy)]
struct GearSpec {
    teeth: u32,
    module: f64,
    pressure_angle: f64,
    bore: f64,
    backlash: f64,
}

const DEFAULT: GearSpec = GearSpec { teeth: 20, module: 2.0, pressure_angle: 20.0, bore: 6.0, backlash: 0.0 };

impl GearSpec {
    fn pitch_radius(&self) -> f64 {
        self.module * self.teeth as f64 * 0.5
    }
    fn tip_radius(&self) -> f64 {
        self.pitch_radius() + self.module
    }
    fn root_radius(&self) -> f64 {
        (self.pitch_radius() - 1.25 * self.module).max(0.1)
    }
    fn base_radius(&self) -> f64 {
        self.pitch_radius() * self.pressure_angle.to_radians().cos()
    }
}

fn inv(a: f64) -> f64 {
    a.tan() - a
}

fn half_tooth_angle(s: &GearSpec, rho: f64) -> f64 {
    let rb = s.base_radius();
    let rho = rho.max(rb * (1.0 + 1e-12));
    let a_rho = (rb / rho).clamp(-1.0, 1.0).acos();
    std::f64::consts::PI / (2.0 * s.teeth as f64) + inv(s.pressure_angle.to_radians()) - inv(a_rho) - s.backlash / (2.0 * s.pitch_radius())
}

/// The outline of a gear: the library lists its points, which are placed here.
fn gear_profile(s: &GearSpec, steps: usize) -> Option<Vec<[f64; 2]>> {
    if s.module <= 0.0 || !(1.0..=45.0).contains(&s.pressure_angle) {
        return None;
    }
    let (rb, rf) = (s.base_radius(), s.root_radius());
    let mut ra = s.tip_radius();
    if half_tooth_angle(s, ra) <= 1e-3 {
        let (mut lo, mut hi) = (s.pitch_radius(), ra);
        for _ in 0..60 {
            let mid = (lo + hi) * 0.5;
            if half_tooth_angle(s, mid) > 1e-3 {
                lo = mid;
            } else {
                hi = mid;
            }
        }
        ra = lo;
    }
    if ra <= rf + 1e-9 {
        return None;
    }
    let outline = gear_outline(s.teeth, steps, rf < rb)?;
    let used = steps.max(4) as f64;
    let start = rf.max(rb);
    let roll = |rho: f64| ((rho / rb).powi(2) - 1.0).max(0.0).sqrt();
    let (th0, th1) = (roll(start), roll(ra));
    let pitch = std::f64::consts::TAU / s.teeth as f64;
    let (h_root, h_tip) = (half_tooth_angle(s, start), half_tooth_angle(s, ra));
    let at = |rho: f64, ang: f64| [rho * ang.cos(), rho * ang.sin()];
    let side = |leading: bool| if leading { -1.0 } else { 1.0 };
    let pts: Vec<[f64; 2]> = outline
        .iter()
        .map(|p| match *p {
            GearPoint::Root { tooth, leading } => at(rf, pitch * tooth as f64 + side(leading) * h_root),
            GearPoint::Base { tooth, leading } => at(rb, pitch * tooth as f64 + side(leading) * h_root),
            GearPoint::Flank { tooth, leading, step } => {
                let th = th0 + (th1 - th0) * step as f64 / used;
                let rho = (rb * (1.0 + th * th).sqrt()).clamp(start, ra);
                at(rho, pitch * tooth as f64 + side(leading) * half_tooth_angle(s, rho))
            }
            GearPoint::Tip { tooth, third } => at(ra, pitch * tooth as f64 - h_tip + 2.0 * h_tip * third as f64 / 3.0),
            GearPoint::Gap { tooth, third } => at(rf, pitch * tooth as f64 + h_root + (pitch - 2.0 * h_root) * third as f64 / 3.0),
        })
        .collect();
    let min_gap = ra * 4e-3;
    let far = |i: usize, j: usize| (pts[j][0] - pts[i][0]).hypot(pts[j][1] - pts[i][1]) >= min_gap;
    space_ring(pts.len(), &far).map(|r| r.iter().map(|&i| pts[i]).collect())
}

#[test]
fn no_segment_is_short_enough_for_the_mesh_welder_to_swallow() {
    // Across the range of gears the panel can produce, not just the default.
    for teeth in [8_u32, 12, 20, 37, 60, 120] {
        for module in [0.5_f64, 1.0, 2.0, 6.0] {
            for pa in [14.5_f64, 20.0, 25.0] {
                let g = GearSpec { teeth, module, pressure_angle: pa, bore: module * 2.0, backlash: 0.0 };
                let outer = match gear_profile(&g, 24) {
                    Some(o) => o,
                    None => continue,
                };
                // What the mesh kernel would weld: 2e-4 of the bounding diagonal.
                let weld = 2.0 * g.tip_radius() * std::f64::consts::SQRT_2 * 2.0e-4;
                let n = outer.len();
                for k in 0..n {
                    let (a, b) = (outer[k], outer[(k + 1) % n]);
                    let d = (b[0] - a[0]).hypot(b[1] - a[1]);
                    assert!(d > weld * 2.0, "{teeth}T m{module} PA{pa}: segment {k} is {d:.3e} mm, at or under the {weld:.3e} mm weld tolerance");
                }
            }
        }
    }
}

/// Thinning must not quietly reshape the gear. The area has to stay where the standard
/// numbers put it, and each tooth must still reach the tip circle exactly once.
#[test]
fn thinning_short_segments_leaves_the_gear_intact() {
    let g = DEFAULT;
    let outer = gear_profile(&g, 24).expect("profile");
    let (rf, ra) = (g.root_radius(), g.tip_radius());
    let mut a = 0.0;
    for i in 0..outer.len() {
        let (u, v) = (outer[i], outer[(i + 1) % outer.len()]);
        a += (u[0] * v[1] - v[0] * u[1]) * 0.5;
    }
    let (lo, hi) = (std::f64::consts::PI * rf * rf, std::f64::consts::PI * ra * ra);
    assert!(a > lo && a < hi, "area {a:.1} left the root..tip band {lo:.1}..{hi:.1}");
    let mut runs = 0;
    let mut inside = false;
    for p in outer.iter().chain(outer.first()) {
        let near_tip = p[0].hypot(p[1]) > ra - (ra - rf) * 0.02;
        if near_tip && !inside {
            runs += 1;
        }
        inside = near_tip;
    }
    assert_eq!(runs, g.teeth, "thinning lost or merged teeth: {runs} tip runs");
}

/// Nonsense specs decline rather than produce junk.
#[test]
fn impossible_gears_are_refused() {
    let g = DEFAULT;
    assert!(gear_profile(&GearSpec { teeth: 2, ..g }, 12).is_none(), "2 teeth isn't a gear");
    assert!(gear_profile(&GearSpec { module: 0.0, ..g }, 12).is_none());
    assert!(gear_profile(&GearSpec { pressure_angle: 0.0, ..g }, 12).is_none());
    assert!(gear_outline(2, 12, true).is_none());
    assert!(gear_outline(3, 12, true).is_some());
    assert!(gt2_outline(5, 8).is_none());
    assert!(gt2_outline(6, 8).is_some());
}

#[test]
fn an_outline_has_its_exact_points() {
    let o = gear_outline(3, 4, false).expect("outline");
    assert_eq!(o.len(), 3 * (2 * 4 + 8));
    assert_eq!(o[0], GearPoint::Root { tooth: 0, leading: true });
    assert_eq!(o[1], GearPoint::Flank { tooth: 0, leading: true, step: 0 });
    assert_eq!(o[6], GearPoint::Tip { tooth: 0, third: 1 });
    assert_eq!(o[8], GearPoint::Flank { tooth: 0, leading: false, step: 4 });
    assert_eq!(o[15], GearPoint::Gap { tooth: 0, third: 2 });
    // A low root adds a point where each flank starts.
    assert_eq!(gear_outline(3, 4, true).expect("outline").len(), 3 * (2 * 4 + 10));
    // Few steps are raised to four.
    assert_eq!(gear_outline(3, 1, false).expect("outline").len(), o.len());
}

/// Mirrored, a tooth reads the same from its other side.
#[test]
fn teeth_read_the_same_from_both_sides() {
    let o = gear_outline(3, 5, true).expect("outline");
    let tooth = &o[..20 - 2];
    for (i, p) in tooth.iter().enumerate() {
        let q = tooth[tooth.len() - 1 - i];
        let same = match (*p, q) {
            (GearPoint::Root { leading: a, .. }, GearPoint::Root { leading: b, .. }) => a != b,
            (GearPoint::Base { leading: a, .. }, GearPoint::Base { leading: b, .. }) => a != b,
            (GearPoint::Flank { leading: a, step: s, .. }, GearPoint::Flank { leading: b, step: t, .. }) => a != b && s == t,
            (GearPoint::Tip { third: a, .. }, GearPoint::Tip { third: b, .. }) => a + b == 3,
            _ => false,
        };
        assert!(same, "point {i}: {p:?} against {q:?}");
    }
}

#[test]
fn a_pulley_alternates_lands_and_grooves() {
    let o = gt2_outline(6, 8).expect("outline");
    assert!(matches!(o[0], PulleyPoint::Land { tooth: 0, .. }));
    let lands = o.iter().filter(|p| matches!(p, PulleyPoint::Land { .. })).count();
    assert_eq!(lands % 6, 0);
    assert!(o.iter().any(|p| matches!(p, PulleyPoint::Groove { tooth: 5, .. })));
}

#[test]
fn close_points_are_left_out() {
    let at = [0.0, 0.1, 1.0, 2.0, 3.0, 0.05];
    let far = |i: usize, j: usize| ((at[i] - at[j]) as f64).abs() >= 0.5;
    assert_eq!(space_ring(6, &far), Some(vec![0, 2, 3, 4, 5][..4].to_vec()));
    assert_eq!(space_ring(2, &far), None);
}

fn enclosed(outline: &[[f64; 2]]) -> f64 {
    let n = outline.len();
    (0..n).map(|i| outline[i][0] * outline[(i + 1) % n][1] - outline[(i + 1) % n][0] * outline[i][1]).sum::<f64>() * 0.5
}

#[test]
fn a_pointed_tooth_is_trimmed_not_crossed() {
    let g = GearSpec { teeth: 5, module: 3.0, pressure_angle: 20.0, bore: 0.0, backlash: 0.0 };
    let outer = gear_profile(&g, 10).expect("even a 5-tooth gear should build");
    assert!(enclosed(&outer) > 0.0, "the trimmed profile wound the wrong way");
    let ra = g.tip_radius();
    for p in &outer {
        assert!((p[0] * p[0] + p[1] * p[1]).sqrt() <= ra + 1e-6);
    }
    let max_step = std::f64::consts::TAU / g.teeth as f64 * ra * 1.5;
    for w in outer.windows(2) {
        let d = (w[1][0] - w[0][0]).hypot(w[1][1] - w[0][1]);
        assert!(d < max_step, "a {d:.2}mm jump suggests the profile crossed itself");
    }
}

#[test]
fn backlash_thins_the_teeth_only() {
    let tight = GearSpec { backlash: 0.0, ..DEFAULT };
    let loose = GearSpec { backlash: 0.2, ..tight };
    assert!((tight.pitch_radius() - loose.pitch_radius()).abs() < 1e-12, "backlash moved the pitch circle");
    let a1 = enclosed(&gear_profile(&tight, 12).unwrap());
    let a2 = enclosed(&gear_profile(&loose, 12).unwrap());
    assert!(a2 < a1, "backlash should remove material ({a2:.2} vs {a1:.2})");
    assert!(a2 > a1 * 0.9, "backlash removed far too much ({a2:.2} vs {a1:.2})");
}
