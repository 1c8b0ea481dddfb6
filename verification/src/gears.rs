//! Outlines of gears and belt pulleys.
//!
//! An outline is a list of named points, tooth by tooth; where each stands is worked out from the
//! gear's measurements. Points that would fall too close together are left out.

use vstd::prelude::*;

use crate::rings::{decides, says};

verus! {

/// A gear needs this many teeth.
pub const MIN_GEAR_TEETH: u32 = 3;

/// A pulley needs this many grooves.
pub const MIN_PULLEY_TEETH: u32 = 6;

/// A point of a gear's outline. The leading flank is the one that comes first.
#[derive(Clone, Copy, PartialEq, Eq, Structural, Debug)]
pub enum GearPoint {
    /// At the foot of a flank, on the root circle.
    Root { tooth: u32, leading: bool },
    /// Where a flank starts, on the base circle.
    Base { tooth: u32, leading: bool },
    /// On a flank, counted from its foot.
    Flank { tooth: u32, leading: bool, step: usize },
    /// On the tip, in thirds of it.
    Tip { tooth: u32, third: u8 },
    /// In the gap after a tooth, in thirds of it.
    Gap { tooth: u32, third: u8 },
}

/// A point of a pulley's outline.
#[derive(Clone, Copy, PartialEq, Eq, Structural, Debug)]
pub enum PulleyPoint {
    /// On the land before a groove, in thirds of it.
    Land { tooth: u32, third: u8 },
    /// In the groove after the land, in steps along its arc.
    Groove { tooth: u32, step: usize },
}

/// Where a flank starts: on the base circle, if the root lies below that.
pub open spec fn foot(tooth: u32, leading: bool, low_root: bool) -> Seq<GearPoint> {
    if low_root {
        if leading {
            seq![GearPoint::Root { tooth, leading }, GearPoint::Base { tooth, leading }]
        } else {
            seq![GearPoint::Base { tooth, leading }, GearPoint::Root { tooth, leading }]
        }
    } else {
        seq![GearPoint::Root { tooth, leading }]
    }
}

/// A flank of `steps` steps, up if it leads, down if it trails.
pub open spec fn flank(tooth: u32, leading: bool, steps: int) -> Seq<GearPoint> {
    Seq::new(
        (steps + 1) as nat,
        |s: int|
            GearPoint::Flank {
                tooth,
                leading,
                step: (if leading {
                    s
                } else {
                    steps - s
                }) as usize,
            },
    )
}

/// A tooth, up one flank, across the tip and down the other.
pub open spec fn tooth_points(tooth: u32, steps: int, low_root: bool) -> Seq<GearPoint> {
    foot(tooth, true, low_root) + flank(tooth, true, steps) + seq![
        GearPoint::Tip { tooth, third: 1 },
        GearPoint::Tip { tooth, third: 2 },
    ] + flank(tooth, false, steps) + foot(tooth, false, low_root)
}

/// The outline over the first `n` teeth, each with the gap after it.
pub open spec fn gear(n: int, steps: int, low_root: bool) -> Seq<GearPoint>
    decreases n,
{
    if n <= 0 {
        Seq::empty()
    } else {
        let tooth = (n - 1) as u32;
        gear(n - 1, steps, low_root) + tooth_points(tooth, steps, low_root) + seq![
            GearPoint::Gap { tooth, third: 1 },
            GearPoint::Gap { tooth, third: 2 },
        ]
    }
}

fn put_foot(out: &mut Vec<GearPoint>, tooth: u32, leading: bool, low_root: bool)
    ensures
        final(out)@ == old(out)@ + foot(tooth, leading, low_root),
{
    if low_root && !leading {
        out.push(GearPoint::Base { tooth, leading });
    }
    out.push(GearPoint::Root { tooth, leading });
    if low_root && leading {
        out.push(GearPoint::Base { tooth, leading });
    }
    assert(out@ =~= old(out)@ + foot(tooth, leading, low_root));
}

#[verifier::loop_isolation(false)]
fn put_flank(out: &mut Vec<GearPoint>, tooth: u32, leading: bool, steps: usize)
    requires
        steps < usize::MAX,
    ensures
        final(out)@ == old(out)@ + flank(tooth, leading, steps as int),
{
    let ghost before = out@;
    let mut s: usize = 0;
    while s <= steps
        invariant
            s <= steps + 1,
            out@ == before + flank(tooth, leading, steps as int).take(s as int),
        decreases steps + 1 - s,
    {
        let step: usize = if leading {
            s
        } else {
            steps - s
        };
        out.push(GearPoint::Flank { tooth, leading, step });
        s = s + 1;
        assert(out@ =~= before + flank(tooth, leading, steps as int).take(s as int));
    }
    assert(flank(tooth, leading, steps as int).take(s as int) =~= flank(tooth, leading, steps as int));
}

/// The steps that a flank is drawn in.
pub open spec fn flank_steps(steps: usize) -> int {
    if steps < 4 {
        4
    } else {
        steps as int
    }
}

/// The points of a gear's outline, counter-clockwise. `low_root` tells whether the root circle lies
/// inside the base circle. There is no outline with too few teeth.
#[verifier::loop_isolation(false)]
#[verifier::spinoff_prover]
#[verifier::rlimit(30)]
pub fn gear_outline(teeth: u32, steps: usize, low_root: bool) -> (out: Option<Vec<GearPoint>>)
    requires
        steps < usize::MAX,
    ensures
        out is None <==> teeth < MIN_GEAR_TEETH,
        out matches Some(v) ==> v@ == gear(teeth as int, flank_steps(steps), low_root),
        out is None <==> teeth < 3,
        out matches Some(v) ==> forall|p: GearPoint| #[trigger] v@.contains(p) <==> on_gear(p, teeth as int, flank_steps(steps), low_root),
        out matches Some(v) ==> forall|i: int, j: int|
            0 <= i < j < v@.len() ==> gear_before(#[trigger] v@[i], #[trigger] v@[j], flank_steps(steps)),
{
    if teeth < MIN_GEAR_TEETH {
        return None;
    }
    let steps: usize = if steps < 4 {
        4
    } else {
        steps
    };
    let mut out: Vec<GearPoint> = Vec::new();
    let mut tooth: u32 = 0;
    while tooth < teeth
        invariant
            tooth <= teeth,
            out@ == gear(tooth as int, steps as int, low_root),
        decreases teeth - tooth,
    {
        put_foot(&mut out, tooth, true, low_root);
        put_flank(&mut out, tooth, true, steps);
        out.push(GearPoint::Tip { tooth, third: 1 });
        out.push(GearPoint::Tip { tooth, third: 2 });
        put_flank(&mut out, tooth, false, steps);
        put_foot(&mut out, tooth, false, low_root);
        out.push(GearPoint::Gap { tooth, third: 1 });
        out.push(GearPoint::Gap { tooth, third: 2 });
        assert(out@ =~= gear(tooth + 1, steps as int, low_root));
        tooth = tooth + 1;
    }
    proof {
        gear_goes_round(teeth as int, steps as int, low_root);
    }
    Some(out)
}

/// The same point of the other flank.
pub open spec fn mirrored(p: GearPoint) -> GearPoint {
    match p {
        GearPoint::Root { tooth, leading } => GearPoint::Root { tooth, leading: !leading },
        GearPoint::Base { tooth, leading } => GearPoint::Base { tooth, leading: !leading },
        GearPoint::Flank { tooth, leading, step } => GearPoint::Flank { tooth, leading: !leading, step },
        GearPoint::Tip { tooth, third } => GearPoint::Tip { tooth, third: (3 - third) as u8 },
        GearPoint::Gap { tooth, third } => GearPoint::Gap { tooth, third: (3 - third) as u8 },
    }
}

/// A tooth is the same from both sides.
pub proof fn teeth_are_symmetric(tooth: u32, steps: int, low_root: bool, i: int)
    requires
        0 <= steps <= usize::MAX,
        0 <= i < tooth_points(tooth, steps, low_root).len(),
    ensures
        ({
            let pts = tooth_points(tooth, steps, low_root);
            pts[pts.len() - 1 - i] == mirrored(pts[i])
        }),
{
}

/// Every tooth takes as many points as every other.
pub proof fn gear_length(n: int, steps: int, low_root: bool)
    requires
        0 <= n,
        0 <= steps,
    ensures
        gear(n, steps, low_root).len() == n * (2 * steps + if low_root {
            10int
        } else {
            8
        }),
    decreases n,
{
    let per = 2 * steps + if low_root {
        10int
    } else {
        8
    };
    if n > 0 {
        gear_length(n - 1, steps, low_root);
        assert(n * per == (n - 1) * per + per) by (nonlinear_arith);
    } else {
        assert(n * per == 0) by (nonlinear_arith)
            requires
                n == 0,
        ;
    }
}

/// The outline of a pulley over its first `n` grooves: a land, then the arc of a groove without its
/// ends.
pub open spec fn pulley(n: int, steps: int) -> Seq<PulleyPoint>
    decreases n,
{
    if n <= 0 {
        Seq::empty()
    } else {
        let tooth = (n - 1) as u32;
        pulley(n - 1, steps) + Seq::new(4, |k: int| PulleyPoint::Land { tooth, third: k as u8 }) + Seq::new(
            (steps - 1) as nat,
            |k: int| PulleyPoint::Groove { tooth, step: (k + 1) as usize },
        )
    }
}

/// The steps that a groove is drawn in.
pub open spec fn groove_steps(steps: usize) -> int {
    if steps < 6 {
        6
    } else {
        steps as int
    }
}

/// The points of a pulley's outline, counter-clockwise. There is no outline with too few grooves.
#[verifier::loop_isolation(false)]
pub fn gt2_outline(teeth: u32, steps: usize) -> (out: Option<Vec<PulleyPoint>>)
    ensures
        out is None <==> teeth < MIN_PULLEY_TEETH,
        out matches Some(v) ==> v@ == pulley(teeth as int, groove_steps(steps)),
        out is None <==> teeth < 6,
        out matches Some(v) ==> forall|p: PulleyPoint| #[trigger] v@.contains(p) <==> on_pulley(p, teeth as int, groove_steps(steps)),
        out matches Some(v) ==> forall|i: int, j: int| 0 <= i < j < v@.len() ==> pulley_before(#[trigger] v@[i], #[trigger] v@[j]),
{
    if teeth < MIN_PULLEY_TEETH {
        return None;
    }
    let steps: usize = if steps < 6 {
        6
    } else {
        steps
    };
    let mut out: Vec<PulleyPoint> = Vec::new();
    let mut tooth: u32 = 0;
    while tooth < teeth
        invariant
            tooth <= teeth,
            out@ == pulley(tooth as int, steps as int),
        decreases teeth - tooth,
    {
        let ghost before = out@;
        let ghost land = Seq::new(4, |k: int| PulleyPoint::Land { tooth, third: k as u8 });
        out.push(PulleyPoint::Land { tooth, third: 0 });
        out.push(PulleyPoint::Land { tooth, third: 1 });
        out.push(PulleyPoint::Land { tooth, third: 2 });
        out.push(PulleyPoint::Land { tooth, third: 3 });
        assert(out@ =~= before + land);
        let mut k: usize = 1;
        assert(out@ =~= before + land + Seq::new(0, |k: int| PulleyPoint::Groove { tooth, step: (k + 1) as usize }));
        while k < steps
            invariant
                1 <= k <= steps,
                out@ == before + land + Seq::new((k - 1) as nat, |k: int| PulleyPoint::Groove { tooth, step: (k + 1) as usize }),
            decreases steps - k,
        {
            out.push(PulleyPoint::Groove { tooth, step: k });
            k = k + 1;
            assert(out@ =~= before + land + Seq::new((k - 1) as nat, |k: int| PulleyPoint::Groove { tooth, step: (k + 1) as usize }));
        }
        tooth = tooth + 1;
    }
    proof {
        pulley_goes_round(teeth as int, steps as int);
    }
    Some(out)
}

// ---- spacing the points ----

/// The first `n` points without those too close to the point kept before them.
pub open spec fn spread<F: Fn(usize, usize) -> bool>(far: F, n: int) -> Seq<usize>
    decreases n,
{
    if n <= 0 {
        Seq::empty()
    } else {
        let kept = spread(far, n - 1);
        if kept.len() > 0 && !says(far, kept.last(), (n - 1) as usize) {
            kept
        } else {
            kept.push((n - 1) as usize)
        }
    }
}

/// The ring without the points at its end that are too close to its first, while more than three
/// are left.
pub open spec fn closed_up<F: Fn(usize, usize) -> bool>(far: F, kept: Seq<usize>) -> Seq<usize>
    decreases kept.len(),
{
    if kept.len() > 3 && !says(far, kept.last(), kept[0]) {
        closed_up(far, kept.drop_last())
    } else {
        kept
    }
}

/// Leave out points of a ring of `n` that are too close together. `far` tells whether two points are
/// far enough apart. Nothing is left of a ring that shrinks below three points.
#[verifier::loop_isolation(false)]
pub fn space_ring<F: Fn(usize, usize) -> bool>(n: usize, far: &F) -> (ring: Option<Vec<usize>>)
    requires
        decides(*far, n as int, n as int),
    ensures
        ring is None <==> closed_up(*far, spread(*far, n as int)).len() < 3,
        ring matches Some(r) ==> r@ == closed_up(*far, spread(*far, n as int)),
{
    let mut kept: Vec<usize> = Vec::new();
    let mut i: usize = 0;
    while i < n
        invariant
            i <= n,
            kept@ == spread(*far, i as int),
            forall|k: int| 0 <= k < kept@.len() ==> (#[trigger] kept@[k]) < i,
        decreases n - i,
    {
        if kept.len() == 0 {
            kept.push(i);
        } else {
            let last: usize = kept[kept.len() - 1];
            let ok: bool = far(last, i);
            assert(ok <==> says(*far, last, i));
            if ok {
                kept.push(i);
            }
        }
        i = i + 1;
    }
    let ghost whole = kept@;
    let mut closing: bool = true;
    while closing && kept.len() > 3
        invariant
            forall|k: int| 0 <= k < kept@.len() ==> (#[trigger] kept@[k]) < n,
            closed_up(*far, whole) == closed_up(*far, kept@),
            !closing ==> closed_up(*far, kept@) == kept@,
        decreases kept@.len() + if closing {
            1nat
        } else {
            0nat
        },
    {
        let last: usize = kept[kept.len() - 1];
        let ok: bool = far(last, kept[0]);
        assert(ok <==> says(*far, last, kept@[0]));
        if ok {
            closing = false;
        } else {
            let ghost before = kept@;
            kept.pop();
            assert(kept@ =~= before.drop_last());
        }
    }
    if kept.len() < 3 {
        None
    } else {
        Some(kept)
    }
}

proof fn spread_is_far<F: Fn(usize, usize) -> bool>(far: F, n: int)
    requires
        n <= usize::MAX,
    ensures
        forall|i: int| 0 < i < spread(far, n).len() ==> #[trigger] far_from_last(far, spread(far, n), i),
    decreases n,
{
    if n > 0 {
        spread_is_far(far, n - 1);
        let kept = spread(far, n - 1);
        let all = spread(far, n);
        assert forall|i: int| 0 < i < all.len() implies #[trigger] far_from_last(far, all, i) by {
            if i < kept.len() {
                assert(far_from_last(far, kept, i));
                assert(all[i] == kept[i] && all[i - 1] == kept[i - 1]);
            }
        }
    }
}

pub open spec fn far_from_last<F: Fn(usize, usize) -> bool>(far: F, ring: Seq<usize>, i: int) -> bool {
    says(far, ring[i - 1], ring[i])
}

proof fn closing_keeps_far<F: Fn(usize, usize) -> bool>(far: F, ring: Seq<usize>)
    requires
        forall|i: int| 0 < i < ring.len() ==> #[trigger] far_from_last(far, ring, i),
    ensures
        forall|i: int| 0 < i < closed_up(far, ring).len() ==> #[trigger] far_from_last(far, closed_up(far, ring), i),
        closed_up(far, ring).len() > 3 ==> says(far, closed_up(far, ring).last(), closed_up(far, ring)[0]),
    decreases ring.len(),
{
    if ring.len() > 3 && !says(far, ring.last(), ring[0]) {
        let less = ring.drop_last();
        assert forall|i: int| 0 < i < less.len() implies #[trigger] far_from_last(far, less, i) by {
            assert(far_from_last(far, ring, i));
        }
        closing_keeps_far(far, less);
    }
}

/// The points that are left are far enough apart all the way round, unless only three are left.
pub proof fn spaced_rings_are_spaced<F: Fn(usize, usize) -> bool>(far: F, n: int, i: int)
    requires
        n <= usize::MAX,
        0 < i < closed_up(far, spread(far, n)).len(),
    ensures
        ({
            let ring = closed_up(far, spread(far, n));
            &&& says(far, ring[i - 1], ring[i])
            &&& ring.len() > 3 ==> says(far, ring.last(), ring[0])
        }),
{
    spread_is_far(far, n);
    closing_keeps_far(far, spread(far, n));
    assert(far_from_last(far, closed_up(far, spread(far, n)), i));
}

// ---- going round ----

/// The tooth that a point of a gear belongs to.
pub open spec fn gear_tooth(p: GearPoint) -> u32 {
    match p {
        GearPoint::Root { tooth, .. } => tooth,
        GearPoint::Base { tooth, .. } => tooth,
        GearPoint::Flank { tooth, .. } => tooth,
        GearPoint::Tip { tooth, .. } => tooth,
        GearPoint::Gap { tooth, .. } => tooth,
    }
}

/// How far round its tooth a point of a gear lies: out from the root by the leading flank, over the
/// tip, in by the trailing flank to the root, and on through the gap.
pub open spec fn gear_place(p: GearPoint, steps: int) -> int {
    match p {
        GearPoint::Root { leading, .. } => if leading {
            -2
        } else {
            2 * steps + 5
        },
        GearPoint::Base { leading, .. } => if leading {
            -1
        } else {
            2 * steps + 4
        },
        GearPoint::Flank { leading, step, .. } => if leading {
            step as int
        } else {
            2 * steps + 3 - step
        },
        GearPoint::Tip { third, .. } => steps + third,
        GearPoint::Gap { third, .. } => 2 * steps + 5 + third,
    }
}

/// Going round the gear, `p` comes before `q`.
pub open spec fn gear_before(p: GearPoint, q: GearPoint, steps: int) -> bool {
    gear_tooth(p) < gear_tooth(q) || gear_tooth(p) == gear_tooth(q) && gear_place(p, steps) < gear_place(q, steps)
}

/// A gear of `n` teeth has this point: the foot of each flank, its steps from the foot to the tip, and
/// the inner thirds of the tip and of the gap. A flank starts on the base circle only where the root
/// lies below that.
pub open spec fn on_gear(p: GearPoint, n: int, steps: int, low_root: bool) -> bool {
    gear_tooth(p) < n && match p {
        GearPoint::Root { .. } => true,
        GearPoint::Base { .. } => low_root,
        GearPoint::Flank { step, .. } => step <= steps,
        GearPoint::Tip { third, .. } => third == 1 || third == 2,
        GearPoint::Gap { third, .. } => third == 1 || third == 2,
    }
}

/// The outline of a gear goes round it once and never back, and passes every point that the gear has.
#[verifier::rlimit(60)]
#[verifier::spinoff_prover]
pub proof fn gear_goes_round(n: int, steps: int, low_root: bool)
    requires
        0 <= n <= u32::MAX,
        0 <= steps <= usize::MAX,
    ensures
        forall|i: int, j: int|
            0 <= i < j < gear(n, steps, low_root).len() ==> gear_before(
                #[trigger] gear(n, steps, low_root)[i],
                #[trigger] gear(n, steps, low_root)[j],
                steps,
            ),
        forall|p: GearPoint| #[trigger] gear(n, steps, low_root).contains(p) <==> on_gear(p, n, steps, low_root),
    decreases n,
{
    let all = gear(n, steps, low_root);
    if n > 0 {
        gear_goes_round(n - 1, steps, low_root);
        let rest = gear(n - 1, steps, low_root);
        let tooth = (n - 1) as u32;
        let gap = seq![GearPoint::Gap { tooth, third: 1 }, GearPoint::Gap { tooth, third: 2 }];
        let own = tooth_points(tooth, steps, low_root) + gap;
        assert(all =~= rest + own);
        tooth_goes_round(tooth, steps, low_root);
        assert forall|i: int, j: int| 0 <= i < j < all.len() implies gear_before(#[trigger] all[i], #[trigger] all[j], steps) by {
            if i < rest.len() {
                assert(rest.contains(rest[i]));
                assert(on_gear(all[i], n - 1, steps, low_root));
            }
            if j >= rest.len() {
                assert(own.contains(own[j - rest.len()]));
            } else {
                assert(gear_before(rest[i], rest[j], steps));
            }
            if i >= rest.len() {
                assert(gear_before(own[i - rest.len()], own[j - rest.len()], steps));
            }
        }
        assert forall|p: GearPoint| #[trigger] all.contains(p) <==> on_gear(p, n, steps, low_root) by {
            if all.contains(p) {
                let k = choose|k: int| 0 <= k < all.len() && all[k] == p;
                if k < rest.len() {
                    assert(rest.contains(rest[k]));
                } else {
                    assert(own.contains(own[k - rest.len()]));
                }
            }
            if on_gear(p, n, steps, low_root) {
                if gear_tooth(p) < n - 1 {
                    assert(rest.contains(p));
                    let k = choose|k: int| 0 <= k < rest.len() && rest[k] == p;
                    assert(all[k] == p);
                } else {
                    assert(own.contains(p));
                    let k = choose|k: int| 0 <= k < own.len() && own[k] == p;
                    assert(all[rest.len() + k] == p);
                }
            }
        }
    } else {
        assert forall|p: GearPoint| !#[trigger] all.contains(p) by {}
    }
}

#[verifier::rlimit(60)]
#[verifier::spinoff_prover]
proof fn tooth_goes_round(tooth: u32, steps: int, low_root: bool)
    requires
        0 <= steps <= usize::MAX,
    ensures
        ({
            let own = tooth_points(tooth, steps, low_root) + seq![GearPoint::Gap { tooth, third: 1 }, GearPoint::Gap { tooth, third: 2 }];
            &&& forall|i: int, j: int| 0 <= i < j < own.len() ==> gear_before(#[trigger] own[i], #[trigger] own[j], steps)
            &&& forall|p: GearPoint| #[trigger] own.contains(p) <==> gear_tooth(p) == tooth && on_gear(p, tooth + 1, steps, low_root)
        }),
{
    let own = tooth_points(tooth, steps, low_root) + seq![GearPoint::Gap { tooth, third: 1 }, GearPoint::Gap { tooth, third: 2 }];
    let f = if low_root {
        2int
    } else {
        1
    };
    assert forall|k: int| 0 <= k < own.len() implies gear_tooth(#[trigger] own[k]) == tooth && gear_place(own[k], steps) == place_at(
        k,
        steps,
        low_root,
    ) by {}
    assert forall|p: GearPoint| #[trigger] own.contains(p) <==> gear_tooth(p) == tooth && on_gear(p, tooth + 1, steps, low_root) by {
        if gear_tooth(p) == tooth && on_gear(p, tooth + 1, steps, low_root) {
            let k = match p {
                GearPoint::Root { leading, .. } => if leading {
                    0
                } else {
                    2 * f + 2 * steps + 3
                },
                GearPoint::Base { leading, .. } => if leading {
                    1
                } else {
                    2 * f + 2 * steps + 2
                },
                GearPoint::Flank { leading, step, .. } => if leading {
                    f + step
                } else {
                    f + 2 * steps + 3 - step
                },
                GearPoint::Tip { third, .. } => f + steps + third,
                GearPoint::Gap { third, .. } => 2 * f + 2 * steps + 3 + third,
            };
            assert(own[k] == p);
        }
    }
}

spec fn place_at(k: int, steps: int, low_root: bool) -> int {
    let f = if low_root {
        2int
    } else {
        1
    };
    if k < f {
        k - 2
    } else if k < f + 2 * steps + 4 {
        k - f
    } else if low_root {
        k - 2
    } else {
        k
    }
}

/// Going round a pulley, `p` comes before `q`: over the land, then along the groove after it.
pub open spec fn pulley_before(p: PulleyPoint, q: PulleyPoint) -> bool {
    match (p, q) {
        (PulleyPoint::Land { tooth: s, third: i }, PulleyPoint::Land { tooth: t, third: j }) => s < t || s == t && i < j,
        (PulleyPoint::Land { tooth: s, .. }, PulleyPoint::Groove { tooth: t, .. }) => s <= t,
        (PulleyPoint::Groove { tooth: s, .. }, PulleyPoint::Land { tooth: t, .. }) => s < t,
        (PulleyPoint::Groove { tooth: s, step: i }, PulleyPoint::Groove { tooth: t, step: j }) => s < t || s == t && i < j,
    }
}

/// A pulley of `n` grooves has this point: both ends of each land and its thirds, and the steps along
/// each groove between its ends, which are those of the lands.
pub open spec fn on_pulley(p: PulleyPoint, n: int, steps: int) -> bool {
    match p {
        PulleyPoint::Land { tooth, third } => tooth < n && third <= 3,
        PulleyPoint::Groove { tooth, step } => tooth < n && 1 <= step < steps,
    }
}

/// The outline of a pulley goes round it once and never back, and passes every point that the pulley
/// has: along a groove the steps rise by one from its first to its last.
#[verifier::spinoff_prover]
#[verifier::rlimit(50)]
pub proof fn pulley_goes_round(n: int, steps: int)
    requires
        0 <= n <= u32::MAX,
        1 <= steps <= usize::MAX,
    ensures
        forall|i: int, j: int|
            0 <= i < j < pulley(n, steps).len() ==> pulley_before(#[trigger] pulley(n, steps)[i], #[trigger] pulley(n, steps)[j]),
        forall|p: PulleyPoint| #[trigger] pulley(n, steps).contains(p) <==> on_pulley(p, n, steps),
    decreases n,
{
    let all = pulley(n, steps);
    if n > 0 {
        pulley_goes_round(n - 1, steps);
        let rest = pulley(n - 1, steps);
        let m = rest.len() as int;
        let tooth = (n - 1) as u32;
        assert forall|k: int| m <= k < all.len() implies #[trigger] all[k] == (if k < m + 4 {
            PulleyPoint::Land { tooth, third: (k - m) as u8 }
        } else {
            PulleyPoint::Groove { tooth, step: (k - m - 3) as usize }
        }) by {}
        assert forall|k: int| 0 <= k < m implies #[trigger] all[k] == rest[k] by {}
        assert forall|i: int, j: int| 0 <= i < j < all.len() implies pulley_before(#[trigger] all[i], #[trigger] all[j]) by {
            if i < m {
                assert(rest.contains(rest[i]));
                if j < m {
                    assert(pulley_before(rest[i], rest[j]));
                }
            }
        }
        assert forall|p: PulleyPoint| #[trigger] all.contains(p) <==> on_pulley(p, n, steps) by {
            if all.contains(p) {
                let k = choose|k: int| 0 <= k < all.len() && all[k] == p;
                if k < m {
                    assert(rest.contains(rest[k]));
                }
            }
            if on_pulley(p, n, steps) {
                if on_pulley(p, n - 1, steps) {
                    assert(rest.contains(p));
                    let k = choose|k: int| 0 <= k < m && rest[k] == p;
                    assert(all[k] == p);
                } else {
                    let k = match p {
                        PulleyPoint::Land { third, .. } => m + third,
                        PulleyPoint::Groove { step, .. } => m + 3 + step,
                    };
                    assert(all[k] == p);
                }
            }
        }
    } else {
        assert forall|p: PulleyPoint| !#[trigger] all.contains(p) by {}
    }
}

/// Closing a ring up leaves its start: all that is dropped from its end is too close to the first point,
/// and no fewer than three points are left of more.
#[verifier::spinoff_prover]
#[verifier::rlimit(50)]
pub proof fn closing_drops_what_is_close<F: Fn(usize, usize) -> bool>(far: F, kept: Seq<usize>)
    ensures
        ({
            let left = closed_up(far, kept);
            &&& left.len() <= kept.len()
            &&& left == kept.take(left.len() as int)
            &&& left.len() >= 3 || left.len() == kept.len()
            &&& forall|k: int| left.len() <= k < kept.len() ==> !says(far, #[trigger] kept[k], kept[0])
            &&& left.len() > 3 ==> says(far, left[left.len() - 1], kept[0])
        }),
    decreases kept.len(),
{
    if kept.len() > 3 && !says(far, kept.last(), kept[0]) {
        let rest = kept.drop_last();
        closing_drops_what_is_close(far, rest);
        let left = closed_up(far, kept);
        assert(left =~= kept.take(left.len() as int));
        assert forall|k: int| left.len() <= k < kept.len() implies !says(far, #[trigger] kept[k], kept[0]) by {
            if k < rest.len() {
                assert(rest[k] == kept[k]);
            }
        }
    } else {
        assert(kept =~= kept.take(kept.len() as int));
    }
}

/// A flank is drawn in at least four steps and a groove in at least six, and otherwise in as many as are
/// asked for.
pub proof fn steps_have_a_least_number(steps: usize)
    ensures
        flank_steps(steps) >= 4 && groove_steps(steps) >= 6,
        steps >= 4 ==> flank_steps(steps) == steps,
        steps < 4 ==> flank_steps(steps) == 4,
        steps >= 6 ==> groove_steps(steps) == steps,
        steps < 6 ==> groove_steps(steps) == 6,
{
}

/// Points are dropped from a ring for one reason only: they lie too close to the point kept before
/// them. The first point is kept, and each kept point is far enough from the one before it.
#[verifier::spinoff_prover]
#[verifier::rlimit(50)]
pub proof fn spreading_drops_what_is_close<F: Fn(usize, usize) -> bool>(far: F, n: int)
    requires
        0 <= n <= usize::MAX,
    ensures
        n > 0 ==> spread(far, n).len() > 0 && spread(far, n)[0] == 0,
        forall|j: int, k: int| 0 <= j < k < spread(far, n).len() ==> (#[trigger] spread(far, n)[j]) < (#[trigger] spread(far, n)[k]),
        forall|k: int| 0 <= k < spread(far, n).len() ==> (#[trigger] spread(far, n)[k]) < n,
        forall|j: int, k: int|
            0 <= j && k == j + 1 && k < spread(far, n).len() ==> says(far, #[trigger] spread(far, n)[j], #[trigger] spread(far, n)[k]),
        forall|i: usize|
            i < n && !#[trigger] spread(far, n).contains(i) ==> exists|k: int|
                0 <= k < spread(far, n).len() && (#[trigger] spread(far, n)[k]) < i && (k + 1 < spread(far, n).len() ==> i < spread(far, n)[k + 1])
                    && !says(far, spread(far, n)[k], i),
    decreases n,
{
    if n > 0 {
        spreading_drops_what_is_close(far, n - 1);
        let (rest, all) = (spread(far, n - 1), spread(far, n));
        let m = rest.len() as int;
        assert(forall|k: int| 0 <= k < m ==> #[trigger] all[k] == rest[k]);
        assert forall|i: usize| i < n && !#[trigger] all.contains(i) implies exists|k: int|
            0 <= k < all.len() && (#[trigger] all[k]) < i && (k + 1 < all.len() ==> i < all[k + 1]) && !says(far, all[k], i) by {
            if i < n - 1 {
                if rest.contains(i) {
                    let k = choose|k: int| 0 <= k < m && rest[k] == i;
                    assert(all[k] == i);
                }
                let k = choose|k: int| 0 <= k < m && (#[trigger] rest[k]) < i && (k + 1 < m ==> i < rest[k + 1]) && !says(far, rest[k], i);
                assert(all[k] == rest[k]);
            } else {
                if all.len() > m {
                    assert(all[m] == i);
                }
                assert(all[m - 1] == rest.last());
            }
        }
    }
}

} // verus!
