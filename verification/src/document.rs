//! The parametric feature tree.
//!
//! A document is the recipe that produces the geometry: an ordered timeline of features that are
//! replayed when an earlier one changes. Measurements are held as the bit patterns of their
//! floating-point values; `S` is the type of a sketch.

use vstd::prelude::*;

use crate::text::{decimal, push_decimal};

verus! {

/// The bit pattern of the double one.
pub const ONE: u64 = 0x3ff0_0000_0000_0000;

/// The bit patterns of the floats one and minus one.
pub const UNIT: u32 = 0x3f80_0000;

pub const MINUS_UNIT: u32 = 0xbf80_0000;

/// A stable identifier for a feature, never used twice.
#[derive(Clone, Copy, PartialEq, Eq, Structural, Hash, Debug)]
pub struct FeatureId(pub u64);

/// A datum plane: an origin and two orthonormal axes in it.
#[derive(Clone, Debug)]
pub struct Plane {
    pub name: String,
    pub origin: [u32; 3],
    pub u: [u32; 3],
    pub v: [u32; 3],
    /// How a plane that the user made was built. The standard planes have none.
    pub offset: Option<PlaneOffset>,
}

/// The face or plane that a construction plane was offset from, and how far.
#[derive(Clone, Debug)]
pub struct PlaneOffset {
    pub base_origin: [u32; 3],
    pub base_u: [u32; 3],
    pub base_v: [u32; 3],
    pub base_name: String,
    pub distance: u32,
    pub flip: bool,
}

/// The plane that a sketch was made on.
#[derive(Clone, Debug)]
pub struct PlaneRef {
    pub origin: [u64; 3],
    pub u: [u64; 3],
    pub v: [u64; 3],
    pub normal: [u64; 3],
    /// The sketch lies on a fixed datum plane, which is never moved onto a face.
    pub datum: bool,
}

/// The kinds of feature that a timeline can hold. Every operation carries the sketch and the plane
/// it was drawn on, so the timeline can be replayed from scratch.
#[derive(Clone, Debug)]
pub enum FeatureKind<S> {
    Plane(Plane),
    /// A sketch that no operation has used yet.
    Sketch { sketch: S, plane: PlaneRef },
    /// Add material by sweeping regions of a sketch; no region means all of them.
    Extrude {
        sketch: S,
        regions: Vec<usize>,
        region_pts: Vec<[u64; 2]>,
        plane: PlaneRef,
        distance: u64,
        back: u64,
        thin: u64,
        thin_side: u8,
    },
    /// Take the swept regions away.
    Cut {
        sketch: S,
        regions: Vec<usize>,
        region_pts: Vec<[u64; 2]>,
        plane: PlaneRef,
        distance: u64,
        back: u64,
        thin: u64,
        thin_side: u8,
    },
    /// Sweep regions round an axis, to add or to take away.
    Revolve {
        sketch: S,
        regions: Vec<usize>,
        region_pts: Vec<[u64; 2]>,
        plane: PlaneRef,
        axis_pt: [u64; 2],
        axis_dir: [u64; 2],
        angle: u64,
        cut: bool,
    },
    /// Round the picked edges; none means every edge.
    Fillet { radius: u64, edges: Vec<Vec<[u64; 3]>> },
    /// Bevel the picked edges.
    Chamfer { distance: u64, edges: Vec<Vec<[u64; 3]>> },
    /// Skin a solid between profiles, to add or to take away.
    Loft { profiles: Vec<LoftProfile<S>>, cut: bool },
    /// Reflect the body across a plane and join it with itself.
    Mirror { plane: PlaneRef },
    /// Repeat the tool of an earlier feature.
    Pattern {
        seed: usize,
        circular: bool,
        dir: [u64; 3],
        spacing: u64,
        axis_pt: [u64; 3],
        axis_dir: [u64; 3],
        step: u64,
        count: u32,
    },
    /// Hollow the body, open at the picked faces.
    Shell { thickness: u64, open: Vec<([u64; 3], [u64; 3])> },
    /// Sweep a profile along a path, to add or to take away.
    Sweep { profile: LoftProfile<S>, path_sketch: S, path_plane: PlaneRef, cut: bool },
    /// A thread in a hole or on a boss.
    Thread { origin: [u64; 3], axis: [u64; 3], major_d: u64, pitch: u64, depth: u64, internal: bool, rh: bool },
    /// A triangle mesh as a solid.
    ImportMesh { data: String, name: String, scale: u64, rot_deg: [u64; 3], offset: [u64; 3], solidify: u32 },
    /// A triangle mesh to look at.
    RefMesh { data: String, name: String, scale: u64, opacity: u32, rot_deg: [u64; 3], offset: [u64; 3], section_tol: u64 },
    /// A picture to trace over.
    RefImage {
        plane: PlaneRef,
        data: String,
        px_w: u32,
        px_h: u32,
        center: [u64; 2],
        rot: u64,
        width: u64,
        height: u64,
        opacity: u32,
        flip_h: bool,
        flip_v: bool,
    },
}

/// One section of a loft.
#[derive(Clone, Debug)]
pub struct LoftProfile<S> {
    pub sketch: S,
    pub plane: PlaneRef,
    pub region: usize,
}

/// One node of the timeline.
#[derive(Clone, Debug)]
pub struct Feature<S> {
    pub id: FeatureId,
    pub kind: FeatureKind<S>,
    /// Not shown. A hidden feature still takes part in the solid.
    pub hidden: bool,
}

/// The whole part: the timeline and how far it is played.
#[derive(Clone, Debug)]
pub struct Document<S> {
    pub features: Vec<Feature<S>>,
    /// Features from here on are suppressed.
    pub rollback: usize,
    next_id: u64,
}

/// How a measurement is written.
#[derive(Clone, Copy, PartialEq, Eq, Structural, Debug)]
pub enum NumberStyle {
    Whole,
    Tenths,
    Hundredths,
    /// An angle in radians, written in whole degrees.
    Degrees,
}

/// Any measurement can be written, always in the same way.
pub open spec fn writes<F: Fn(u64, NumberStyle) -> String>(show: F) -> bool {
    &&& forall|bits: u64, style: NumberStyle| #[trigger] show.requires((bits, style))
    &&& forall|bits: u64, style: NumberStyle, a: String, b: String|
        #[trigger] show.ensures((bits, style), a) && #[trigger] show.ensures((bits, style), b) ==> a@ == b@
}

/// What `show` writes.
pub open spec fn written<F: Fn(u64, NumberStyle) -> String>(show: F, bits: u64, style: NumberStyle) -> Seq<char> {
    (choose|t: String| #[trigger] show.ensures((bits, style), t))@
}

/// The feature adds a numbered solid.
pub open spec fn adds<S>(k: FeatureKind<S>) -> bool {
    match k {
        FeatureKind::Extrude { .. } => true,
        FeatureKind::Revolve { cut, .. } => !cut,
        FeatureKind::Loft { cut, .. } => !cut,
        FeatureKind::Sweep { cut, .. } => !cut,
        _ => false,
    }
}

/// The feature takes a numbered solid away.
pub open spec fn removes<S>(k: FeatureKind<S>) -> bool {
    match k {
        FeatureKind::Cut { .. } => true,
        FeatureKind::Revolve { cut, .. } => cut,
        FeatureKind::Loft { cut, .. } => cut,
        FeatureKind::Sweep { cut, .. } => cut,
        _ => false,
    }
}

/// How many of the first `n` features are sketches.
pub open spec fn sketches<S>(fs: Seq<Feature<S>>, n: int) -> nat
    decreases n,
{
    if n <= 0 {
        0
    } else {
        sketches(fs, n - 1) + if fs[n - 1].kind is Sketch {
            1nat
        } else {
            0
        }
    }
}

/// How many of the first `n` features add a numbered solid.
pub open spec fn bosses<S>(fs: Seq<Feature<S>>, n: int) -> nat
    decreases n,
{
    if n <= 0 {
        0
    } else {
        bosses(fs, n - 1) + if adds(fs[n - 1].kind) {
            1nat
        } else {
            0
        }
    }
}

/// How many of the first `n` features take a numbered solid away.
pub open spec fn cuts<S>(fs: Seq<Feature<S>>, n: int) -> nat
    decreases n,
{
    if n <= 0 {
        0
    } else {
        cuts(fs, n - 1) + if removes(fs[n - 1].kind) {
            1nat
        } else {
            0
        }
    }
}

/// The label of a feature that is the `sk`-th sketch, the `ex`-th solid added, the `ct`-th taken
/// away, as the case may be.
pub open spec fn label_text<S, F: Fn(u64, NumberStyle) -> String>(k: FeatureKind<S>, show: F, sk: nat, ex: nat, ct: nat) -> Seq<char> {
    match k {
        FeatureKind::Plane(p) => "[plane]  "@ + p.name@,
        FeatureKind::Sketch { .. } => "[sketch] Sketch"@ + decimal(sk),
        FeatureKind::Extrude { distance, .. } => "[boss]   Extrude"@ + decimal(ex) + "  h="@ + written(show, distance, NumberStyle::Tenths),
        FeatureKind::Cut { distance, .. } => "[cut]    Cut"@ + decimal(ct) + "  h="@ + written(show, distance, NumberStyle::Tenths),
        FeatureKind::Revolve { angle, cut, .. } => (if cut {
            "[rev]    RevCut"@ + decimal(ct)
        } else {
            "[rev]    Revolve"@ + decimal(ex)
        }) + "  "@ + written(show, angle, NumberStyle::Degrees) + "°"@,
        FeatureKind::Fillet { radius, edges } => "[fillet] Fillet  r="@ + written(show, radius, NumberStyle::Hundredths) + " ("@ + (
        if edges@.len() == 0 {
            "all"@
        } else {
            decimal(edges@.len())
        }) + ")"@,
        FeatureKind::Chamfer { distance, edges } => "[chamfer] Chamfer  d="@ + written(show, distance, NumberStyle::Hundredths) + " ("@
            + decimal(edges@.len()) + ")"@,
        FeatureKind::Loft { profiles, cut } => (if cut {
            "[loft]   LoftCut"@ + decimal(ct)
        } else {
            "[loft]   Loft"@ + decimal(ex)
        }) + "  ("@ + decimal(profiles@.len()) + " profiles)"@,
        FeatureKind::Mirror { .. } => "[mirror] Mirror"@,
        FeatureKind::Pattern { circular, count, .. } => (if circular {
            "[pattern] Circular Pattern  ×"@
        } else {
            "[pattern] Linear Pattern  ×"@
        }) + decimal(count as nat),
        FeatureKind::Shell { thickness, open } => "[shell]  Shell  t="@ + written(show, thickness, NumberStyle::Hundredths) + " ("@
            + decimal(open@.len()) + " open)"@,
        FeatureKind::Sweep { cut, .. } => if cut {
            "[sweep]  SweepCut"@ + decimal(ct)
        } else {
            "[sweep]  Sweep"@ + decimal(ex)
        },
        FeatureKind::Thread { major_d, pitch, internal, .. } => (if internal {
            "[thread] Thread tap  M"@
        } else {
            "[thread] Thread ext  M"@
        }) + written(show, major_d, NumberStyle::Tenths) + "×"@ + written(show, pitch, NumberStyle::Hundredths),
        FeatureKind::ImportMesh { name, .. } => "[mesh]   "@ + name@,
        FeatureKind::RefMesh { name, .. } => "[scan]   "@ + name@,
        FeatureKind::RefImage { width, height, .. } => "[image]  Picture  "@ + written(show, width, NumberStyle::Whole) + "×"@
            + written(show, height, NumberStyle::Whole),
    }
}

/// The label of feature `i`.
pub open spec fn label_at<S, F: Fn(u64, NumberStyle) -> String>(fs: Seq<Feature<S>>, show: F, i: int) -> Seq<char> {
    label_text(fs[i].kind, show, sketches(fs, i + 1), bosses(fs, i + 1), cuts(fs, i + 1))
}

/// The planes among the first `n` features, with their identifiers.
pub open spec fn planes_of<S>(fs: Seq<Feature<S>>, n: int) -> Seq<(FeatureId, Plane, bool)>
    decreases n,
{
    if n <= 0 {
        Seq::empty()
    } else {
        match fs[n - 1].kind {
            FeatureKind::Plane(p) => planes_of(fs, n - 1).push((fs[n - 1].id, p, fs[n - 1].hidden)),
            _ => planes_of(fs, n - 1),
        }
    }
}

fn put_number<F: Fn(u64, NumberStyle) -> String>(out: &mut String, show: &F, bits: u64, style: NumberStyle)
    requires
        writes(*show),
    ensures
        final(out)@ == old(out)@ + written(*show, bits, style),
{
    let t: String = show(bits, style);
    assert(show.ensures((bits, style), t));
    out.append(t.as_str());
}

fn feature_label<S, F: Fn(u64, NumberStyle) -> String>(k: &FeatureKind<S>, show: &F, sk: u64, ex: u64, ct: u64) -> (out: String)
    requires
        writes(*show),
    ensures
        out@ == label_text(*k, *show, sk as nat, ex as nat, ct as nat),
{
    let mut out: String = String::new();
    match k {
        FeatureKind::Plane(p) => {
            out.append("[plane]  ");
            out.append(p.name.as_str());
        },
        FeatureKind::Sketch { .. } => {
            out.append("[sketch] Sketch");
            push_decimal(&mut out, sk);
        },
        FeatureKind::Extrude { distance, .. } => {
            out.append("[boss]   Extrude");
            push_decimal(&mut out, ex);
            out.append("  h=");
            put_number(&mut out, show, *distance, NumberStyle::Tenths);
        },
        FeatureKind::Cut { distance, .. } => {
            out.append("[cut]    Cut");
            push_decimal(&mut out, ct);
            out.append("  h=");
            put_number(&mut out, show, *distance, NumberStyle::Tenths);
        },
        FeatureKind::Revolve { angle, cut, .. } => {
            if *cut {
                out.append("[rev]    RevCut");
                push_decimal(&mut out, ct);
            } else {
                out.append("[rev]    Revolve");
                push_decimal(&mut out, ex);
            }
            out.append("  ");
            put_number(&mut out, show, *angle, NumberStyle::Degrees);
            out.append("°");
        },
        FeatureKind::Fillet { radius, edges } => {
            out.append("[fillet] Fillet  r=");
            put_number(&mut out, show, *radius, NumberStyle::Hundredths);
            out.append(" (");
            if edges.len() == 0 {
                out.append("all");
            } else {
                push_decimal(&mut out, edges.len() as u64);
            }
            out.append(")");
        },
        FeatureKind::Chamfer { distance, edges } => {
            out.append("[chamfer] Chamfer  d=");
            put_number(&mut out, show, *distance, NumberStyle::Hundredths);
            out.append(" (");
            push_decimal(&mut out, edges.len() as u64);
            out.append(")");
        },
        FeatureKind::Loft { profiles, cut } => {
            if *cut {
                out.append("[loft]   LoftCut");
                push_decimal(&mut out, ct);
            } else {
                out.append("[loft]   Loft");
                push_decimal(&mut out, ex);
            }
            out.append("  (");
            push_decimal(&mut out, profiles.len() as u64);
            out.append(" profiles)");
        },
        FeatureKind::Mirror { .. } => {
            out.append("[mirror] Mirror");
        },
        FeatureKind::Pattern { circular, count, .. } => {
            if *circular {
                out.append("[pattern] Circular Pattern  ×");
            } else {
                out.append("[pattern] Linear Pattern  ×");
            }
            push_decimal(&mut out, *count as u64);
        },
        FeatureKind::Shell { thickness, open } => {
            out.append("[shell]  Shell  t=");
            put_number(&mut out, show, *thickness, NumberStyle::Hundredths);
            out.append(" (");
            push_decimal(&mut out, open.len() as u64);
            out.append(" open)");
        },
        FeatureKind::Sweep { cut, .. } => {
            if *cut {
                out.append("[sweep]  SweepCut");
                push_decimal(&mut out, ct);
            } else {
                out.append("[sweep]  Sweep");
                push_decimal(&mut out, ex);
            }
        },
        FeatureKind::Thread { major_d, pitch, internal, .. } => {
            if *internal {
                out.append("[thread] Thread tap  M");
            } else {
                out.append("[thread] Thread ext  M");
            }
            put_number(&mut out, show, *major_d, NumberStyle::Tenths);
            out.append("×");
            put_number(&mut out, show, *pitch, NumberStyle::Hundredths);
        },
        FeatureKind::ImportMesh { name, .. } => {
            out.append("[mesh]   ");
            out.append(name.as_str());
        },
        FeatureKind::RefMesh { name, .. } => {
            out.append("[scan]   ");
            out.append(name.as_str());
        },
        FeatureKind::RefImage { width, height, .. } => {
            out.append("[image]  Picture  ");
            put_number(&mut out, show, *width, NumberStyle::Whole);
            out.append("×");
            put_number(&mut out, show, *height, NumberStyle::Whole);
        },
    }
    assert(out@ =~= label_text(*k, *show, sk as nat, ex as nat, ct as nat));
    out
}

fn is_boss<S>(k: &FeatureKind<S>) -> (b: bool)
    ensures
        b == adds(*k),
{
    match k {
        FeatureKind::Extrude { .. } => true,
        FeatureKind::Revolve { cut, .. } => !*cut,
        FeatureKind::Loft { cut, .. } => !*cut,
        FeatureKind::Sweep { cut, .. } => !*cut,
        _ => false,
    }
}

fn is_cut<S>(k: &FeatureKind<S>) -> (b: bool)
    ensures
        b == removes(*k),
{
    match k {
        FeatureKind::Cut { .. } => true,
        FeatureKind::Revolve { cut, .. } => *cut,
        FeatureKind::Loft { cut, .. } => *cut,
        FeatureKind::Sweep { cut, .. } => *cut,
        _ => false,
    }
}

/// A standard plane through the origin.
pub open spec fn is_standard(p: Plane, name: Seq<char>, u: [u32; 3], v: [u32; 3]) -> bool {
    p.name@ == name && p.origin@ == seq![0u32, 0u32, 0u32] && p.u@ == u@ && p.v@ == v@ && p.offset is None
}

impl<S> Document<S> {
    /// The features, from the first to the last.
    pub closed spec fn timeline(&self) -> Seq<Feature<S>> {
        self.features@
    }

    /// Where the timeline is rolled back to.
    pub closed spec fn played(&self) -> usize {
        self.rollback
    }

    /// The identifier that the next feature gets.
    pub closed spec fn next(&self) -> u64 {
        self.next_id
    }

    /// The identifiers in use differ, and all of them were handed out.
    pub open spec fn wf(&self) -> bool {
        &&& forall|i: int| 0 <= i < self.timeline().len() ==> (#[trigger] self.timeline()[i]).id.0 < self.next()
        &&& forall|i: int, j: int|
            0 <= i < j < self.timeline().len() ==> (#[trigger] self.timeline()[i]).id != (#[trigger] self.timeline()[j]).id
    }

    /// A document as it was filed.
    pub fn restore(features: Vec<Feature<S>>, rollback: usize, next_id: u64) -> (doc: Self)
        ensures
            doc.timeline() == features@,
            doc.played() == rollback,
            doc.next() == next_id,
    {
        Document { features, rollback, next_id }
    }

    /// The identifier that the next feature gets.
    pub fn next_id(&self) -> (id: u64)
        ensures
            id == self.next(),
    {
        self.next_id
    }

    /// A new document with the three standard reference planes: Front, Top and Right.
    pub fn with_default_planes() -> (doc: Self)
        ensures
            doc.wf(),
            doc.next() == 3,
            doc.played() == 3,
            doc.timeline().len() == 3,
            forall|i: int| 0 <= i < 3 ==> (#[trigger] doc.timeline()[i]).id.0 == i && !doc.timeline()[i].hidden,
            doc.timeline()[0].kind matches FeatureKind::Plane(p) && is_standard(p, "Front"@, [UNIT, 0, 0], [0, UNIT, 0]),
            doc.timeline()[1].kind matches FeatureKind::Plane(p) && is_standard(p, "Top"@, [UNIT, 0, 0], [0, 0, MINUS_UNIT]),
            doc.timeline()[2].kind matches FeatureKind::Plane(p) && is_standard(p, "Right"@, [0, 0, MINUS_UNIT], [0, UNIT, 0]),
    {
        let mut doc: Document<S> = Document::default();
        doc.push_plane(standard_plane("Front", [UNIT, 0, 0], [0, UNIT, 0]));
        doc.push_plane(standard_plane("Top", [UNIT, 0, 0], [0, 0, MINUS_UNIT]));
        doc.push_plane(standard_plane("Right", [0, 0, MINUS_UNIT], [0, UNIT, 0]));
        doc
    }

    fn push_plane(&mut self, plane: Plane) -> (id: FeatureId)
        requires
            old(self).next() < u64::MAX,
        ensures
            id.0 == old(self).next(),
            final(self).next() == old(self).next() + 1,
            final(self).timeline() == old(self).timeline().push((Feature { id, kind: FeatureKind::Plane(plane), hidden: false })),
            final(self).played() == final(self).timeline().len(),
            old(self).wf() ==> final(self).wf(),
    {
        self.add_feature(FeatureKind::Plane(plane))
    }

    /// Append a feature to the timeline and play the timeline to its end. The identifier is new.
    pub fn add_feature(&mut self, kind: FeatureKind<S>) -> (id: FeatureId)
        requires
            old(self).next() < u64::MAX,
        ensures
            id.0 == old(self).next(),
            final(self).next() == old(self).next() + 1,
            final(self).timeline() == old(self).timeline().push((Feature { id, kind, hidden: false })),
            final(self).played() == final(self).timeline().len(),
            old(self).wf() ==> final(self).wf(),
    {
        let id: FeatureId = FeatureId(self.next_id);
        self.next_id = self.next_id + 1;
        self.features.push(Feature { id, kind, hidden: false });
        self.rollback = self.features.len();
        id
    }

    /// One label for each feature, in the order of the timeline. Sketches, solids added and solids
    /// taken away are numbered in the order they appear. `show` writes measurements.
    pub fn tree_labels<F: Fn(u64, NumberStyle) -> String>(&self, show: &F) -> (labels: Vec<String>)
        requires
            writes(*show),
        ensures
            labels@.len() == self.timeline().len(),
            forall|i: int| 0 <= i < labels@.len() ==> (#[trigger] labels@[i])@ == label_at(self.timeline(), *show, i),
    {
        let (mut sk, mut ex, mut ct): (u64, u64, u64) = (0, 0, 0);
        let mut labels: Vec<String> = Vec::new();
        let mut i: usize = 0;
        assert(self.features@.len() == self.features.len());
        while i < self.features.len()
            invariant
                writes(*show),
                i <= self.features@.len() <= usize::MAX,
                labels@.len() == i,
                sk == sketches(self.features@, i as int) && sk <= i,
                ex == bosses(self.features@, i as int) && ex <= i,
                ct == cuts(self.features@, i as int) && ct <= i,
                forall|j: int| 0 <= j < i ==> (#[trigger] labels@[j])@ == label_at(self.features@, *show, j),
            decreases self.features@.len() - i,
        {
            let kind: &FeatureKind<S> = &self.features[i].kind;
            match kind {
                FeatureKind::Sketch { .. } => {
                    sk = sk + 1;
                },
                _ => {},
            }
            if is_boss(kind) {
                ex = ex + 1;
            }
            if is_cut(kind) {
                ct = ct + 1;
            }
            labels.push(feature_label(kind, show, sk, ex, ct));
            i = i + 1;
        }
        labels
    }

    /// The datum planes of the document, in the order of the timeline.
    pub fn planes(&self) -> (out: Vec<(&FeatureId, &Plane)>)
        ensures
            out@.len() == planes_of(self.timeline(), self.timeline().len() as int).len(),
            forall|i: int|
                0 <= i < out@.len() ==> (#[trigger] out@[i]).0 == planes_of(self.timeline(), self.timeline().len() as int)[i].0
                    && out@[i].1 == planes_of(self.timeline(), self.timeline().len() as int)[i].1,
    {
        let all: Vec<(&FeatureId, &Plane, bool)> = self.planes_vis();
        let mut out: Vec<(&FeatureId, &Plane)> = Vec::new();
        let mut i: usize = 0;
        while i < all.len()
            invariant
                i <= all@.len(),
                out@.len() == i,
                forall|j: int| 0 <= j < i ==> (#[trigger] out@[j]).0 == all@[j].0 && out@[j].1 == all@[j].1,
            decreases all@.len() - i,
        {
            out.push((all[i].0, all[i].1));
            i = i + 1;
        }
        out
    }

    /// The datum planes with whether each is hidden, so that a hidden one is neither drawn nor
    /// picked while every plane keeps its place.
    pub fn planes_vis(&self) -> (out: Vec<(&FeatureId, &Plane, bool)>)
        ensures
            out@.len() == planes_of(self.timeline(), self.timeline().len() as int).len(),
            forall|i: int|
                0 <= i < out@.len() ==> (#[trigger] out@[i]).0 == planes_of(self.timeline(), self.timeline().len() as int)[i].0
                    && out@[i].1 == planes_of(self.timeline(), self.timeline().len() as int)[i].1
                    && out@[i].2 == planes_of(self.timeline(), self.timeline().len() as int)[i].2,
    {
        let mut out: Vec<(&FeatureId, &Plane, bool)> = Vec::new();
        let mut i: usize = 0;
        while i < self.features.len()
            invariant
                i <= self.features@.len(),
                out@.len() == planes_of(self.features@, i as int).len(),
                forall|j: int|
                    0 <= j < out@.len() ==> (#[trigger] out@[j]).0 == planes_of(self.features@, i as int)[j].0 && out@[j].1 == planes_of(
                        self.features@,
                        i as int,
                    )[j].1 && out@[j].2 == planes_of(self.features@, i as int)[j].2,
            decreases self.features@.len() - i,
        {
            let f: &Feature<S> = &self.features[i];
            match &f.kind {
                FeatureKind::Plane(p) => {
                    out.push((&f.id, p, f.hidden));
                },
                _ => {},
            }
            i = i + 1;
        }
        out
    }
}

impl<S> Default for Document<S> {
    fn default() -> (doc: Self)
        ensures
            doc.timeline().len() == 0,
            doc.played() == 0,
            doc.next() == 0,
            doc.wf(),
    {
        Document { features: Vec::new(), rollback: 0, next_id: 0 }
    }
}

fn standard_plane(name: &str, u: [u32; 3], v: [u32; 3]) -> (p: Plane)
    ensures
        is_standard(p, name@, u, v),
{
    let mut text: String = String::new();
    text.append(name);
    assert(text@ =~= name@);
    Plane { name: text, origin: [0, 0, 0], u, v, offset: None }
}

/// A solid that is added later gets a higher number.
pub proof fn bosses_count_up<S>(fs: Seq<Feature<S>>, i: int, j: int)
    requires
        0 <= i < j < fs.len(),
        adds(fs[j].kind),
    ensures
        bosses(fs, i + 1) < bosses(fs, j + 1),
{
    bosses_rise(fs, i + 1, j);
}

proof fn bosses_rise<S>(fs: Seq<Feature<S>>, a: int, b: int)
    requires
        a <= b,
    ensures
        bosses(fs, a) <= bosses(fs, b),
    decreases b - a,
{
    if a < b {
        bosses_rise(fs, a, b - 1);
    }
}

/// A solid that is taken away later gets a higher number.
pub proof fn cuts_count_up<S>(fs: Seq<Feature<S>>, i: int, j: int)
    requires
        0 <= i < j < fs.len(),
        removes(fs[j].kind),
    ensures
        cuts(fs, i + 1) < cuts(fs, j + 1),
{
    cuts_rise(fs, i + 1, j);
}

proof fn cuts_rise<S>(fs: Seq<Feature<S>>, a: int, b: int)
    requires
        a <= b,
    ensures
        cuts(fs, a) <= cuts(fs, b),
    decreases b - a,
{
    if a < b {
        cuts_rise(fs, a, b - 1);
    }
}

/// The label of a feature does not depend on what comes after it.
pub proof fn labels_stay<S, F: Fn(u64, NumberStyle) -> String>(fs: Seq<Feature<S>>, more: Seq<Feature<S>>, show: F, i: int)
    requires
        0 <= i < fs.len(),
    ensures
        label_at(fs + more, show, i) == label_at(fs, show, i),
{
    counts_stay(fs, more, i + 1);
}

proof fn counts_stay<S>(fs: Seq<Feature<S>>, more: Seq<Feature<S>>, n: int)
    requires
        n <= fs.len(),
    ensures
        sketches(fs + more, n) == sketches(fs, n),
        bosses(fs + more, n) == bosses(fs, n),
        cuts(fs + more, n) == cuts(fs, n),
    decreases n,
{
    if n > 0 {
        counts_stay(fs, more, n - 1);
    }
}

/// How many of the features satisfy a test.
pub open spec fn tally<S>(fs: Seq<Feature<S>>, test: spec_fn(FeatureKind<S>) -> bool) -> nat {
    fs.filter(|f: Feature<S>| test(f.kind)).len()
}

proof fn tally_next<S>(fs: Seq<Feature<S>>, test: spec_fn(FeatureKind<S>) -> bool, n: int)
    requires
        0 < n <= fs.len(),
    ensures
        tally(fs.take(n), test) == tally(fs.take(n - 1), test) + if test(fs[n - 1].kind) {
            1nat
        } else {
            0
        },
{
    reveal(Seq::filter);
    assert(fs.take(n).drop_last() =~= fs.take(n - 1));
    assert(fs.take(n).last() == fs[n - 1]);
}

/// A feature is numbered among those of its sort: the sketches; what adds a solid, by extruding,
/// turning, lofting or sweeping it; and what takes one away in any of these ways.
pub proof fn features_are_numbered_by_sort<S>(fs: Seq<Feature<S>>, n: int)
    requires
        0 <= n <= fs.len(),
    ensures
        sketches(fs, n) == tally(fs.take(n), |k: FeatureKind<S>| k is Sketch),
        bosses(fs, n) == tally(
            fs.take(n),
            |k: FeatureKind<S>|
                k is Extrude || k is Revolve && !k->Revolve_cut || k is Loft && !k->Loft_cut || k is Sweep && !k->Sweep_cut,
        ),
        cuts(fs, n) == tally(
            fs.take(n),
            |k: FeatureKind<S>| k is Cut || k is Revolve && k->Revolve_cut || k is Loft && k->Loft_cut || k is Sweep && k->Sweep_cut,
        ),
    decreases n,
{
    let made = |k: FeatureKind<S>|
        k is Extrude || k is Revolve && !k->Revolve_cut || k is Loft && !k->Loft_cut || k is Sweep && !k->Sweep_cut;
    let cut = |k: FeatureKind<S>| k is Cut || k is Revolve && k->Revolve_cut || k is Loft && k->Loft_cut || k is Sweep && k->Sweep_cut;
    if n > 0 {
        features_are_numbered_by_sort(fs, n - 1);
        tally_next(fs, |k: FeatureKind<S>| k is Sketch, n);
        tally_next(fs, made, n);
        tally_next(fs, cut, n);
    } else {
        reveal(Seq::filter);
        assert(fs.take(0) =~= Seq::<Feature<S>>::empty());
    }
}

/// A label leads with the sort of the feature in brackets, and solids taken away are named and
/// numbered apart from those added. It shows the measurement that makes the feature, or how many
/// things it is made of.
#[verifier::spinoff_prover]
#[verifier::rlimit(50)]
pub proof fn labels_name_the_feature<S, F: Fn(u64, NumberStyle) -> String>(fs: Seq<Feature<S>>, show: F, i: int)
    requires
        0 <= i < fs.len(),
    ensures
        ({
            let k = fs[i].kind;
            let label = label_at(fs, show, i);
            let sketch = decimal(sketches(fs, i) + 1);
            let boss = decimal(bosses(fs, i) + 1);
            let cut = decimal(cuts(fs, i) + 1);
            &&& k is Plane ==> label == "[plane]  "@ + k->Plane_0.name@
            &&& k is Sketch ==> label == "[sketch] Sketch"@ + sketch
            &&& k is Extrude ==> label == "[boss]   Extrude"@ + boss + "  h="@ + written(show, k->Extrude_distance, NumberStyle::Tenths)
            &&& k is Cut ==> label == "[cut]    Cut"@ + cut + "  h="@ + written(show, k->Cut_distance, NumberStyle::Tenths)
            &&& k is Revolve && k->Revolve_cut ==> label == "[rev]    RevCut"@ + cut + "  "@ + written(show, k->angle, NumberStyle::Degrees)
                + "°"@
            &&& k is Revolve && !k->Revolve_cut ==> label == "[rev]    Revolve"@ + boss + "  "@ + written(show, k->angle, NumberStyle::Degrees)
                + "°"@
            &&& k is Loft && k->Loft_cut ==> label == "[loft]   LoftCut"@ + cut + "  ("@ + decimal(k->profiles@.len()) + " profiles)"@
            &&& k is Loft && !k->Loft_cut ==> label == "[loft]   Loft"@ + boss + "  ("@ + decimal(k->profiles@.len()) + " profiles)"@
            &&& k is Sweep && k->Sweep_cut ==> label == "[sweep]  SweepCut"@ + cut
            &&& k is Sweep && !k->Sweep_cut ==> label == "[sweep]  Sweep"@ + boss
            &&& k is Fillet && k->Fillet_edges@.len() == 0 ==> label == "[fillet] Fillet  r="@ + written(show, k->radius, NumberStyle::Hundredths)
                + " ("@ + "all"@ + ")"@
            &&& k is Fillet && k->Fillet_edges@.len() > 0 ==> label == "[fillet] Fillet  r="@ + written(show, k->radius, NumberStyle::Hundredths)
                + " ("@ + decimal(k->Fillet_edges@.len()) + ")"@
            &&& k is Chamfer ==> label == "[chamfer] Chamfer  d="@ + written(show, k->Chamfer_distance, NumberStyle::Hundredths) + " ("@
                + decimal(k->Chamfer_edges@.len()) + ")"@
            &&& k is Mirror ==> label == "[mirror] Mirror"@
            &&& k is Pattern && k->circular ==> label == "[pattern] Circular Pattern  ×"@ + decimal(k->count as nat)
            &&& k is Pattern && !k->circular ==> label == "[pattern] Linear Pattern  ×"@ + decimal(k->count as nat)
            &&& k is Shell ==> label == "[shell]  Shell  t="@ + written(show, k->thickness, NumberStyle::Hundredths) + " ("@ + decimal(
                k->open@.len(),
            ) + " open)"@
            &&& k is Thread && k->internal ==> label == "[thread] Thread tap  M"@ + written(show, k->major_d, NumberStyle::Tenths) + "×"@
                + written(show, k->pitch, NumberStyle::Hundredths)
            &&& k is Thread && !k->internal ==> label == "[thread] Thread ext  M"@ + written(show, k->major_d, NumberStyle::Tenths) + "×"@
                + written(show, k->pitch, NumberStyle::Hundredths)
            &&& k is ImportMesh ==> label == "[mesh]   "@ + k->ImportMesh_name@
            &&& k is RefMesh ==> label == "[scan]   "@ + k->RefMesh_name@
            &&& k is RefImage ==> label == "[image]  Picture  "@ + written(show, k->width, NumberStyle::Whole) + "×"@ + written(
                show,
                k->height,
                NumberStyle::Whole,
            )
        }),
{
}

/// The planes are the features that are planes, in order, each with its identifier and whether it is
/// hidden.
pub proof fn planes_are_listed<S>(fs: Seq<Feature<S>>, n: int)
    requires
        0 <= n <= fs.len(),
    ensures
        planes_of(fs, n) == fs.take(n).filter(|f: Feature<S>| f.kind is Plane).map_values(
            |f: Feature<S>| (f.id, f.kind->Plane_0, f.hidden),
        ),
    decreases n,
{
    reveal(Seq::filter);
    let test = |f: Feature<S>| f.kind is Plane;
    let made = |f: Feature<S>| (f.id, f.kind->Plane_0, f.hidden);
    if n > 0 {
        planes_are_listed(fs, n - 1);
        let f = fs[n - 1];
        assert(fs.take(n).drop_last() =~= fs.take(n - 1));
        assert(fs.take(n).last() == f);
        let rest = fs.take(n - 1).filter(test);
        assert(rest.push(f).map_values(made) =~= rest.map_values(made).push(made(f)));
        assert(planes_of(fs, n) =~= fs.take(n).filter(test).map_values(made));
    } else {
        assert(fs.take(0).filter(test).map_values(made) =~= Seq::empty());
    }
}

} // verus!
