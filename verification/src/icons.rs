//! Tool icons, as line art.
//!
//! Every icon is a list of primitives in a square box with the y axis pointing down. Lengths are in
//! thousandths of the side of the box, angles in degrees.

use vstd::prelude::*;

verus! {

/// Every icon that the toolbars can draw.
#[derive(Clone, Copy, PartialEq, Eq, Structural, Debug)]
pub enum Icon {
    // sketch tools
    Select,
    Line,
    Circle,
    Arc,
    Rectangle,
    Slot,
    Polygon,
    Spline,
    Text,
    Dimension,
    Pattern,
    Mirror,
    Trim,
    // sketch tool variants (dropdowns)
    ConstructionLine,
    MidpointLine,
    CenterLine,
    PerimeterCircle,
    CenterRectangle,
    Parallelogram,
    SplineThrough,
    SplineControl,
    CenterpointSlot,
    ArcSlot,
    FillPattern,
    PowerTrim,
    TrimCorner,
    // features: add material
    Boss,
    Revolve,
    Loft,
    Sweep,
    // features: remove material
    Cut,
    RevolveCut,
    LoftCut,
    SweepCut,
    Hole,
    // features: modify
    Fillet,
    Chamfer,
    Shell,
    LinearPattern,
    CircularPattern,
    MirrorFeature,
    // reference geometry
    Plane,
    Sketch,
}

/// A primitive that a few numbers describe.
#[derive(Clone, Copy, PartialEq, Eq, Debug)]
pub enum Mark {
    /// A small filled dot.
    Dot((i32, i32)),
    /// The outline of a circle: centre and radius.
    Circle((i32, i32), i32),
    /// An arc: centre, radius, start and end angle. A quarter turn points down.
    Arc((i32, i32), i32, i32, i32),
    /// An arrow head, a filled triangle: its tip, and a point that it comes from.
    Head((i32, i32), (i32, i32)),
    /// A regular polygon: centre, radius, number of corners, angle of the first.
    Ngon((i32, i32), i32, u32, i32),
    /// A cubic curve by its control points, dashed or not.
    Curve((i32, i32), (i32, i32), (i32, i32), (i32, i32), bool),
    /// A dashed circle.
    DashRing((i32, i32), i32),
    /// A dot on a circle: centre, radius, angle.
    RimDot((i32, i32), i32, i32),
    /// A square about a point on a circle: centre, radius, angle, half its side.
    RimBox((i32, i32), i32, i32, i32),
}

/// A drawing primitive.
#[derive(Debug)]
pub enum Prim {
    /// A polyline, which may close back to its start.
    Path(Vec<(i32, i32)>, bool),
    /// A dashed polyline.
    Dash(Vec<(i32, i32)>),
    /// A filled polygon.
    Fill(Vec<(i32, i32)>),
    Mark(Mark),
}

/// A primitive as a value.
pub ghost enum Art {
    Path(Seq<(i32, i32)>, bool),
    Dash(Seq<(i32, i32)>),
    Fill(Seq<(i32, i32)>),
    Mark(Mark),
}

impl View for Prim {
    type V = Art;

    open spec fn view(&self) -> Art {
        match *self {
            Prim::Path(v, c) => Art::Path(v@, c),
            Prim::Dash(v) => Art::Dash(v@),
            Prim::Fill(v) => Art::Fill(v@),
            Prim::Mark(m) => Art::Mark(m),
        }
    }
}

pub open spec fn drawn(prims: Seq<Prim>) -> Seq<Art> {
    Seq::new(prims.len(), |i: int| prims[i]@)
}

/// The artwork of an icon.
pub open spec fn artwork(icon: Icon) -> Seq<Art> {
    match icon {
        Icon::Select => seq![
            Art::Fill(seq![(300, 100), (300, 840), (450, 680), (560, 900), (680, 840), (570, 630), (760, 600)]),
        ],
        Icon::Line => seq![
            Art::Path(seq![(180, 820), (820, 180)], false),
            Art::Mark(Mark::Dot((180, 820))),
            Art::Mark(Mark::Dot((820, 180))),
        ],
        Icon::Circle => seq![
            Art::Mark(Mark::Circle((500, 500), 340)),
            Art::Mark(Mark::Dot((500, 500))),
        ],
        Icon::Arc => seq![
            Art::Mark(Mark::Arc((500, 740), 420, 180, 360)),
            Art::Mark(Mark::Dot((80, 740))),
            Art::Mark(Mark::Dot((920, 740))),
        ],
        Icon::Rectangle => seq![
            Art::Path(seq![(160, 240), (840, 240), (840, 760), (160, 760)], true),
            Art::Mark(Mark::Dot((160, 240))),
            Art::Mark(Mark::Dot((840, 760))),
        ],
        Icon::Slot => seq![
            Art::Mark(Mark::Arc((330, 500), 200, 90, 270)),
            Art::Mark(Mark::Arc((670, 500), 200, 270, 450)),
            Art::Path(seq![(330, 300), (670, 300)], false),
            Art::Path(seq![(330, 700), (670, 700)], false),
        ],
        Icon::Polygon => seq![
            Art::Mark(Mark::Ngon((500, 500), 360, 6, 270)),
            Art::Mark(Mark::Dot((500, 500))),
        ],
        Icon::Spline => seq![
            Art::Mark(Mark::Curve((120, 740), (340, 100), (660, 900), (880, 260), false)),
            Art::Mark(Mark::Dot((120, 740))),
            Art::Mark(Mark::Dot((880, 260))),
        ],
        Icon::Text => seq![
            Art::Path(seq![(240, 840), (500, 160), (760, 840)], false),
            Art::Path(seq![(350, 600), (650, 600)], false),
        ],
        Icon::Dimension => seq![
            Art::Path(seq![(160, 200), (160, 840)], false),
            Art::Path(seq![(840, 200), (840, 840)], false),
            Art::Path(seq![(160, 520), (840, 520)], false),
            Art::Mark(Mark::Head((160, 520), (260, 520))),
            Art::Mark(Mark::Head((840, 520), (740, 520))),
        ],
        Icon::Pattern => seq![
            Art::Path(seq![(100, 100), (360, 100), (360, 360), (100, 360)], true),
            Art::Path(seq![(100, 640), (360, 640), (360, 900), (100, 900)], true),
            Art::Path(seq![(640, 100), (900, 100), (900, 360), (640, 360)], true),
            Art::Path(seq![(640, 640), (900, 640), (900, 900), (640, 900)], true),
        ],
        Icon::Mirror | Icon::MirrorFeature => seq![
            Art::Path(seq![(100, 820), (360, 820), (360, 240)], true),
            Art::Path(seq![(900, 820), (640, 820), (640, 240)], true),
            Art::Dash(seq![(500, 80), (500, 920)]),
        ],
        Icon::Trim => seq![
            Art::Path(seq![(100, 180), (900, 820)], false),
            Art::Path(seq![(100, 820), (500, 500)], false),
            Art::Dash(seq![(500, 500), (900, 180)]),
            Art::Mark(Mark::Dot((500, 500))),
        ],
        Icon::ConstructionLine => seq![
            Art::Dash(seq![(180, 820), (820, 180)]),
            Art::Mark(Mark::Dot((180, 820))),
            Art::Mark(Mark::Dot((820, 180))),
        ],
        Icon::MidpointLine => seq![
            Art::Path(seq![(220, 780), (780, 220)], false),
            Art::Mark(Mark::Dot((500, 500))),
            Art::Mark(Mark::Head((880, 120), (780, 220))),
            Art::Mark(Mark::Head((120, 880), (220, 780))),
        ],
        Icon::CenterLine => seq![
            Art::Dash(seq![(220, 780), (780, 220)]),
            Art::Mark(Mark::Dot((500, 500))),
            Art::Mark(Mark::Head((880, 120), (780, 220))),
            Art::Mark(Mark::Head((120, 880), (220, 780))),
        ],
        Icon::PerimeterCircle => seq![
            Art::Mark(Mark::Circle((500, 500), 340)),
            Art::Mark(Mark::RimDot((500, 500), 340, 270)),
            Art::Mark(Mark::RimDot((500, 500), 340, 30)),
            Art::Mark(Mark::RimDot((500, 500), 340, 150)),
        ],
        Icon::CenterRectangle => seq![
            Art::Path(seq![(160, 240), (840, 240), (840, 760), (160, 760)], true),
            Art::Dash(seq![(160, 240), (840, 760)]),
            Art::Dash(seq![(840, 240), (160, 760)]),
            Art::Mark(Mark::Dot((500, 500))),
        ],
        Icon::Parallelogram => seq![
            Art::Path(seq![(300, 240), (940, 240), (700, 760), (60, 760)], true),
            Art::Mark(Mark::Dot((300, 240))),
            Art::Mark(Mark::Dot((940, 240))),
        ],
        Icon::SplineThrough => seq![
            Art::Mark(Mark::Curve((120, 740), (340, 100), (660, 900), (880, 260), false)),
            Art::Mark(Mark::Dot((120, 740))),
            Art::Mark(Mark::Dot((500, 500))),
            Art::Mark(Mark::Dot((880, 260))),
        ],
        Icon::SplineControl => seq![
            Art::Mark(Mark::Curve((120, 740), (340, 100), (660, 900), (880, 260), false)),
            Art::Dash(seq![(120, 740), (340, 100), (660, 900), (880, 260)]),
            Art::Mark(Mark::Dot((340, 100))),
            Art::Mark(Mark::Dot((660, 900))),
        ],
        Icon::CenterpointSlot => seq![
            Art::Mark(Mark::Arc((330, 500), 200, 90, 270)),
            Art::Mark(Mark::Arc((670, 500), 200, 270, 450)),
            Art::Path(seq![(330, 300), (670, 300)], false),
            Art::Path(seq![(330, 700), (670, 700)], false),
            Art::Dash(seq![(330, 500), (670, 500)]),
            Art::Mark(Mark::Dot((500, 500))),
        ],
        Icon::ArcSlot => seq![
            Art::Mark(Mark::Arc((500, 880), 460, 205, 335)),
            Art::Mark(Mark::Arc((500, 880), 240, 205, 335)),
            Art::Path(seq![(83, 685), (283, 779)], false),
            Art::Path(seq![(917, 685), (717, 779)], false),
        ],
        Icon::FillPattern => seq![
            Art::Path(seq![(100, 200), (900, 120), (880, 840), (140, 900)], true),
            Art::Mark(Mark::Dot((280, 380))),
            Art::Mark(Mark::Dot((500, 380))),
            Art::Mark(Mark::Dot((720, 380))),
            Art::Mark(Mark::Dot((280, 660))),
            Art::Mark(Mark::Dot((500, 660))),
            Art::Mark(Mark::Dot((720, 660))),
        ],
        Icon::PowerTrim => seq![
            Art::Path(seq![(260, 120), (260, 880)], false),
            Art::Path(seq![(520, 120), (520, 880)], false),
            Art::Path(seq![(780, 120), (780, 880)], false),
            Art::Mark(Mark::Curve((80, 740), (360, 860), (620, 200), (940, 320), true)),
        ],
        Icon::TrimCorner => seq![
            Art::Path(seq![(200, 120), (200, 560)], false),
            Art::Dash(seq![(200, 560), (200, 800)]),
            Art::Path(seq![(880, 800), (440, 800)], false),
            Art::Dash(seq![(440, 800), (200, 800)]),
            Art::Mark(Mark::Dot((200, 800))),
        ],
        Icon::Boss => seq![
            Art::Path(seq![(180, 620), (820, 620), (820, 900), (180, 900)], true),
            Art::Path(seq![(500, 580), (500, 200)], false),
            Art::Mark(Mark::Head((500, 100), (500, 200))),
        ],
        Icon::Revolve => seq![
            Art::Dash(seq![(160, 60), (160, 940)]),
            Art::Path(seq![(300, 460), (580, 460), (580, 880), (300, 880)], true),
            Art::Mark(Mark::Arc((160, 460), 420, 282, 360)),
            Art::Mark(Mark::Head((200, 60), (234, 154))),
        ],
        Icon::Loft => seq![
            Art::Path(seq![(320, 180), (680, 180)], false),
            Art::Path(seq![(120, 840), (880, 840)], false),
            Art::Path(seq![(320, 180), (120, 840)], false),
            Art::Path(seq![(680, 180), (880, 840)], false),
            Art::Dash(seq![(500, 180), (500, 840)]),
        ],
        Icon::Sweep => seq![
            Art::Mark(Mark::Curve((140, 800), (340, 160), (660, 840), (880, 220), true)),
            Art::Mark(Mark::Circle((140, 800), 130)),
            Art::Mark(Mark::Circle((880, 220), 130)),
        ],
        Icon::Cut => seq![
            Art::Path(seq![(180, 620), (820, 620), (820, 900), (180, 900)], true),
            Art::Path(seq![(500, 80), (500, 460)], false),
            Art::Mark(Mark::Head((500, 580), (500, 480))),
        ],
        Icon::RevolveCut => seq![
            Art::Dash(seq![(160, 60), (160, 940)]),
            Art::Dash(seq![(300, 460), (580, 460), (580, 880), (300, 880), (300, 460)]),
            Art::Mark(Mark::Arc((160, 460), 420, 282, 360)),
            Art::Mark(Mark::Head((200, 60), (234, 154))),
        ],
        Icon::LoftCut => seq![
            Art::Dash(seq![(320, 180), (680, 180)]),
            Art::Dash(seq![(120, 840), (880, 840)]),
            Art::Dash(seq![(320, 180), (120, 840)]),
            Art::Dash(seq![(680, 180), (880, 840)]),
            Art::Path(seq![(500, 280), (500, 520)], false),
            Art::Mark(Mark::Head((500, 660), (500, 560))),
        ],
        Icon::SweepCut => seq![
            Art::Mark(Mark::Curve((140, 800), (340, 160), (660, 840), (880, 220), true)),
            Art::Mark(Mark::Circle((140, 800), 130)),
            Art::Mark(Mark::Head((880, 220), (810, 290))),
        ],
        Icon::Hole => seq![
            Art::Mark(Mark::Circle((500, 500), 240)),
            Art::Mark(Mark::DashRing((500, 500), 360)),
            Art::Mark(Mark::Dot((500, 500))),
        ],
        Icon::Fillet => seq![
            Art::Path(seq![(160, 920), (160, 460)], false),
            Art::Mark(Mark::Arc((460, 460), 300, 180, 270)),
            Art::Path(seq![(460, 160), (920, 160)], false),
            Art::Dash(seq![(160, 160), (160, 460)]),
            Art::Dash(seq![(160, 160), (460, 160)]),
        ],
        Icon::Chamfer => seq![
            Art::Path(seq![(160, 920), (160, 500), (500, 160), (920, 160)], false),
            Art::Dash(seq![(160, 160), (160, 500)]),
            Art::Dash(seq![(160, 160), (500, 160)]),
        ],
        Icon::Shell => seq![
            Art::Path(seq![(120, 160), (120, 880), (880, 880), (880, 160)], false),
            Art::Path(seq![(300, 160), (300, 700), (700, 700), (700, 160)], false),
        ],
        Icon::LinearPattern => seq![
            Art::Path(seq![(80, 140), (340, 140), (340, 400), (80, 400)], true),
            Art::Path(seq![(400, 140), (660, 140), (660, 400), (400, 400)], true),
            Art::Path(seq![(720, 140), (980, 140), (980, 400), (720, 400)], true),
            Art::Path(seq![(80, 720), (800, 720)], false),
            Art::Mark(Mark::Head((920, 720), (820, 720))),
        ],
        Icon::CircularPattern => seq![
            Art::Mark(Mark::DashRing((500, 500), 360)),
            Art::Mark(Mark::Dot((500, 500))),
            Art::Mark(Mark::RimBox((500, 500), 360, 270, 110)),
            Art::Mark(Mark::RimBox((500, 500), 360, 30, 110)),
            Art::Mark(Mark::RimBox((500, 500), 360, 150, 110)),
        ],
        Icon::Plane => seq![
            Art::Path(seq![(60, 660), (580, 300), (940, 360), (420, 720)], true),
            Art::Mark(Mark::Dot((500, 510))),
        ],
        Icon::Sketch => seq![
            Art::Dash(seq![(60, 700), (580, 400), (940, 460), (420, 760), (60, 700)]),
            Art::Path(seq![(300, 560), (560, 420), (760, 520), (500, 660)], true),
            Art::Mark(Mark::Dot((300, 560))),
            Art::Mark(Mark::Dot((760, 520))),
        ],
    }
}

/// The artwork of an icon, to draw.
pub fn prims(icon: Icon) -> (out: Vec<Prim>)
    ensures
        drawn(out@) == artwork(icon),
{
    let out: Vec<Prim> = match icon {
        Icon::Select => vec![
            Prim::Fill(vec![(300, 100), (300, 840), (450, 680), (560, 900), (680, 840), (570, 630), (760, 600)]),
        ],
        Icon::Line => vec![
            Prim::Path(vec![(180, 820), (820, 180)], false),
            Prim::Mark(Mark::Dot((180, 820))),
            Prim::Mark(Mark::Dot((820, 180))),
        ],
        Icon::Circle => vec![
            Prim::Mark(Mark::Circle((500, 500), 340)),
            Prim::Mark(Mark::Dot((500, 500))),
        ],
        Icon::Arc => vec![
            Prim::Mark(Mark::Arc((500, 740), 420, 180, 360)),
            Prim::Mark(Mark::Dot((80, 740))),
            Prim::Mark(Mark::Dot((920, 740))),
        ],
        Icon::Rectangle => vec![
            Prim::Path(vec![(160, 240), (840, 240), (840, 760), (160, 760)], true),
            Prim::Mark(Mark::Dot((160, 240))),
            Prim::Mark(Mark::Dot((840, 760))),
        ],
        Icon::Slot => vec![
            Prim::Mark(Mark::Arc((330, 500), 200, 90, 270)),
            Prim::Mark(Mark::Arc((670, 500), 200, 270, 450)),
            Prim::Path(vec![(330, 300), (670, 300)], false),
            Prim::Path(vec![(330, 700), (670, 700)], false),
        ],
        Icon::Polygon => vec![
            Prim::Mark(Mark::Ngon((500, 500), 360, 6, 270)),
            Prim::Mark(Mark::Dot((500, 500))),
        ],
        Icon::Spline => vec![
            Prim::Mark(Mark::Curve((120, 740), (340, 100), (660, 900), (880, 260), false)),
            Prim::Mark(Mark::Dot((120, 740))),
            Prim::Mark(Mark::Dot((880, 260))),
        ],
        Icon::Text => vec![
            Prim::Path(vec![(240, 840), (500, 160), (760, 840)], false),
            Prim::Path(vec![(350, 600), (650, 600)], false),
        ],
        Icon::Dimension => vec![
            Prim::Path(vec![(160, 200), (160, 840)], false),
            Prim::Path(vec![(840, 200), (840, 840)], false),
            Prim::Path(vec![(160, 520), (840, 520)], false),
            Prim::Mark(Mark::Head((160, 520), (260, 520))),
            Prim::Mark(Mark::Head((840, 520), (740, 520))),
        ],
        Icon::Pattern => vec![
            Prim::Path(vec![(100, 100), (360, 100), (360, 360), (100, 360)], true),
            Prim::Path(vec![(100, 640), (360, 640), (360, 900), (100, 900)], true),
            Prim::Path(vec![(640, 100), (900, 100), (900, 360), (640, 360)], true),
            Prim::Path(vec![(640, 640), (900, 640), (900, 900), (640, 900)], true),
        ],
        Icon::Mirror | Icon::MirrorFeature => vec![
            Prim::Path(vec![(100, 820), (360, 820), (360, 240)], true),
            Prim::Path(vec![(900, 820), (640, 820), (640, 240)], true),
            Prim::Dash(vec![(500, 80), (500, 920)]),
        ],
        Icon::Trim => vec![
            Prim::Path(vec![(100, 180), (900, 820)], false),
            Prim::Path(vec![(100, 820), (500, 500)], false),
            Prim::Dash(vec![(500, 500), (900, 180)]),
            Prim::Mark(Mark::Dot((500, 500))),
        ],
        Icon::ConstructionLine => vec![
            Prim::Dash(vec![(180, 820), (820, 180)]),
            Prim::Mark(Mark::Dot((180, 820))),
            Prim::Mark(Mark::Dot((820, 180))),
        ],
        Icon::MidpointLine => vec![
            Prim::Path(vec![(220, 780), (780, 220)], false),
            Prim::Mark(Mark::Dot((500, 500))),
            Prim::Mark(Mark::Head((880, 120), (780, 220))),
            Prim::Mark(Mark::Head((120, 880), (220, 780))),
        ],
        Icon::CenterLine => vec![
            Prim::Dash(vec![(220, 780), (780, 220)]),
            Prim::Mark(Mark::Dot((500, 500))),
            Prim::Mark(Mark::Head((880, 120), (780, 220))),
            Prim::Mark(Mark::Head((120, 880), (220, 780))),
        ],
        Icon::PerimeterCircle => vec![
            Prim::Mark(Mark::Circle((500, 500), 340)),
            Prim::Mark(Mark::RimDot((500, 500), 340, 270)),
            Prim::Mark(Mark::RimDot((500, 500), 340, 30)),
            Prim::Mark(Mark::RimDot((500, 500), 340, 150)),
        ],
        Icon::CenterRectangle => vec![
            Prim::Path(vec![(160, 240), (840, 240), (840, 760), (160, 760)], true),
            Prim::Dash(vec![(160, 240), (840, 760)]),
            Prim::Dash(vec![(840, 240), (160, 760)]),
            Prim::Mark(Mark::Dot((500, 500))),
        ],
        Icon::Parallelogram => vec![
            Prim::Path(vec![(300, 240), (940, 240), (700, 760), (60, 760)], true),
            Prim::Mark(Mark::Dot((300, 240))),
            Prim::Mark(Mark::Dot((940, 240))),
        ],
        Icon::SplineThrough => vec![
            Prim::Mark(Mark::Curve((120, 740), (340, 100), (660, 900), (880, 260), false)),
            Prim::Mark(Mark::Dot((120, 740))),
            Prim::Mark(Mark::Dot((500, 500))),
            Prim::Mark(Mark::Dot((880, 260))),
        ],
        Icon::SplineControl => vec![
            Prim::Mark(Mark::Curve((120, 740), (340, 100), (660, 900), (880, 260), false)),
            Prim::Dash(vec![(120, 740), (340, 100), (660, 900), (880, 260)]),
            Prim::Mark(Mark::Dot((340, 100))),
            Prim::Mark(Mark::Dot((660, 900))),
        ],
        Icon::CenterpointSlot => vec![
            Prim::Mark(Mark::Arc((330, 500), 200, 90, 270)),
            Prim::Mark(Mark::Arc((670, 500), 200, 270, 450)),
            Prim::Path(vec![(330, 300), (670, 300)], false),
            Prim::Path(vec![(330, 700), (670, 700)], false),
            Prim::Dash(vec![(330, 500), (670, 500)]),
            Prim::Mark(Mark::Dot((500, 500))),
        ],
        Icon::ArcSlot => vec![
            Prim::Mark(Mark::Arc((500, 880), 460, 205, 335)),
            Prim::Mark(Mark::Arc((500, 880), 240, 205, 335)),
            Prim::Path(vec![(83, 685), (283, 779)], false),
            Prim::Path(vec![(917, 685), (717, 779)], false),
        ],
        Icon::FillPattern => vec![
            Prim::Path(vec![(100, 200), (900, 120), (880, 840), (140, 900)], true),
            Prim::Mark(Mark::Dot((280, 380))),
            Prim::Mark(Mark::Dot((500, 380))),
            Prim::Mark(Mark::Dot((720, 380))),
            Prim::Mark(Mark::Dot((280, 660))),
            Prim::Mark(Mark::Dot((500, 660))),
            Prim::Mark(Mark::Dot((720, 660))),
        ],
        Icon::PowerTrim => vec![
            Prim::Path(vec![(260, 120), (260, 880)], false),
            Prim::Path(vec![(520, 120), (520, 880)], false),
            Prim::Path(vec![(780, 120), (780, 880)], false),
            Prim::Mark(Mark::Curve((80, 740), (360, 860), (620, 200), (940, 320), true)),
        ],
        Icon::TrimCorner => vec![
            Prim::Path(vec![(200, 120), (200, 560)], false),
            Prim::Dash(vec![(200, 560), (200, 800)]),
            Prim::Path(vec![(880, 800), (440, 800)], false),
            Prim::Dash(vec![(440, 800), (200, 800)]),
            Prim::Mark(Mark::Dot((200, 800))),
        ],
        Icon::Boss => vec![
            Prim::Path(vec![(180, 620), (820, 620), (820, 900), (180, 900)], true),
            Prim::Path(vec![(500, 580), (500, 200)], false),
            Prim::Mark(Mark::Head((500, 100), (500, 200))),
        ],
        Icon::Revolve => vec![
            Prim::Dash(vec![(160, 60), (160, 940)]),
            Prim::Path(vec![(300, 460), (580, 460), (580, 880), (300, 880)], true),
            Prim::Mark(Mark::Arc((160, 460), 420, 282, 360)),
            Prim::Mark(Mark::Head((200, 60), (234, 154))),
        ],
        Icon::Loft => vec![
            Prim::Path(vec![(320, 180), (680, 180)], false),
            Prim::Path(vec![(120, 840), (880, 840)], false),
            Prim::Path(vec![(320, 180), (120, 840)], false),
            Prim::Path(vec![(680, 180), (880, 840)], false),
            Prim::Dash(vec![(500, 180), (500, 840)]),
        ],
        Icon::Sweep => vec![
            Prim::Mark(Mark::Curve((140, 800), (340, 160), (660, 840), (880, 220), true)),
            Prim::Mark(Mark::Circle((140, 800), 130)),
            Prim::Mark(Mark::Circle((880, 220), 130)),
        ],
        Icon::Cut => vec![
            Prim::Path(vec![(180, 620), (820, 620), (820, 900), (180, 900)], true),
            Prim::Path(vec![(500, 80), (500, 460)], false),
            Prim::Mark(Mark::Head((500, 580), (500, 480))),
        ],
        Icon::RevolveCut => vec![
            Prim::Dash(vec![(160, 60), (160, 940)]),
            Prim::Dash(vec![(300, 460), (580, 460), (580, 880), (300, 880), (300, 460)]),
            Prim::Mark(Mark::Arc((160, 460), 420, 282, 360)),
            Prim::Mark(Mark::Head((200, 60), (234, 154))),
        ],
        Icon::LoftCut => vec![
            Prim::Dash(vec![(320, 180), (680, 180)]),
            Prim::Dash(vec![(120, 840), (880, 840)]),
            Prim::Dash(vec![(320, 180), (120, 840)]),
            Prim::Dash(vec![(680, 180), (880, 840)]),
            Prim::Path(vec![(500, 280), (500, 520)], false),
            Prim::Mark(Mark::Head((500, 660), (500, 560))),
        ],
        Icon::SweepCut => vec![
            Prim::Mark(Mark::Curve((140, 800), (340, 160), (660, 840), (880, 220), true)),
            Prim::Mark(Mark::Circle((140, 800), 130)),
            Prim::Mark(Mark::Head((880, 220), (810, 290))),
        ],
        Icon::Hole => vec![
            Prim::Mark(Mark::Circle((500, 500), 240)),
            Prim::Mark(Mark::DashRing((500, 500), 360)),
            Prim::Mark(Mark::Dot((500, 500))),
        ],
        Icon::Fillet => vec![
            Prim::Path(vec![(160, 920), (160, 460)], false),
            Prim::Mark(Mark::Arc((460, 460), 300, 180, 270)),
            Prim::Path(vec![(460, 160), (920, 160)], false),
            Prim::Dash(vec![(160, 160), (160, 460)]),
            Prim::Dash(vec![(160, 160), (460, 160)]),
        ],
        Icon::Chamfer => vec![
            Prim::Path(vec![(160, 920), (160, 500), (500, 160), (920, 160)], false),
            Prim::Dash(vec![(160, 160), (160, 500)]),
            Prim::Dash(vec![(160, 160), (500, 160)]),
        ],
        Icon::Shell => vec![
            Prim::Path(vec![(120, 160), (120, 880), (880, 880), (880, 160)], false),
            Prim::Path(vec![(300, 160), (300, 700), (700, 700), (700, 160)], false),
        ],
        Icon::LinearPattern => vec![
            Prim::Path(vec![(80, 140), (340, 140), (340, 400), (80, 400)], true),
            Prim::Path(vec![(400, 140), (660, 140), (660, 400), (400, 400)], true),
            Prim::Path(vec![(720, 140), (980, 140), (980, 400), (720, 400)], true),
            Prim::Path(vec![(80, 720), (800, 720)], false),
            Prim::Mark(Mark::Head((920, 720), (820, 720))),
        ],
        Icon::CircularPattern => vec![
            Prim::Mark(Mark::DashRing((500, 500), 360)),
            Prim::Mark(Mark::Dot((500, 500))),
            Prim::Mark(Mark::RimBox((500, 500), 360, 270, 110)),
            Prim::Mark(Mark::RimBox((500, 500), 360, 30, 110)),
            Prim::Mark(Mark::RimBox((500, 500), 360, 150, 110)),
        ],
        Icon::Plane => vec![
            Prim::Path(vec![(60, 660), (580, 300), (940, 360), (420, 720)], true),
            Prim::Mark(Mark::Dot((500, 510))),
        ],
        Icon::Sketch => vec![
            Prim::Dash(vec![(60, 700), (580, 400), (940, 460), (420, 760), (60, 700)]),
            Prim::Path(vec![(300, 560), (560, 420), (760, 520), (500, 660)], true),
            Prim::Mark(Mark::Dot((300, 560))),
            Prim::Mark(Mark::Dot((760, 520))),
        ],
    };
    assert(drawn(out@) =~~= artwork(icon));
    out
}

/// Within the box, or over its edge by no more than a stroke.
pub open spec fn inside(x: int) -> bool {
    -20 <= x <= 1020
}

pub open spec fn spot_inside(p: (i32, i32)) -> bool {
    inside(p.0 as int) && inside(p.1 as int)
}

/// Everything within `r` of the point, across and up and down, is inside.
pub open spec fn square_inside(c: (i32, i32), r: int) -> bool {
    inside(c.0 - r) && inside(c.0 + r) && inside(c.1 - r) && inside(c.1 + r)
}

/// The coordinate `x`, moved back by `v` over the root of `square`, is inside.
pub open spec fn back_inside(x: int, v: int, square: int) -> bool {
    if v >= 0 {
        v * v <= (x + 20) * (x + 20) * square
    } else {
        v * v <= (1020 - x) * (1020 - x) * square
    }
}

/// The two spans share more than an end.
pub open spec fn overlap(a0: int, a1: int, b0: int, b1: int) -> bool {
    a0 < b1 && b0 < a1
}

/// The arrow head stays inside.
pub open spec fn head_fits(tip: (i32, i32), tail: (i32, i32)) -> bool {
    let (dx, dy) = (tip.0 - tail.0, tip.1 - tail.1);
    let square = dx * dx + dy * dy;
    &&& square > 0
    &&& spot_inside(tip)
    &&& back_inside(tip.0 as int, 200 * dx + 85 * dy, square)
    &&& back_inside(tip.0 as int, 200 * dx - 85 * dy, square)
    &&& back_inside(tip.1 as int, 200 * dy - 85 * dx, square)
    &&& back_inside(tip.1 as int, 200 * dy + 85 * dx, square)
}

/// The primitive stays inside. An arc reaches to those sides of its centre that its angles point
/// to, an arrow head 200 back from its tip and 85 to each side, and a curve nowhere that its control
/// points do not surround.
pub open spec fn mark_fits(m: Mark) -> bool {
    match m {
        Mark::Dot(c) => spot_inside(c),
        Mark::Circle(c, r) => square_inside(c, r as int),
        Mark::Arc(c, r, a0, a1) => {
            let (s, e) = (a0 as int, a1 as int);
            &&& 0 <= s && e <= 450
            &&& spot_inside(c)
            &&& overlap(s, e, 0, 90) || overlap(s, e, 270, 450) ==> inside(c.0 + r)
            &&& overlap(s, e, 0, 180) || overlap(s, e, 360, 450) ==> inside(c.1 + r)
            &&& overlap(s, e, 90, 270) ==> inside(c.0 - r)
            &&& overlap(s, e, 180, 360) ==> inside(c.1 - r)
        },
        Mark::Head(tip, tail) => head_fits(tip, tail),
        Mark::Ngon(c, r, n, a) => n >= 3 && square_inside(c, r as int),
        Mark::Curve(p0, p1, p2, p3, dashed) => spot_inside(p0) && spot_inside(p1) && spot_inside(p2) && spot_inside(p3),
        Mark::DashRing(c, r) => square_inside(c, r as int),
        Mark::RimDot(c, r, a) => square_inside(c, r as int),
        Mark::RimBox(c, r, a, half) => square_inside(c, r + half),
    }
}

pub open spec fn spots_fit(s: Seq<(i32, i32)>) -> bool {
    s.len() >= 2 && forall|i: int| 0 <= i < s.len() ==> spot_inside(#[trigger] s[i])
}

pub open spec fn fits(a: Art) -> bool {
    match a {
        Art::Path(s, c) => spots_fit(s),
        Art::Dash(s) => spots_fit(s),
        Art::Fill(s) => spots_fit(s) && s.len() >= 3,
        Art::Mark(m) => mark_fits(m),
    }
}

/// Every icon draws something, and stays inside its box.
pub proof fn icons_fit_their_box(icon: Icon)
    ensures
        artwork(icon).len() > 0,
        forall|i: int| 0 <= i < artwork(icon).len() ==> fits(#[trigger] artwork(icon)[i]),
{
    assert(head_fits((120, 880), (220, 780))) by (nonlinear_arith);
    assert(head_fits((160, 520), (260, 520))) by (nonlinear_arith);
    assert(head_fits((200, 60), (234, 154))) by (nonlinear_arith);
    assert(head_fits((500, 100), (500, 200))) by (nonlinear_arith);
    assert(head_fits((500, 580), (500, 480))) by (nonlinear_arith);
    assert(head_fits((500, 660), (500, 560))) by (nonlinear_arith);
    assert(head_fits((840, 520), (740, 520))) by (nonlinear_arith);
    assert(head_fits((880, 120), (780, 220))) by (nonlinear_arith);
    assert(head_fits((880, 220), (810, 290))) by (nonlinear_arith);
    assert(head_fits((920, 720), (820, 720))) by (nonlinear_arith);
}

/// The same strokes, dashed.
pub open spec fn dashed(a: Art) -> Art {
    match a {
        Art::Path(s, closed) => Art::Dash(
            if closed {
                s.push(s[0])
            } else {
                s
            },
        ),
        other => other,
    }
}

/// What is taken away is drawn like what is added, but dashed; what only helps to draw is dashed too.
pub proof fn dashed_icons_are_drawn_alike(k: int)
    ensures
        0 <= k < 3 ==> artwork(Icon::ConstructionLine)[k] == dashed(artwork(Icon::Line)[k]),
        0 <= k < 4 ==> artwork(Icon::CenterLine)[k] == dashed(artwork(Icon::MidpointLine)[k]),
        0 <= k < 4 ==> artwork(Icon::RevolveCut)[k] == dashed(artwork(Icon::Revolve)[k]),
        0 <= k < 4 ==> artwork(Icon::LoftCut)[k] == dashed(artwork(Icon::Loft)[k]),
{
    assert(k < 0 || k == 0 || k == 1 || k == 2 || k == 3 || k > 3);
    assert(artwork(Icon::RevolveCut)[1]->Dash_0 =~= dashed(artwork(Icon::Revolve)[1])->Dash_0);
}

/// A variant of a tool is drawn as the tool is, with what sets it apart added.
pub proof fn variants_extend_their_tool()
    ensures
        artwork(Icon::CenterpointSlot).take(4) == artwork(Icon::Slot),
        artwork(Icon::PerimeterCircle)[0] == artwork(Icon::Circle)[0],
        artwork(Icon::CenterRectangle)[0] == artwork(Icon::Rectangle)[0],
        artwork(Icon::SplineThrough)[0] == artwork(Icon::Spline)[0],
        artwork(Icon::SplineControl)[0] == artwork(Icon::Spline)[0],
        artwork(Icon::SweepCut).take(2) == artwork(Icon::Sweep).take(2),
        artwork(Icon::Cut)[0] == artwork(Icon::Boss)[0],
        artwork(Icon::MirrorFeature) == artwork(Icon::Mirror),
{
    assert(artwork(Icon::CenterpointSlot).take(4) =~= artwork(Icon::Slot));
    assert(artwork(Icon::SweepCut).take(2) =~= artwork(Icon::Sweep).take(2));
}

/// The place mirrored left to right in its box.
pub open spec fn mirrored(p: (i32, i32)) -> (int, int) {
    (1000 - p.0, p.1 as int)
}

/// An icon of a mirror shows a shape and its mirror image, on both sides of the middle.
pub proof fn mirrors_show_both_sides(k: int)
    requires
        0 <= k < 3,
    ensures
        ({
            let art = artwork(Icon::Mirror);
            let (s, t) = (art[0]->Path_0, art[1]->Path_0);
            &&& art[0] is Path && art[1] is Path && s.len() == 3 && t.len() == 3
            &&& mirrored(s[k]) == (t[k].0 as int, t[k].1 as int)
            &&& s[k].0 < 500 < t[k].0
        }),
{
    assert(k == 0 || k == 1 || k == 2);
}

/// The first and the last point of a stroke are marked with dots, and these are all the marks.
pub open spec fn ends_are_dotted(art: Seq<Art>, stroke: Seq<(i32, i32)>) -> bool {
    &&& art.len() == 3 && stroke.len() >= 2
    &&& art[1] == Art::Mark(Mark::Dot(stroke[0]))
    &&& art[2] == Art::Mark(Mark::Dot(stroke[stroke.len() - 1]))
}

/// The dots of an icon sit where its strokes start and end.
pub proof fn dots_sit_on_the_ends()
    ensures
        ends_are_dotted(artwork(Icon::Line), artwork(Icon::Line)[0]->Path_0),
        ends_are_dotted(artwork(Icon::ConstructionLine), artwork(Icon::ConstructionLine)[0]->Dash_0),
        artwork(Icon::Spline)[0] matches Art::Mark(Mark::Curve(p, _, _, q, false)) && ends_are_dotted(artwork(Icon::Spline), seq![p, q]),
        artwork(Icon::Arc)[0] matches Art::Mark(Mark::Arc(c, r, from, to)) && to - from == 180 && ends_are_dotted(
            artwork(Icon::Arc),
            seq![((c.0 - r) as i32, c.1), ((c.0 + r) as i32, c.1)],
        ),
        ({
            let s = artwork(Icon::Rectangle)[0]->Path_0;
            s.len() == 4 && ends_are_dotted(artwork(Icon::Rectangle), seq![s[0], s[2]])
        }),
{
}

/// Adding material is drawn with an arrow out of the block, up; taking it away with an arrow down into
/// the block. The arrow head goes on in the direction of its shaft.
pub proof fn arrows_show_what_is_done()
    ensures
        ({
            let (block, shaft) = (artwork(Icon::Boss)[0]->Path_0, artwork(Icon::Boss)[1]->Path_0);
            artwork(Icon::Boss)[2] matches Art::Mark(Mark::Head(tip, from)) && tip.1 < from.1 && from == shaft[1] && shaft[1].1 < shaft[0].1
                < block[0].1 && tip.0 == from.0 && from.0 == shaft[0].0
        }),
        ({
            let (block, shaft) = (artwork(Icon::Cut)[0]->Path_0, artwork(Icon::Cut)[1]->Path_0);
            artwork(Icon::Cut)[2] matches Art::Mark(Mark::Head(tip, from)) && tip.1 > from.1 && shaft[0].1 < shaft[1].1 < from.1 && tip.1
                < block[0].1 && tip.0 == from.0 && from.0 == shaft[0].0
        }),
        ({
            let line = artwork(Icon::Dimension)[2]->Path_0;
            &&& artwork(Icon::Dimension)[3] matches Art::Mark(Mark::Head(tip, from)) && tip == line[0] && from.0 > tip.0 && from.1 == tip.1
            &&& artwork(Icon::Dimension)[4] matches Art::Mark(Mark::Head(tip, from)) && tip == line[1] && from.0 < tip.0 && from.1 == tip.1
        }),
{
}

/// What stands on a circle is spread evenly round it, from the top.
pub proof fn rims_are_shared_evenly(k: int)
    requires
        1 <= k <= 3,
    ensures
        artwork(Icon::PerimeterCircle)[0] matches Art::Mark(Mark::Circle(c, r)) && artwork(Icon::PerimeterCircle)[k] matches Art::Mark(
            Mark::RimDot(d, s, angle),
        ) && c == d && r == s && (angle - 270 - 120 * (k - 1)) % 360 == 0,
        artwork(Icon::CircularPattern)[0] matches Art::Mark(Mark::DashRing(c, r)) && artwork(Icon::CircularPattern)[k + 1] matches Art::Mark(
            Mark::RimBox(d, s, angle, _),
        ) && c == d && r == s && (angle - 270 - 120 * (k - 1)) % 360 == 0,
        artwork(Icon::Hole)[0] matches Art::Mark(Mark::Circle(c, r)) && artwork(Icon::Hole)[1] matches Art::Mark(Mark::DashRing(d, s)) && c == d && r < s
            && artwork(Icon::Hole)[2] == Art::Mark(Mark::Dot(c)),
{
    assert(k == 1 || k == 2 || k == 3);
}

/// Rounding and bevelling replace a corner that is drawn dashed, between the ends of what replaces it.
pub proof fn blends_replace_their_corner()
    ensures
        ({
            let art = artwork(Icon::Fillet);
            let (rise, run) = (art[0]->Path_0, art[2]->Path_0);
            &&& art[1] matches Art::Mark(Mark::Arc(c, r, 180, 270)) && rise[1] == ((c.0 - r) as i32, c.1) && run[0] == (c.0, (c.1 - r) as i32)
            &&& art[3] == Art::Dash(seq![(rise[1].0, run[0].1), rise[1]]) && art[4] == Art::Dash(seq![(rise[1].0, run[0].1), run[0]])
        }),
        ({
            let art = artwork(Icon::Chamfer);
            let s = art[0]->Path_0;
            s.len() == 4 && art[1] == Art::Dash(seq![(s[1].0, s[2].1), s[1]]) && art[2] == Art::Dash(seq![(s[1].0, s[2].1), s[2]])
        }),
{
    let art = artwork(Icon::Fillet);
    let (rise, run) = (art[0]->Path_0, art[2]->Path_0);
    assert(art[3]->Dash_0 =~= seq![(rise[1].0, run[0].1), rise[1]]);
    assert(art[4]->Dash_0 =~= seq![(rise[1].0, run[0].1), run[0]]);
    let s = artwork(Icon::Chamfer)[0]->Path_0;
    assert(artwork(Icon::Chamfer)[1]->Dash_0 =~= seq![(s[1].0, s[2].1), s[1]]);
    assert(artwork(Icon::Chamfer)[2]->Dash_0 =~= seq![(s[1].0, s[2].1), s[2]]);
}

} // verus!
