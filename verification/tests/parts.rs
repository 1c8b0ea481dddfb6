use hcad::assembly::{Assembly, Mate, MateRef};
use hcad::document::{Document, FeatureKind, NumberStyle, PlaneRef, MINUS_UNIT, ONE, UNIT};

fn plane() -> PlaneRef {
    PlaneRef { origin: [0; 3], u: [ONE, 0, 0], v: [0, ONE, 0], normal: [0, 0, ONE], datum: true }
}

fn sketch() -> FeatureKind<u8> {
    FeatureKind::Sketch { sketch: 0, plane: plane() }
}

fn extrude(distance: f64) -> FeatureKind<u8> {
    FeatureKind::Extrude {
        sketch: 0,
        regions: Vec::new(),
        region_pts: Vec::new(),
        plane: plane(),
        distance: distance.to_bits(),
        back: 0,
        thin: 0,
        thin_side: 0,
    }
}

fn cut(distance: f64) -> FeatureKind<u8> {
    FeatureKind::Cut {
        sketch: 0,
        regions: Vec::new(),
        region_pts: Vec::new(),
        plane: plane(),
        distance: distance.to_bits(),
        back: 0,
        thin: 0,
        thin_side: 0,
    }
}

fn show(bits: u64, style: NumberStyle) -> String {
    let v = f64::from_bits(bits);
    match style {
        NumberStyle::Whole => format!("{v:.0}"),
        NumberStyle::Tenths => format!("{v:.1}"),
        NumberStyle::Hundredths => format!("{v:.2}"),
        NumberStyle::Degrees => format!("{:.0}", v.to_degrees()),
    }
}

#[test]
fn a_new_document_has_the_standard_planes() {
    let doc: Document<u8> = Document::with_default_planes();
    assert_eq!(doc.features.len(), 3);
    assert_eq!(doc.rollback, 3);
    let names: Vec<&str> = doc.planes().iter().map(|p| p.1.name.as_str()).collect();
    assert_eq!(names, vec!["Front", "Top", "Right"]);
    let planes = doc.planes();
    assert_eq!(planes[1].1.v, [0, 0, MINUS_UNIT]);
    assert_eq!(planes[0].1.u, [UNIT, 0, 0]);
    assert!(doc.planes_vis().iter().all(|p| !p.2));
    let bare: Document<u8> = Document::default();
    assert!(bare.features.is_empty() && bare.rollback == 0 && bare.next_id() == 0);
}

#[test]
fn features_are_numbered_and_labelled_in_order() {
    let mut doc: Document<u8> = Document::with_default_planes();
    let first = doc.add_feature(sketch());
    doc.add_feature(extrude(5.0));
    doc.add_feature(cut(2.0));
    doc.add_feature(extrude(7.0));
    let last = doc.add_feature(sketch());
    assert_eq!((first.0, last.0), (3, 7));
    assert_eq!(doc.rollback, 8);
    let labels = doc.tree_labels(&show);
    assert_eq!(labels.len(), 8);
    assert_eq!(labels[0], "[plane]  Front");
    assert!(labels[3].contains("Sketch") && labels[3].contains('1'), "{}", labels[3]);
    assert!(labels[7].contains("Sketch") && labels[7].contains('2'), "{}", labels[7]);
    assert!(labels[4].contains('1') && labels[6].contains('2'), "{labels:?}");
    assert_ne!(labels[4], labels[6]);
    // A later feature changes no label before it.
    doc.add_feature(extrude(1.0));
    assert_eq!(doc.tree_labels(&show)[..8], labels[..]);
}

#[test]
fn a_hidden_plane_keeps_its_place() {
    let mut doc: Document<u8> = Document::with_default_planes();
    doc.features[1].hidden = true;
    let vis: Vec<bool> = doc.planes_vis().iter().map(|p| p.2).collect();
    assert_eq!(vis, vec![false, true, false]);
    assert_eq!(doc.planes().len(), 3);
}

#[test]
fn the_first_component_is_the_anchor() {
    let mut a: Assembly<u8> = Assembly::default();
    let x = a.add_component("base".to_string(), String::new(), Document::default(), [0; 3]);
    let y = a.add_component("arm".to_string(), "arm.hcad".to_string(), Document::default(), [ONE, 0, 0]);
    assert_eq!((x, y), (1, 2));
    assert!(a.component(x).unwrap().fixed);
    assert!(!a.component(y).unwrap().fixed);
    assert_eq!(a.component(y).unwrap().rotation, [0, 0, 0, ONE]);
    assert!(a.component(9).is_none());
    a.component_mut(y).unwrap().hidden = true;
    assert!(a.component(y).unwrap().hidden);
    assert!(!a.component(x).unwrap().hidden);
    assert!(a.component_mut(9).is_none());
    let side = |comp: u64| MateRef { comp, kind: 0, point: [0; 3], dir: [0, 0, ONE] };
    assert_eq!(a.add_mate(1, 0, false, side(x), side(y)), 1);
    assert_eq!(a.add_mate(3, 0, true, side(y), side(x)), 2);
    assert_eq!(a.mates.len(), 2);
    assert!(a.mates[1].flip);
}

#[test]
fn mates_compare_their_numbers_as_numbers() {
    let side = |x: f64| MateRef { comp: 1, kind: 0, point: [x.to_bits(), 0, 0], dir: [0, 0, ONE] };
    assert!(side(0.0) == side(-0.0));
    assert!(side(1.5) == side(1.5));
    assert!(side(1.5) != side(-1.5));
    assert!(side(f64::NAN) != side(f64::NAN));
    assert!(side(f64::INFINITY) == side(f64::INFINITY));
    assert!(side(f64::INFINITY) != side(f64::NEG_INFINITY));
    let mate = |v: f64, flip: bool| Mate { id: 1, kind: 1, value: v.to_bits(), flip, a: side(0.0), b: side(2.0) };
    assert!(mate(-0.0, false) == mate(0.0, false));
    assert!(mate(-f64::NAN, false) != mate(-f64::NAN, false));
    assert!(mate(3.0, false) != mate(3.0, true));
}

#[test]
fn what_was_filed_goes_on_counting_where_it_left_off() {
    let mut doc: Document<u8> = Document::restore(Vec::new(), 0, 7);
    assert_eq!(doc.next_id(), 7);
    assert_eq!(doc.add_feature(sketch()).0, 7);
    assert_eq!(doc.next_id(), 8);
    let mut a: Assembly<u8> = Assembly::restore(Vec::new(), Vec::new(), 4, 2);
    assert_eq!(a.add_component("arm".to_string(), String::new(), doc, [0; 3]), 5);
    assert_eq!(a.counters(), (5, 2));
}
