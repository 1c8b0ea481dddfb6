use hcad::fonts::{
    best_face, can_preview, default_family, face_entry, face_family, face_order, faces_of_file, families, fits_preview, glyph_step, is_font_extension,
    lay_out, slants, sort_faces, FaceEntry, GlyphStep, NameRow,
};
use hcad::outlines::{contours, ContourPoint, Stroke, CUBIC_STEPS, QUAD_STEPS};

fn put16(out: &mut Vec<u8>, v: u16) {
    out.extend_from_slice(&v.to_be_bytes());
}

fn put32(out: &mut Vec<u8>, v: u32) {
    out.extend_from_slice(&v.to_be_bytes());
}

fn name_table(names: &[(u16, &str)]) -> Vec<u8> {
    let mut texts: Vec<u8> = Vec::new();
    let mut rows: Vec<u8> = Vec::new();
    for (id, text) in names {
        let start = texts.len() as u16;
        for unit in text.encode_utf16() {
            put16(&mut texts, unit);
        }
        for v in [3, 1, 0x409, *id, texts.len() as u16 - start, start] {
            put16(&mut rows, v);
        }
    }
    let mut out = Vec::new();
    put16(&mut out, 0);
    put16(&mut out, names.len() as u16);
    put16(&mut out, 6 + rows.len() as u16);
    out.extend(rows);
    out.extend(texts);
    out
}

/// A font of three glyphs: one for anything unknown, one for `A` and one for `B`.
fn font(names: &[(u16, &str)], selection: u16) -> Vec<u8> {
    let mut head = vec![0; 54];
    head[18..20].copy_from_slice(&1000u16.to_be_bytes());
    let mut hhea = vec![0; 36];
    hhea[34..36].copy_from_slice(&3u16.to_be_bytes());
    let mut maxp = Vec::new();
    put32(&mut maxp, 0x0000_5000);
    put16(&mut maxp, 3);
    let mut hmtx = Vec::new();
    for advance in [500, 600, 700] {
        put16(&mut hmtx, advance);
        put16(&mut hmtx, 0);
    }
    let mut cmap = Vec::new();
    for v in [0, 1, 0, 3, 0, 12, 6, 14, 0, 65, 2, 1, 2] {
        put16(&mut cmap, v);
    }
    let mut os2 = vec![0; 96];
    os2[1] = 4;
    os2[62..64].copy_from_slice(&selection.to_be_bytes());
    let tables: [(&[u8; 4], Vec<u8>); 7] = [
        (b"OS/2", os2),
        (b"cmap", cmap),
        (b"head", head),
        (b"hhea", hhea),
        (b"hmtx", hmtx),
        (b"maxp", maxp),
        (b"name", name_table(names)),
    ];
    let mut out = Vec::new();
    put32(&mut out, 0x0001_0000);
    for v in [tables.len() as u16, 0, 0, 0] {
        put16(&mut out, v);
    }
    let mut at = 12 + 16 * tables.len() as u32;
    for (tag, data) in &tables {
        out.extend_from_slice(*tag);
        put32(&mut out, 0);
        put32(&mut out, at);
        put32(&mut out, data.len() as u32);
        at += data.len() as u32;
    }
    for (_, data) in &tables {
        out.extend_from_slice(data);
    }
    out
}

fn face(family: &str, bold: bool, italic: bool) -> FaceEntry {
    FaceEntry { family: family.to_string(), file: 0, index: 0, bold, italic }
}

#[test]
fn a_face_is_read_with_its_style() {
    let found = faces_of_file(&font(&[(1, "Plain Sans")], 0), 7);
    assert_eq!(found.len(), 1);
    assert_eq!(found[0].family, "Plain Sans");
    assert_eq!((found[0].file, found[0].index, found[0].bold, found[0].italic), (7, 0, false, false));
    let found = faces_of_file(&font(&[(1, "Plain Sans")], 1 << 5), 0);
    assert_eq!((found[0].bold, found[0].italic), (true, false));
    let found = faces_of_file(&font(&[(1, "Plain Sans")], 1), 0);
    assert_eq!((found[0].bold, found[0].italic), (false, true));
    // An oblique face counts as italic.
    let found = faces_of_file(&font(&[(1, "Plain Sans")], 1 << 9), 0);
    assert_eq!((found[0].bold, found[0].italic), (false, true));
}

#[test]
fn the_typographic_family_comes_first() {
    let found = faces_of_file(&font(&[(1, "Plain Sans Light"), (16, "Plain Sans")], 0), 0);
    assert_eq!(found[0].family, "Plain Sans");
    assert!(faces_of_file(&font(&[(4, "Plain Sans Regular")], 0), 0).is_empty(), "a face without a family was listed");
}

#[test]
fn what_is_no_font_has_no_faces() {
    assert!(faces_of_file(&[], 0).is_empty());
    assert!(faces_of_file(b"not a font at all", 0).is_empty());
    assert!(lay_out(b"not a font at all", 0, "A").is_none());
    assert!(!can_preview(b"not a font at all", 0));
}

#[test]
fn every_face_of_a_collection_is_listed() {
    let one = font(&[(1, "First")], 0);
    let mut data = b"ttcf".to_vec();
    put32(&mut data, 0x0001_0000);
    put32(&mut data, 2);
    put32(&mut data, 20);
    put32(&mut data, 20);
    // The tables of a face are found from the start of the file.
    let mut moved = one.clone();
    for t in 0..7 {
        let at = 12 + 16 * t + 8;
        let was = u32::from_be_bytes([one[at], one[at + 1], one[at + 2], one[at + 3]]);
        moved[at..at + 4].copy_from_slice(&(was + 20).to_be_bytes());
    }
    data.extend(moved);
    let found = faces_of_file(&data, 3);
    assert_eq!(found.len(), 2);
    assert_eq!((found[0].index, found[1].index), (0, 1));
    assert_eq!(found[1].family, "First");
    assert_eq!(lay_out(&data, 1, "A"), Some((1000, vec![GlyphStep { glyph: Some(1), advance: 600 }])));
}

#[test]
fn a_line_is_laid_out_glyph_by_glyph() {
    let data = font(&[(1, "Plain Sans")], 0);
    let (units, steps) = lay_out(&data, 0, "AB?").expect("a layout");
    assert_eq!(units, 1000);
    assert_eq!(
        steps,
        vec![
            GlyphStep { glyph: Some(1), advance: 600 },
            GlyphStep { glyph: Some(2), advance: 700 },
            GlyphStep { glyph: None, advance: 0 },
        ]
    );
    assert!(lay_out(&data, 1, "A").is_none(), "there is no second face");
    assert!(can_preview(&data, 0));
}

#[test]
fn a_glyph_without_an_advance_stands_still() {
    assert_eq!(glyph_step(Some(4), None), GlyphStep { glyph: Some(4), advance: 0 });
    assert_eq!(glyph_step(None, Some(9)), GlyphStep { glyph: None, advance: 0 });
}

#[test]
fn faces_are_listed_by_family_whatever_the_case() {
    let faces = vec![face("beta", false, false), face("Alpha", false, false), face("BETA", true, false), face("alpha", true, true)];
    assert_eq!(face_order(&faces), vec![1, 3, 0, 2]);
    let sorted = sort_faces(&faces);
    let names: Vec<&str> = sorted.iter().map(|f| f.family.as_str()).collect();
    assert_eq!(names, vec!["Alpha", "alpha", "beta", "BETA"]);
    assert!(sorted[1].bold && sorted[1].italic);
    // Letters beyond ASCII are folded too.
    assert_eq!(face_order(&vec![face("\u{c9}z", false, false), face("\u{e9}a", false, false)]), vec![1, 0]);
}

#[test]
fn families_are_listed_once() {
    let faces = vec![face("Alpha", false, false), face("alpha", true, false), face("Beta", false, false)];
    assert_eq!(families(&faces), vec!["Alpha".to_string(), "Beta".to_string()]);
    assert!(families(&Vec::new()).is_empty());
}

#[test]
fn a_common_family_is_the_default() {
    let names = |v: &[&str]| v.iter().map(|s| s.to_string()).collect::<Vec<String>>();
    assert_eq!(default_family(&names(&["Zapf", "arial", "Beta"])), "arial");
    assert_eq!(default_family(&names(&["Zapf", "Beta"])), "Zapf");
    assert_eq!(default_family(&names(&[])), "Arial");
}

#[test]
fn the_best_face_matches_the_style() {
    let faces = vec![face("Sans", false, false), face("Sans", true, false), face("Sans", false, true), face("Serif", true, true)];
    assert_eq!(best_face(&faces, "sans", true, false), Some(1));
    assert_eq!(best_face(&faces, "Sans", false, true), Some(2));
    assert_eq!(best_face(&faces, "Serif", false, false), Some(3));
    assert_eq!(best_face(&faces, "Mono", false, false), None);
}

#[test]
fn names_and_extensions() {
    let row = |id: u16, t: Option<&str>| NameRow { id, text: t.map(|s| s.to_string()) };
    assert_eq!(face_family(&vec![row(1, Some("Old")), row(16, Some("New"))]), Some("New".to_string()));
    assert_eq!(face_family(&vec![row(16, None), row(1, Some("Old"))]), Some("Old".to_string()));
    assert_eq!(face_family(&vec![row(4, Some("Full"))]), None);
    assert!(face_entry(&vec![row(1, Some("Old"))], 2, 3, false, false, true).unwrap().italic);
    for ext in ["ttf", "TTF", "otf", "ttc"] {
        assert!(is_font_extension(ext), "{ext}");
    }
    assert!(!is_font_extension("txt"));
}

#[test]
fn previews_and_slants() {
    assert!(fits_preview(Some(10), 10));
    assert!(!fits_preview(Some(11), 10));
    assert!(!fits_preview(None, 10));
    assert!(slants(true, false));
    assert!(!slants(true, true));
    assert!(!slants(false, false));
}

/// Where a point of a contour lies, on a line of numbers.
fn spot(p: &ContourPoint<i32>) -> (char, i32, u8) {
    match *p {
        ContourPoint::At(p) => ('.', p, 0),
        ContourPoint::OnQuad { end, step, .. } => ('q', end, step),
        ContourPoint::OnCurve { end, step, .. } => ('c', end, step),
    }
}

#[test]
fn strokes_become_contours() {
    let strokes = vec![
        Stroke::Move(1),
        Stroke::Line(2),
        Stroke::Line(3),
        Stroke::Close,
        // Two points bound nothing.
        Stroke::Move(4),
        Stroke::Line(5),
        Stroke::Close,
        // Left open.
        Stroke::Move(6),
        Stroke::Line(7),
        Stroke::Line(8),
        Stroke::Line(9),
    ];
    let out = contours(&strokes, 0);
    assert_eq!(out.len(), 2);
    assert_eq!(out[0].iter().map(spot).collect::<Vec<_>>(), vec![('.', 1, 0), ('.', 2, 0), ('.', 3, 0)]);
    assert_eq!(out[1].len(), 4);
    assert!(contours::<i32>(&Vec::new(), 0).is_empty());
}

#[test]
fn curves_are_cut_into_pieces() {
    let out = contours(&vec![Stroke::Move(1), Stroke::Quad(2, 3), Stroke::Curve(4, 5, 6)], 0);
    assert_eq!(out.len(), 1);
    assert_eq!(out[0].len(), 1 + QUAD_STEPS as usize + CUBIC_STEPS as usize);
    assert_eq!(spot(&out[0][8]), ('q', 3, 8));
    assert_eq!(spot(&out[0][9]), ('c', 6, 1));
    assert!(matches!(out[0][1], ContourPoint::OnQuad { start: 1, control: 2, end: 3, step: 1 }));
    // A curve starts where the stroke before it ended.
    assert!(matches!(out[0][20], ContourPoint::OnCurve { start: 3, first: 4, second: 5, end: 6, step: 12 }));
}

#[test]
fn a_curve_without_a_move_starts_at_the_pen() {
    let out = contours(&vec![Stroke::Quad(1, 2)], 7);
    assert_eq!(out.len(), 1);
    assert!(matches!(out[0][0], ContourPoint::OnQuad { start: 7, control: 1, end: 2, step: 1 }));
}
