//! Font faces for the text tool: reading them, listing their families, choosing among them, and
//! laying out a line of text.

use vstd::prelude::*;

verus! {

// ---- what the font parsers say ----

/// What `ttf_parser` reads of a face's names: each name's number, and its text where that can be
/// decoded. There are none where the face cannot be parsed.
pub uninterp spec fn font_names(data: Seq<u8>, index: u32) -> Option<Seq<(u16, Option<Seq<char>>)>>;

/// Whether `ttf_parser` finds the face marked as bold.
pub uninterp spec fn font_bold(data: Seq<u8>, index: u32) -> Option<bool>;

/// Whether `ttf_parser` finds the face to be italic.
pub uninterp spec fn font_italic(data: Seq<u8>, index: u32) -> Option<bool>;

/// Whether `ttf_parser` finds the face marked as oblique.
pub uninterp spec fn font_oblique(data: Seq<u8>, index: u32) -> Option<bool>;

/// The size of the face's em square in font units.
pub uninterp spec fn font_units(data: Seq<u8>, index: u32) -> Option<u16>;

/// The glyph that the face has for a character.
pub uninterp spec fn font_glyph(data: Seq<u8>, index: u32, c: char) -> Option<u16>;

/// The horizontal advance of a glyph in font units.
pub uninterp spec fn font_advance(data: Seq<u8>, index: u32, glyph: u16) -> Option<u16>;

/// Whether `ab_glyph` accepts the face.
pub uninterp spec fn glyphs_accepted(data: Seq<u8>, index: u32) -> bool;

/// The text in lower case.
pub uninterp spec fn lowercase(s: Seq<char>) -> Seq<char>;

/// A name of a face: its number, and its text where that can be decoded.
#[derive(Debug)]
pub struct NameRow {
    pub id: u16,
    pub text: Option<String>,
}

pub open spec fn text_view(t: Option<String>) -> Option<Seq<char>> {
    match t {
        Some(s) => Some(s@),
        None => None,
    }
}

pub open spec fn rows_view(rows: Seq<NameRow>) -> Seq<(u16, Option<Seq<char>>)> {
    Seq::new(rows.len(), |i: int| (rows[i].id, text_view(rows[i].text)))
}

/// A big-endian number at a place in the file.
pub open spec fn word_at(data: Seq<u8>, at: int) -> int {
    data[at] * 0x100_0000 + data[at + 1] * 0x1_0000 + data[at + 2] * 0x100 + data[at + 3]
}

/// How many faces a collection says it holds. A file is a collection if it starts with `ttcf`.
pub open spec fn collection_size(data: Seq<u8>) -> Option<int> {
    if data.len() >= 12 && word_at(data, 0) == 0x7474_6366 {
        Some(word_at(data, 8))
    } else {
        None
    }
}

/// Calls `ttf_parser::fonts_in_collection`: the number that follows the `ttcf` mark and a version in
/// a collection, and nothing for any other file.
#[verifier::external_body]
fn fonts_in_collection(data: &[u8]) -> (n: Option<u32>)
    ensures
        match n {
            Some(k) => collection_size(data@) == Some(k as int),
            None => collection_size(data@) is None,
        },
{
    ttf_parser::fonts_in_collection(data)
}

/// Calls `ttf_parser::Face::parse` and lists what `Face::names` gives, each name's text taken by
/// `Name::to_string`; nothing if the face cannot be parsed.
#[verifier::external_body]
fn read_names(data: &[u8], index: u32) -> (rows: Option<Vec<NameRow>>)
    ensures
        match rows {
            Some(r) => font_names(data@, index) == Some(rows_view(r@)),
            None => font_names(data@, index) is None,
        },
{
    match ttf_parser::Face::parse(data, index) {
        Ok(face) => Some(face.names().into_iter().map(|n| NameRow { id: n.name_id, text: n.to_string() }).collect()),
        Err(_) => None,
    }
}

/// Calls `ttf_parser::Face::is_bold` on the parsed face; nothing if it cannot be parsed.
#[verifier::external_body]
fn read_bold(data: &[u8], index: u32) -> (r: Option<bool>)
    ensures
        r == font_bold(data@, index),
        r is Some <==> font_names(data@, index) is Some,
{
    match ttf_parser::Face::parse(data, index) {
        Ok(face) => Some(face.is_bold()),
        Err(_) => None,
    }
}

/// Calls `ttf_parser::Face::is_italic` on the parsed face; nothing if it cannot be parsed.
#[verifier::external_body]
fn read_italic(data: &[u8], index: u32) -> (r: Option<bool>)
    ensures
        r == font_italic(data@, index),
        r is Some <==> font_names(data@, index) is Some,
{
    match ttf_parser::Face::parse(data, index) {
        Ok(face) => Some(face.is_italic()),
        Err(_) => None,
    }
}

/// Calls `ttf_parser::Face::is_oblique` on the parsed face; nothing if it cannot be parsed.
#[verifier::external_body]
fn read_oblique(data: &[u8], index: u32) -> (r: Option<bool>)
    ensures
        r == font_oblique(data@, index),
        r is Some <==> font_names(data@, index) is Some,
{
    match ttf_parser::Face::parse(data, index) {
        Ok(face) => Some(face.is_oblique()),
        Err(_) => None,
    }
}

/// Calls `ttf_parser::Face::units_per_em` on the parsed face; nothing if it cannot be parsed.
#[verifier::external_body]
fn read_units(data: &[u8], index: u32) -> (r: Option<u16>)
    ensures
        r == font_units(data@, index),
{
    match ttf_parser::Face::parse(data, index) {
        Ok(face) => Some(face.units_per_em()),
        Err(_) => None,
    }
}

/// Calls `ttf_parser::Face::glyph_index` on the parsed face; nothing if it cannot be parsed or has
/// no glyph for the character.
#[verifier::external_body]
fn read_glyph(data: &[u8], index: u32, c: char) -> (r: Option<u16>)
    ensures
        r == font_glyph(data@, index, c),
{
    match ttf_parser::Face::parse(data, index) {
        Ok(face) => face.glyph_index(c).map(|g| g.0),
        Err(_) => None,
    }
}

/// Calls `ttf_parser::Face::glyph_hor_advance` on the parsed face; nothing if it cannot be parsed or
/// gives the glyph no advance.
#[verifier::external_body]
fn read_advance(data: &[u8], index: u32, glyph: u16) -> (r: Option<u16>)
    ensures
        r == font_advance(data@, index, glyph),
{
    match ttf_parser::Face::parse(data, index) {
        Ok(face) => face.glyph_hor_advance(ttf_parser::GlyphId(glyph)),
        Err(_) => None,
    }
}

/// Calls `ab_glyph::FontVec::try_from_vec_and_index` and tells whether it accepts the face.
#[verifier::external_body]
fn accepts_glyphs(data: &[u8], index: u32) -> (ok: bool)
    ensures
        ok == glyphs_accepted(data@, index),
{
    ab_glyph::FontVec::try_from_vec_and_index(data.to_vec(), index).is_ok()
}

/// Calls `str::to_lowercase`.
#[verifier::external_body]
fn to_lower(s: &str) -> (o: String)
    ensures
        o@ == lowercase(s@),
{
    s.to_lowercase()
}

/// A character with an ASCII capital made small.
pub open spec fn ascii_lower(c: char) -> char {
    if 'A' <= c && c <= 'Z' {
        (c as u32 + 32) as char
    } else {
        c
    }
}

/// The texts are the same but for the case of ASCII letters.
pub open spec fn same_letters(a: Seq<char>, b: Seq<char>) -> bool {
    &&& a.len() == b.len()
    &&& forall|i: int| 0 <= i < a.len() ==> ascii_lower(#[trigger] a[i]) == ascii_lower(b[i])
}

/// `str::eq_ignore_ascii_case` compares two texts with their ASCII letters in one case.
pub assume_specification[ str::eq_ignore_ascii_case ](a: &str, b: &str) -> (r: bool)
    ensures
        r == same_letters(a@, b@),
;

// ---- reading faces ----

/// One face found on disk.
#[derive(Debug)]
pub struct FaceEntry {
    pub family: String,
    /// The number of its file.
    pub file: usize,
    /// Its place in the file.
    pub index: u32,
    pub bold: bool,
    pub italic: bool,
}

/// The file is one that holds fonts, by the extension of its name.
pub open spec fn is_font_name(ext: Seq<char>) -> bool {
    same_letters(ext, "ttf"@) || same_letters(ext, "otf"@) || same_letters(ext, "ttc"@)
}

/// Tell whether a file with this extension holds fonts.
pub fn is_font_extension(ext: &str) -> (b: bool)
    ensures
        b == is_font_name(ext@),
{
    ext.eq_ignore_ascii_case("ttf") || ext.eq_ignore_ascii_case("otf") || ext.eq_ignore_ascii_case("ttc")
}

/// The first text at or after place `i` that stands under this number and can be decoded.
pub open spec fn first_named(names: Seq<(u16, Option<Seq<char>>)>, id: u16, i: int) -> Option<Seq<char>>
    decreases names.len() - i,
{
    if i < 0 || i >= names.len() {
        None
    } else if names[i].0 == id && names[i].1 is Some {
        names[i].1
    } else {
        first_named(names, id, i + 1)
    }
}

/// The family of a face: its typographic family, or else its plain one.
pub open spec fn family_in(names: Seq<(u16, Option<Seq<char>>)>) -> Option<Seq<char>> {
    match first_named(names, 16, 0) {
        Some(s) => Some(s),
        None => first_named(names, 1, 0),
    }
}

/// The family name among the names of a face.
#[verifier::loop_isolation(false)]
pub fn face_family(rows: &Vec<NameRow>) -> (family: Option<String>)
    ensures
        text_view(family) == family_in(rows_view(rows@)),
{
    let ghost names = rows_view(rows@);
    let mut plain: Option<String> = None;
    let mut i: usize = 0;
    while i < rows.len()
        invariant
            i <= rows@.len(),
            first_named(names, 16, 0) == first_named(names, 16, i as int),
            plain is Some ==> text_view(plain) == first_named(names, 1, 0),
            plain is None ==> first_named(names, 1, 0) == first_named(names, 1, i as int),
        decreases rows@.len() - i,
    {
        assert(names[i as int] == (rows@[i as int].id, text_view(rows@[i as int].text)));
        match &rows[i].text {
            Some(s) => {
                if rows[i].id == 16 {
                    return Some(s.clone());
                }
                if rows[i].id == 1 && plain.is_none() {
                    plain = Some(s.clone());
                }
            },
            None => {},
        }
        i = i + 1;
    }
    plain
}

/// How many faces to look for in a file.
pub open spec fn face_count(data: Seq<u8>) -> int {
    match collection_size(data) {
        Some(n) => n,
        None => 1,
    }
}

/// The entry is what the font parser reads of face `index` of the file.
pub open spec fn describes_face(e: FaceEntry, data: Seq<u8>, file: usize, index: u32) -> bool {
    &&& font_names(data, index) matches Some(names) && family_in(names) == Some(e.family@)
    &&& e.file == file
    &&& e.index == index
    &&& e.bold == (font_bold(data, index) == Some(true))
    &&& e.italic == (font_italic(data, index) == Some(true) || font_oblique(data, index) == Some(true))
}

/// The face can be read and has a family.
pub open spec fn is_listed(data: Seq<u8>, index: u32) -> bool {
    font_names(data, index) matches Some(names) && family_in(names) is Some
}

/// The places of the faces that can be read and have a family, among the first `n`.
pub open spec fn listed(data: Seq<u8>, n: int) -> Seq<u32>
    decreases n,
{
    if n <= 0 {
        Seq::empty()
    } else if is_listed(data, (n - 1) as u32) {
        listed(data, n - 1).push((n - 1) as u32)
    } else {
        listed(data, n - 1)
    }
}

/// Make the entry of a face from what was read of it.
pub fn face_entry(rows: &Vec<NameRow>, file: usize, index: u32, bold: bool, italic: bool, oblique: bool) -> (e: Option<FaceEntry>)
    ensures
        e is Some <==> family_in(rows_view(rows@)) is Some,
        e matches Some(x) ==> Some(x.family@) == family_in(rows_view(rows@)) && x.file == file && x.index == index && x.bold == bold
            && x.italic == (italic || oblique),
{
    match face_family(rows) {
        Some(family) => Some(FaceEntry { family, file, index, bold, italic: italic || oblique }),
        None => None,
    }
}

/// List the faces of a font file that can be read and have a family.
#[verifier::loop_isolation(false)]
pub fn faces_of_file(data: &[u8], file: usize) -> (out: Vec<FaceEntry>)
    ensures
        out@.len() == listed(data@, face_count(data@)).len(),
        forall|k: int| 0 <= k < out@.len() ==> describes_face(#[trigger] out@[k], data@, file, listed(data@, face_count(data@))[k]),
{
    let faces: u32 = match fonts_in_collection(data) {
        Some(n) => n,
        None => 1,
    };
    let mut out: Vec<FaceEntry> = Vec::new();
    let mut index: u32 = 0;
    while index < faces
        invariant
            index <= faces,
            out@.len() == listed(data@, index as int).len(),
            forall|k: int| 0 <= k < out@.len() ==> describes_face(#[trigger] out@[k], data@, file, listed(data@, index as int)[k]),
        decreases faces - index,
    {
        match read_names(data, index) {
            Some(rows) => {
                let bold: bool = match read_bold(data, index) {
                    Some(b) => b,
                    None => false,
                };
                let italic: bool = match read_italic(data, index) {
                    Some(b) => b,
                    None => false,
                };
                let oblique: bool = match read_oblique(data, index) {
                    Some(b) => b,
                    None => false,
                };
                match face_entry(&rows, file, index, bold, italic, oblique) {
                    Some(e) => {
                        out.push(e);
                    },
                    None => {},
                }
            },
            None => {},
        }
        index = index + 1;
    }
    out
}

// ---- the order of the list ----

/// Text `a` comes before text `b`, from place `i` on.
pub open spec fn precedes_from(a: Seq<char>, b: Seq<char>, i: int) -> bool
    decreases b.len() - i,
{
    if i < 0 || i >= b.len() {
        false
    } else if i >= a.len() {
        true
    } else if a[i] != b[i] {
        a[i] < b[i]
    } else {
        precedes_from(a, b, i + 1)
    }
}

/// Text `a` comes before text `b`: at the first place where they differ its character is the lower
/// one, or it ends there.
pub open spec fn precedes(a: Seq<char>, b: Seq<char>) -> bool {
    precedes_from(a, b, 0)
}

proof fn precedes_one_way(a: Seq<char>, b: Seq<char>, i: int)
    requires
        precedes_from(a, b, i),
    ensures
        !precedes_from(b, a, i),
    decreases b.len() - i,
{
    if i < a.len() && a[i] == b[i] {
        precedes_one_way(a, b, i + 1);
    }
}

proof fn precedes_past(a: Seq<char>, b: Seq<char>, c: Seq<char>, i: int)
    requires
        0 <= i,
        precedes_from(a, b, i),
        !precedes_from(c, b, i),
    ensures
        precedes_from(a, c, i),
    decreases b.len() - i,
{
    assert(i < c.len());
    if i < a.len() && a[i] == b[i] && c[i] == b[i] {
        precedes_past(a, b, c, i + 1);
    } else if i < a.len() {
        assert(a[i] <= b[i]);
        assert(b[i] <= c[i]);
        assert(a[i] < c[i]);
    } else {
        assert(precedes_from(a, c, i));
    }
}

/// `x` is listed before `y`: by its key, and where the keys are the same by its place.
pub open spec fn listed_before(keys: Seq<Seq<char>>, x: int, y: int) -> bool {
    !precedes(keys[y], keys[x]) && (precedes(keys[x], keys[y]) || x < y)
}

/// `order` holds the places below `n`, each once, in the order of their keys, those with the same
/// key in the order they had.
pub open spec fn is_order(keys: Seq<Seq<char>>, order: Seq<usize>, n: int) -> bool {
    &&& order.len() == n
    &&& order.no_duplicates()
    &&& forall|p: int| 0 <= p < order.len() ==> (#[trigger] order[p]) < n
    &&& forall|p: int, q: int| 0 <= p < q < order.len() ==> listed_before(keys, (#[trigger] order[p]) as int, (#[trigger] order[q]) as int)
}

fn comes_before(a: &Vec<char>, b: &Vec<char>) -> (r: bool)
    ensures
        r == precedes(a@, b@),
{
    let mut i: usize = 0;
    while i < b.len()
        invariant
            i <= b@.len(),
            precedes(a@, b@) == precedes_from(a@, b@, i as int),
        decreases b@.len() - i,
    {
        if i >= a.len() {
            return true;
        }
        if a[i] != b[i] {
            return a[i] < b[i];
        }
        i = i + 1;
    }
    false
}

#[verifier::loop_isolation(false)]
fn letters(s: &str) -> (v: Vec<char>)
    ensures
        v@ == s@,
{
    let mut v: Vec<char> = Vec::new();
    for c in it: s.chars()
        invariant
            it.seq() == s@,
            v@ == s@.take(it.index() as int),
    {
        let ghost i = it.index() as int;
        v.push(c);
        assert(v@ =~= s@.take(i + 1));
    }
    assert(s@.take(s@.len() as int) =~= s@);
    v
}

pub open spec fn views(keys: Seq<Vec<char>>) -> Seq<Seq<char>> {
    Seq::new(keys.len(), |i: int| keys[i]@)
}

/// Put place `n` into the order of the places below it.
#[verifier::loop_isolation(false)]
fn insert_place(keys: &Vec<Vec<char>>, order: &mut Vec<usize>, n: usize)
    requires
        n < keys@.len(),
        is_order(views(keys@), old(order)@, n as int),
    ensures
        is_order(views(keys@), final(order)@, n + 1),
{
    let ghost o = order@;
    let ghost ks = views(keys@);
    let mut p: usize = order.len();
    while p > 0 && comes_before(&keys[n], &keys[order[p - 1]])
        invariant
            p <= n,
            order@ == o,
            forall|q: int| p <= q < n ==> precedes(ks[n as int], ks[(#[trigger] o[q]) as int]),
        decreases p,
    {
        p = p - 1;
    }
    order.insert(p, n);
    proof {
        let w = order@;
        assert forall|q: int| 0 <= q < p implies !precedes(ks[n as int], ks[(#[trigger] o[q]) as int]) by {
            if precedes(ks[n as int], ks[o[q] as int]) && q < p - 1 {
                assert(listed_before(ks, o[q] as int, o[p - 1] as int));
                precedes_past(ks[n as int], ks[o[q] as int], ks[o[p - 1] as int], 0);
            }
        }
        assert forall|i: int, j: int| 0 <= i < j < w.len() implies listed_before(ks, (#[trigger] w[i]) as int, (#[trigger] w[j]) as int) by {
            let i0 = if i < p {
                i
            } else {
                i - 1
            };
            let j0 = if j < p {
                j
            } else {
                j - 1
            };
            if i == p {
                assert(w[j] == o[j0]);
                precedes_one_way(ks[n as int], ks[o[j0] as int], 0);
            } else if j == p {
                assert(w[i] == o[i0]);
            } else {
                assert(w[i] == o[i0] && w[j] == o[j0]);
            }
        }
        assert forall|i: int, j: int| 0 <= i < w.len() && 0 <= j < w.len() && i != j implies w[i] != w[j] by {
            let i0 = if i < p {
                i
            } else {
                i - 1
            };
            let j0 = if j < p {
                j
            } else {
                j - 1
            };
            if i != p && j != p {
                assert(w[i] == o[i0] && w[j] == o[j0]);
                assert(i0 != j0);
            } else if i == p {
                assert(w[j] == o[j0]);
            } else {
                assert(w[i] == o[i0]);
            }
        }
        assert forall|i: int| 0 <= i < w.len() implies (#[trigger] w[i]) < n + 1 by {
            if i < p {
                assert(w[i] == o[i]);
            } else if i > p {
                assert(w[i] == o[i - 1]);
            }
        }
    }
}

/// What the faces are listed by.
pub open spec fn family_keys(faces: Seq<FaceEntry>) -> Seq<Seq<char>> {
    Seq::new(faces.len(), |i: int| lowercase(faces[i].family@))
}

/// The order in which the faces are listed: by family, whatever the case of its letters, those of
/// one family as they were found.
#[verifier::loop_isolation(false)]
pub fn face_order(faces: &Vec<FaceEntry>) -> (order: Vec<usize>)
    ensures
        is_order(family_keys(faces@), order@, faces@.len() as int),
{
    let mut keys: Vec<Vec<char>> = Vec::new();
    let mut i: usize = 0;
    while i < faces.len()
        invariant
            i <= faces@.len(),
            keys@.len() == i,
            forall|k: int| 0 <= k < i ==> (#[trigger] keys@[k])@ == lowercase(faces@[k].family@),
        decreases faces@.len() - i,
    {
        let low: String = to_lower(faces[i].family.as_str());
        keys.push(letters(low.as_str()));
        i = i + 1;
    }
    assert(views(keys@) =~= family_keys(faces@));
    let mut order: Vec<usize> = Vec::new();
    let mut n: usize = 0;
    while n < keys.len()
        invariant
            n <= keys@.len(),
            is_order(views(keys@), order@, n as int),
        decreases keys@.len() - n,
    {
        insert_place(&keys, &mut order, n);
        n = n + 1;
    }
    order
}

/// The entries describe one face.
pub open spec fn same_face(a: FaceEntry, b: FaceEntry) -> bool {
    a.family@ == b.family@ && a.file == b.file && a.index == b.index && a.bold == b.bold && a.italic == b.italic
}

/// `out` is `faces` in the given order.
pub open spec fn arranged(out: Seq<FaceEntry>, faces: Seq<FaceEntry>, order: Seq<usize>) -> bool {
    out.len() == order.len() && forall|i: int| 0 <= i < out.len() ==> same_face(#[trigger] out[i], faces[order[i] as int])
}

fn copy_face(e: &FaceEntry) -> (c: FaceEntry)
    ensures
        same_face(c, *e),
{
    FaceEntry { family: e.family.clone(), file: e.file, index: e.index, bold: e.bold, italic: e.italic }
}

/// Sort the faces that were found by family.
#[verifier::loop_isolation(false)]
pub fn sort_faces(faces: &Vec<FaceEntry>) -> (out: Vec<FaceEntry>)
    ensures
        exists|order: Seq<usize>| #[trigger] is_order(family_keys(faces@), order, faces@.len() as int) && arranged(out@, faces@, order),
{
    let order: Vec<usize> = face_order(faces);
    let mut out: Vec<FaceEntry> = Vec::new();
    let mut i: usize = 0;
    while i < order.len()
        invariant
            i <= order@.len(),
            out@.len() == i,
            forall|k: int| 0 <= k < i ==> same_face(#[trigger] out@[k], faces@[order@[k] as int]),
        decreases order@.len() - i,
    {
        out.push(copy_face(&faces[order[i]]));
        i = i + 1;
    }
    assert(arranged(out@, faces@, order@));
    out
}

/// There is one order in which the faces can be listed.
pub proof fn order_is_unique(keys: Seq<Seq<char>>, a: Seq<usize>, b: Seq<usize>)
    requires
        is_order(keys, a, keys.len() as int),
        is_order(keys, b, keys.len() as int),
        keys.len() <= usize::MAX,
    ensures
        a == b,
{
    assert forall|p: int| 0 <= p < a.len() implies a[p] == b[p] by {
        order_agrees(keys, a, b, p);
    }
    assert(a =~= b);
}

proof fn place_in(order: Seq<usize>, n: int, x: usize) -> (p: int)
    requires
        order.len() == n,
        order.no_duplicates(),
        forall|p: int| 0 <= p < order.len() ==> (#[trigger] order[p]) < n,
        x < n,
        n <= usize::MAX,
    ensures
        0 <= p < n,
        order[p] == x,
{
    let all = Seq::new(n as nat, |i: int| i as usize);
    assert(all.no_duplicates());
    order.unique_seq_to_set();
    all.unique_seq_to_set();
    assert forall|v: usize| order.to_set().contains(v) implies all.to_set().contains(v) by {
        let q = choose|q: int| 0 <= q < order.len() && order[q] == v;
        assert(order[q] < n);
        assert(all[v as int] == v);
    }
    vstd::set_lib::lemma_subset_equality(order.to_set(), all.to_set());
    assert(all[x as int] == x);
    assert(order.to_set().contains(x));
    choose|p: int| 0 <= p < order.len() && order[p] == x
}

proof fn order_agrees(keys: Seq<Seq<char>>, a: Seq<usize>, b: Seq<usize>, p: int)
    requires
        is_order(keys, a, keys.len() as int),
        is_order(keys, b, keys.len() as int),
        keys.len() <= usize::MAX,
        0 <= p < keys.len(),
    ensures
        a[p] == b[p],
    decreases p,
{
    let n = keys.len() as int;
    let q = place_in(b, n, a[p]);
    let r = place_in(a, n, b[p]);
    if q < p {
        order_agrees(keys, a, b, q);
    }
    if r < p {
        order_agrees(keys, a, b, r);
    }
    if q > p && r > p {
        assert(listed_before(keys, b[p] as int, b[q] as int));
        assert(listed_before(keys, a[p] as int, a[r] as int));
    }
}

// ---- families ----

/// The family was listed already.
pub open spec fn is_known(names: Seq<Seq<char>>, family: Seq<char>) -> bool {
    exists|i: int| 0 <= i < names.len() && same_letters(#[trigger] names[i], family)
}

/// The families of the first `n` faces, each once, whatever the case of its letters.
pub open spec fn family_list(faces: Seq<FaceEntry>, n: int) -> Seq<Seq<char>>
    decreases n,
{
    if n <= 0 {
        Seq::empty()
    } else {
        let names = family_list(faces, n - 1);
        if is_known(names, faces[n - 1].family@) {
            names
        } else {
            names.push(faces[n - 1].family@)
        }
    }
}

pub open spec fn texts(names: Seq<String>) -> Seq<Seq<char>> {
    Seq::new(names.len(), |i: int| names[i]@)
}

fn find_name(names: &Vec<String>, want: &str) -> (found: Option<usize>)
    ensures
        found is Some <==> is_known(texts(names@), want@),
        found matches Some(i) ==> i < names@.len() && same_letters(names@[i as int]@, want@) && forall|j: int|
            0 <= j < i ==> !same_letters((#[trigger] names@[j])@, want@),
{
    let mut i: usize = 0;
    while i < names.len()
        invariant
            i <= names@.len(),
            forall|j: int| 0 <= j < i ==> !same_letters((#[trigger] names@[j])@, want@),
        decreases names@.len() - i,
    {
        if names[i].as_str().eq_ignore_ascii_case(want) {
            assert(texts(names@)[i as int] == names@[i as int]@);
            return Some(i);
        }
        i = i + 1;
    }
    assert forall|j: int| 0 <= j < names@.len() implies !same_letters(#[trigger] texts(names@)[j], want@) by {
        assert(!same_letters(names@[j]@, want@));
    }
    None
}

/// The families of the faces, in the order of the list.
#[verifier::loop_isolation(false)]
pub fn families(faces: &Vec<FaceEntry>) -> (names: Vec<String>)
    ensures
        texts(names@) == family_list(faces@, faces@.len() as int),
{
    let mut names: Vec<String> = Vec::new();
    let mut i: usize = 0;
    assert(texts(names@) =~= Seq::<Seq<char>>::empty());
    while i < faces.len()
        invariant
            i <= faces@.len(),
            texts(names@) == family_list(faces@, i as int),
        decreases faces@.len() - i,
    {
        if find_name(&names, faces[i].family.as_str()).is_none() {
            let ghost before = names@;
            names.push(faces[i].family.clone());
            assert(texts(names@) =~= texts(before).push(faces@[i as int].family@));
        }
        i = i + 1;
    }
    names
}

proof fn same_letters_back(a: Seq<char>, b: Seq<char>)
    requires
        same_letters(a, b),
    ensures
        same_letters(b, a),
{
    assert forall|i: int| 0 <= i < b.len() implies ascii_lower(#[trigger] b[i]) == ascii_lower(a[i]) by {
        assert(ascii_lower(a[i]) == ascii_lower(b[i]));
    }
}

/// No family is listed twice, and every face's family is listed.
pub proof fn families_are_distinct(faces: Seq<FaceEntry>, n: int)
    requires
        n <= faces.len(),
    ensures
        forall|i: int, j: int|
            0 <= i < family_list(faces, n).len() && 0 <= j < family_list(faces, n).len() && i != j ==> !same_letters(
                #[trigger] family_list(faces, n)[i],
                #[trigger] family_list(faces, n)[j],
            ),
        forall|k: int| 0 <= k < n ==> is_known(family_list(faces, n), (#[trigger] faces[k]).family@),
    decreases n,
{
    if n > 0 {
        families_are_distinct(faces, n - 1);
        let prev = family_list(faces, n - 1);
        let list = family_list(faces, n);
        let f = faces[n - 1].family@;
        assert forall|i: int, j: int| 0 <= i < list.len() && 0 <= j < list.len() && i != j implies !same_letters(
            #[trigger] list[i],
            #[trigger] list[j],
        ) by {
            if i < prev.len() && j < prev.len() {
                assert(!same_letters(prev[i], prev[j]));
            } else if j == prev.len() {
                assert(!same_letters(prev[i], f));
            } else {
                assert(!same_letters(prev[j], f));
                if same_letters(list[i], list[j]) {
                    same_letters_back(list[i], list[j]);
                }
            }
        }
        assert forall|k: int| 0 <= k < n implies is_known(list, (#[trigger] faces[k]).family@) by {
            if k < n - 1 {
                assert(is_known(prev, faces[k].family@));
                let i = choose|i: int| 0 <= i < prev.len() && same_letters(#[trigger] prev[i], faces[k].family@);
                assert(list[i] == prev[i]);
            } else if is_known(prev, f) {
                let i = choose|i: int| 0 <= i < prev.len() && same_letters(#[trigger] prev[i], f);
                assert(list[i] == prev[i]);
            } else {
                assert(list[prev.len() as int] == f);
                assert(same_letters(list[prev.len() as int], f));
            }
        }
    }
}

/// The families to start with, the best first.
pub open spec fn favourites() -> Seq<Seq<char>> {
    seq!["Arial"@, "Segoe UI"@, "Calibri"@, "Tahoma"@, "Verdana"@]
}

/// The first favourite from `k` on that is listed, as it is listed; without any, the first family
/// of the list; without a list, the first favourite.
pub open spec fn favourite(names: Seq<Seq<char>>, k: int) -> Seq<char>
    decreases favourites().len() - k,
{
    if k < 0 || k >= favourites().len() {
        if names.len() > 0 {
            names[0]
        } else {
            "Arial"@
        }
    } else if is_known(names, favourites()[k]) {
        names[first_alike(names, favourites()[k])]
    } else {
        favourite(names, k + 1)
    }
}

/// The place of the first name that is the same but for case.
pub open spec fn first_alike(names: Seq<Seq<char>>, want: Seq<char>) -> int {
    choose|i: int|
        0 <= i < names.len() && same_letters(#[trigger] names[i], want) && forall|j: int|
            0 <= j < i ==> !same_letters(#[trigger] names[j], want)
}

fn favoured(names: &Vec<String>, want: &str) -> (f: Option<String>)
    ensures
        f is Some <==> is_known(texts(names@), want@),
        f matches Some(s) ==> s@ == texts(names@)[first_alike(texts(names@), want@)],
{
    match find_name(names, want) {
        Some(i) => {
            proof {
                let t = texts(names@);
                assert(same_letters(t[i as int], want@));
                assert forall|j: int| 0 <= j < i implies !same_letters(#[trigger] t[j], want@) by {
                    assert(!same_letters(names@[j]@, want@));
                }
                let k = first_alike(t, want@);
                assert(k == i);
            }
            Some(names[i].clone())
        },
        None => None,
    }
}

/// A sensible family to start with.
#[verifier::rlimit(50)]
#[verifier::spinoff_prover]
pub fn default_family(names: &Vec<String>) -> (f: String)
    ensures
        f@ == favourite(texts(names@), 0),
{
    proof {
        reveal_with_fuel(favourite, 6);
    }
    if let Some(f) = favoured(names, "Arial") {
        return f;
    }
    if let Some(f) = favoured(names, "Segoe UI") {
        return f;
    }
    if let Some(f) = favoured(names, "Calibri") {
        return f;
    }
    if let Some(f) = favoured(names, "Tahoma") {
        return f;
    }
    if let Some(f) = favoured(names, "Verdana") {
        return f;
    }
    if names.len() > 0 {
        names[0].clone()
    } else {
        let mut f: String = String::new();
        f.append("Arial");
        assert(f@ =~= "Arial"@);
        f
    }
}

/// How far a face is from what was asked for.
pub open spec fn misfit(e: FaceEntry, bold: bool, italic: bool) -> int {
    (if e.bold != bold {
        1int
    } else {
        0
    }) + (if e.italic != italic {
        1int
    } else {
        0
    })
}

/// Face `b` is the first of its family that fits best.
pub open spec fn fits_best(faces: Seq<FaceEntry>, family: Seq<char>, bold: bool, italic: bool, b: int) -> bool {
    &&& 0 <= b < faces.len()
    &&& same_letters(faces[b].family@, family)
    &&& forall|i: int|
        0 <= i < faces.len() && same_letters((#[trigger] faces[i]).family@, family) ==> if i < b {
            misfit(faces[b], bold, italic) < misfit(faces[i], bold, italic)
        } else {
            misfit(faces[b], bold, italic) <= misfit(faces[i], bold, italic)
        }
}

/// Pick the face of a family that best matches the style that was asked for.
#[verifier::loop_isolation(false)]
pub fn best_face(faces: &Vec<FaceEntry>, family: &str, bold: bool, italic: bool) -> (best: Option<usize>)
    ensures
        best is None <==> forall|i: int| 0 <= i < faces@.len() ==> !same_letters((#[trigger] faces@[i]).family@, family@),
        best matches Some(b) ==> fits_best(faces@, family@, bold, italic, b as int),
{
    let mut best: Option<(usize, u8)> = None;
    let mut i: usize = 0;
    while i < faces.len()
        invariant
            i <= faces@.len(),
            best is None <==> forall|k: int| 0 <= k < i ==> !same_letters((#[trigger] faces@[k]).family@, family@),
            best matches Some((b, s)) ==> b < i && s == misfit(faces@[b as int], bold, italic) && fits_best(
                faces@.take(i as int),
                family@,
                bold,
                italic,
                b as int,
            ),
        decreases faces@.len() - i,
    {
        let ghost part = faces@.take(i as int);
        let ghost more = faces@.take(i + 1);
        assert(forall|k: int| 0 <= k < i ==> #[trigger] more[k] == part[k] && part[k] == faces@[k]);
        assert(more[i as int] == faces@[i as int]);
        let e: &FaceEntry = &faces[i];
        if e.family.as_str().eq_ignore_ascii_case(family) {
            let off_bold: u8 = if e.bold != bold {
                1
            } else {
                0
            };
            let off_italic: u8 = if e.italic != italic {
                1
            } else {
                0
            };
            let score: u8 = off_bold + off_italic;
            let better: bool = match best {
                Some((_, s)) => score < s,
                None => true,
            };
            if better {
                assert forall|k: int| 0 <= k < more.len() && same_letters((#[trigger] more[k]).family@, family@) implies if k < i {
                    misfit(more[i as int], bold, italic) < misfit(more[k], bold, italic)
                } else {
                    misfit(more[i as int], bold, italic) <= misfit(more[k], bold, italic)
                } by {
                    if k < i {
                        assert(same_letters(faces@[k].family@, family@));
                        assert(same_letters(part[k].family@, family@));
                    }
                }
                best = Some((i, score));
            } else {
                assert(best matches Some((b, s)) ==> fits_best(more, family@, bold, italic, b as int));
            }
        } else {
            assert(best matches Some((b, s)) ==> fits_best(more, family@, bold, italic, b as int));
        }
        i = i + 1;
    }
    assert(faces@.take(i as int) =~= faces@);
    match best {
        Some((b, _)) => Some(b),
        None => None,
    }
}

// ---- previews ----

/// Tell whether a font file of this size may be loaded for a preview. A size that could not be had
/// counts as the largest.
pub fn fits_preview(size: Option<u64>, max_bytes: u64) -> (ok: bool)
    ensures
        ok == match size {
            Some(n) => n <= max_bytes,
            None => max_bytes == u64::MAX,
        },
{
    match size {
        Some(n) => n <= max_bytes,
        None => max_bytes == u64::MAX,
    }
}

/// Tell whether a face can be shown in a preview: the renderer has to accept it.
pub fn can_preview(data: &[u8], index: u32) -> (ok: bool)
    ensures
        ok == glyphs_accepted(data@, index),
{
    accepts_glyphs(data, index)
}

// ---- laying out a line ----

/// One character of a line: the glyph that stands for it and how far that glyph moves the pen, in
/// font units; no glyph where the face has none for the character.
#[derive(Clone, Copy, PartialEq, Eq, Structural, Debug)]
pub struct GlyphStep {
    pub glyph: Option<u16>,
    pub advance: u16,
}

/// What a character contributes.
pub open spec fn step_of(data: Seq<u8>, index: u32, c: char) -> GlyphStep {
    match font_glyph(data, index, c) {
        Some(g) => GlyphStep {
            glyph: Some(g),
            advance: match font_advance(data, index, g) {
                Some(a) => a,
                None => 0,
            },
        },
        None => GlyphStep { glyph: None, advance: 0 },
    }
}

/// The steps of a line, which has no breaks.
pub open spec fn line_steps(data: Seq<u8>, index: u32, text: Seq<char>) -> Seq<GlyphStep>
    decreases text.len(),
{
    if text.len() == 0 {
        Seq::empty()
    } else if text.last() == '\n' {
        line_steps(data, index, text.drop_last())
    } else {
        line_steps(data, index, text.drop_last()).push(step_of(data, index, text.last()))
    }
}

/// What a character contributes, given its glyph and that glyph's advance.
pub fn glyph_step(glyph: Option<u16>, advance: Option<u16>) -> (s: GlyphStep)
    ensures
        s == (GlyphStep {
            glyph,
            advance: match (glyph, advance) {
                (Some(_), Some(a)) => a,
                _ => 0,
            },
        }),
{
    let a: u16 = match (glyph, advance) {
        (Some(_), Some(a)) => a,
        _ => 0,
    };
    GlyphStep { glyph, advance: a }
}

/// Lay out a line of text in a face: the size of the em square and what each character
/// contributes. There is no layout where the face cannot be read or has an empty em square.
#[verifier::loop_isolation(false)]
pub fn lay_out(data: &[u8], index: u32, text: &str) -> (r: Option<(u16, Vec<GlyphStep>)>)
    ensures
        match font_units(data@, index) {
            Some(units) => if units == 0 {
                r is None
            } else {
                r matches Some((u, steps)) && u == units && steps@ == line_steps(data@, index, text@)
            },
            None => r is None,
        },
{
    let units: u16 = match read_units(data, index) {
        Some(u) => u,
        None => {
            return None;
        },
    };
    if units == 0 {
        return None;
    }
    let mut steps: Vec<GlyphStep> = Vec::new();
    assert(text@.take(0) =~= Seq::<char>::empty());
    for c in it: text.chars()
        invariant
            it.seq() == text@,
            steps@ == line_steps(data@, index, text@.take(it.index() as int)),
    {
        let ghost i = it.index() as int;
        assert(text@.take(i + 1).drop_last() =~= text@.take(i));
        assert(text@.take(i + 1).last() == c);
        if c != '\n' {
            let glyph: Option<u16> = read_glyph(data, index, c);
            let advance: Option<u16> = match glyph {
                Some(g) => read_advance(data, index, g),
                None => None,
            };
            steps.push(glyph_step(glyph, advance));
        }
    }
    assert(text@.take(text@.len() as int) =~= text@);
    Some((units, steps))
}

/// Tell whether to slant the glyphs: italic was asked for and the face is upright.
pub fn slants(italic: bool, face_italic: bool) -> (b: bool)
    ensures
        b == (italic && !face_italic),
{
    italic && !face_italic
}

// ---- what the lists hold ----

/// A family name is the first readable text that stands under the number of typographic families, or
/// where there is none the first that stands under that of plain ones.
pub proof fn typographic_families_lead(names: Seq<(u16, Option<Seq<char>>)>, id: u16, i: int)
    requires
        id == 16 || id == 1 && forall|j: int| 0 <= j < names.len() ==> (#[trigger] names[j]).0 != 16 || names[j].1 is None,
        0 <= i <= names.len(),
        forall|j: int| 0 <= j < i ==> (#[trigger] names[j]).0 != id || names[j].1 is None,
        i < names.len() ==> names[i].0 == id && names[i].1 is Some,
    ensures
        i < names.len() ==> family_in(names) == names[i].1,
        i == names.len() && id == 1 ==> family_in(names) is None,
{
    first_under(names, id, 0, i);
    if id == 1 {
        first_under(names, 16, 0, names.len() as int);
    }
}

proof fn first_under(names: Seq<(u16, Option<Seq<char>>)>, id: u16, from: int, i: int)
    requires
        0 <= from <= i <= names.len(),
        forall|j: int| from <= j < i ==> (#[trigger] names[j]).0 != id || names[j].1 is None,
        i < names.len() ==> names[i].0 == id && names[i].1 is Some,
    ensures
        first_named(names, id, from) == if i < names.len() {
            names[i].1
        } else {
            None
        },
    decreases i - from,
{
    if from < i {
        assert(names[from].0 != id || names[from].1 is None);
        first_under(names, id, from + 1, i);
    }
}

/// The faces of a file that are listed are those that can be read and have a family, in the order of
/// the file.
#[verifier::spinoff_prover]
#[verifier::rlimit(50)]
pub proof fn listed_faces_have_families(data: Seq<u8>, n: int)
    requires
        0 <= n <= u32::MAX,
    ensures
        forall|i: int, j: int| 0 <= i < j < listed(data, n).len() ==> (#[trigger] listed(data, n)[i]) < (#[trigger] listed(data, n)[j]),
        forall|f: u32|
            #[trigger] listed(data, n).contains(f) <==> f < n && font_names(data, f) is Some && family_in(font_names(data, f)->0) is Some,
    decreases n,
{
    if n > 0 {
        listed_faces_have_families(data, n - 1);
        let (rest, all) = (listed(data, n - 1), listed(data, n));
        let last = (n - 1) as u32;
        assert forall|k: int| 0 <= k < rest.len() implies (#[trigger] rest[k]) < n - 1 by {
            assert(rest.contains(rest[k]));
        }
        assert forall|f: u32| #[trigger] all.contains(f) <==> f < n && font_names(data, f) is Some && family_in(font_names(data, f)->0) is Some by {
            if rest.contains(f) {
                let k = choose|k: int| 0 <= k < rest.len() && rest[k] == f;
                assert(all[k] == f);
            }
            if all.len() > rest.len() {
                assert(all[rest.len() as int] == last);
            }
            if all.contains(f) {
                let k = choose|k: int| 0 <= k < all.len() && all[k] == f;
                if k < rest.len() {
                    assert(rest[k] == f);
                }
            }
        }
    }
}

/// A text precedes another exactly where, after a common start, it ends or has the lower character.
pub proof fn texts_compare_at_the_first_difference(a: Seq<char>, b: Seq<char>, i: int)
    requires
        0 <= i <= a.len(),
        i <= b.len(),
        a.take(i) == b.take(i),
        i < a.len() && i < b.len() ==> a[i] != b[i],
    ensures
        precedes(a, b) <==> i < b.len() && (i == a.len() || a[i] < b[i]),
{
    common_start(a, b, 0, i);
}

proof fn common_start(a: Seq<char>, b: Seq<char>, from: int, i: int)
    requires
        0 <= from <= i <= a.len(),
        i <= b.len(),
        a.take(i) == b.take(i),
    ensures
        precedes_from(a, b, from) == precedes_from(a, b, i),
    decreases i - from,
{
    if from < i {
        assert(a.take(i)[from] == a[from] && b.take(i)[from] == b[from]);
        common_start(a, b, from + 1, i);
    }
}

/// In the listed order no key precedes one before it, and faces with the same key stay as they were.
pub proof fn listed_order_is_sorted(keys: Seq<Seq<char>>, order: Seq<usize>, n: int, p: int, q: int)
    requires
        is_order(keys, order, n),
        0 <= p < q < n,
    ensures
        !precedes(keys[order[q] as int], keys[order[p] as int]),
        keys[order[p] as int] == keys[order[q] as int] ==> order[p] < order[q],
{
    assert(listed_before(keys, order[p] as int, order[q] as int));
    if keys[order[p] as int] == keys[order[q] as int] && precedes(keys[order[p] as int], keys[order[q] as int]) {
        precedes_one_way(keys[order[p] as int], keys[order[q] as int], 0);
    }
}

/// Each family is listed as the first face that has it spells it, in the order of these faces.
#[verifier::spinoff_prover]
#[verifier::rlimit(50)]
pub proof fn families_keep_the_first_spelling(faces: Seq<FaceEntry>, n: int) -> (at: Seq<int>)
    requires
        0 <= n <= faces.len(),
    ensures
        at.len() == family_list(faces, n).len(),
        forall|i: int, j: int| 0 <= i < j < at.len() ==> #[trigger] at[i] < #[trigger] at[j],
        forall|i: int|
            0 <= i < at.len() ==> {
                &&& 0 <= #[trigger] at[i] < n
                &&& family_list(faces, n)[i] == faces[at[i]].family@
            },
        forall|i: int, j: int|
            0 <= i < at.len() && 0 <= j < at[i] ==> !same_letters((#[trigger] faces[j]).family@, faces[#[trigger] at[i]].family@),
        forall|k: int|
            0 <= k < n && (forall|j: int| 0 <= j < k ==> !same_letters((#[trigger] faces[j]).family@, faces[k].family@)) ==> #[trigger] at.contains(k),
    decreases n,
{
    if n > 0 {
        let rest = families_keep_the_first_spelling(faces, n - 1);
        families_are_distinct(faces, n - 1);
        let list = family_list(faces, n - 1);
        let f = faces[n - 1].family@;
        if is_known(list, f) {
            let i = choose|i: int| 0 <= i < list.len() && same_letters(#[trigger] list[i], f);
            assert(same_letters(faces[rest[i]].family@, f));
            rest
        } else {
            let at = rest.push(n - 1);
            assert forall|j: int| 0 <= j < n - 1 implies !same_letters((#[trigger] faces[j]).family@, f) by {
                if same_letters(faces[j].family@, f) {
                    assert(is_known(list, faces[j].family@));
                    let i = choose|i: int| 0 <= i < list.len() && same_letters(#[trigger] list[i], faces[j].family@);
                    assert forall|c: int| 0 <= c < f.len() implies ascii_lower(#[trigger] list[i][c]) == ascii_lower(f[c]) by {
                        assert(ascii_lower(faces[j].family@[c]) == ascii_lower(f[c]));
                    }
                    assert(same_letters(list[i], f));
                }
            }
            assert forall|i: int, j: int| 0 <= i < at.len() && 0 <= j < at[i] implies !same_letters(
                (#[trigger] faces[j]).family@,
                faces[#[trigger] at[i]].family@,
            ) by {
                if i < rest.len() {
                    assert(at[i] == rest[i]);
                }
            }
            assert forall|k: int|
                0 <= k < n && (forall|j: int| 0 <= j < k ==> !same_letters((#[trigger] faces[j]).family@, faces[k].family@)) implies #[trigger] at.contains(
                k,
            ) by {
                if k < n - 1 {
                    assert(rest.contains(k));
                    let i = choose|i: int| 0 <= i < rest.len() && rest[i] == k;
                    assert(at[i] == k);
                } else {
                    assert(at[rest.len() as int] == k);
                }
            }
            at
        }
    } else {
        Seq::empty()
    }
}

/// The family to start with is the first listed one that is alike the best favourite there is: Arial,
/// Segoe UI, Calibri, Tahoma, Verdana.
#[verifier::spinoff_prover]
#[verifier::rlimit(50)]
pub proof fn favourites_come_first(names: Seq<Seq<char>>, wants: Seq<Seq<char>>, k: int, i: int)
    requires
        wants == seq!["Arial"@, "Segoe UI"@, "Calibri"@, "Tahoma"@, "Verdana"@],
        0 <= k < 5,
        0 <= i < names.len(),
        same_letters(names[i], wants[k]),
        forall|j: int|
            0 <= j < i ==> !same_letters(#[trigger] names[j], wants[k]),
        forall|l: int, j: int|
            0 <= l < k && 0 <= j < names.len() ==> !#[trigger] same_letters(names[j], wants[l]),
    ensures
        favourite(names, 0) == names[i],
{
    reveal_with_fuel(favourite, 6);
    assert(favourites() =~= wants);
    assert forall|l: int| 0 <= l < k implies !is_known(names, #[trigger] wants[l]) by {
        assert forall|j: int| 0 <= j < names.len() implies !same_letters(#[trigger] names[j], wants[l]) by {}
    }
    assert(is_known(names, wants[k]));
    assert(first_alike(names, wants[k]) == i);
    assert(k == 0 || !is_known(names, wants[0]));
    assert(k <= 1 || !is_known(names, wants[1]));
    assert(k <= 2 || !is_known(names, wants[2]));
    assert(k <= 3 || !is_known(names, wants[3]));
}

/// Without a favourite the list starts; without a list it is Arial.
#[verifier::spinoff_prover]
#[verifier::rlimit(50)]
pub proof fn without_favourites_the_list_starts(names: Seq<Seq<char>>, wants: Seq<Seq<char>>)
    requires
        wants == seq!["Arial"@, "Segoe UI"@, "Calibri"@, "Tahoma"@, "Verdana"@],
        forall|l: int, j: int|
            0 <= l < 5 && 0 <= j < names.len() ==> !#[trigger] same_letters(names[j], wants[l]),
    ensures
        favourite(names, 0) == if names.len() > 0 {
            names[0]
        } else {
            "Arial"@
        },
{
    reveal_with_fuel(favourite, 6);
    assert(favourites() =~= wants);
    assert forall|l: int| 0 <= l < 5 implies !is_known(names, #[trigger] wants[l]) by {
        assert forall|j: int| 0 <= j < names.len() implies !same_letters(#[trigger] names[j], wants[l]) by {}
    }
    assert(!is_known(names, wants[0]));
    assert(!is_known(names, wants[1]));
    assert(!is_known(names, wants[2]));
    assert(!is_known(names, wants[3]));
    assert(!is_known(names, wants[4]));
}

/// The best face has the style that was asked for where the family has such a face, and otherwise is
/// right in weight or slant where a face of the family is; among equals it is the first.
pub proof fn best_faces_match_the_style(faces: Seq<FaceEntry>, family: Seq<char>, bold: bool, italic: bool, b: int, i: int)
    requires
        fits_best(faces, family, bold, italic, b),
        0 <= i < faces.len(),
        same_letters(faces[i].family@, family),
    ensures
        faces[i].bold == bold && faces[i].italic == italic ==> faces[b].bold == bold && faces[b].italic == italic,
        faces[i].bold == bold || faces[i].italic == italic ==> faces[b].bold == bold || faces[b].italic == italic,
        faces[i].bold == faces[b].bold && faces[i].italic == faces[b].italic ==> b <= i,
        (faces[b].bold == bold) != (faces[b].italic == italic) && (faces[i].bold == bold) != (faces[i].italic == italic) ==> b <= i,
        same_letters(faces[b].family@, family),
{
}

/// A line is laid out character by character, without its breaks.
#[verifier::spinoff_prover]
#[verifier::rlimit(50)]
pub proof fn lines_have_no_breaks(data: Seq<u8>, index: u32, text: Seq<char>)
    ensures
        line_steps(data, index, text) == text.filter(|c: char| c != '\n').map_values(
            |c: char|
                GlyphStep {
                    glyph: font_glyph(data, index, c),
                    advance: if font_glyph(data, index, c) is Some && font_advance(data, index, font_glyph(data, index, c)->0) is Some {
                        font_advance(data, index, font_glyph(data, index, c)->0)->0
                    } else {
                        0
                    },
                },
        ),
    decreases text.len(),
{
    reveal(Seq::filter);
    let keep = |c: char| c != '\n';
    let made = |c: char|
        GlyphStep {
            glyph: font_glyph(data, index, c),
            advance: if font_glyph(data, index, c) is Some && font_advance(data, index, font_glyph(data, index, c)->0) is Some {
                font_advance(data, index, font_glyph(data, index, c)->0)->0
            } else {
                0
            },
        };
    if text.len() > 0 {
        lines_have_no_breaks(data, index, text.drop_last());
        let rest = text.drop_last().filter(keep);
        assert(rest.push(text.last()).map_values(made) =~= rest.map_values(made).push(made(text.last())));
        assert(step_of(data, index, text.last()) == made(text.last()));
        assert(line_steps(data, index, text) =~= text.filter(keep).map_values(made));
    } else {
        assert(line_steps(data, index, text) =~= text.filter(keep).map_values(made));
    }
}

/// The case of an extension does not matter, and an extension of another length holds no fonts.
pub proof fn extensions_ignore_case(a: Seq<char>, b: Seq<char>)
    requires
        same_letters(a, b),
    ensures
        is_font_name(a) == is_font_name(b),
        is_font_name(a) ==> a.len() == 3 && (a[1] == 't' || a[1] == 'T'),
{
    reveal_strlit("ttf");
    reveal_strlit("otf");
    reveal_strlit("ttc");
    assert forall|w: Seq<char>| #[trigger] same_letters(a, w) == same_letters(b, w) by {
        if same_letters(a, w) {
            assert forall|i: int| 0 <= i < b.len() implies ascii_lower(#[trigger] b[i]) == ascii_lower(w[i]) by {
                assert(ascii_lower(a[i]) == ascii_lower(b[i]));
            }
        }
        if same_letters(b, w) {
            assert forall|i: int| 0 <= i < a.len() implies ascii_lower(#[trigger] a[i]) == ascii_lower(w[i]) by {
                assert(ascii_lower(b[i]) == ascii_lower(w[i]));
            }
        }
    }
    if is_font_name(a) {
        assert(ascii_lower(a[1]) == 't');
        assert(a[1] as u32 == 116 || a[1] as u32 == 84);
    }
}

} // verus!
