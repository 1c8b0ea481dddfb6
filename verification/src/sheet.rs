//! Drawing sheets: the text of an exported SVG, the visible and hidden runs of a projected edge,
//! and what a dimension can attach to.
//!
//! Coordinates arrive as text, already placed on the sheet, flipped to run down the page, and
//! rounded to three decimals.

use vstd::prelude::*;

use crate::text::{escaped, xml_escape};

verus! {

/// The kind of geometry that the end of a dimension is attached to.
#[derive(Clone, Copy, PartialEq, Eq, Structural, Debug)]
pub enum RefKind {
    /// A corner: an end shared by feature edges.
    Vertex,
    /// A straight edge, referenced at its middle.
    Edge,
    /// A circular rim, referenced at its centre.
    Circle,
}

/// How a linear dimension measures.
#[derive(Clone, Copy, PartialEq, Eq, Structural, Debug)]
pub enum DimStyle {
    Aligned,
    Horizontal,
    Vertical,
}

/// A point on the page, as text.
pub struct Spot {
    pub x: String,
    pub y: String,
}

/// A stroke between two points.
pub struct Stroke {
    pub from: Spot,
    pub to: Spot,
}

/// A run of a projected edge.
pub struct ViewEdge {
    pub stroke: Stroke,
    /// The run lies behind material and is drawn dashed.
    pub hidden: bool,
}

/// A line of text and where it stands.
pub struct Caption {
    pub at: Spot,
    pub text: String,
}

/// One view on a sheet.
pub struct SheetItem {
    pub edges: Vec<ViewEdge>,
    pub show_hidden: bool,
    /// Section hatching.
    pub hatch: Vec<Stroke>,
    pub label: Option<Caption>,
}

/// An arrowhead: its tip and the two corners behind it.
pub struct Head {
    pub tip: Spot,
    pub left: Spot,
    pub right: Spot,
}

/// A dimension on a sheet.
pub enum SheetDim {
    /// The arrowheads at the two ends of the dimension line, the witness lines from the measured
    /// points, and the text.
    Linear { start: Head, finish: Head, witnesses: [Stroke; 2], text: Caption },
    /// The centre, the end of the leader, the end of its landing, the arrowhead on the rim, for a
    /// diameter the arrowhead on the far rim, and the text.
    Radial { centre: Spot, label: Spot, shoulder: Spot, near: Head, far: Option<Head>, text: Caption },
    /// A centre mark: the small cross and the centrelines.
    Mark { cross: Vec<Stroke>, arms: Vec<Stroke> },
}

/// One row of the title block: the rule above it and its two texts.
pub struct TitleRow {
    pub rule: Stroke,
    pub name: Caption,
    pub value: Caption,
}

/// The title block.
pub struct TitleBlock {
    pub corner: Spot,
    pub width: String,
    pub height: String,
    pub rows: Vec<TitleRow>,
}

/// The sheet itself: its size, and the size of the border inside it.
pub struct Page {
    pub width: String,
    pub height: String,
    pub inner_width: String,
    pub inner_height: String,
}

// ---- the text of each element ----

pub open spec fn spot_text(p: Spot) -> Seq<char> {
    p.x@ + ","@ + p.y@
}

pub open spec fn line_text(from: Spot, to: Spot) -> Seq<char> {
    "M"@ + spot_text(from) + " L"@ + spot_text(to)
}

pub open spec fn stroke_text(s: Stroke) -> Seq<char> {
    line_text(s.from, s.to)
}

/// A path with its width, and the rest of its style.
pub open spec fn path_text(d: Seq<char>, style: Seq<char>) -> Seq<char> {
    "<path d=\""@ + d + "\" fill=\"none\" stroke=\"black\" stroke-width=\""@ + style + "/>\n"@
}

/// The strokes among the first `n` that are hidden, or those that are not, each followed by a
/// space.
pub open spec fn strokes_text(strokes: Seq<ViewEdge>, hidden: bool, n: int) -> Seq<char>
    decreases n,
{
    if n <= 0 {
        Seq::empty()
    } else if strokes[n - 1].hidden == hidden {
        strokes_text(strokes, hidden, n - 1) + stroke_text(strokes[n - 1].stroke) + " "@
    } else {
        strokes_text(strokes, hidden, n - 1)
    }
}

/// All of the first `n` strokes, each followed by a space.
pub open spec fn hatch_text(strokes: Seq<Stroke>, n: int) -> Seq<char>
    decreases n,
{
    if n <= 0 {
        Seq::empty()
    } else {
        hatch_text(strokes, n - 1) + stroke_text(strokes[n - 1]) + " "@
    }
}

/// The first `n` strokes as paths of their own.
pub open spec fn paths_text(strokes: Seq<Stroke>, style: Seq<char>, n: int) -> Seq<char>
    decreases n,
{
    if n <= 0 {
        Seq::empty()
    } else {
        paths_text(strokes, style, n - 1) + path_text(stroke_text(strokes[n - 1]), style)
    }
}

/// A path where there is anything to draw.
pub open spec fn path_unless_empty(d: Seq<char>, style: Seq<char>) -> Seq<char> {
    if d.len() == 0 {
        Seq::empty()
    } else {
        path_text(d, style)
    }
}

/// A text element. `style` is what stands between its position and its content.
pub open spec fn caption_text(c: Caption, style: Seq<char>) -> Seq<char> {
    "<text x=\""@ + c.at.x@ + "\" y=\""@ + c.at.y@ + "\" font-family=\"sans-serif\" font-size=\""@ + style + " fill=\"black\">"@
        + escaped(c.text@) + "</text>\n"@
}

pub open spec fn head_text(h: Head) -> Seq<char> {
    "<polygon points=\""@ + spot_text(h.tip) + " "@ + spot_text(h.left) + " "@ + spot_text(h.right) + "\" fill=\"black\"/>\n"@
}

/// A view: its visible strokes, its hidden ones where they are shown, its hatching, its label.
pub open spec fn item_text(it: SheetItem) -> Seq<char> {
    let n = it.edges@.len() as int;
    path_unless_empty(strokes_text(it.edges@, false, n), "0.35\""@) + (if it.show_hidden {
        path_unless_empty(strokes_text(it.edges@, true, n), "0.25\" stroke-dasharray=\"1.5,1\""@)
    } else {
        Seq::empty()
    }) + path_unless_empty(hatch_text(it.hatch@, it.hatch@.len() as int), "0.18\""@) + (match it.label {
        Some(c) => caption_text(c, "4\" text-anchor=\"middle\""@),
        None => Seq::empty(),
    })
}

pub open spec fn dim_style() -> Seq<char> {
    "3.2\" text-anchor=\"middle\""@
}

/// A dimension line between its arrowheads with its witness lines, a leader from the centre or
/// from the far rim with its landing, or a centre mark.
pub open spec fn sheet_dim_text(d: SheetDim) -> Seq<char> {
    match d {
        SheetDim::Linear { start, finish, witnesses, text } => path_text(line_text(start.tip, finish.tip), "0.25\""@) + path_text(
            stroke_text(witnesses[0]),
            "0.18\""@,
        ) + path_text(stroke_text(witnesses[1]), "0.18\""@) + head_text(start) + head_text(finish) + caption_text(text, dim_style()),
        SheetDim::Radial { centre, label, shoulder, near, far, text } => {
            let tail = match far {
                Some(h) => h.tip,
                None => centre,
            };
            path_text(line_text(tail, label), "0.25\""@) + path_text(line_text(label, shoulder), "0.25\""@) + head_text(near) + (match far {
                Some(h) => head_text(h),
                None => Seq::empty(),
            }) + caption_text(text, dim_style())
        },
        SheetDim::Mark { cross, arms } => paths_text(cross@, "0.25\""@, cross@.len() as int) + paths_text(
            arms@,
            "0.2\" stroke-dasharray=\"3,1,0.6,1\""@,
            arms@.len() as int,
        ),
    }
}

pub open spec fn rule_text(s: Stroke) -> Seq<char> {
    "<line x1=\""@ + s.from.x@ + "\" y1=\""@ + s.from.y@ + "\" x2=\""@ + s.to.x@ + "\" y2=\""@ + s.to.y@
        + "\" stroke=\"black\" stroke-width=\"0.25\"/>\n"@
}

/// A row of the title block, with the rule above it unless it is the first.
pub open spec fn row_text(r: TitleRow, first: bool) -> Seq<char> {
    (if first {
        Seq::empty()
    } else {
        rule_text(r.rule)
    }) + caption_text(r.name, "3\""@) + caption_text(r.value, "3.4\""@)
}

pub open spec fn rows_text(rows: Seq<TitleRow>, n: int) -> Seq<char>
    decreases n,
{
    if n <= 0 {
        Seq::empty()
    } else {
        rows_text(rows, n - 1) + row_text(rows[n - 1], n == 1)
    }
}

/// The title block, where it has any row.
pub open spec fn title_text(t: TitleBlock) -> Seq<char> {
    if t.rows@.len() == 0 {
        Seq::empty()
    } else {
        "<rect x=\""@ + t.corner.x@ + "\" y=\""@ + t.corner.y@ + "\" width=\""@ + t.width@ + "\" height=\""@ + t.height@
            + "\" fill=\"none\" stroke=\"black\" stroke-width=\"0.5\"/>\n"@ + rows_text(t.rows@, t.rows@.len() as int)
    }
}

pub open spec fn page_text(p: Page) -> Seq<char> {
    "<svg xmlns=\"http://www.w3.org/2000/svg\" width=\""@ + p.width@ + "mm\" height=\""@ + p.height@ + "mm\" viewBox=\"0 0 "@
        + p.width@ + " "@ + p.height@ + "\">\n<rect x=\"0\" y=\"0\" width=\"100%\" height=\"100%\" fill=\"white\"/>\n<rect x=\"10\" y=\"10\" width=\""@
        + p.inner_width@ + "\" height=\""@ + p.inner_height@ + "\" fill=\"none\" stroke=\"black\" stroke-width=\"0.5\"/>\n"@
}

pub open spec fn items_text(items: Seq<SheetItem>, n: int) -> Seq<char>
    decreases n,
{
    if n <= 0 {
        Seq::empty()
    } else {
        items_text(items, n - 1) + item_text(items[n - 1])
    }
}

pub open spec fn dims_text(dims: Seq<SheetDim>, n: int) -> Seq<char>
    decreases n,
{
    if n <= 0 {
        Seq::empty()
    } else {
        dims_text(dims, n - 1) + sheet_dim_text(dims[n - 1])
    }
}

/// The whole sheet: the page, the views, the dimensions, the title block.
pub open spec fn svg_text(page: Page, items: Seq<SheetItem>, dims: Seq<SheetDim>, title: TitleBlock) -> Seq<char> {
    page_text(page) + items_text(items, items.len() as int) + dims_text(dims, dims.len() as int) + title_text(title) + "</svg>\n"@
}

// ---- writing them ----

fn put_spot(out: &mut String, p: &Spot)
    ensures
        final(out)@ == old(out)@ + spot_text(*p),
{
    out.append(p.x.as_str());
    out.append(",");
    out.append(p.y.as_str());
    assert(out@ =~= old(out)@ + spot_text(*p));
}

fn put_line(out: &mut String, from: &Spot, to: &Spot)
    ensures
        final(out)@ == old(out)@ + line_text(*from, *to),
{
    out.append("M");
    put_spot(out, from);
    out.append(" L");
    put_spot(out, to);
    assert(out@ =~= old(out)@ + line_text(*from, *to));
}

fn put_path(out: &mut String, d: &str, style: &str)
    ensures
        final(out)@ == old(out)@ + path_text(d@, style@),
{
    out.append("<path d=\"");
    out.append(d);
    out.append("\" fill=\"none\" stroke=\"black\" stroke-width=\"");
    out.append(style);
    out.append("/>\n");
    assert(out@ =~= old(out)@ + path_text(d@, style@));
}

fn put_path_of(out: &mut String, from: &Spot, to: &Spot, style: &str)
    ensures
        final(out)@ == old(out)@ + path_text(line_text(*from, *to), style@),
{
    let mut d: String = String::new();
    put_line(&mut d, from, to);
    assert(d@ =~= line_text(*from, *to));
    put_path(out, d.as_str(), style);
}

fn put_paths(out: &mut String, strokes: &Vec<Stroke>, style: &str)
    ensures
        final(out)@ == old(out)@ + paths_text(strokes@, style@, strokes@.len() as int),
{
    let ghost before = out@;
    let mut k: usize = 0;
    assert(before + paths_text(strokes@, style@, 0) =~= before);
    while k < strokes.len()
        invariant
            k <= strokes@.len(),
            out@ == before + paths_text(strokes@, style@, k as int),
        decreases strokes@.len() - k,
    {
        put_path_of(out, &strokes[k].from, &strokes[k].to, style);
        assert(out@ =~= before + paths_text(strokes@, style@, k + 1));
        k = k + 1;
    }
}

fn put_caption(out: &mut String, c: &Caption, style: &str)
    ensures
        final(out)@ == old(out)@ + caption_text(*c, style@),
{
    out.append("<text x=\"");
    out.append(c.at.x.as_str());
    out.append("\" y=\"");
    out.append(c.at.y.as_str());
    out.append("\" font-family=\"sans-serif\" font-size=\"");
    out.append(style);
    out.append(" fill=\"black\">");
    let safe: String = xml_escape(c.text.as_str());
    out.append(safe.as_str());
    out.append("</text>\n");
    assert(out@ =~= old(out)@ + caption_text(*c, style@));
}

fn put_head(out: &mut String, h: &Head)
    ensures
        final(out)@ == old(out)@ + head_text(*h),
{
    out.append("<polygon points=\"");
    put_spot(out, &h.tip);
    out.append(" ");
    put_spot(out, &h.left);
    out.append(" ");
    put_spot(out, &h.right);
    out.append("\" fill=\"black\"/>\n");
    assert(out@ =~= old(out)@ + head_text(*h));
}

fn collect_strokes(strokes: &Vec<ViewEdge>, hidden: bool) -> (d: String)
    ensures
        d@ == strokes_text(strokes@, hidden, strokes@.len() as int),
{
    let mut d: String = String::new();
    let mut k: usize = 0;
    assert(d@ =~= Seq::<char>::empty());
    while k < strokes.len()
        invariant
            k <= strokes@.len(),
            d@ == strokes_text(strokes@, hidden, k as int),
        decreases strokes@.len() - k,
    {
        if strokes[k].hidden == hidden {
            put_line(&mut d, &strokes[k].stroke.from, &strokes[k].stroke.to);
            d.append(" ");
            assert(d@ =~= strokes_text(strokes@, hidden, k + 1));
        }
        k = k + 1;
    }
    d
}

fn collect_hatch(strokes: &Vec<Stroke>) -> (d: String)
    ensures
        d@ == hatch_text(strokes@, strokes@.len() as int),
{
    let mut d: String = String::new();
    let mut k: usize = 0;
    assert(d@ =~= Seq::<char>::empty());
    while k < strokes.len()
        invariant
            k <= strokes@.len(),
            d@ == hatch_text(strokes@, k as int),
        decreases strokes@.len() - k,
    {
        put_line(&mut d, &strokes[k].from, &strokes[k].to);
        d.append(" ");
        assert(d@ =~= hatch_text(strokes@, k + 1));
        k = k + 1;
    }
    d
}

fn put_path_unless_empty(out: &mut String, d: &str, style: &str)
    ensures
        final(out)@ == old(out)@ + path_unless_empty(d@, style@),
{
    if !d.is_empty() {
        put_path(out, d, style);
    } else {
        assert(out@ =~= old(out)@ + Seq::<char>::empty());
    }
}

fn put_item(out: &mut String, it: &SheetItem)
    ensures
        final(out)@ == old(out)@ + item_text(*it),
{
    let ghost n = it.edges@.len() as int;
    let ghost start = out@;
    let solid: String = collect_strokes(&it.edges, false);
    put_path_unless_empty(out, solid.as_str(), "0.35\"");
    let ghost a = path_unless_empty(strokes_text(it.edges@, false, n), "0.35\""@);
    let ghost b = if it.show_hidden {
        path_unless_empty(strokes_text(it.edges@, true, n), "0.25\" stroke-dasharray=\"1.5,1\""@)
    } else {
        Seq::<char>::empty()
    };
    if it.show_hidden {
        let hidden: String = collect_strokes(&it.edges, true);
        put_path_unless_empty(out, hidden.as_str(), "0.25\" stroke-dasharray=\"1.5,1\"");
    }
    assert(out@ =~= start + a + b);
    let hatch: String = collect_hatch(&it.hatch);
    put_path_unless_empty(out, hatch.as_str(), "0.18\"");
    match &it.label {
        Some(c) => {
            put_caption(out, c, "4\" text-anchor=\"middle\"");
        },
        None => {},
    }
    assert(out@ =~= start + item_text(*it));
}

fn put_dim(out: &mut String, d: &SheetDim)
    ensures
        final(out)@ == old(out)@ + sheet_dim_text(*d),
{
    let ghost start = out@;
    match d {
        SheetDim::Linear { start, finish, witnesses, text } => {
            put_path_of(out, &start.tip, &finish.tip, "0.25\"");
            put_path_of(out, &witnesses[0].from, &witnesses[0].to, "0.18\"");
            put_path_of(out, &witnesses[1].from, &witnesses[1].to, "0.18\"");
            put_head(out, start);
            put_head(out, finish);
            put_caption(out, text, "3.2\" text-anchor=\"middle\"");
        },
        SheetDim::Radial { centre, label, shoulder, near, far, text } => {
            match far {
                Some(h) => {
                    put_path_of(out, &h.tip, label, "0.25\"");
                },
                None => {
                    put_path_of(out, centre, label, "0.25\"");
                },
            }
            put_path_of(out, label, shoulder, "0.25\"");
            put_head(out, near);
            match far {
                Some(h) => {
                    put_head(out, h);
                },
                None => {},
            }
            put_caption(out, text, "3.2\" text-anchor=\"middle\"");
        },
        SheetDim::Mark { cross, arms } => {
            put_paths(out, cross, "0.25\"");
            put_paths(out, arms, "0.2\" stroke-dasharray=\"3,1,0.6,1\"");
        },
    }
    assert(out@ =~= start + sheet_dim_text(*d));
}

fn put_title(out: &mut String, t: &TitleBlock)
    ensures
        final(out)@ == old(out)@ + title_text(*t),
{
    if t.rows.len() == 0 {
        assert(out@ =~= old(out)@ + Seq::<char>::empty());
        return ;
    }
    out.append("<rect x=\"");
    out.append(t.corner.x.as_str());
    out.append("\" y=\"");
    out.append(t.corner.y.as_str());
    out.append("\" width=\"");
    out.append(t.width.as_str());
    out.append("\" height=\"");
    out.append(t.height.as_str());
    out.append("\" fill=\"none\" stroke=\"black\" stroke-width=\"0.5\"/>\n");
    let ghost before = out@;
    let mut k: usize = 0;
    assert(before + rows_text(t.rows@, 0) =~= before);
    while k < t.rows.len()
        invariant
            k <= t.rows@.len(),
            out@ == before + rows_text(t.rows@, k as int),
        decreases t.rows@.len() - k,
    {
        let row: &TitleRow = &t.rows[k];
        let ghost now = out@;
        if k > 0 {
            let s: &Stroke = &row.rule;
            out.append("<line x1=\"");
            out.append(s.from.x.as_str());
            out.append("\" y1=\"");
            out.append(s.from.y.as_str());
            out.append("\" x2=\"");
            out.append(s.to.x.as_str());
            out.append("\" y2=\"");
            out.append(s.to.y.as_str());
            out.append("\" stroke=\"black\" stroke-width=\"0.25\"/>\n");
            assert(out@ =~= now + rule_text(*s));
        }
        put_caption(out, &row.name, "3\"");
        put_caption(out, &row.value, "3.4\"");
        assert(out@ =~= now + row_text(*row, k == 0));
        assert(out@ =~= before + rows_text(t.rows@, k + 1));
        k = k + 1;
    }
    assert(out@ =~= old(out)@ + title_text(*t));
}

/// Write a sheet of views with a title block, and no dimensions.
pub fn to_svg(page: &Page, items: &Vec<SheetItem>, title: &TitleBlock) -> (out: String)
    ensures
        out@ == svg_text(*page, items@, Seq::empty(), *title),
{
    let none: Vec<SheetDim> = Vec::new();
    assert(none@ =~= Seq::<SheetDim>::empty());
    to_svg_with_dims(page, items, &none, title)
}

/// Write a sheet of views, dimensions and a title block.
pub fn to_svg_with_dims(page: &Page, items: &Vec<SheetItem>, dims: &Vec<SheetDim>, title: &TitleBlock) -> (out: String)
    ensures
        out@ == svg_text(*page, items@, dims@, *title),
{
    let mut out: String = String::new();
    out.append("<svg xmlns=\"http://www.w3.org/2000/svg\" width=\"");
    out.append(page.width.as_str());
    out.append("mm\" height=\"");
    out.append(page.height.as_str());
    out.append("mm\" viewBox=\"0 0 ");
    out.append(page.width.as_str());
    out.append(" ");
    out.append(page.height.as_str());
    out.append("\">\n<rect x=\"0\" y=\"0\" width=\"100%\" height=\"100%\" fill=\"white\"/>\n<rect x=\"10\" y=\"10\" width=\"");
    out.append(page.inner_width.as_str());
    out.append("\" height=\"");
    out.append(page.inner_height.as_str());
    out.append("\" fill=\"none\" stroke=\"black\" stroke-width=\"0.5\"/>\n");
    assert(out@ =~= page_text(*page));
    let mut k: usize = 0;
    assert(page_text(*page) + items_text(items@, 0) =~= page_text(*page));
    while k < items.len()
        invariant
            k <= items@.len(),
            out@ == page_text(*page) + items_text(items@, k as int),
        decreases items@.len() - k,
    {
        put_item(&mut out, &items[k]);
        assert(out@ =~= page_text(*page) + items_text(items@, k + 1));
        k = k + 1;
    }
    let ghost views = out@;
    let mut m: usize = 0;
    assert(views + dims_text(dims@, 0) =~= views);
    while m < dims.len()
        invariant
            m <= dims@.len(),
            out@ == views + dims_text(dims@, m as int),
        decreases dims@.len() - m,
    {
        put_dim(&mut out, &dims[m]);
        assert(out@ =~= views + dims_text(dims@, m + 1));
        m = m + 1;
    }
    put_title(&mut out, title);
    out.append("</svg>\n");
    assert(out@ =~= svg_text(*page, items@, dims@, *title));
    out
}

// ---- what is drawn ----

/// The strokes among the first `n` that are seen.
pub open spec fn seen(edges: Seq<ViewEdge>, n: int) -> Seq<Stroke>
    decreases n,
{
    if n <= 0 {
        Seq::empty()
    } else if edges[n - 1].hidden {
        seen(edges, n - 1)
    } else {
        seen(edges, n - 1).push(edges[n - 1].stroke)
    }
}

proof fn seen_strokes(edges: Seq<ViewEdge>, n: int)
    requires
        0 <= n <= edges.len(),
    ensures
        strokes_text(edges, false, n) == hatch_text(seen(edges, n), seen(edges, n).len() as int),
    decreases n,
{
    if n > 0 {
        seen_strokes(edges, n - 1);
        if !edges[n - 1].hidden {
            hatch_prefix(seen(edges, n - 1), seen(edges, n), seen(edges, n - 1).len() as int);
        }
    }
}

proof fn hatch_prefix(a: Seq<Stroke>, b: Seq<Stroke>, n: int)
    requires
        n <= a.len(),
        n <= b.len(),
        forall|i: int| 0 <= i < n ==> a[i] == b[i],
    ensures
        hatch_text(a, n) == hatch_text(b, n),
    decreases n,
{
    if n > 0 {
        hatch_prefix(a, b, n - 1);
    }
}

/// Hidden strokes are drawn only where they are asked for: without that, two views with the same
/// seen strokes look the same.
pub proof fn hidden_strokes_are_optional(a: SheetItem, b: SheetItem)
    requires
        !a.show_hidden,
        !b.show_hidden,
        seen(a.edges@, a.edges@.len() as int) == seen(b.edges@, b.edges@.len() as int),
        a.hatch == b.hatch,
        a.label == b.label,
    ensures
        item_text(a) == item_text(b),
{
    seen_strokes(a.edges@, a.edges@.len() as int);
    seen_strokes(b.edges@, b.edges@.len() as int);
}

/// The strokes of the edges that are hidden, or of those that are not, in their order.
pub open spec fn strokes_of(edges: Seq<ViewEdge>, hidden: bool) -> Seq<Stroke> {
    edges.filter(|e: ViewEdge| e.hidden == hidden).map_values(|e: ViewEdge| e.stroke)
}

/// The outline of a path along strokes: each is a move to where it starts and a line to where it
/// ends, with a space after it.
pub open spec fn outline(strokes: Seq<Stroke>) -> Seq<char> {
    strokes.map_values(
        |s: Stroke| "M"@ + s.from.x@ + ","@ + s.from.y@ + " L"@ + s.to.x@ + ","@ + s.to.y@ + " "@,
    ).flatten()
}

/// A path element for strokes, where there are any.
pub open spec fn drawn(strokes: Seq<Stroke>, width: Seq<char>) -> Seq<char> {
    if strokes.len() == 0 {
        Seq::empty()
    } else {
        "<path d=\""@ + outline(strokes) + "\" fill=\"none\" stroke=\"black\" stroke-width=\""@ + width + "/>\n"@
    }
}

proof fn outline_push(strokes: Seq<Stroke>, s: Stroke)
    ensures
        outline(strokes.push(s)) == outline(strokes) + stroke_text(s) + " "@,
{
    let f = |s: Stroke| "M"@ + s.from.x@ + ","@ + s.from.y@ + " L"@ + s.to.x@ + ","@ + s.to.y@ + " "@;
    assert(strokes.push(s).map_values(f) =~= strokes.map_values(f).push(f(s)));
    strokes.map_values(f).lemma_flatten_push(f(s));
    assert(f(s) =~= stroke_text(s) + " "@);
    assert(outline(strokes.push(s)) =~= outline(strokes) + stroke_text(s) + " "@);
}

proof fn strokes_of_take(edges: Seq<ViewEdge>, hidden: bool, n: int)
    requires
        0 <= n <= edges.len(),
    ensures
        strokes_text(edges, hidden, n) == outline(strokes_of(edges.take(n), hidden)),
    decreases n,
{
    let f = |e: ViewEdge| e.hidden == hidden;
    let g = |e: ViewEdge| e.stroke;
    reveal(Seq::filter);
    if n > 0 {
        strokes_of_take(edges, hidden, n - 1);
        assert(edges.take(n).drop_last() =~= edges.take(n - 1));
        let few = edges.take(n - 1).filter(f);
        let e = edges[n - 1];
        assert(edges.take(n).last() == e);
        if f(e) {
            assert(few.push(e).map_values(g) =~= few.map_values(g).push(e.stroke));
            outline_push(few.map_values(g), e.stroke);
        }
    } else {
        assert(edges.take(0).filter(f).map_values(g) =~= Seq::<Stroke>::empty());
        assert(outline(Seq::<Stroke>::empty()) =~= Seq::<char>::empty()) by {
            let h = |s: Stroke| "M"@ + s.from.x@ + ","@ + s.from.y@ + " L"@ + s.to.x@ + ","@ + s.to.y@ + " "@;
            assert(Seq::<Stroke>::empty().map_values(h) =~= Seq::<Seq<char>>::empty());
        }
    }
}

proof fn hatch_is_outline(strokes: Seq<Stroke>, n: int)
    requires
        0 <= n <= strokes.len(),
    ensures
        hatch_text(strokes, n) == outline(strokes.take(n)),
    decreases n,
{
    if n > 0 {
        hatch_is_outline(strokes, n - 1);
        assert(strokes.take(n) =~= strokes.take(n - 1).push(strokes[n - 1]));
        outline_push(strokes.take(n - 1), strokes[n - 1]);
    } else {
        let h = |s: Stroke| "M"@ + s.from.x@ + ","@ + s.from.y@ + " L"@ + s.to.x@ + ","@ + s.to.y@ + " "@;
        assert(strokes.take(0).map_values(h) =~= Seq::<Seq<char>>::empty());
        assert(outline(strokes.take(0)) =~= Seq::<char>::empty());
    }
}

proof fn outline_is_empty(strokes: Seq<Stroke>)
    ensures
        outline(strokes).len() == 0 <==> strokes.len() == 0,
{
    if strokes.len() > 0 {
        outline_push(strokes.drop_last(), strokes.last());
        assert(strokes.drop_last().push(strokes.last()) =~= strokes);
        reveal_strlit(" ");
    } else {
        let h = |s: Stroke| "M"@ + s.from.x@ + ","@ + s.from.y@ + " L"@ + s.to.x@ + ","@ + s.to.y@ + " "@;
        assert(strokes.map_values(h) =~= Seq::<Seq<char>>::empty());
    }
}

/// What stands for a view: its seen strokes solid, whether hidden ones are shown or not; its hidden
/// strokes dashed and thinner, where they are shown; its hatching in the thinnest line; its label.
/// Showing the hidden strokes adds their dashed path and changes nothing else.
#[verifier::spinoff_prover]
#[verifier::rlimit(50)]
pub proof fn a_view_is_drawn_by_kind(it: SheetItem)
    ensures
        ({
            let solid = drawn(strokes_of(it.edges@, false), "0.35\""@);
            let dashed = drawn(strokes_of(it.edges@, true), "0.25\" stroke-dasharray=\"1.5,1\""@);
            let hatch = drawn(it.hatch@, "0.18\""@);
            let label = match it.label {
                Some(c) => "<text x=\""@ + c.at.x@ + "\" y=\""@ + c.at.y@
                    + "\" font-family=\"sans-serif\" font-size=\""@ + "4\" text-anchor=\"middle\""@ + " fill=\"black\">"@ + escaped(c.text@)
                    + "</text>\n"@,
                None => Seq::<char>::empty(),
            };
            item_text(it) == if it.show_hidden {
                solid + dashed + hatch + label
            } else {
                solid + hatch + label
            }
        }),
{
    let n = it.edges@.len() as int;
    assert(it.edges@.take(n) =~= it.edges@);
    strokes_of_take(it.edges@, false, n);
    strokes_of_take(it.edges@, true, n);
    outline_is_empty(strokes_of(it.edges@, false));
    outline_is_empty(strokes_of(it.edges@, true));
    let m = it.hatch@.len() as int;
    assert(it.hatch@.take(m) =~= it.hatch@);
    hatch_is_outline(it.hatch@, m);
    outline_is_empty(it.hatch@);
    let solid = drawn(strokes_of(it.edges@, false), "0.35\""@);
    let dashed = drawn(strokes_of(it.edges@, true), "0.25\" stroke-dasharray=\"1.5,1\""@);
    assert(path_unless_empty(strokes_text(it.edges@, false, n), "0.35\""@) =~= solid);
    assert(path_unless_empty(strokes_text(it.edges@, true, n), "0.25\" stroke-dasharray=\"1.5,1\""@) =~= dashed);
    assert(path_unless_empty(hatch_text(it.hatch@, m), "0.18\""@) =~= drawn(it.hatch@, "0.18\""@));
    assert(solid + Seq::<char>::empty() =~= solid);
}

proof fn items_text_flat(items: Seq<SheetItem>, n: int)
    requires
        0 <= n <= items.len(),
    ensures
        items_text(items, n) == items.take(n).map_values(|it: SheetItem| item_text(it)).flatten(),
    decreases n,
{
    let f = |it: SheetItem| item_text(it);
    if n > 0 {
        items_text_flat(items, n - 1);
        assert(items.take(n).map_values(f) =~= items.take(n - 1).map_values(f).push(f(items[n - 1])));
        items.take(n - 1).map_values(f).lemma_flatten_push(f(items[n - 1]));
    } else {
        assert(items.take(0).map_values(f) =~= Seq::<Seq<char>>::empty());
        assert(items.take(0).map_values(f).flatten() =~= Seq::<char>::empty());
    }
}

proof fn dims_text_flat(dims: Seq<SheetDim>, n: int)
    requires
        0 <= n <= dims.len(),
    ensures
        dims_text(dims, n) == dims.take(n).map_values(|d: SheetDim| sheet_dim_text(d)).flatten(),
    decreases n,
{
    let f = |d: SheetDim| sheet_dim_text(d);
    if n > 0 {
        dims_text_flat(dims, n - 1);
        assert(dims.take(n).map_values(f) =~= dims.take(n - 1).map_values(f).push(f(dims[n - 1])));
        dims.take(n - 1).map_values(f).lemma_flatten_push(f(dims[n - 1]));
    } else {
        assert(dims.take(0).map_values(f) =~= Seq::<Seq<char>>::empty());
        assert(dims.take(0).map_values(f).flatten() =~= Seq::<char>::empty());
    }
}

/// A sheet is its page, every view in order, every dimension in order, and the title block.
#[verifier::spinoff_prover]
#[verifier::rlimit(50)]
pub proof fn a_sheet_holds_all_in_order(page: Page, items: Seq<SheetItem>, dims: Seq<SheetDim>, title: TitleBlock)
    ensures
        svg_text(page, items, dims, title) == page_text(page) + items.map_values(|it: SheetItem| item_text(it)).flatten() + dims.map_values(
            |d: SheetDim| sheet_dim_text(d),
        ).flatten() + title_text(title) + "</svg>\n"@,
{
    items_text_flat(items, items.len() as int);
    dims_text_flat(dims, dims.len() as int);
    assert(items.take(items.len() as int) =~= items);
    assert(dims.take(dims.len() as int) =~= dims);
}

/// A straight line in a path of its own.
pub open spec fn ruled(from: Spot, to: Spot, width: Seq<char>) -> Seq<char> {
    "<path d=\"M"@ + from.x@ + ","@ + from.y@ + " L"@ + to.x@ + ","@ + to.y@ + "\" fill=\"none\" stroke=\"black\" stroke-width=\""@ + width
        + "/>\n"@
}

proof fn ruled_is_a_path(from: Spot, to: Spot, width: Seq<char>)
    ensures
        path_text(line_text(from, to), width) == ruled(from, to, width),
{
    reveal_strlit("<path d=\"");
    reveal_strlit("M");
    reveal_strlit("<path d=\"M");
    assert("<path d=\""@ + "M"@ =~= "<path d=\"M"@);
    assert(path_text(line_text(from, to), width) =~= ("<path d=\""@ + "M"@) + from.x@ + ","@ + from.y@ + " L"@ + to.x@ + ","@ + to.y@
        + "\" fill=\"none\" stroke=\"black\" stroke-width=\""@ + width + "/>\n"@);
}

/// A filled triangle with its tip first.
pub open spec fn arrow(h: Head) -> Seq<char> {
    "<polygon points=\""@ + h.tip.x@ + ","@ + h.tip.y@ + " "@ + h.left.x@ + ","@ + h.left.y@ + " "@ + h.right.x@ + ","@ + h.right.y@
        + "\" fill=\"black\"/>\n"@
}

/// The text of a dimension, centred and escaped.
pub open spec fn dim_words(c: Caption) -> Seq<char> {
    "<text x=\""@ + c.at.x@ + "\" y=\""@ + c.at.y@ + "\" font-family=\"sans-serif\" font-size=\""@ + "3.2\" text-anchor=\"middle\""@
        + " fill=\"black\">"@ + escaped(c.text@) + "</text>\n"@
}

/// A linear dimension is ruled from tip to tip, with a thin witness line and an arrow at both ends. A
/// leader runs from the centre for a radius and from the far rim for a diameter, which has an arrow
/// there too; it ends in a landing. A centre mark is a solid cross with dash-dotted arms.
#[verifier::spinoff_prover]
#[verifier::rlimit(50)]
pub proof fn a_dimension_is_drawn_whole(d: SheetDim)
    ensures
        match d {
            SheetDim::Linear { start, finish, witnesses, text } => sheet_dim_text(d) == ruled(start.tip, finish.tip, "0.25\""@) + ruled(
                witnesses[0].from,
                witnesses[0].to,
                "0.18\""@,
            ) + ruled(witnesses[1].from, witnesses[1].to, "0.18\""@) + arrow(start) + arrow(finish) + dim_words(text),
            SheetDim::Radial { centre, label, shoulder, near, far, text } => match far {
                None => sheet_dim_text(d) == ruled(centre, label, "0.25\""@) + ruled(label, shoulder, "0.25\""@) + arrow(near) + dim_words(text),
                Some(h) => sheet_dim_text(d) == ruled(h.tip, label, "0.25\""@) + ruled(label, shoulder, "0.25\""@) + arrow(near) + arrow(h)
                    + dim_words(text),
            },
            SheetDim::Mark { cross, arms } => sheet_dim_text(d) == cross@.map_values(
                |s: Stroke| ruled(s.from, s.to, "0.25\""@),
            ).flatten() + arms@.map_values(|s: Stroke| ruled(s.from, s.to, "0.2\" stroke-dasharray=\"3,1,0.6,1\""@)).flatten(),
        },
{
    match d {
        SheetDim::Linear { start, finish, witnesses, text } => {
            ruled_is_a_path(start.tip, finish.tip, "0.25\""@);
            ruled_is_a_path(witnesses[0].from, witnesses[0].to, "0.18\""@);
            ruled_is_a_path(witnesses[1].from, witnesses[1].to, "0.18\""@);
            assert(head_text(start) =~= arrow(start) && head_text(finish) =~= arrow(finish));
            assert(caption_text(text, dim_style()) =~= dim_words(text));
        },
        SheetDim::Radial { centre, label, shoulder, near, far, text } => {
            ruled_is_a_path(centre, label, "0.25\""@);
            ruled_is_a_path(label, shoulder, "0.25\""@);
            assert(head_text(near) =~= arrow(near));
            assert(caption_text(text, dim_style()) =~= dim_words(text));
            match far {
                Some(h) => {
                    ruled_is_a_path(h.tip, label, "0.25\""@);
                    assert(head_text(h) =~= arrow(h));
                },
                None => {
                    let lines = ruled(centre, label, "0.25\""@) + ruled(label, shoulder, "0.25\""@) + arrow(near);
                    assert(lines + Seq::<char>::empty() =~= lines);
                },
            }
        },
        SheetDim::Mark { cross, arms } => {
            paths_are_ruled(cross@, "0.25\""@, cross@.len() as int);
            paths_are_ruled(arms@, "0.2\" stroke-dasharray=\"3,1,0.6,1\""@, arms@.len() as int);
            assert(cross@.take(cross@.len() as int) =~= cross@);
            assert(arms@.take(arms@.len() as int) =~= arms@);
        },
    }
}

proof fn paths_are_ruled(strokes: Seq<Stroke>, style: Seq<char>, n: int)
    requires
        0 <= n <= strokes.len(),
    ensures
        paths_text(strokes, style, n) == strokes.take(n).map_values(|s: Stroke| ruled(s.from, s.to, style)).flatten(),
    decreases n,
{
    let f = |s: Stroke| ruled(s.from, s.to, style);
    if n > 0 {
        paths_are_ruled(strokes, style, n - 1);
        let s = strokes[n - 1];
        ruled_is_a_path(s.from, s.to, style);
        assert(strokes.take(n).map_values(f) =~= strokes.take(n - 1).map_values(f).push(f(s)));
        strokes.take(n - 1).map_values(f).lemma_flatten_push(f(s));
    } else {
        assert(strokes.take(0).map_values(f) =~= Seq::<Seq<char>>::empty());
        assert(strokes.take(0).map_values(f).flatten() =~= Seq::<char>::empty());
    }
}

/// A row of the title block: its name, then its value in larger type.
pub open spec fn row_words(r: TitleRow) -> Seq<char> {
    "<text x=\""@ + r.name.at.x@ + "\" y=\""@ + r.name.at.y@ + "\" font-family=\"sans-serif\" font-size=\""@ + "3\""@ + " fill=\"black\">"@
        + escaped(r.name.text@) + "</text>\n"@ + "<text x=\""@ + r.value.at.x@ + "\" y=\""@ + r.value.at.y@
        + "\" font-family=\"sans-serif\" font-size=\""@ + "3.4\""@ + " fill=\"black\">"@ + escaped(r.value.text@) + "</text>\n"@
}

/// The rule above a row.
pub open spec fn row_rule(r: TitleRow) -> Seq<char> {
    "<line x1=\""@ + r.rule.from.x@ + "\" y1=\""@ + r.rule.from.y@ + "\" x2=\""@ + r.rule.to.x@ + "\" y2=\""@ + r.rule.to.y@
        + "\" stroke=\"black\" stroke-width=\"0.25\"/>\n"@
}

proof fn rows_flat(rows: Seq<TitleRow>, n: int)
    requires
        1 <= n <= rows.len(),
    ensures
        rows_text(rows, n) == row_words(rows[0]) + rows.subrange(1, n).map_values(|r: TitleRow| row_rule(r) + row_words(r)).flatten(),
    decreases n,
{
    let f = |r: TitleRow| row_rule(r) + row_words(r);
    let r = rows[n - 1];
    assert(caption_text(r.name, "3\""@) + caption_text(r.value, "3.4\""@) =~= row_words(r));
    assert(rule_text(r.rule) =~= row_rule(r));
    if n > 1 {
        rows_flat(rows, n - 1);
        assert(rows.subrange(1, n).map_values(f) =~= rows.subrange(1, n - 1).map_values(f).push(f(r)));
        rows.subrange(1, n - 1).map_values(f).lemma_flatten_push(f(r));
        assert(row_text(r, false) =~= f(r));
        assert(rows_text(rows, n) =~= row_words(rows[0]) + rows.subrange(1, n).map_values(f).flatten());
    } else {
        assert(rows_text(rows, 0) =~= Seq::<char>::empty());
        assert(rows.subrange(1, 1).map_values(f) =~= Seq::<Seq<char>>::empty());
        assert(row_text(r, true) =~= row_words(r));
        assert(rows_text(rows, 1) =~= row_words(r) + rows.subrange(1, 1).map_values(f).flatten());
    }
}

/// A title block is a frame with its rows inside, ruled off from each other; without rows there is
/// none.
#[verifier::spinoff_prover]
#[verifier::rlimit(50)]
pub proof fn a_title_block_holds_its_rows(t: TitleBlock)
    ensures
        t.rows@.len() == 0 ==> title_text(t) == Seq::<char>::empty(),
        t.rows@.len() > 0 ==> title_text(t) == "<rect x=\""@ + t.corner.x@ + "\" y=\""@ + t.corner.y@ + "\" width=\""@ + t.width@
            + "\" height=\""@ + t.height@ + "\" fill=\"none\" stroke=\"black\" stroke-width=\"0.5\"/>\n"@ + row_words(t.rows@[0])
            + t.rows@.skip(1).map_values(|r: TitleRow| row_rule(r) + row_words(r)).flatten(),
{
    if t.rows@.len() > 0 {
        rows_flat(t.rows@, t.rows@.len() as int);
        assert(t.rows@.subrange(1, t.rows@.len() as int) =~= t.rows@.skip(1));
        let frame = "<rect x=\""@ + t.corner.x@ + "\" y=\""@ + t.corner.y@ + "\" width=\""@ + t.width@ + "\" height=\""@ + t.height@
            + "\" fill=\"none\" stroke=\"black\" stroke-width=\"0.5\"/>\n"@;
        let words = row_words(t.rows@[0]);
        let more = t.rows@.skip(1).map_values(|r: TitleRow| row_rule(r) + row_words(r)).flatten();
        assert(frame + (words + more) =~= frame + words + more);
    }
}

/// A caption stands at its place, in the style it is given, and says its text with the characters that
/// mean something to the file written out.
pub proof fn captions_stand_at_their_place(c: Caption, style: Seq<char>)
    ensures
        caption_text(c, style) == "<text x=\""@ + c.at.x@ + "\" y=\""@ + c.at.y@ + "\" font-family=\"sans-serif\" font-size=\""@ + style
            + " fill=\"black\">"@ + escaped(c.text@) + "</text>\n"@,
{
}

/// A sheet opens with a page of its own size in millimetres, drawn to the same measure, on white and
/// with a border ten in from its edges; it ends with the end of the drawing.
#[verifier::spinoff_prover]
#[verifier::rlimit(50)]
pub proof fn a_sheet_is_framed(page: Page, items: Seq<SheetItem>, dims: Seq<SheetDim>, title: TitleBlock)
    ensures
        ({
            let open = "<svg xmlns=\"http://www.w3.org/2000/svg\" width=\""@ + page.width@ + "mm\" height=\""@ + page.height@ + "mm\" viewBox=\"0 0 "@
                + page.width@ + " "@ + page.height@
                + "\">\n<rect x=\"0\" y=\"0\" width=\"100%\" height=\"100%\" fill=\"white\"/>\n<rect x=\"10\" y=\"10\" width=\""@ + page.inner_width@
                + "\" height=\""@ + page.inner_height@ + "\" fill=\"none\" stroke=\"black\" stroke-width=\"0.5\"/>\n"@;
            let sheet = svg_text(page, items, dims, title);
            &&& sheet.len() >= open.len() && sheet.take(open.len() as int) == open
            &&& sheet.len() >= "</svg>\n"@.len() && sheet.skip(sheet.len() - "</svg>\n"@.len()) == "</svg>\n"@
        }),
{
    let sheet = svg_text(page, items, dims, title);
    let open = page_text(page);
    let middle = items_text(items, items.len() as int) + dims_text(dims, dims.len() as int) + title_text(title);
    assert(sheet =~= open + middle + "</svg>\n"@);
    assert(sheet.take(open.len() as int) =~= open);
    assert(sheet.skip(sheet.len() - "</svg>\n"@.len()) =~= "</svg>\n"@);
}

} // verus!
