//! The serializable draw-list render model: roles, text anchors and the
//! per-op JSON encoding.

use vstd::prelude::*;

use crate::metadata::{metadata_json, InteractionMetadata};
use crate::number::{push_thousandths, thousandths_text};
use crate::sink::{
    dash_pattern, json_literal, mark_is_empty, non_negative, paint_json, push_json_string, Dash,
    MarkInteraction, Paint,
};
use crate::text::push_char;

verus! {

/// Where a draw op sits in the chart, so clients and tests can identify
/// primitives without re-deriving them from coordinates.
#[derive(Debug, Clone, Copy, PartialEq, Eq, Structural)]
pub enum DrawRole {
    /// The full-canvas background fill.
    Background,
    /// A plot area (one per space; one per facet panel when faceted).
    PlotArea,
    /// A facet strip background.
    FacetStrip,
    /// A facet strip label.
    FacetLabel,
    /// The chart title.
    Title,
    /// The chart subtitle.
    Subtitle,
    /// The chart caption.
    Caption,
    /// A per-datum geometry mark.
    Mark,
    /// A gridline (Cartesian or polar).
    Grid,
    /// An axis line, tick, tick label, or axis title.
    Axis,
    /// A legend swatch or label.
    Legend,
    /// A polar perimeter or radius label.
    PolarLabel,
}

/// The stable serialized name of a role.
pub open spec fn role_name(role: DrawRole) -> Seq<char> {
    match role {
        DrawRole::Background => "background"@,
        DrawRole::PlotArea => "plot-area"@,
        DrawRole::FacetStrip => "facet-strip"@,
        DrawRole::FacetLabel => "facet-label"@,
        DrawRole::Title => "title"@,
        DrawRole::Subtitle => "subtitle"@,
        DrawRole::Caption => "caption"@,
        DrawRole::Mark => "mark"@,
        DrawRole::Grid => "grid"@,
        DrawRole::Axis => "axis"@,
        DrawRole::Legend => "legend"@,
        DrawRole::PolarLabel => "polar-label"@,
    }
}

impl DrawRole {
    /// The stable string used in the serialized draw list.
    pub fn as_str(self) -> (s: &'static str)
        ensures
            s@ == role_name(self),
    {
        match self {
            DrawRole::Background => "background",
            DrawRole::PlotArea => "plot-area",
            DrawRole::FacetStrip => "facet-strip",
            DrawRole::FacetLabel => "facet-label",
            DrawRole::Title => "title",
            DrawRole::Subtitle => "subtitle",
            DrawRole::Caption => "caption",
            DrawRole::Mark => "mark",
            DrawRole::Grid => "grid",
            DrawRole::Axis => "axis",
            DrawRole::Legend => "legend",
            DrawRole::PolarLabel => "polar-label",
        }
    }
}

/// Horizontal text alignment for a text op.
#[derive(Debug, Clone, Copy, PartialEq, Eq, Structural)]
pub enum TextAnchor {
    Start,
    Middle,
    End,
}

/// The serialized (and SVG `text-anchor`) name of an anchor.
pub open spec fn anchor_name(anchor: TextAnchor) -> Seq<char> {
    match anchor {
        TextAnchor::Start => "start"@,
        TextAnchor::Middle => "middle"@,
        TextAnchor::End => "end"@,
    }
}

impl TextAnchor {
    pub fn as_str(self) -> (s: &'static str)
        ensures
            s@ == anchor_name(self),
    {
        match self {
            TextAnchor::Start => "start",
            TextAnchor::Middle => "middle",
            TextAnchor::End => "end",
        }
    }
}

/// Distinct roles serialize to distinct names, so a client can recover the
/// role of every op from its JSON.
pub proof fn lemma_role_names_distinct(a: DrawRole, b: DrawRole)
    requires
        a != b,
    ensures
        role_name(a) != role_name(b),
{
    reveal_strlit("background");
    reveal_strlit("plot-area");
    reveal_strlit("facet-strip");
    reveal_strlit("facet-label");
    reveal_strlit("title");
    reveal_strlit("subtitle");
    reveal_strlit("caption");
    reveal_strlit("mark");
    reveal_strlit("grid");
    reveal_strlit("axis");
    reveal_strlit("legend");
    reveal_strlit("polar-label");
    let x = role_name(a);
    let y = role_name(b);
    if x == y {
        assert(x.len() == y.len());
        assert(x[0] == y[0]);
        assert(x[x.len() - 1] == y[y.len() - 1]);
        if x.len() > 5 {
            assert(x[6] == y[6]);
        }
    }
}

// ---------------------------------------------------------------------------
// Draw ops
// ---------------------------------------------------------------------------

/// A single drawable primitive; coordinates, sizes and opacities in
/// thousandths.
#[derive(Debug, Clone, PartialEq)]
pub enum DrawOp {
    /// Start a rectangular clip scope; later primitives up to the matching
    /// `ClipEnd` are clipped to it.
    ClipStart { role: DrawRole, x: i64, y: i64, width: i64, height: i64 },
    /// End the current clip scope.
    ClipEnd { role: DrawRole },
    /// A rectangle.
    Rect {
        role: DrawRole,
        x: i64,
        y: i64,
        width: i64,
        height: i64,
        paint: Paint,
        interaction: Option<MarkInteraction>,
    },
    /// A circle.
    Circle { role: DrawRole, cx: i64, cy: i64, r: i64, paint: Paint, interaction: Option<MarkInteraction> },
    /// A path in the SVG path mini-language.
    Path {
        role: DrawRole,
        d: String,
        paint: Paint,
        dash: Option<Dash>,
        interaction: Option<MarkInteraction>,
    },
    /// A polygon with a space-separated `x,y` point list.
    Polygon { role: DrawRole, points: String, paint: Paint, interaction: Option<MarkInteraction> },
    /// A single line segment.
    Line {
        role: DrawRole,
        x1: i64,
        y1: i64,
        x2: i64,
        y2: i64,
        stroke: String,
        stroke_width: i64,
        linecap_round: bool,
        opacity: Option<i64>,
        dash: Option<Dash>,
    },
    /// A run of text; `content` may hold `\n` for stacked lines.
    Text {
        role: DrawRole,
        x: i64,
        y: i64,
        anchor: TextAnchor,
        fill: String,
        opacity: Option<i64>,
        content: String,
    },
}

/// The role of an op.
pub open spec fn op_role(op: DrawOp) -> DrawRole {
    match op {
        DrawOp::ClipStart { role, .. } => role,
        DrawOp::ClipEnd { role } => role,
        DrawOp::Rect { role, .. } => role,
        DrawOp::Circle { role, .. } => role,
        DrawOp::Path { role, .. } => role,
        DrawOp::Polygon { role, .. } => role,
        DrawOp::Line { role, .. } => role,
        DrawOp::Text { role, .. } => role,
    }
}

impl DrawOp {
    /// Where this op sits in the chart.
    pub fn role(&self) -> (role: DrawRole)
        ensures
            role == op_role(*self),
    {
        match self {
            DrawOp::ClipStart { role, .. } => *role,
            DrawOp::ClipEnd { role } => *role,
            DrawOp::Rect { role, .. } => *role,
            DrawOp::Circle { role, .. } => *role,
            DrawOp::Path { role, .. } => *role,
            DrawOp::Polygon { role, .. } => *role,
            DrawOp::Line { role, .. } => *role,
            DrawOp::Text { role, .. } => *role,
        }
    }
}

/// The nested `interaction` member of a shape op: optional `tooltip` and
/// `highlight` fields, or nothing when the mark carries no interaction.
#[verifier::opaque]
pub open spec fn interaction_json(interaction: Option<MarkInteraction>) -> Seq<char> {
    match interaction {
        None => Seq::<char>::empty(),
        Some(mark) => if mark_is_empty(mark) {
            Seq::<char>::empty()
        } else {
            ",\"interaction\":{"@ + (match mark.tooltip {
                Some(t) => "\"tooltip\":"@ + json_literal(t@),
                None => Seq::<char>::empty(),
            }) + (match mark.highlight {
                Some(h) => (if mark.tooltip is Some {
                    seq![',']
                } else {
                    Seq::<char>::empty()
                }) + "\"highlight\":"@ + json_literal(h@),
                None => Seq::<char>::empty(),
            }) + seq!['}']
        },
    }
}

/// Append a mark's inert interaction metadata to a draw-list op object,
/// when it carries any.
pub fn write_interaction_json(out: &mut String, interaction: &Option<MarkInteraction>)
    ensures
        final(out)@ == old(out)@ + interaction_json(*interaction),
{
    let ghost start = out@;
    reveal(interaction_json);
    let mark = match interaction {
        Some(mark) => mark,
        None => {
            assert(out@ =~= start + interaction_json(*interaction));
            return;
        },
    };
    if mark.is_empty() {
        assert(out@ =~= start + interaction_json(*interaction));
        return;
    }
    out.append(",\"interaction\":{");
    let mut first = true;
    if let Some(tooltip) = &mark.tooltip {
        out.append("\"tooltip\":");
        push_json_string(out, tooltip.as_str());
        first = false;
    }
    if let Some(highlight) = &mark.highlight {
        if !first {
            push_char(out, ',');
        }
        out.append("\"highlight\":");
        push_json_string(out, highlight.as_str());
    }
    push_char(out, '}');
    assert(out@ =~= start + interaction_json(*interaction));
}

/// The opening of an op object: its kind and role.
pub open spec fn op_head(kind: Seq<char>, role: DrawRole) -> Seq<char> {
    "{\"op\":\""@ + kind + "\",\"role\":\""@ + role_name(role) + "\""@
}

fn write_op_head(out: &mut String, kind: &str, role: DrawRole)
    ensures
        final(out)@ == old(out)@ + op_head(kind@, role),
{
    let ghost start = out@;
    out.append("{\"op\":\"");
    out.append(kind);
    out.append("\",\"role\":\"");
    out.append(role.as_str());
    out.append("\"");
    assert(out@ =~= start + op_head(kind@, role));
}

/// A numeric member `,"key":value`.
pub open spec fn number_member(key: Seq<char>, value: i64) -> Seq<char> {
    ",\""@ + key + "\":"@ + thousandths_text(value as int)
}

fn write_number_member(out: &mut String, key: &str, value: i64)
    ensures
        final(out)@ == old(out)@ + number_member(key@, value),
{
    let ghost start = out@;
    out.append(",\"");
    out.append(key);
    out.append("\":");
    push_thousandths(out, value);
    assert(out@ =~= start + number_member(key@, value));
}

/// A string member `,"key":"escaped value"`.
pub open spec fn string_member(key: Seq<char>, value: Seq<char>) -> Seq<char> {
    ",\""@ + key + "\":"@ + json_literal(value)
}

fn write_string_member(out: &mut String, key: &str, value: &str)
    ensures
        final(out)@ == old(out)@ + string_member(key@, value@),
{
    let ghost start = out@;
    out.append(",\"");
    out.append(key);
    out.append("\":");
    push_json_string(out, value);
    assert(out@ =~= start + string_member(key@, value@));
}

/// An optional member: its text or nothing.
pub open spec fn optional_number_member(key: Seq<char>, value: Option<i64>) -> Seq<char> {
    match value {
        Some(v) => number_member(key, v),
        None => Seq::empty(),
    }
}

fn write_optional_number_member(out: &mut String, key: &str, value: Option<i64>)
    ensures
        final(out)@ == old(out)@ + optional_number_member(key@, value),
{
    let ghost start = out@;
    if let Some(v) = value {
        write_number_member(out, key, v);
    }
    assert(out@ =~= start + optional_number_member(key@, value));
}

/// The optional `strokeDasharray` member.
pub open spec fn dash_member(dash: Option<Dash>) -> Seq<char> {
    match dash {
        Some(d) => ",\"strokeDasharray\":\""@ + dash_pattern(d) + "\""@,
        None => Seq::empty(),
    }
}

fn write_dash_member(out: &mut String, dash: Option<Dash>)
    ensures
        final(out)@ == old(out)@ + dash_member(dash),
{
    let ghost start = out@;
    if let Some(d) = dash {
        out.append(",\"strokeDasharray\":\"");
        out.append(d.dasharray());
        out.append("\"");
    }
    assert(out@ =~= start + dash_member(dash));
}

/// The JSON object of a rectangular clip start.
#[verifier::opaque]
pub open spec fn clip_start_json(role: DrawRole, x: i64, y: i64, width: i64, height: i64) -> Seq<char> {
    op_head("clipStart"@, role) + number_member("x"@, x) + number_member("y"@, y) + number_member(
        "width"@,
        width,
    ) + number_member("height"@, height) + seq!['}']
}

/// The JSON object of a rectangle op.
#[verifier::opaque]
pub open spec fn rect_op_json(
    role: DrawRole,
    x: i64,
    y: i64,
    width: i64,
    height: i64,
    paint: Paint,
    interaction: Option<MarkInteraction>,
) -> Seq<char> {
    op_head("rect"@, role) + number_member("x"@, x) + number_member("y"@, y) + number_member(
        "width"@,
        width,
    ) + number_member("height"@, height) + paint_json(paint) + interaction_json(interaction) + seq![
        '}',
    ]
}

/// The JSON object of a circle op.
#[verifier::opaque]
pub open spec fn circle_op_json(
    role: DrawRole,
    cx: i64,
    cy: i64,
    r: i64,
    paint: Paint,
    interaction: Option<MarkInteraction>,
) -> Seq<char> {
    op_head("circle"@, role) + number_member("cx"@, cx) + number_member("cy"@, cy) + number_member(
        "r"@,
        r,
    ) + paint_json(paint) + interaction_json(interaction) + seq!['}']
}

/// The JSON object of a path op.
#[verifier::opaque]
pub open spec fn path_op_json(
    role: DrawRole,
    d: Seq<char>,
    paint: Paint,
    dash: Option<Dash>,
    interaction: Option<MarkInteraction>,
) -> Seq<char> {
    op_head("path"@, role) + string_member("d"@, d) + paint_json(paint) + dash_member(dash)
        + interaction_json(interaction) + seq!['}']
}

/// The JSON object of a polygon op.
#[verifier::opaque]
pub open spec fn polygon_op_json(
    role: DrawRole,
    points: Seq<char>,
    paint: Paint,
    interaction: Option<MarkInteraction>,
) -> Seq<char> {
    op_head("polygon"@, role) + string_member("points"@, points) + paint_json(paint)
        + interaction_json(interaction) + seq!['}']
}

/// The members of a line op up to its stroke width.
#[verifier::opaque]
pub open spec fn line_head_json(
    role: DrawRole,
    ends: (i64, i64, i64, i64),
    stroke: Seq<char>,
    stroke_width: i64,
) -> Seq<char> {
    op_head("line"@, role) + number_member("x1"@, ends.0) + number_member("y1"@, ends.1)
        + number_member("x2"@, ends.2) + number_member("y2"@, ends.3) + string_member(
        "stroke"@,
        stroke,
    ) + number_member("strokeWidth"@, stroke_width)
}

/// The optional members of a line op and its closing brace.
#[verifier::opaque]
pub open spec fn line_tail_json(linecap_round: bool, opacity: Option<i64>, dash: Option<Dash>) -> Seq<char> {
    (if linecap_round {
        ",\"strokeLinecap\":\"round\""@
    } else {
        Seq::<char>::empty()
    }) + optional_number_member("opacity"@, opacity) + dash_member(dash) + seq!['}']
}

/// The JSON object of a line op.
pub open spec fn line_op_json(
    role: DrawRole,
    ends: (i64, i64, i64, i64),
    stroke: Seq<char>,
    stroke_width: i64,
    linecap_round: bool,
    opacity: Option<i64>,
    dash: Option<Dash>,
) -> Seq<char> {
    line_head_json(role, ends, stroke, stroke_width) + line_tail_json(linecap_round, opacity, dash)
}

/// The members of a text op up to its anchor.
#[verifier::opaque]
pub open spec fn text_head_json(role: DrawRole, x: i64, y: i64, anchor: TextAnchor) -> Seq<char> {
    op_head("text"@, role) + number_member("x"@, x) + number_member("y"@, y)
        + ",\"anchor\":\""@ + anchor_name(anchor) + "\""@
}

/// The fill, opacity and content members of a text op and its closing brace.
#[verifier::opaque]
pub open spec fn text_tail_json(fill: Seq<char>, opacity: Option<i64>, content: Seq<char>) -> Seq<char> {
    string_member("fill"@, fill) + optional_number_member("opacity"@, opacity) + string_member(
        "content"@,
        content,
    ) + seq!['}']
}

/// The JSON object of a text op.
pub open spec fn text_op_json(
    role: DrawRole,
    x: i64,
    y: i64,
    anchor: TextAnchor,
    fill: Seq<char>,
    opacity: Option<i64>,
    content: Seq<char>,
) -> Seq<char> {
    text_head_json(role, x, y, anchor) + text_tail_json(fill, opacity, content)
}

/// The JSON object of one op.
pub open spec fn op_json(op: DrawOp) -> Seq<char> {
    match op {
        DrawOp::ClipStart { role, x, y, width, height } => clip_start_json(
            role,
            x,
            y,
            width,
            height,
        ),
        DrawOp::ClipEnd { role } => op_head("clipEnd"@, role) + seq!['}'],
        DrawOp::Rect { role, x, y, width, height, paint, interaction } => rect_op_json(
            role,
            x,
            y,
            width,
            height,
            paint,
            interaction,
        ),
        DrawOp::Circle { role, cx, cy, r, paint, interaction } => circle_op_json(
            role,
            cx,
            cy,
            r,
            paint,
            interaction,
        ),
        DrawOp::Path { role, d, paint, dash, interaction } => path_op_json(
            role,
            d@,
            paint,
            dash,
            interaction,
        ),
        DrawOp::Polygon { role, points, paint, interaction } => polygon_op_json(
            role,
            points@,
            paint,
            interaction,
        ),
        DrawOp::Line {
            role,
            x1,
            y1,
            x2,
            y2,
            stroke,
            stroke_width,
            linecap_round,
            opacity,
            dash,
        } => line_op_json(
            role,
            (x1, y1, x2, y2),
            stroke@,
            stroke_width,
            linecap_round,
            opacity,
            dash,
        ),
        DrawOp::Text { role, x, y, anchor, fill, opacity, content } => text_op_json(
            role,
            x,
            y,
            anchor,
            fill@,
            opacity,
            content@,
        ),
    }
}

/// The `op` name of a draw op: its variant's name in lower camel case.
pub open spec fn op_kind(op: DrawOp) -> Seq<char> {
    match op {
        DrawOp::ClipStart { .. } => "clipStart"@,
        DrawOp::ClipEnd { .. } => "clipEnd"@,
        DrawOp::Rect { .. } => "rect"@,
        DrawOp::Circle { .. } => "circle"@,
        DrawOp::Path { .. } => "path"@,
        DrawOp::Polygon { .. } => "polygon"@,
        DrawOp::Line { .. } => "line"@,
        DrawOp::Text { .. } => "text"@,
    }
}

proof fn lemma_keeps_head(x: Seq<char>, t: Seq<char>, h: Seq<char>)
    requires
        h.len() <= x.len(),
        x.subrange(0, h.len() as int) == h,
    ensures
        h.len() <= (x + t).len(),
        (x + t).subrange(0, h.len() as int) == h,
{
    assert((x + t).subrange(0, h.len() as int) =~= x.subrange(0, h.len() as int));
}

/// Every op is written as one JSON object that opens with its kind and its
/// role, `{"op":"<kind>","role":"<role>"`, and closes with `}`; its other
/// members stand between the two.
pub proof fn lemma_op_json_shape(op: DrawOp)
    ensures
        ({
            let head = op_head(op_kind(op), op_role(op));
            let text = op_json(op);
            &&& text.len() > head.len()
            &&& text.subrange(0, head.len() as int) == head
            &&& text.last() == '}'
        }),
{
    let head = op_head(op_kind(op), op_role(op));
    assert(head.subrange(0, head.len() as int) =~= head);
    match op {
        DrawOp::ClipStart { role, x, y, width, height } => {
            reveal(clip_start_json);
            let p0 = head + number_member("x"@, x);
            lemma_keeps_head(head, number_member("x"@, x), head);
            let p1 = p0 + number_member("y"@, y);
            lemma_keeps_head(p0, number_member("y"@, y), head);
            let p2 = p1 + number_member("width"@, width);
            lemma_keeps_head(p1, number_member("width"@, width), head);
            let p3 = p2 + number_member("height"@, height);
            lemma_keeps_head(p2, number_member("height"@, height), head);
            lemma_keeps_head(p3, seq!['}'], head);
            assert(op_json(op) == p3 + seq!['}']);
        },
        DrawOp::ClipEnd { role } => {
            lemma_keeps_head(head, seq!['}'], head);
            assert(op_json(op) == head + seq!['}']);
        },
        DrawOp::Rect { role, x, y, width, height, paint, interaction } => {
            reveal(rect_op_json);
            let p0 = head + number_member("x"@, x);
            lemma_keeps_head(head, number_member("x"@, x), head);
            let p1 = p0 + number_member("y"@, y);
            lemma_keeps_head(p0, number_member("y"@, y), head);
            let p2 = p1 + number_member("width"@, width);
            lemma_keeps_head(p1, number_member("width"@, width), head);
            let p3 = p2 + number_member("height"@, height);
            lemma_keeps_head(p2, number_member("height"@, height), head);
            let p4 = p3 + paint_json(paint);
            lemma_keeps_head(p3, paint_json(paint), head);
            let p5 = p4 + interaction_json(interaction);
            lemma_keeps_head(p4, interaction_json(interaction), head);
            lemma_keeps_head(p5, seq!['}'], head);
            assert(op_json(op) == p5 + seq!['}']);
        },
        DrawOp::Circle { role, cx, cy, r, paint, interaction } => {
            reveal(circle_op_json);
            let p0 = head + number_member("cx"@, cx);
            lemma_keeps_head(head, number_member("cx"@, cx), head);
            let p1 = p0 + number_member("cy"@, cy);
            lemma_keeps_head(p0, number_member("cy"@, cy), head);
            let p2 = p1 + number_member("r"@, r);
            lemma_keeps_head(p1, number_member("r"@, r), head);
            let p3 = p2 + paint_json(paint);
            lemma_keeps_head(p2, paint_json(paint), head);
            let p4 = p3 + interaction_json(interaction);
            lemma_keeps_head(p3, interaction_json(interaction), head);
            lemma_keeps_head(p4, seq!['}'], head);
            assert(op_json(op) == p4 + seq!['}']);
        },
        DrawOp::Path { role, d, paint, dash, interaction } => {
            reveal(path_op_json);
            let p0 = head + string_member("d"@, d@);
            lemma_keeps_head(head, string_member("d"@, d@), head);
            let p1 = p0 + paint_json(paint);
            lemma_keeps_head(p0, paint_json(paint), head);
            let p2 = p1 + dash_member(dash);
            lemma_keeps_head(p1, dash_member(dash), head);
            let p3 = p2 + interaction_json(interaction);
            lemma_keeps_head(p2, interaction_json(interaction), head);
            lemma_keeps_head(p3, seq!['}'], head);
            assert(op_json(op) == p3 + seq!['}']);
        },
        DrawOp::Polygon { role, points, paint, interaction } => {
            reveal(polygon_op_json);
            let p0 = head + string_member("points"@, points@);
            lemma_keeps_head(head, string_member("points"@, points@), head);
            let p1 = p0 + paint_json(paint);
            lemma_keeps_head(p0, paint_json(paint), head);
            let p2 = p1 + interaction_json(interaction);
            lemma_keeps_head(p1, interaction_json(interaction), head);
            lemma_keeps_head(p2, seq!['}'], head);
            assert(op_json(op) == p2 + seq!['}']);
        },
        DrawOp::Line { role, x1, y1, x2, y2, stroke, stroke_width, linecap_round, opacity, dash } => {
            reveal(line_head_json);
            reveal(line_tail_json);
            let p0 = head + number_member("x1"@, x1);
            lemma_keeps_head(head, number_member("x1"@, x1), head);
            let p1 = p0 + number_member("y1"@, y1);
            lemma_keeps_head(p0, number_member("y1"@, y1), head);
            let p2 = p1 + number_member("x2"@, x2);
            lemma_keeps_head(p1, number_member("x2"@, x2), head);
            let p3 = p2 + number_member("y2"@, y2);
            lemma_keeps_head(p2, number_member("y2"@, y2), head);
            let p4 = p3 + string_member("stroke"@, stroke@);
            lemma_keeps_head(p3, string_member("stroke"@, stroke@), head);
            let p5 = p4 + number_member("strokeWidth"@, stroke_width);
            lemma_keeps_head(p4, number_member("strokeWidth"@, stroke_width), head);
            lemma_keeps_head(p5, line_tail_json(linecap_round, opacity, dash), head);
            assert(op_json(op) == p5 + line_tail_json(linecap_round, opacity, dash));
            assert((p5 + line_tail_json(linecap_round, opacity, dash)).last() == line_tail_json(linecap_round, opacity, dash).last());
        },
        DrawOp::Text { role, x, y, anchor, fill, opacity, content } => {
            reveal(text_head_json);
            reveal(text_tail_json);
            let p0 = head + number_member("x"@, x);
            lemma_keeps_head(head, number_member("x"@, x), head);
            let p1 = p0 + number_member("y"@, y);
            lemma_keeps_head(p0, number_member("y"@, y), head);
            let p2 = p1 + ",\"anchor\":\""@;
            lemma_keeps_head(p1, ",\"anchor\":\""@, head);
            let p3 = p2 + anchor_name(anchor);
            lemma_keeps_head(p2, anchor_name(anchor), head);
            let p4 = p3 + "\""@;
            lemma_keeps_head(p3, "\""@, head);
            lemma_keeps_head(p4, text_tail_json(fill@, opacity, content@), head);
            assert(op_json(op) == p4 + text_tail_json(fill@, opacity, content@));
            assert((p4 + text_tail_json(fill@, opacity, content@)).last() == text_tail_json(fill@, opacity, content@).last());
        },
    }
}

/// A JSON member that holds a number: `,"key":` and the number's text.
pub open spec fn keyed_number(key: Seq<char>, value: i64) -> Seq<char> {
    seq![',', '"'] + key + seq!['"', ':'] + thousandths_text(value as int)
}

/// A JSON member that holds a string: `,"key":` and the quoted string.
pub open spec fn keyed_string(key: Seq<char>, value: Seq<char>) -> Seq<char> {
    seq![',', '"'] + key + seq!['"', ':'] + json_literal(value)
}

/// Whether `text` begins with `prefix`.
pub open spec fn begins_with(text: Seq<char>, prefix: Seq<char>) -> bool {
    prefix.len() <= text.len() && text.subrange(0, prefix.len() as int) == prefix
}

proof fn lemma_number_member_text(key: Seq<char>, value: i64)
    ensures
        number_member(key, value) == keyed_number(key, value),
{
    reveal_strlit(",\"");
    reveal_strlit("\":");
    assert(number_member(key, value) =~= keyed_number(key, value));
}

proof fn lemma_string_member_text(key: Seq<char>, value: Seq<char>)
    ensures
        string_member(key, value) == keyed_string(key, value),
{
    reveal_strlit(",\"");
    reveal_strlit("\":");
    assert(string_member(key, value) =~= keyed_string(key, value));
}

proof fn lemma_begins_extend(text: Seq<char>, prefix: Seq<char>, more: Seq<char>)
    requires
        begins_with(text, prefix),
    ensures
        begins_with(text + more, prefix),
{
    assert((text + more).subrange(0, prefix.len() as int) =~= text.subrange(0, prefix.len() as int));
}

/// The numbers an op is written with read back as its own fields: right
/// after the op's kind and role come its coordinates and sizes, each under
/// the key of the field it holds (`x`, `y`, `width`, `height` of a clip or
/// rectangle; `cx`, `cy`, `r` of a circle; `x1`, `y1`, `x2`, `y2`, then the
/// stroke and its width, of a line; `x`, `y` of a text), and the path data
/// of a path and the points of a polygon come right after the role.
pub proof fn lemma_op_json_numbers_read_back(op: DrawOp)
    ensures
        match op {
            DrawOp::ClipStart { role, x, y, width, height } => begins_with(
                op_json(op),
                op_head("clipStart"@, role) + keyed_number("x"@, x) + keyed_number("y"@, y)
                    + keyed_number("width"@, width) + keyed_number("height"@, height),
            ),
            DrawOp::Rect { role, x, y, width, height, .. } => begins_with(
                op_json(op),
                op_head("rect"@, role) + keyed_number("x"@, x) + keyed_number("y"@, y)
                    + keyed_number("width"@, width) + keyed_number("height"@, height),
            ),
            DrawOp::Circle { role, cx, cy, r, .. } => begins_with(
                op_json(op),
                op_head("circle"@, role) + keyed_number("cx"@, cx) + keyed_number("cy"@, cy)
                    + keyed_number("r"@, r),
            ),
            DrawOp::Line { role, x1, y1, x2, y2, stroke, stroke_width, .. } => begins_with(
                op_json(op),
                op_head("line"@, role) + keyed_number("x1"@, x1) + keyed_number("y1"@, y1)
                    + keyed_number("x2"@, x2) + keyed_number("y2"@, y2) + keyed_string(
                    "stroke"@,
                    stroke@,
                ) + keyed_number("strokeWidth"@, stroke_width),
            ),
            DrawOp::Path { role, d, .. } => begins_with(
                op_json(op),
                op_head("path"@, role) + keyed_string("d"@, d@),
            ),
            DrawOp::Polygon { role, points, .. } => begins_with(
                op_json(op),
                op_head("polygon"@, role) + keyed_string("points"@, points@),
            ),
            DrawOp::Text { role, x, y, .. } => begins_with(
                op_json(op),
                op_head("text"@, role) + keyed_number("x"@, x) + keyed_number("y"@, y),
            ),
            _ => true,
        },
{
    match op {
        DrawOp::ClipStart { role, x, y, width, height } => {
            reveal(clip_start_json);
            lemma_number_member_text("x"@, x);
            lemma_number_member_text("y"@, y);
            lemma_number_member_text("width"@, width);
            lemma_number_member_text("height"@, height);
            let p = op_head("clipStart"@, role) + keyed_number("x"@, x) + keyed_number("y"@, y)
                + keyed_number("width"@, width) + keyed_number("height"@, height);
            assert(p.subrange(0, p.len() as int) =~= p);
            lemma_begins_extend(p, p, seq!['}']);
        },
        DrawOp::Rect { role, x, y, width, height, paint, interaction } => {
            reveal(rect_op_json);
            lemma_number_member_text("x"@, x);
            lemma_number_member_text("y"@, y);
            lemma_number_member_text("width"@, width);
            lemma_number_member_text("height"@, height);
            let p = op_head("rect"@, role) + keyed_number("x"@, x) + keyed_number("y"@, y)
                + keyed_number("width"@, width) + keyed_number("height"@, height);
            assert(p.subrange(0, p.len() as int) =~= p);
            lemma_begins_extend(p, p, paint_json(paint));
            lemma_begins_extend(p + paint_json(paint), p, interaction_json(interaction));
            lemma_begins_extend(p + paint_json(paint) + interaction_json(interaction), p, seq!['}']);
        },
        DrawOp::Circle { role, cx, cy, r, paint, interaction } => {
            reveal(circle_op_json);
            lemma_number_member_text("cx"@, cx);
            lemma_number_member_text("cy"@, cy);
            lemma_number_member_text("r"@, r);
            let p = op_head("circle"@, role) + keyed_number("cx"@, cx) + keyed_number("cy"@, cy)
                + keyed_number("r"@, r);
            assert(p.subrange(0, p.len() as int) =~= p);
            lemma_begins_extend(p, p, paint_json(paint));
            lemma_begins_extend(p + paint_json(paint), p, interaction_json(interaction));
            lemma_begins_extend(p + paint_json(paint) + interaction_json(interaction), p, seq!['}']);
        },
        DrawOp::Line {
            role,
            x1,
            y1,
            x2,
            y2,
            stroke,
            stroke_width,
            linecap_round,
            opacity,
            dash,
        } => {
            reveal(line_head_json);
            lemma_number_member_text("x1"@, x1);
            lemma_number_member_text("y1"@, y1);
            lemma_number_member_text("x2"@, x2);
            lemma_number_member_text("y2"@, y2);
            lemma_string_member_text("stroke"@, stroke@);
            lemma_number_member_text("strokeWidth"@, stroke_width);
            let p = op_head("line"@, role) + keyed_number("x1"@, x1) + keyed_number("y1"@, y1)
                + keyed_number("x2"@, x2) + keyed_number("y2"@, y2) + keyed_string(
                "stroke"@,
                stroke@,
            ) + keyed_number("strokeWidth"@, stroke_width);
            assert(p.subrange(0, p.len() as int) =~= p);
            lemma_begins_extend(p, p, line_tail_json(linecap_round, opacity, dash));
        },
        DrawOp::Text { role, x, y, anchor, fill, opacity, content } => {
            reveal(text_head_json);
            lemma_number_member_text("x"@, x);
            lemma_number_member_text("y"@, y);
            let p = op_head("text"@, role) + keyed_number("x"@, x) + keyed_number("y"@, y);
            assert(p.subrange(0, p.len() as int) =~= p);
            let q = p + ",\"anchor\":\""@;
            lemma_begins_extend(p, p, ",\"anchor\":\""@);
            lemma_begins_extend(q, p, anchor_name(anchor));
            lemma_begins_extend(q + anchor_name(anchor), p, "\""@);
            lemma_begins_extend(
                q + anchor_name(anchor) + "\""@,
                p,
                text_tail_json(fill@, opacity, content@),
            );
        },
        DrawOp::Path { role, d, paint, dash, interaction } => {
            reveal(path_op_json);
            lemma_string_member_text("d"@, d@);
            let p = op_head("path"@, role) + keyed_string("d"@, d@);
            assert(p.subrange(0, p.len() as int) =~= p);
            lemma_begins_extend(p, p, paint_json(paint));
            lemma_begins_extend(p + paint_json(paint), p, dash_member(dash));
            lemma_begins_extend(
                p + paint_json(paint) + dash_member(dash),
                p,
                interaction_json(interaction),
            );
            lemma_begins_extend(
                p + paint_json(paint) + dash_member(dash) + interaction_json(interaction),
                p,
                seq!['}'],
            );
        },
        DrawOp::Polygon { role, points, paint, interaction } => {
            reveal(polygon_op_json);
            lemma_string_member_text("points"@, points@);
            let p = op_head("polygon"@, role) + keyed_string("points"@, points@);
            assert(p.subrange(0, p.len() as int) =~= p);
            lemma_begins_extend(p, p, paint_json(paint));
            lemma_begins_extend(p + paint_json(paint), p, interaction_json(interaction));
            lemma_begins_extend(p + paint_json(paint) + interaction_json(interaction), p, seq!['}']);
        },
        _ => {},
    }
}

fn write_clip_start(out: &mut String, role: DrawRole, x: i64, y: i64, width: i64, height: i64)
    ensures
        final(out)@ == old(out)@ + clip_start_json(role, x, y, width, height),
{
    let ghost start = out@;
    write_op_head(out, "clipStart", role);
    write_number_member(out, "x", x);
    write_number_member(out, "y", y);
    write_number_member(out, "width", width);
    write_number_member(out, "height", height);
    push_char(out, '}');
    reveal(clip_start_json);
    assert(out@ =~= start + clip_start_json(role, x, y, width, height));
}

fn write_rect_op(
    out: &mut String,
    role: DrawRole,
    rect: (i64, i64, i64, i64),
    paint: &Paint,
    interaction: &Option<MarkInteraction>,
)
    ensures
        final(out)@ == old(out)@ + rect_op_json(
            role,
            rect.0,
            rect.1,
            rect.2,
            rect.3,
            *paint,
            *interaction,
        ),
{
    let ghost start = out@;
    write_op_head(out, "rect", role);
    write_number_member(out, "x", rect.0);
    write_number_member(out, "y", rect.1);
    write_number_member(out, "width", rect.2);
    write_number_member(out, "height", rect.3);
    paint.write_json(out);
    write_interaction_json(out, interaction);
    push_char(out, '}');
    reveal(rect_op_json);
    assert(out@ =~= start + rect_op_json(role, rect.0, rect.1, rect.2, rect.3, *paint, *interaction));
}

fn write_circle_op(
    out: &mut String,
    role: DrawRole,
    circle: (i64, i64, i64),
    paint: &Paint,
    interaction: &Option<MarkInteraction>,
)
    ensures
        final(out)@ == old(out)@ + circle_op_json(
            role,
            circle.0,
            circle.1,
            circle.2,
            *paint,
            *interaction,
        ),
{
    let ghost start = out@;
    write_op_head(out, "circle", role);
    write_number_member(out, "cx", circle.0);
    write_number_member(out, "cy", circle.1);
    write_number_member(out, "r", circle.2);
    paint.write_json(out);
    write_interaction_json(out, interaction);
    push_char(out, '}');
    reveal(circle_op_json);
    assert(out@ =~= start + circle_op_json(role, circle.0, circle.1, circle.2, *paint, *interaction));
}

fn write_path_op(
    out: &mut String,
    role: DrawRole,
    d: &str,
    paint: &Paint,
    dash: Option<Dash>,
    interaction: &Option<MarkInteraction>,
)
    ensures
        final(out)@ == old(out)@ + path_op_json(role, d@, *paint, dash, *interaction),
{
    let ghost start = out@;
    write_op_head(out, "path", role);
    write_string_member(out, "d", d);
    paint.write_json(out);
    write_dash_member(out, dash);
    write_interaction_json(out, interaction);
    push_char(out, '}');
    reveal(path_op_json);
    assert(out@ =~= start + path_op_json(role, d@, *paint, dash, *interaction));
}

fn write_polygon_op(
    out: &mut String,
    role: DrawRole,
    points: &str,
    paint: &Paint,
    interaction: &Option<MarkInteraction>,
)
    ensures
        final(out)@ == old(out)@ + polygon_op_json(role, points@, *paint, *interaction),
{
    let ghost start = out@;
    write_op_head(out, "polygon", role);
    write_string_member(out, "points", points);
    paint.write_json(out);
    write_interaction_json(out, interaction);
    push_char(out, '}');
    reveal(polygon_op_json);
    assert(out@ =~= start + polygon_op_json(role, points@, *paint, *interaction));
}

fn write_line_head(out: &mut String, role: DrawRole, ends: (i64, i64, i64, i64), stroke: &str, stroke_width: i64)
    ensures
        final(out)@ == old(out)@ + line_head_json(role, ends, stroke@, stroke_width),
{
    let ghost start = out@;
    write_op_head(out, "line", role);
    write_number_member(out, "x1", ends.0);
    write_number_member(out, "y1", ends.1);
    write_number_member(out, "x2", ends.2);
    write_number_member(out, "y2", ends.3);
    write_string_member(out, "stroke", stroke);
    write_number_member(out, "strokeWidth", stroke_width);
    reveal(line_head_json);
    assert(out@ =~= start + line_head_json(role, ends, stroke@, stroke_width));
}

fn write_line_tail(out: &mut String, linecap_round: bool, opacity: Option<i64>, dash: Option<Dash>)
    ensures
        final(out)@ == old(out)@ + line_tail_json(linecap_round, opacity, dash),
{
    let ghost start = out@;
    if linecap_round {
        out.append(",\"strokeLinecap\":\"round\"");
    }
    write_optional_number_member(out, "opacity", opacity);
    write_dash_member(out, dash);
    push_char(out, '}');
    reveal(line_tail_json);
    assert(out@ =~= start + line_tail_json(linecap_round, opacity, dash));
}

fn write_line_op(
    out: &mut String,
    role: DrawRole,
    ends: (i64, i64, i64, i64),
    stroke: &str,
    stroke_width: i64,
    linecap_round: bool,
    opacity: Option<i64>,
    dash: Option<Dash>,
)
    ensures
        final(out)@ == old(out)@ + line_op_json(
            role,
            ends,
            stroke@,
            stroke_width,
            linecap_round,
            opacity,
            dash,
        ),
{
    let ghost start = out@;
    write_line_head(out, role, ends, stroke, stroke_width);
    write_line_tail(out, linecap_round, opacity, dash);
    assert(out@ =~= start + line_op_json(
        role,
        ends,
        stroke@,
        stroke_width,
        linecap_round,
        opacity,
        dash,
    ));
}

fn write_text_head(out: &mut String, role: DrawRole, at: (i64, i64), anchor: TextAnchor)
    ensures
        final(out)@ == old(out)@ + text_head_json(role, at.0, at.1, anchor),
{
    let ghost start = out@;
    write_op_head(out, "text", role);
    write_number_member(out, "x", at.0);
    write_number_member(out, "y", at.1);
    out.append(",\"anchor\":\"");
    out.append(anchor.as_str());
    out.append("\"");
    reveal(text_head_json);
    assert(out@ =~= start + text_head_json(role, at.0, at.1, anchor));
}

fn write_text_tail(out: &mut String, fill: &str, opacity: Option<i64>, content: &str)
    ensures
        final(out)@ == old(out)@ + text_tail_json(fill@, opacity, content@),
{
    let ghost start = out@;
    write_string_member(out, "fill", fill);
    write_optional_number_member(out, "opacity", opacity);
    write_string_member(out, "content", content);
    push_char(out, '}');
    reveal(text_tail_json);
    assert(out@ =~= start + text_tail_json(fill@, opacity, content@));
}

fn write_text_op(
    out: &mut String,
    role: DrawRole,
    at: (i64, i64),
    anchor: TextAnchor,
    fill: &str,
    opacity: Option<i64>,
    content: &str,
)
    ensures
        final(out)@ == old(out)@ + text_op_json(role, at.0, at.1, anchor, fill@, opacity, content@),
{
    let ghost start = out@;
    write_text_head(out, role, at, anchor);
    write_text_tail(out, fill, opacity, content);
    assert(out@ =~= start + text_op_json(role, at.0, at.1, anchor, fill@, opacity, content@));
}

impl DrawOp {
    /// Append this op's JSON object.
    pub fn write_json(&self, out: &mut String)
        ensures
            final(out)@ == old(out)@ + op_json(*self),
    {
        match self {
            DrawOp::ClipStart { role, x, y, width, height } => {
                write_clip_start(out, *role, *x, *y, *width, *height);
            },
            DrawOp::ClipEnd { role } => {
                let ghost start = out@;
                write_op_head(out, "clipEnd", *role);
                push_char(out, '}');
                assert(out@ =~= start + op_json(*self));
            },
            DrawOp::Rect { role, x, y, width, height, paint, interaction } => {
                write_rect_op(out, *role, (*x, *y, *width, *height), paint, interaction);
            },
            DrawOp::Circle { role, cx, cy, r, paint, interaction } => {
                write_circle_op(out, *role, (*cx, *cy, *r), paint, interaction);
            },
            DrawOp::Path { role, d, paint, dash, interaction } => {
                write_path_op(out, *role, d.as_str(), paint, *dash, interaction);
            },
            DrawOp::Polygon { role, points, paint, interaction } => {
                write_polygon_op(out, *role, points.as_str(), paint, interaction);
            },
            DrawOp::Line {
                role,
                x1,
                y1,
                x2,
                y2,
                stroke,
                stroke_width,
                linecap_round,
                opacity,
                dash,
            } => {
                write_line_op(
                    out,
                    *role,
                    (*x1, *y1, *x2, *y2),
                    stroke.as_str(),
                    *stroke_width,
                    *linecap_round,
                    *opacity,
                    *dash,
                );
            },
            DrawOp::Text { role, x, y, anchor, fill, opacity, content } => {
                write_text_op(out, *role, (*x, *y), *anchor, fill.as_str(), *opacity, content.as_str());
            },
        }
    }
}

/// A deterministic, drawable description of a chart; its size in
/// thousandths of a pixel.
#[derive(Debug, Clone, PartialEq)]
pub struct DrawList {
    pub width: i64,
    pub height: i64,
    pub interactions: InteractionMetadata,
    pub ops: Vec<DrawOp>,
}

/// Comma-separated op objects.
pub open spec fn op_list_json(ops: Seq<DrawOp>) -> Seq<char>
    decreases ops.len(),
{
    if ops.len() == 0 {
        Seq::empty()
    } else if ops.len() == 1 {
        op_json(ops[0])
    } else {
        op_list_json(ops.drop_last()) + seq![','] + op_json(ops.last())
    }
}

/// The deterministic JSON text of a draw list.
pub open spec fn draw_list_json(list: DrawList) -> Seq<char> {
    "{\"width\":"@ + thousandths_text(list.width as int) + ",\"height\":"@ + thousandths_text(
        list.height as int,
    ) + ",\"interactions\":"@ + metadata_json(list.interactions) + ",\"ops\":["@
        + op_list_json(list.ops@) + "]}"@
}

impl DrawList {
    /// Serialize to deterministic JSON, numbers in the SVG number format.
    pub fn to_json(&self) -> (json: String)
        ensures
            json@ == draw_list_json(*self),
    {
        let mut out = String::new();
        out.append("{\"width\":");
        push_thousandths(&mut out, self.width);
        out.append(",\"height\":");
        push_thousandths(&mut out, self.height);
        out.append(",\"interactions\":");
        let interactions = self.interactions.to_json();
        out.append(interactions.as_str());
        out.append(",\"ops\":[");
        let ghost ops_start = out@;
        let mut i: usize = 0;
        while i < self.ops.len()
            invariant
                i <= self.ops@.len(),
                out@ == ops_start + op_list_json(self.ops@.take(i as int)),
            decreases self.ops@.len() - i,
        {
            if i > 0 {
                push_char(&mut out, ',');
            }
            self.ops[i].write_json(&mut out);
            proof {
                assert(self.ops@.take(i + 1).drop_last() =~= self.ops@.take(i as int));
                assert(out@ =~= ops_start + op_list_json(self.ops@.take(i + 1)));
            }
            i = i + 1;
        }
        assert(self.ops@.take(i as int) =~= self.ops@);
        out.append("]}");
        assert(out@ =~= draw_list_json(*self));
        out
    }
}

} // verus!
