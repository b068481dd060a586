//! The mark sink vocabulary shared by the SVG and draw-list backends: dash
//! presets, fills, interaction metadata, JSON string literals and the layer
//! to role mapping.

use vstd::prelude::*;

use crate::draw_list::{anchor_name, DrawOp, DrawRole, TextAnchor};
use crate::metadata::Rect;
use crate::number::{push_thousandths, thousandths_text};
use crate::number::decimal_digits;
use crate::number::push_decimal;
use crate::svg::{
    escaped_attr, escaped_text, group_open_text, indentation, push_escaped_attr, push_escaped_text,
    SvgWriter,
};
use crate::text::{chars_of, push_char, starts_with, str_equal};
use crate::theme::opt_view;

verus! {

// ---------------------------------------------------------------------------
// Dash presets
// ---------------------------------------------------------------------------

/// A stroke dash pattern, mirroring the SVG `stroke-dasharray` presets used by
/// annotation lines.
#[derive(Debug, Clone, Copy, PartialEq, Eq, Structural)]
pub enum Dash {
    Dotted,
    Dashed,
}

/// The dash preset a setting names, if any.
pub open spec fn dash_setting(value: Option<Seq<char>>) -> Option<Dash> {
    match value {
        Some(v) => if v == "dotted"@ {
            Some(Dash::Dotted)
        } else if v == "dashed"@ {
            Some(Dash::Dashed)
        } else {
            None
        },
        None => None,
    }
}

/// The `stroke-dasharray` value of a preset.
pub open spec fn dash_pattern(dash: Dash) -> Seq<char> {
    match dash {
        Dash::Dotted => "1 2"@,
        Dash::Dashed => "4 4"@,
    }
}

impl Dash {
    /// `"dotted"` and `"dashed"` name presets; anything else names none.
    pub fn from_setting(value: Option<&str>) -> (dash: Option<Self>)
        ensures
            dash == dash_setting(
                match value {
                    Some(v) => Some(v@),
                    None => None,
                },
            ),
    {
        match value {
            Some(v) => {
                if str_equal(v, "dotted") {
                    Some(Dash::Dotted)
                } else if str_equal(v, "dashed") {
                    Some(Dash::Dashed)
                } else {
                    None
                }
            },
            None => None,
        }
    }

    /// The SVG `stroke-dasharray` value for this preset.
    pub fn dasharray(self) -> (s: &'static str)
        ensures
            s@ == dash_pattern(self),
    {
        match self {
            Dash::Dotted => "1 2",
            Dash::Dashed => "4 4",
        }
    }
}

// ---------------------------------------------------------------------------
// Fill and interaction metadata
// ---------------------------------------------------------------------------

/// The fill of a shape primitive.
#[derive(Debug, Clone, PartialEq)]
pub enum Fill {
    /// No fill (`fill="none"`).
    NoFill,
    /// A solid color.
    Color(String),
}

/// The stroke of a shape primitive. The three states differ in SVG: `Omit`
/// writes no `stroke` attribute, `NoStroke` writes `stroke="none"`, and
/// `Solid` writes `stroke` and `stroke-width` (the width in thousandths of a
/// pixel).
#[derive(Debug, Clone, PartialEq)]
pub enum Stroke {
    Omit,
    NoStroke,
    Solid { color: String, width: i64 },
}

/// The paint of a shape primitive (rectangle, circle, path, polygon); the
/// opacity in thousandths.
#[derive(Debug, Clone, PartialEq)]
pub struct Paint {
    pub fill: Fill,
    pub stroke: Stroke,
    pub opacity: Option<i64>,
}

/// `w` clamped below at zero.
pub open spec fn non_negative(w: int) -> int {
    if w < 0 {
        0
    } else {
        w
    }
}

/// The `fill` attribute of a paint.
#[verifier::opaque]
pub open spec fn fill_svg(fill: Fill) -> Seq<char> {
    match fill {
        Fill::NoFill => " fill=\"none\""@,
        Fill::Color(c) => " fill=\""@ + escaped_attr(c@) + "\""@,
    }
}

/// The `stroke` attributes of a paint, if any.
#[verifier::opaque]
pub open spec fn stroke_svg(stroke: Stroke) -> Seq<char> {
    match stroke {
        Stroke::Omit => Seq::<char>::empty(),
        Stroke::NoStroke => " stroke=\"none\""@,
        Stroke::Solid { color, width } => " stroke=\""@ + escaped_attr(color@)
            + "\" stroke-width=\""@ + thousandths_text(non_negative(width as int)) + "\""@,
    }
}

/// The `opacity` attribute, if any.
#[verifier::opaque]
pub open spec fn opacity_svg(opacity: Option<i64>) -> Seq<char> {
    match opacity {
        Some(o) => " opacity=\""@ + thousandths_text(o as int) + "\""@,
        None => Seq::<char>::empty(),
    }
}

/// The SVG attribute tail of a paint: `fill`, then `stroke`/`stroke-width`
/// when present, then `opacity` when present.
pub open spec fn paint_svg(paint: Paint) -> Seq<char> {
    fill_svg(paint.fill) + stroke_svg(paint.stroke) + opacity_svg(paint.opacity)
}

fn write_fill_svg(out: &mut String, fill: &Fill)
    ensures
        final(out)@ == old(out)@ + fill_svg(*fill),
{
    let ghost start = out@;
    match fill {
        Fill::NoFill => out.append(" fill=\"none\""),
        Fill::Color(c) => {
            out.append(" fill=\"");
            push_escaped_attr(out, c.as_str());
            out.append("\"");
        },
    }
    reveal(fill_svg);
    assert(out@ =~= start + fill_svg(*fill));
}

fn write_stroke_svg(out: &mut String, stroke: &Stroke)
    ensures
        final(out)@ == old(out)@ + stroke_svg(*stroke),
{
    let ghost start = out@;
    match stroke {
        Stroke::Omit => {},
        Stroke::NoStroke => out.append(" stroke=\"none\""),
        Stroke::Solid { color, width } => {
            out.append(" stroke=\"");
            push_escaped_attr(out, color.as_str());
            out.append("\" stroke-width=\"");
            push_thousandths(
                out,
                if *width < 0 {
                    0
                } else {
                    *width
                },
            );
            out.append("\"");
        },
    }
    reveal(stroke_svg);
    assert(out@ =~= start + stroke_svg(*stroke));
}

/// Append an optional `opacity` attribute.
pub fn write_opacity_svg(out: &mut String, opacity: Option<i64>)
    ensures
        final(out)@ == old(out)@ + opacity_svg(opacity),
{
    let ghost start = out@;
    if let Some(o) = opacity {
        out.append(" opacity=\"");
        push_thousandths(out, o);
        out.append("\"");
    }
    reveal(opacity_svg);
    assert(out@ =~= start + opacity_svg(opacity));
}

/// The `fill` member of a paint in a draw-list object.
#[verifier::opaque]
pub open spec fn fill_json(fill: Fill) -> Seq<char> {
    match fill {
        Fill::NoFill => ",\"fill\":\"none\""@,
        Fill::Color(c) => ",\"fill\":"@ + json_literal(c@),
    }
}

/// The `stroke` members of a paint: color and width, `"none"`, or nothing.
#[verifier::opaque]
pub open spec fn stroke_json(stroke: Stroke) -> Seq<char> {
    match stroke {
        Stroke::Omit => Seq::<char>::empty(),
        Stroke::NoStroke => ",\"stroke\":\"none\""@,
        Stroke::Solid { color, width } => ",\"stroke\":"@ + json_literal(color@)
            + ",\"strokeWidth\":"@ + thousandths_text(non_negative(width as int)),
    }
}

/// The `opacity` member, if any.
#[verifier::opaque]
pub open spec fn opacity_json(opacity: Option<i64>) -> Seq<char> {
    match opacity {
        Some(o) => ",\"opacity\":"@ + thousandths_text(o as int),
        None => Seq::<char>::empty(),
    }
}

/// The JSON members of a paint in a draw-list object: `fill`, then
/// `stroke`/`strokeWidth` or `"stroke":"none"`, then `opacity`.
pub open spec fn paint_json(paint: Paint) -> Seq<char> {
    fill_json(paint.fill) + stroke_json(paint.stroke) + opacity_json(paint.opacity)
}

fn write_fill_json(out: &mut String, fill: &Fill)
    ensures
        final(out)@ == old(out)@ + fill_json(*fill),
{
    let ghost start = out@;
    match fill {
        Fill::NoFill => out.append(",\"fill\":\"none\""),
        Fill::Color(c) => {
            out.append(",\"fill\":");
            push_json_string(out, c.as_str());
        },
    }
    reveal(fill_json);
    assert(out@ =~= start + fill_json(*fill));
}

fn write_stroke_json(out: &mut String, stroke: &Stroke)
    ensures
        final(out)@ == old(out)@ + stroke_json(*stroke),
{
    let ghost start = out@;
    match stroke {
        Stroke::Solid { color, width } => {
            out.append(",\"stroke\":");
            push_json_string(out, color.as_str());
            out.append(",\"strokeWidth\":");
            push_thousandths(
                out,
                if *width < 0 {
                    0
                } else {
                    *width
                },
            );
        },
        Stroke::NoStroke => out.append(",\"stroke\":\"none\""),
        Stroke::Omit => {},
    }
    reveal(stroke_json);
    assert(out@ =~= start + stroke_json(*stroke));
}

fn write_opacity_json(out: &mut String, opacity: Option<i64>)
    ensures
        final(out)@ == old(out)@ + opacity_json(opacity),
{
    let ghost start = out@;
    if let Some(o) = opacity {
        out.append(",\"opacity\":");
        push_thousandths(out, o);
    }
    reveal(opacity_json);
    assert(out@ =~= start + opacity_json(opacity));
}

impl Paint {
    /// A solid fill with no stroke.
    pub fn fill(color: String, opacity: Option<i64>) -> (paint: Paint)
        ensures
            paint.fill == Fill::Color(color),
            paint.stroke == Stroke::Omit,
            paint.opacity == opacity,
    {
        Paint { fill: Fill::Color(color), stroke: Stroke::Omit, opacity }
    }

    /// Append this paint's SVG attribute tail in the canonical order.
    pub fn write_svg(&self, out: &mut String)
        ensures
            final(out)@ == old(out)@ + paint_svg(*self),
    {
        let ghost start = out@;
        write_fill_svg(out, &self.fill);
        write_stroke_svg(out, &self.stroke);
        write_opacity_svg(out, self.opacity);
        assert(out@ =~= start + paint_svg(*self));
    }

    /// Append this paint's JSON members to a draw-list object.
    pub fn write_json(&self, out: &mut String)
        ensures
            final(out)@ == old(out)@ + paint_json(*self),
    {
        let ghost start = out@;
        write_fill_json(out, &self.fill);
        write_stroke_json(out, &self.stroke);
        write_opacity_json(out, self.opacity);
        assert(out@ =~= start + paint_json(*self));
    }
}

/// Inert event metadata attached to one per-datum mark.
#[derive(Debug, Clone, PartialEq, Eq)]
pub struct MarkEventInteraction {
    pub event: String,
    pub emit_field: String,
    pub value: Option<String>,
}

/// Declarative interaction metadata attached to a per-datum mark: a tooltip,
/// a highlight group and an optional host event. It is inert data; viewers
/// interpret it.
#[derive(Debug, Clone, PartialEq, Eq)]
pub struct MarkInteraction {
    /// Tooltip text (newline-separated `label: value` lines), if any.
    pub tooltip: Option<String>,
    /// The highlight group value this mark belongs to, if any.
    pub highlight: Option<String>,
    /// Optional host-side event emitter metadata.
    pub event: Option<MarkEventInteraction>,
}

/// A mark carries no interaction when all three parts are absent.
pub open spec fn mark_is_empty(mark: MarkInteraction) -> bool {
    mark.tooltip is None && mark.highlight is None && mark.event is None
}

impl MarkInteraction {
    pub fn is_empty(&self) -> (b: bool)
        ensures
            b == mark_is_empty(*self),
    {
        self.tooltip.is_none() && self.highlight.is_none() && self.event.is_none()
    }
}

impl Default for MarkInteraction {
    fn default() -> (mark: Self)
        ensures
            mark_is_empty(mark),
    {
        MarkInteraction { tooltip: None, highlight: None, event: None }
    }
}

// ---------------------------------------------------------------------------
// JSON string literals
// ---------------------------------------------------------------------------

/// The lower-case hexadecimal digit of `d` (`d < 16`).
pub open spec fn hex_digit_lower(d: u32) -> char {
    if d < 10 {
        (d + 48) as char
    } else {
        (d + 87) as char
    }
}

/// The JSON escape of one character inside a string literal.
pub open spec fn json_escape_of(c: char) -> Seq<char> {
    if c == '"' {
        seq!['\\', '"']
    } else if c == '\\' {
        seq!['\\', '\\']
    } else if c == '\n' {
        seq!['\\', 'n']
    } else if c == '\r' {
        seq!['\\', 'r']
    } else if c == '\t' {
        seq!['\\', 't']
    } else if (c as u32) < 0x20 {
        seq!['\\', 'u', '0', '0', hex_digit_lower((c as u32) / 16), hex_digit_lower((c as u32) % 16)]
    } else {
        seq![c]
    }
}

/// The escaped body of a JSON string literal (without the quotes).
pub open spec fn json_escaped(s: Seq<char>) -> Seq<char>
    decreases s.len(),
{
    if s.len() == 0 {
        Seq::empty()
    } else {
        json_escaped(s.drop_last()) + json_escape_of(s.last())
    }
}

/// The JSON string literal of `s`, quotes included.
pub open spec fn json_literal(s: Seq<char>) -> Seq<char> {
    seq!['"'] + json_escaped(s) + seq!['"']
}

pub(crate) fn push_hex_digit(out: &mut String, d: u32)
    requires
        d < 16,
    ensures
        final(out)@ == old(out)@.push(hex_digit_lower(d)),
{
    let b: u8 = if d < 10 { (d + 48) as u8 } else { (d + 87) as u8 };
    let c = b as char;
    push_char(out, c);
}

fn push_json_escape(out: &mut String, c: char)
    ensures
        final(out)@ == old(out)@ + json_escape_of(c),
{
    if c == '"' {
        push_char(out, '\\');
        push_char(out, '"');
    } else if c == '\\' {
        push_char(out, '\\');
        push_char(out, '\\');
    } else if c == '\n' {
        push_char(out, '\\');
        push_char(out, 'n');
    } else if c == '\r' {
        push_char(out, '\\');
        push_char(out, 'r');
    } else if c == '\t' {
        push_char(out, '\\');
        push_char(out, 't');
    } else if (c as u32) < 0x20 {
        let code = c as u32;
        push_char(out, '\\');
        push_char(out, 'u');
        push_char(out, '0');
        push_char(out, '0');
        push_hex_digit(out, code / 16);
        push_hex_digit(out, code % 16);
    } else {
        push_char(out, c);
    }
    assert(final(out)@ =~= old(out)@ + json_escape_of(c));
}

/// Append the JSON string literal of `value` (quotes included) to `out`.
pub fn push_json_string(out: &mut String, value: &str)
    ensures
        final(out)@ == old(out)@ + json_literal(value@),
{
    let ghost start = out@;
    push_char(out, '"');
    let chars = chars_of(value);
    let mut i: usize = 0;
    while i < chars.len()
        invariant
            i <= chars@.len(),
            chars@ == value@,
            out@ == start + seq!['"'] + json_escaped(chars@.take(i as int)),
        decreases chars@.len() - i,
    {
        push_json_escape(out, chars[i]);
        proof {
            assert(chars@.take(i + 1).drop_last() =~= chars@.take(i as int));
            assert(out@ =~= start + seq!['"'] + json_escaped(chars@.take(i + 1)));
        }
        i = i + 1;
    }
    assert(chars@.take(i as int) =~= value@);
    push_char(out, '"');
    assert(out@ =~= start + json_literal(value@));
}

/// Escape a string as a JSON string literal (including surrounding quotes).
pub fn json_string(value: &str) -> (out: String)
    ensures
        out@ == json_literal(value@),
{
    let mut out = String::new();
    push_json_string(&mut out, value);
    out
}

/// The body of a JSON string literal never holds a raw control character or
/// an unescaped quote: every `"` in it is preceded by a backslash.
pub proof fn lemma_json_escaped_has_no_control_chars(s: Seq<char>)
    ensures
        forall|i: int|
            0 <= i < json_escaped(s).len() ==> (#[trigger] json_escaped(s)[i] as u32) >= 0x20,
        forall|i: int|
            0 <= i < json_escaped(s).len() && #[trigger] json_escaped(s)[i] == '"' ==> i > 0
                && json_escaped(s)[i - 1] == '\\',
    decreases s.len(),
{
    if s.len() > 0 {
        lemma_json_escaped_has_no_control_chars(s.drop_last());
        let p = json_escaped(s.drop_last());
        let t = json_escape_of(s.last());
        assert(json_escaped(s) == p + t);
        let c = s.last();
        let code = c as u32;
        assert forall|i: int| 0 <= i < (p + t).len() implies ((p + t)[i] as u32) >= 0x20 by {
            if i >= p.len() {
                let k = i - p.len();
                assert((p + t)[i] == t[k]);
                if !(c == '"' || c == '\\' || c == '\n' || c == '\r' || c == '\t') && code < 0x20 {
                    assert(code / 16 < 2);
                    assert(code % 16 < 16);
                }
            }
        }
        assert forall|i: int| 0 <= i < (p + t).len() && #[trigger] (p + t)[i] == '"' implies i > 0 && (p
            + t)[i - 1] == '\\' by {
            if i >= p.len() {
                let k = i - p.len();
                assert((p + t)[i] == t[k]);
                if !(c == '"' || c == '\\' || c == '\n' || c == '\r' || c == '\t') && code < 0x20 {
                    assert(code / 16 < 2);
                    assert(code % 16 < 16);
                }
                if k > 0 {
                    assert((p + t)[i - 1] == t[k - 1]);
                }
            } else {
                assert((p + t)[i] == p[i]);
                assert((p + t)[i - 1] == p[i - 1]);
            }
        }
    }
}

/// The value of a hexadecimal digit, in either case.
pub open spec fn hex_value(c: char) -> Option<int> {
    let u = c as u32;
    if 48 <= u <= 57 {
        Some(u - 48)
    } else if 97 <= u <= 102 {
        Some(u - 87)
    } else if 65 <= u <= 70 {
        Some(u - 55)
    } else {
        None
    }
}

/// The code point that four hexadecimal digits at `s[1..5]` spell, if they
/// are digits and the value is a scalar value (not a surrogate).
pub open spec fn unicode_escape_value(s: Seq<char>) -> Option<int> {
    if s.len() >= 5 && hex_value(s[1]) is Some && hex_value(s[2]) is Some && hex_value(s[3]) is Some
        && hex_value(s[4]) is Some {
        let v = hex_value(s[1])->0 * 4096 + hex_value(s[2])->0 * 256 + hex_value(s[3])->0 * 16
            + hex_value(s[4])->0;
        if v < 0xD800 || v >= 0xE000 {
            Some(v)
        } else {
            None
        }
    } else {
        None
    }
}

/// What a JSON reader makes of the body of a string literal: each escape
/// (`\"`, `\\`, `\/`, `\b`, `\f`, `\n`, `\r`, `\t` and `\u` with four
/// hexadecimal digits) stands for its character, read from the front; every
/// other character stands for itself.
pub open spec fn json_unescape(s: Seq<char>) -> Seq<char>
    decreases s.len(),
{
    if s.len() == 0 {
        Seq::empty()
    } else if s[0] == '\\' && s.len() >= 2 && (s[1] == '"' || s[1] == '\\' || s[1] == '/') {
        seq![s[1]] + json_unescape(s.skip(2))
    } else if s[0] == '\\' && s.len() >= 2 && s[1] == 'b' {
        seq!['\x08'] + json_unescape(s.skip(2))
    } else if s[0] == '\\' && s.len() >= 2 && s[1] == 'f' {
        seq!['\x0c'] + json_unescape(s.skip(2))
    } else if s[0] == '\\' && s.len() >= 2 && s[1] == 'n' {
        seq!['\n'] + json_unescape(s.skip(2))
    } else if s[0] == '\\' && s.len() >= 2 && s[1] == 'r' {
        seq!['\r'] + json_unescape(s.skip(2))
    } else if s[0] == '\\' && s.len() >= 2 && s[1] == 't' {
        seq!['\t'] + json_unescape(s.skip(2))
    } else if s[0] == '\\' && s.len() >= 6 && s[1] == 'u' && unicode_escape_value(s.skip(1)) is Some {
        seq![(unicode_escape_value(s.skip(1))->0) as char] + json_unescape(s.skip(6))
    } else {
        seq![s[0]] + json_unescape(s.skip(1))
    }
}

/// The text a JSON string literal denotes: its body between the two quotes,
/// read by `json_unescape`; `None` when it is not quoted.
pub open spec fn json_string_value(lit: Seq<char>) -> Option<Seq<char>> {
    if lit.len() >= 2 && lit[0] == '"' && lit.last() == '"' {
        Some(json_unescape(lit.subrange(1, lit.len() - 1)))
    } else {
        None
    }
}

proof fn lemma_json_escaped_concat(a: Seq<char>, b: Seq<char>)
    ensures
        json_escaped(a + b) == json_escaped(a) + json_escaped(b),
    decreases b.len(),
{
    if b.len() == 0 {
        assert(a + b =~= a);
        assert(json_escaped(a) + json_escaped(b) =~= json_escaped(a));
    } else {
        lemma_json_escaped_concat(a, b.drop_last());
        assert((a + b).drop_last() =~= a + b.drop_last());
        assert((a + b).last() == b.last());
        assert(json_escaped(a) + json_escaped(b) =~= json_escaped(a) + json_escaped(b.drop_last())
            + json_escape_of(b.last()));
    }
}

/// Reading one character's escape in front of `rest` gives that character
/// in front of what `rest` reads as.
proof fn lemma_json_unescape_one(c: char, rest: Seq<char>)
    ensures
        json_unescape(json_escape_of(c) + rest) == seq![c] + json_unescape(rest),
{
    let t = json_escape_of(c) + rest;
    let code = c as u32;
    if c == '"' || c == '\\' || c == '\n' || c == '\r' || c == '\t' {
        assert(t[0] == '\\');
        assert(t.skip(2) =~= rest);
    } else if code < 0x20 {
        let hi = code / 16;
        let lo = code % 16;
        assert(hi < 2);
        assert(t[0] == '\\' && t[1] == 'u' && t[2] == '0' && t[3] == '0');
        assert(t[4] == hex_digit_lower(hi) && t[5] == hex_digit_lower(lo));
        assert(hex_value(t[4]) == Some(hi as int));
        assert(hex_value(t[5]) == Some(lo as int));
        let u = t.skip(1);
        assert(u[1] == t[2] && u[2] == t[3] && u[3] == t[4] && u[4] == t[5]);
        assert(unicode_escape_value(u) == Some(code as int));
        assert((code as int) as char == c);
        assert(t.skip(6) =~= rest);
    } else {
        assert(t[0] == c);
        assert(t.skip(1) =~= rest);
    }
}

/// A JSON reader gives back exactly the text that was written as a string
/// literal.
pub proof fn lemma_json_escaped_unescapes(s: Seq<char>)
    ensures
        json_unescape(json_escaped(s)) == s,
    decreases s.len(),
{
    if s.len() > 0 {
        let rest = s.skip(1);
        assert(s =~= seq![s[0]] + rest);
        lemma_json_escaped_concat(seq![s[0]], rest);
        assert(json_escaped(seq![s[0]]) =~= json_escape_of(s[0])) by {
            let one = seq![s[0]];
            assert(one.drop_last() =~= Seq::<char>::empty());
            assert(json_escaped(one.drop_last()) == Seq::<char>::empty());
            assert(one.last() == s[0]);
            assert(Seq::<char>::empty() + json_escape_of(s[0]) =~= json_escape_of(s[0]));
        }
        lemma_json_unescape_one(s[0], json_escaped(rest));
        lemma_json_escaped_unescapes(rest);
    }
}

/// A JSON string literal as written denotes exactly the text it was made
/// from.
pub proof fn lemma_json_literal_round_trip(s: Seq<char>)
    ensures
        json_string_value(json_literal(s)) == Some(s),
{
    let lit = json_literal(s);
    assert(lit.subrange(1, lit.len() - 1) =~= json_escaped(s));
    lemma_json_escaped_unescapes(s);
}

// ---------------------------------------------------------------------------
// Layer classes to draw roles
// ---------------------------------------------------------------------------

/// The draw-list role that primitives in a layer of the given class carry.
pub open spec fn layer_role(class: Seq<char>) -> DrawRole {
    if "algraf-layer"@.is_prefix_of(class) {
        DrawRole::Mark
    } else if class == "algraf-grid"@ || class == "algraf-polar-grid"@ {
        DrawRole::Grid
    } else if class == "algraf-axes"@ {
        DrawRole::Axis
    } else if class == "algraf-legends"@ {
        DrawRole::Legend
    } else if "algraf-polar"@.is_prefix_of(class) {
        DrawRole::PolarLabel
    } else if class == "algraf-facet-strip"@ {
        DrawRole::FacetStrip
    } else {
        DrawRole::Mark
    }
}

/// Map a layer class to the draw-list role its primitives carry.
pub fn role_for_layer(class: &str) -> (role: DrawRole)
    ensures
        role == layer_role(class@),
{
    if starts_with(class, "algraf-layer") {
        DrawRole::Mark
    } else if str_equal(class, "algraf-grid") || str_equal(class, "algraf-polar-grid") {
        DrawRole::Grid
    } else if str_equal(class, "algraf-axes") {
        DrawRole::Axis
    } else if str_equal(class, "algraf-legends") {
        DrawRole::Legend
    } else if starts_with(class, "algraf-polar") {
        DrawRole::PolarLabel
    } else if str_equal(class, "algraf-facet-strip") {
        DrawRole::FacetStrip
    } else {
        DrawRole::Mark
    }
}

// ---------------------------------------------------------------------------
// Copies
// ---------------------------------------------------------------------------

fn copy_text(value: &Option<String>) -> (copy: Option<String>)
    ensures
        copy == *value,
{
    match value {
        Some(v) => Some(v.clone()),
        None => None,
    }
}

impl MarkEventInteraction {
    /// A field-for-field copy.
    pub fn duplicate(&self) -> (copy: Self)
        ensures
            copy == *self,
    {
        MarkEventInteraction {
            event: self.event.clone(),
            emit_field: self.emit_field.clone(),
            value: copy_text(&self.value),
        }
    }
}

impl MarkInteraction {
    /// A field-for-field copy.
    pub fn duplicate(&self) -> (copy: Self)
        ensures
            copy == *self,
    {
        MarkInteraction {
            tooltip: copy_text(&self.tooltip),
            highlight: copy_text(&self.highlight),
            event: match &self.event {
                Some(e) => Some(e.duplicate()),
                None => None,
            },
        }
    }
}

impl Paint {
    /// A field-for-field copy.
    pub fn duplicate(&self) -> (copy: Self)
        ensures
            copy == *self,
    {
        Paint {
            fill: match &self.fill {
                Fill::NoFill => Fill::NoFill,
                Fill::Color(c) => Fill::Color(c.clone()),
            },
            stroke: match &self.stroke {
                Stroke::Omit => Stroke::Omit,
                Stroke::NoStroke => Stroke::NoStroke,
                Stroke::Solid { color, width } => Stroke::Solid { color: color.clone(), width: *width },
            },
            opacity: self.opacity,
        }
    }
}

/// The interaction a shape records: the active mark, unless it carries none.
pub open spec fn recorded_mark(mark: Option<MarkInteraction>) -> Option<MarkInteraction> {
    match mark {
        Some(m) => if mark_is_empty(m) {
            None
        } else {
            Some(m)
        },
        None => None,
    }
}

// ---------------------------------------------------------------------------
// The draw-list sink
// ---------------------------------------------------------------------------

/// A primitive sink that records draw ops; each op takes its role from the
/// enclosing layer's class.
pub struct DrawListSink {
    ops: Vec<DrawOp>,
    role: DrawRole,
    mark: Option<MarkInteraction>,
}

impl DrawListSink {
    /// The ops recorded so far.
    pub closed spec fn recorded(&self) -> Seq<DrawOp> {
        self.ops@
    }

    /// The role of the enclosing layer.
    pub closed spec fn layer_role_of(&self) -> DrawRole {
        self.role
    }

    /// The interaction the next shape op records.
    pub closed spec fn pending(&self) -> Option<MarkInteraction> {
        recorded_mark(self.mark)
    }

    /// An empty sink in a mark layer.
    pub fn new() -> (sink: Self)
        ensures
            sink.recorded() == Seq::<DrawOp>::empty(),
            sink.layer_role_of() == DrawRole::Mark,
            sink.pending() is None,
    {
        DrawListSink { ops: Vec::new(), role: DrawRole::Mark, mark: None }
    }

    fn current_mark(&self) -> (mark: Option<MarkInteraction>)
        ensures
            mark == self.pending(),
    {
        match &self.mark {
            Some(m) => if m.is_empty() {
                None
            } else {
                Some(m.duplicate())
            },
            None => None,
        }
    }

    /// The recorded ops.
    pub fn into_ops(self) -> (ops: Vec<DrawOp>)
        ensures
            ops@ == self.recorded(),
    {
        self.ops
    }

    /// The number of primitives recorded so far.
    pub fn primitive_count(&self) -> (count: usize)
        ensures
            count == self.recorded().len(),
    {
        self.ops.len()
    }

    /// Enter a layer: later ops take the role its class names.
    pub fn open_layer(&mut self, class: &str)
        ensures
            final(self).recorded() == old(self).recorded(),
            final(self).layer_role_of() == layer_role(class@),
            final(self).pending() == old(self).pending(),
    {
        self.role = role_for_layer(class);
    }

    /// Leave the layer: later ops are marks again.
    pub fn close_layer(&mut self)
        ensures
            final(self).recorded() == old(self).recorded(),
            final(self).layer_role_of() == DrawRole::Mark,
            final(self).pending() == old(self).pending(),
    {
        self.role = DrawRole::Mark;
    }

    /// Attach interaction metadata to the shapes recorded until `end_mark`.
    pub fn begin_mark(&mut self, mark: MarkInteraction)
        ensures
            final(self).recorded() == old(self).recorded(),
            final(self).layer_role_of() == old(self).layer_role_of(),
            final(self).pending() == recorded_mark(Some(mark)),
    {
        self.mark = if mark.is_empty() {
            None
        } else {
            Some(mark)
        };
    }

    /// Clear the interaction metadata set by `begin_mark`.
    pub fn end_mark(&mut self)
        ensures
            final(self).recorded() == old(self).recorded(),
            final(self).layer_role_of() == old(self).layer_role_of(),
            final(self).pending() is None,
    {
        self.mark = None;
    }

    fn record(&mut self, op: DrawOp)
        ensures
            final(self).recorded() == old(self).recorded().push(op),
            final(self).layer_role_of() == old(self).layer_role_of(),
            final(self).pending() == old(self).pending(),
    {
        self.ops.push(op);
    }

    /// Open a rectangular clip scope.
    pub fn open_clip(&mut self, rect: Rect)
        ensures
            final(self).recorded() == old(self).recorded().push(
                DrawOp::ClipStart {
                    role: old(self).layer_role_of(),
                    x: rect.x,
                    y: rect.y,
                    width: rect.width,
                    height: rect.height,
                },
            ),
            final(self).layer_role_of() == old(self).layer_role_of(),
            final(self).pending() == old(self).pending(),
    {
        let role = self.role;
        self.record(DrawOp::ClipStart { role, x: rect.x, y: rect.y, width: rect.width, height: rect.height });
    }

    /// Close the most recent clip scope.
    pub fn close_clip(&mut self)
        ensures
            final(self).recorded() == old(self).recorded().push(
                DrawOp::ClipEnd { role: old(self).layer_role_of() },
            ),
            final(self).layer_role_of() == old(self).layer_role_of(),
            final(self).pending() == old(self).pending(),
    {
        let role = self.role;
        self.record(DrawOp::ClipEnd { role });
    }

    /// Record a rectangle.
    pub fn rect(&mut self, x: i64, y: i64, width: i64, height: i64, paint: &Paint)
        ensures
            final(self).recorded() == old(self).recorded().push(
                DrawOp::Rect {
                    role: old(self).layer_role_of(),
                    x,
                    y,
                    width,
                    height,
                    paint: *paint,
                    interaction: old(self).pending(),
                },
            ),
            final(self).layer_role_of() == old(self).layer_role_of(),
            final(self).pending() == old(self).pending(),
    {
        let interaction = self.current_mark();
        let role = self.role;
        self.record(DrawOp::Rect { role, x, y, width, height, paint: paint.duplicate(), interaction });
    }

    /// Record a circle.
    pub fn circle(&mut self, cx: i64, cy: i64, r: i64, paint: &Paint)
        ensures
            final(self).recorded() == old(self).recorded().push(
                DrawOp::Circle {
                    role: old(self).layer_role_of(),
                    cx,
                    cy,
                    r,
                    paint: *paint,
                    interaction: old(self).pending(),
                },
            ),
            final(self).layer_role_of() == old(self).layer_role_of(),
            final(self).pending() == old(self).pending(),
    {
        let interaction = self.current_mark();
        let role = self.role;
        self.record(DrawOp::Circle { role, cx, cy, r, paint: paint.duplicate(), interaction });
    }

    /// Record a path with an optional dash pattern.
    pub fn path_with_dash(&mut self, d: &str, paint: &Paint, dash: Option<Dash>)
        ensures
            final(self).recorded().len() == old(self).recorded().len() + 1,
            final(self).recorded().drop_last() == old(self).recorded(),
            final(self).recorded().last() matches DrawOp::Path { role, d: dd, paint: p, dash: ds, interaction }
                && role == old(self).layer_role_of() && dd@ == d@ && p == *paint && ds == dash
                && interaction == old(self).pending(),
            final(self).layer_role_of() == old(self).layer_role_of(),
            final(self).pending() == old(self).pending(),
    {
        let interaction = self.current_mark();
        let role = self.role;
        self.record(DrawOp::Path { role, d: d.to_owned(), paint: paint.duplicate(), dash, interaction });
    }

    /// Record a path.
    pub fn path(&mut self, d: &str, paint: &Paint)
        ensures
            final(self).recorded().len() == old(self).recorded().len() + 1,
            final(self).recorded().drop_last() == old(self).recorded(),
            final(self).recorded().last() matches DrawOp::Path { role, d: dd, paint: p, dash: ds, interaction }
                && role == old(self).layer_role_of() && dd@ == d@ && p == *paint && ds is None
                && interaction == old(self).pending(),
            final(self).layer_role_of() == old(self).layer_role_of(),
            final(self).pending() == old(self).pending(),
    {
        self.path_with_dash(d, paint, None);
    }

    /// Record a polygon.
    pub fn polygon(&mut self, points: &str, paint: &Paint)
        ensures
            final(self).recorded().len() == old(self).recorded().len() + 1,
            final(self).recorded().drop_last() == old(self).recorded(),
            final(self).recorded().last() matches DrawOp::Polygon { role, points: pp, paint: p, interaction }
                && role == old(self).layer_role_of() && pp@ == points@ && p == *paint
                && interaction == old(self).pending(),
            final(self).layer_role_of() == old(self).layer_role_of(),
            final(self).pending() == old(self).pending(),
    {
        let interaction = self.current_mark();
        let role = self.role;
        self.record(DrawOp::Polygon { role, points: points.to_owned(), paint: paint.duplicate(), interaction });
    }

    /// Record a line segment; a negative width records as zero.
    pub fn line(
        &mut self,
        ends: (i64, i64, i64, i64),
        stroke: &str,
        width: i64,
        linecap_round: bool,
        opacity: Option<i64>,
        dash: Option<Dash>,
    )
        ensures
            final(self).recorded().len() == old(self).recorded().len() + 1,
            final(self).recorded().drop_last() == old(self).recorded(),
            final(self).recorded().last() matches DrawOp::Line {
                role,
                x1,
                y1,
                x2,
                y2,
                stroke: s,
                stroke_width,
                linecap_round: lr,
                opacity: o,
                dash: ds,
            } && role == old(self).layer_role_of() && (x1, y1, x2, y2) == ends && s@ == stroke@
                && stroke_width == non_negative(width as int) && lr == linecap_round && o == opacity
                && ds == dash,
            final(self).layer_role_of() == old(self).layer_role_of(),
            final(self).pending() == old(self).pending(),
    {
        let role = self.role;
        self.record(
            DrawOp::Line {
                role,
                x1: ends.0,
                y1: ends.1,
                x2: ends.2,
                y2: ends.3,
                stroke: stroke.to_owned(),
                stroke_width: if width < 0 {
                    0
                } else {
                    width
                },
                linecap_round,
                opacity,
                dash,
            },
        );
    }

    /// Record a run of text.
    pub fn text(
        &mut self,
        at: (i64, i64),
        anchor: TextAnchor,
        fill: &str,
        opacity: Option<i64>,
        content: &str,
    )
        ensures
            final(self).recorded().len() == old(self).recorded().len() + 1,
            final(self).recorded().drop_last() == old(self).recorded(),
            final(self).recorded().last() matches DrawOp::Text { role, x, y, anchor: a, fill: f, opacity: o, content: c }
                && role == old(self).layer_role_of() && (x, y) == at && a == anchor && f@ == fill@
                && o == opacity && c@ == content@,
            final(self).layer_role_of() == old(self).layer_role_of(),
            final(self).pending() == old(self).pending(),
    {
        let role = self.role;
        self.record(
            DrawOp::Text {
                role,
                x: at.0,
                y: at.1,
                anchor,
                fill: fill.to_owned(),
                opacity,
                content: content.to_owned(),
            },
        );
    }

    /// Record a geographic point marker: a circle filled with `fill`,
    /// unstroked, with no interaction.
    pub fn geo_point(&mut self, cx: i64, cy: i64, r: i64, fill: &str, opacity: Option<i64>)
        ensures
            final(self).recorded().len() == old(self).recorded().len() + 1,
            final(self).recorded().drop_last() == old(self).recorded(),
            final(self).recorded().last() matches DrawOp::Circle { role, cx: x, cy: y, r: rr, paint, interaction }
                && role == old(self).layer_role_of() && x == cx && y == cy && rr == r
                && paint.fill is Color && paint.fill->0@ == fill@ && paint.stroke == Stroke::Omit
                && paint.opacity == opacity && interaction is None,
            final(self).layer_role_of() == old(self).layer_role_of(),
            final(self).pending() == old(self).pending(),
    {
        let role = self.role;
        self.record(
            DrawOp::Circle {
                role,
                cx,
                cy,
                r,
                paint: Paint { fill: Fill::Color(fill.to_owned()), stroke: Stroke::Omit, opacity },
                interaction: None,
            },
        );
    }

    /// Record a geographic path: filled with `fill` (or the default blue)
    /// when areal and unfilled otherwise, stroked when a stroke colour is
    /// given, with no interaction.
    pub fn geo_path(
        &mut self,
        d: &str,
        fill: Option<&str>,
        stroke: Option<&str>,
        stroke_width: i64,
        opacity: Option<i64>,
        areal: bool,
    )
        ensures
            final(self).recorded().len() == old(self).recorded().len() + 1,
            final(self).recorded().drop_last() == old(self).recorded(),
            final(self).recorded().last() matches DrawOp::Path { role, d: dd, paint, dash, interaction }
                && role == old(self).layer_role_of() && dd@ == d@ && (if areal {
                paint.fill is Color && paint.fill->0@ == area_fill(opt_view(fill))
            } else {
                paint.fill == Fill::NoFill
            }) && (match opt_view(stroke) {
                Some(c) => paint.stroke is Solid && paint.stroke->color@ == c
                    && paint.stroke->width == non_negative(stroke_width as int),
                None => paint.stroke == Stroke::Omit,
            }) && paint.opacity == opacity && dash is None && interaction is None,
            final(self).layer_role_of() == old(self).layer_role_of(),
            final(self).pending() == old(self).pending(),
    {
        let role = self.role;
        let fill = if areal {
            match fill {
                Some(f) => Fill::Color(f.to_owned()),
                None => Fill::Color("#4E79A7".to_owned()),
            }
        } else {
            Fill::NoFill
        };
        let stroke = match stroke {
            Some(color) => Stroke::Solid {
                color: color.to_owned(),
                width: if stroke_width < 0 {
                    0
                } else {
                    stroke_width
                },
            },
            None => Stroke::Omit,
        };
        self.record(
            DrawOp::Path {
                role,
                d: d.to_owned(),
                paint: Paint { fill, stroke, opacity },
                dash: None,
                interaction: None,
            },
        );
    }

    /// Record a graticule line: an unfilled path stroked with `stroke`.
    pub fn graticule_path(&mut self, d: &str, stroke: &str, width: i64, opacity: Option<i64>)
        ensures
            final(self).recorded().len() == old(self).recorded().len() + 1,
            final(self).recorded().drop_last() == old(self).recorded(),
            final(self).recorded().last() matches DrawOp::Path { role, d: dd, paint, dash, interaction }
                && role == old(self).layer_role_of() && dd@ == d@ && paint.fill == Fill::NoFill
                && paint.stroke is Solid && paint.stroke->color@ == stroke@ && paint.stroke->width
                == non_negative(width as int) && paint.opacity == opacity && dash is None
                && interaction is None,
            final(self).layer_role_of() == old(self).layer_role_of(),
            final(self).pending() == old(self).pending(),
    {
        let role = self.role;
        self.record(
            DrawOp::Path {
                role,
                d: d.to_owned(),
                paint: Paint {
                    fill: Fill::NoFill,
                    stroke: Stroke::Solid {
                        color: stroke.to_owned(),
                        width: if width < 0 {
                            0
                        } else {
                            width
                        },
                    },
                    opacity,
                },
                dash: None,
                interaction: None,
            },
        );
    }
}

// ---------------------------------------------------------------------------
// The SVG sink
// ---------------------------------------------------------------------------

/// The highlight attribute of a mark, if it has a group.
#[verifier::opaque]
pub open spec fn highlight_attr(highlight: Option<String>) -> Seq<char> {
    match highlight {
        Some(g) => " data-algraf-highlight=\""@ + escaped_attr(g@) + "\""@,
        None => Seq::empty(),
    }
}

/// The event attributes of a mark, if it emits an event.
#[verifier::opaque]
pub open spec fn event_attrs(event: Option<MarkEventInteraction>) -> Seq<char> {
    match event {
        Some(e) => " data-algraf-event=\""@ + escaped_attr(e.event@) + "\" data-algraf-emit-field=\""@
            + escaped_attr(e.emit_field@) + "\""@ + match e.value {
            Some(v) => " data-algraf-emit-value=\""@ + escaped_attr(v@) + "\""@,
            None => Seq::<char>::empty(),
        },
        None => Seq::empty(),
    }
}

/// The end of an interactive shape element: an accessible `<title>` child
/// holding the tooltip, or a self-close without one.
#[verifier::opaque]
pub open spec fn title_close(tooltip: Option<String>, tag: Seq<char>) -> Seq<char> {
    match tooltip {
        Some(t) => "><title>"@ + escaped_text(t@) + "</title></"@ + tag + seq!['>'],
        None => " />"@,
    }
}

fn write_highlight_attr(s: &mut String, highlight: &Option<String>)
    ensures
        final(s)@ == old(s)@ + highlight_attr(*highlight),
{
    let ghost start = s@;
    if let Some(group) = highlight {
        s.append(" data-algraf-highlight=\"");
        push_escaped_attr(s, group.as_str());
        s.append("\"");
    }
    reveal(highlight_attr);
    assert(s@ =~= start + highlight_attr(*highlight));
}

fn write_event_attrs(s: &mut String, event: &Option<MarkEventInteraction>)
    ensures
        final(s)@ == old(s)@ + event_attrs(*event),
{
    let ghost start = s@;
    if let Some(event) = event {
        s.append(" data-algraf-event=\"");
        push_escaped_attr(s, event.event.as_str());
        s.append("\" data-algraf-emit-field=\"");
        push_escaped_attr(s, event.emit_field.as_str());
        s.append("\"");
        if let Some(value) = &event.value {
            s.append(" data-algraf-emit-value=\"");
            push_escaped_attr(s, value.as_str());
            s.append("\"");
        }
    }
    reveal(event_attrs);
    assert(s@ =~= start + event_attrs(*event));
}

fn write_title_close(s: &mut String, tooltip: &Option<String>, tag: &str)
    ensures
        final(s)@ == old(s)@ + title_close(*tooltip, tag@),
{
    let ghost start = s@;
    match tooltip {
        Some(tooltip) => {
            s.append("><title>");
            push_escaped_text(s, tooltip.as_str());
            s.append("</title></");
            s.append(tag);
            push_char(s, '>');
        },
        None => s.append(" />"),
    }
    reveal(title_close);
    assert(s@ =~= start + title_close(*tooltip, tag@));
}

/// How a shape element closes: self-closing without interaction; with it,
/// the highlight and event attributes, then an accessible `<title>` child
/// holding the tooltip (or a self-close when there is none).
#[verifier::opaque]
pub open spec fn shape_close(mark: Option<MarkInteraction>, tag: Seq<char>) -> Seq<char> {
    match recorded_mark(mark) {
        None => " />"@,
        Some(m) => highlight_attr(m.highlight) + event_attrs(m.event) + title_close(m.tooltip, tag),
    }
}

/// The opening of a `<rect>` element with its paint.
#[verifier::opaque]
pub open spec fn rect_open(x: i64, y: i64, width: i64, height: i64, paint: Paint) -> Seq<char> {
    "<rect x=\""@ + thousandths_text(x as int) + "\" y=\""@ + thousandths_text(y as int)
        + "\" width=\""@ + thousandths_text(width as int) + "\" height=\""@ + thousandths_text(
        height as int,
    ) + "\""@ + paint_svg(paint)
}

/// The opening of a `<circle>` element with its paint.
#[verifier::opaque]
pub open spec fn circle_open(cx: i64, cy: i64, r: i64, paint: Paint) -> Seq<char> {
    "<circle cx=\""@ + thousandths_text(cx as int) + "\" cy=\""@ + thousandths_text(cy as int)
        + "\" r=\""@ + thousandths_text(r as int) + "\""@ + paint_svg(paint)
}

/// The optional `stroke-dasharray` attribute.
pub open spec fn dash_attr(dash: Option<Dash>) -> Seq<char> {
    match dash {
        Some(d) => " stroke-dasharray=\""@ + dash_pattern(d) + "\""@,
        None => Seq::empty(),
    }
}

/// The opening of a `<path>` element with its paint and dash.
#[verifier::opaque]
pub open spec fn path_open(d: Seq<char>, paint: Paint, dash: Option<Dash>) -> Seq<char> {
    "<path d=\""@ + d + "\""@ + paint_svg(paint) + dash_attr(dash)
}

/// The opening of a `<polygon>` element with its paint.
#[verifier::opaque]
pub open spec fn polygon_open(points: Seq<char>, paint: Paint) -> Seq<char> {
    "<polygon points=\""@ + points + "\""@ + paint_svg(paint)
}

/// The coordinates and stroke attributes of a `<line>` element.
#[verifier::opaque]
pub open spec fn line_element_head(ends: (i64, i64, i64, i64), stroke: Seq<char>, width: i64) -> Seq<char> {
    "<line x1=\""@ + thousandths_text(ends.0 as int) + "\" y1=\""@ + thousandths_text(
        ends.1 as int,
    ) + "\" x2=\""@ + thousandths_text(ends.2 as int) + "\" y2=\""@ + thousandths_text(
        ends.3 as int,
    ) + "\" stroke=\""@ + escaped_attr(stroke) + "\" stroke-width=\""@ + thousandths_text(
        non_negative(width as int),
    ) + "\""@
}

/// The optional attributes of a `<line>` element and its self-close.
#[verifier::opaque]
pub open spec fn line_element_tail(linecap_round: bool, opacity: Option<i64>, dash: Option<Dash>) -> Seq<char> {
    (if linecap_round {
        " stroke-linecap=\"round\""@
    } else {
        Seq::<char>::empty()
    }) + opacity_svg(opacity) + dash_attr(dash) + " />"@
}

/// A complete `<line>` element.
pub open spec fn line_element(
    ends: (i64, i64, i64, i64),
    stroke: Seq<char>,
    width: i64,
    linecap_round: bool,
    opacity: Option<i64>,
    dash: Option<Dash>,
) -> Seq<char> {
    line_element_head(ends, stroke, width) + line_element_tail(linecap_round, opacity, dash)
}

fn write_line_element_head(s: &mut String, ends: (i64, i64, i64, i64), stroke: &str, width: i64)
    ensures
        final(s)@ == old(s)@ + line_element_head(ends, stroke@, width),
{
    let ghost start = s@;
    s.append("<line x1=\"");
    push_thousandths(s, ends.0);
    s.append("\" y1=\"");
    push_thousandths(s, ends.1);
    s.append("\" x2=\"");
    push_thousandths(s, ends.2);
    s.append("\" y2=\"");
    push_thousandths(s, ends.3);
    s.append("\" stroke=\"");
    push_escaped_attr(s, stroke);
    s.append("\" stroke-width=\"");
    push_thousandths(
        s,
        if width < 0 {
            0
        } else {
            width
        },
    );
    s.append("\"");
    reveal(line_element_head);
    assert(s@ =~= start + line_element_head(ends, stroke@, width));
}

fn write_line_element_tail(s: &mut String, linecap_round: bool, opacity: Option<i64>, dash: Option<Dash>)
    ensures
        final(s)@ == old(s)@ + line_element_tail(linecap_round, opacity, dash),
{
    let ghost start = s@;
    if linecap_round {
        s.append(" stroke-linecap=\"round\"");
    }
    write_opacity_svg(s, opacity);
    if let Some(dash) = dash {
        s.append(" stroke-dasharray=\"");
        s.append(dash.dasharray());
        s.append("\"");
    }
    s.append(" />");
    reveal(line_element_tail);
    assert(s@ =~= start + line_element_tail(linecap_round, opacity, dash));
}

/// A geographic point marker: a compact `<circle .../>`.
#[verifier::opaque]
pub open spec fn geo_point_element(cx: i64, cy: i64, r: i64, fill: Seq<char>, opacity: Option<i64>) -> Seq<char> {
    "<circle cx=\""@ + thousandths_text(cx as int) + "\" cy=\""@ + thousandths_text(cy as int)
        + "\" r=\""@ + thousandths_text(r as int) + "\" fill=\""@ + escaped_attr(fill) + "\""@
        + opacity_svg(opacity) + "/>"@
}

/// A graticule line: a compact unfilled `<path .../>`.
#[verifier::opaque]
pub open spec fn graticule_element(d: Seq<char>, stroke: Seq<char>, width: i64, opacity: Option<i64>) -> Seq<char> {
    "<path d=\""@ + d + "\" fill=\"none\" stroke=\""@ + escaped_attr(stroke)
        + "\" stroke-width=\""@ + thousandths_text(non_negative(width as int)) + "\""@
        + opacity_svg(opacity) + "/>"@
}

/// The fill of an areal geographic path: the given colour or the default
/// blue.
pub open spec fn area_fill(fill: Option<Seq<char>>) -> Seq<char> {
    match fill {
        Some(f) => f,
        None => "#4E79A7"@,
    }
}

/// The fill attributes of a geographic path: the fill colour and even-odd
/// rule when areal, no fill otherwise.
#[verifier::opaque]
pub open spec fn geo_fill_attrs(fill: Option<Seq<char>>, areal: bool) -> Seq<char> {
    if areal {
        " fill=\""@ + escaped_attr(area_fill(fill)) + "\" fill-rule=\"evenodd\""@
    } else {
        " fill=\"none\""@
    }
}

/// The stroke attributes of a geographic path, when it has a stroke colour.
#[verifier::opaque]
pub open spec fn geo_stroke_attrs(stroke: Option<Seq<char>>, width: i64) -> Seq<char> {
    match stroke {
        Some(c) => " stroke=\""@ + escaped_attr(c) + "\" stroke-width=\""@ + thousandths_text(
            non_negative(width as int),
        ) + "\""@,
        None => Seq::<char>::empty(),
    }
}

/// A geographic path: `d` as given, filled (even-odd) when areal and
/// unfilled otherwise, with an optional stroke.
pub open spec fn geo_path_element(
    d: Seq<char>,
    fill: Option<Seq<char>>,
    stroke: Option<Seq<char>>,
    width: i64,
    opacity: Option<i64>,
    areal: bool,
) -> Seq<char> {
    "<path d=\""@ + d + "\""@ + geo_fill_attrs(fill, areal) + geo_stroke_attrs(stroke, width)
        + opacity_svg(opacity) + "/>"@
}

fn write_geo_fill_attrs(out: &mut String, fill: Option<&str>, areal: bool)
    ensures
        final(out)@ == old(out)@ + geo_fill_attrs(opt_view(fill), areal),
{
    let ghost start = out@;
    if areal {
        out.append(" fill=\"");
        match fill {
            Some(f) => push_escaped_attr(out, f),
            None => push_escaped_attr(out, "#4E79A7"),
        }
        out.append("\" fill-rule=\"evenodd\"");
    } else {
        out.append(" fill=\"none\"");
    }
    reveal(geo_fill_attrs);
    assert(out@ =~= start + geo_fill_attrs(opt_view(fill), areal));
}

fn write_geo_stroke_attrs(out: &mut String, stroke: Option<&str>, width: i64)
    ensures
        final(out)@ == old(out)@ + geo_stroke_attrs(opt_view(stroke), width),
{
    let ghost start = out@;
    if let Some(color) = stroke {
        out.append(" stroke=\"");
        push_escaped_attr(out, color);
        out.append("\" stroke-width=\"");
        push_thousandths(
            out,
            if width < 0 {
                0
            } else {
                width
            },
        );
        out.append("\"");
    }
    reveal(geo_stroke_attrs);
    assert(out@ =~= start + geo_stroke_attrs(opt_view(stroke), width));
}

/// The open tag and attributes of an `<image>` element.
#[verifier::opaque]
pub open spec fn image_open(
    href: Seq<char>,
    x: i64,
    y: i64,
    width: i64,
    height: i64,
    opacity: Option<i64>,
) -> Seq<char> {
    "<image href=\""@ + escaped_attr(href) + "\" x=\""@ + thousandths_text(x as int) + "\" y=\""@
        + thousandths_text(y as int) + "\" width=\""@ + thousandths_text(
        non_negative(width as int),
    ) + "\" height=\""@ + thousandths_text(non_negative(height as int)) + "\""@ + opacity_svg(
        opacity,
    )
}

/// The clip-path definition line of clip `id` for a circle.
#[verifier::opaque]
pub open spec fn circle_clip_def_line(id: nat, cx: i64, cy: i64, r: i64) -> Seq<char> {
    "<clipPath id=\"algraf-clip-"@ + decimal_digits(id) + "\"><circle cx=\""@ + thousandths_text(
        cx as int,
    ) + "\" cy=\""@ + thousandths_text(cy as int) + "\" r=\""@ + thousandths_text(
        non_negative(r as int),
    ) + "\" /></clipPath>"@
}

/// One run of text to write: position, anchor and optional rotation
/// (angle and centre), typography, fill, opacity and content (`\n` stacks
/// lines). The weight is the `font-weight` value to write, if any.
pub struct TextRun<'a> {
    pub x: i64,
    pub y: i64,
    pub anchor: TextAnchor,
    pub rotate: Option<(i64, i64, i64)>,
    pub font_family: &'a str,
    pub font_size: i64,
    pub font_weight: Option<&'a str>,
    pub italic: bool,
    pub fill: &'a str,
    pub opacity: Option<i64>,
    pub content: &'a str,
}

/// The position, anchor and rotation attributes of a `<text>` element.
#[verifier::opaque]
pub open spec fn text_position_attrs(
    x: i64,
    y: i64,
    anchor: TextAnchor,
    rotate: Option<(i64, i64, i64)>,
) -> Seq<char> {
    " x=\""@ + thousandths_text(x as int) + "\" y=\""@ + thousandths_text(y as int)
        + "\" text-anchor=\""@ + anchor_name(anchor) + "\""@ + match rotate {
        Some((a, cx, cy)) => " transform=\"rotate("@ + thousandths_text(a as int) + " "@
            + thousandths_text(cx as int) + " "@ + thousandths_text(cy as int) + ")\""@,
        None => Seq::<char>::empty(),
    }
}

/// The typography attributes of a `<text>` element.
#[verifier::opaque]
pub open spec fn text_font_attrs(
    family: Seq<char>,
    size: i64,
    weight: Option<Seq<char>>,
    italic: bool,
) -> Seq<char> {
    " font-family=\""@ + escaped_attr(family) + "\" font-size=\""@ + thousandths_text(size as int)
        + "\""@ + match weight {
        Some(w) => " font-weight=\""@ + escaped_attr(w) + "\""@,
        None => Seq::<char>::empty(),
    } + if italic {
        " font-style=\"italic\""@
    } else {
        Seq::<char>::empty()
    }
}

/// The lines of a text: the pieces between `\n` characters (an empty text
/// is one empty line).
pub open spec fn text_lines(s: Seq<char>) -> Seq<Seq<char>>
    decreases s.len(),
{
    if s.len() == 0 {
        seq![Seq::<char>::empty()]
    } else {
        let ls = text_lines(s.drop_last());
        if s.last() == '\n' {
            ls.push(Seq::<char>::empty())
        } else {
            ls.update(ls.len() - 1, ls.last().push(s.last()))
        }
    }
}

/// A line without one trailing carriage return.
pub open spec fn strip_cr(line: Seq<char>) -> Seq<char> {
    if line.len() > 0 && line.last() == '\r' {
        line.drop_last()
    } else {
        line
    }
}

/// The `<tspan>` of line `i` of a stacked text at `x`.
pub open spec fn tspan(i: nat, x: i64, line: Seq<char>) -> Seq<char> {
    "<tspan x=\""@ + thousandths_text(x as int) + "\" dy=\""@ + (if i == 0 {
        "0"@
    } else {
        "1.2em"@
    }) + "\">"@ + escaped_text(strip_cr(line)) + "</tspan>"@
}

/// The `<tspan>`s of stacked lines.
pub open spec fn tspans(lines: Seq<Seq<char>>, x: i64) -> Seq<char>
    decreases lines.len(),
{
    if lines.len() == 0 {
        Seq::empty()
    } else {
        tspans(lines.drop_last(), x) + tspan((lines.len() - 1) as nat, x, lines.last())
    }
}

/// The content of a `<text>` element: stacked `<tspan>`s when the text has
/// a line break, the escaped text otherwise.
pub open spec fn text_body(x: i64, content: Seq<char>) -> Seq<char> {
    if content.contains('\n') {
        tspans(text_lines(content), x)
    } else {
        escaped_text(content)
    }
}

/// A complete `<text>` element.
pub open spec fn text_run_element(run: TextRun) -> Seq<char> {
    "<text"@ + text_position_attrs(run.x, run.y, run.anchor, run.rotate) + text_font_attrs(
        run.font_family@,
        run.font_size,
        opt_view(run.font_weight),
        run.italic,
    ) + " fill=\""@ + escaped_attr(run.fill@) + "\""@ + opacity_svg(run.opacity) + ">"@
        + text_body(run.x, run.content@) + "</text>"@
}

proof fn lemma_text_lines_nonempty(s: Seq<char>)
    ensures
        text_lines(s).len() >= 1,
    decreases s.len(),
{
    if s.len() > 0 {
        lemma_text_lines_nonempty(s.drop_last());
    }
}

fn write_text_position_attrs(
    out: &mut String,
    x: i64,
    y: i64,
    anchor: TextAnchor,
    rotate: Option<(i64, i64, i64)>,
)
    ensures
        final(out)@ == old(out)@ + text_position_attrs(x, y, anchor, rotate),
{
    let ghost start = out@;
    out.append(" x=\"");
    push_thousandths(out, x);
    out.append("\" y=\"");
    push_thousandths(out, y);
    out.append("\" text-anchor=\"");
    out.append(anchor.as_str());
    out.append("\"");
    if let Some((a, cx, cy)) = rotate {
        out.append(" transform=\"rotate(");
        push_thousandths(out, a);
        out.append(" ");
        push_thousandths(out, cx);
        out.append(" ");
        push_thousandths(out, cy);
        out.append(")\"");
    }
    reveal(text_position_attrs);
    assert(out@ =~= start + text_position_attrs(x, y, anchor, rotate));
}

fn write_text_font_attrs(
    out: &mut String,
    family: &str,
    size: i64,
    weight: Option<&str>,
    italic: bool,
)
    ensures
        final(out)@ == old(out)@ + text_font_attrs(family@, size, opt_view(weight), italic),
{
    let ghost start = out@;
    out.append(" font-family=\"");
    push_escaped_attr(out, family);
    out.append("\" font-size=\"");
    push_thousandths(out, size);
    out.append("\"");
    if let Some(w) = weight {
        out.append(" font-weight=\"");
        push_escaped_attr(out, w);
        out.append("\"");
    }
    if italic {
        out.append(" font-style=\"italic\"");
    }
    reveal(text_font_attrs);
    assert(out@ =~= start + text_font_attrs(family@, size, opt_view(weight), italic));
}

fn write_tspan(out: &mut String, i: usize, x: i64, line: &String)
    ensures
        final(out)@ == old(out)@ + tspan(i as nat, x, line@),
{
    let ghost start = out@;
    out.append("<tspan x=\"");
    push_thousandths(out, x);
    out.append("\" dy=\"");
    if i == 0 {
        out.append("0");
    } else {
        out.append("1.2em");
    }
    out.append("\">");
    let chars = chars_of(line.as_str());
    let n = chars.len();
    if n > 0 && chars[n - 1] == '\r' {
        let body = line.as_str().substring_char(0, n - 1);
        assert(body@ =~= line@.drop_last());
        push_escaped_text(out, body);
    } else {
        push_escaped_text(out, line.as_str());
    }
    out.append("</tspan>");
    assert(out@ =~= start + tspan(i as nat, x, line@));
}

fn has_line_break(chars: &Vec<char>) -> (b: bool)
    ensures
        b == chars@.contains('\n'),
{
    let mut i: usize = 0;
    while i < chars.len()
        invariant
            i <= chars@.len(),
            forall|k: int| 0 <= k < i ==> chars@[k] != '\n',
        decreases chars@.len() - i,
    {
        if chars[i] == '\n' {
            assert(chars@[i as int] == '\n');
            return true;
        }
        i = i + 1;
    }
    false
}

fn write_text_body(out: &mut String, x: i64, content: &str)
    ensures
        final(out)@ == old(out)@ + text_body(x, content@),
{
    let chars = chars_of(content);
    if !has_line_break(&chars) {
        push_escaped_text(out, content);
        return;
    }
    let ghost start = out@;
    let mut cur = String::new();
    let mut index: usize = 0;
    let mut i: usize = 0;
    assert(content@.take(0) =~= Seq::<char>::empty());
    assert(text_lines(content@.take(0)).drop_last() =~= Seq::<Seq<char>>::empty());
    while i < chars.len()
        invariant
            chars@ == content@,
            i <= chars@.len(),
            index < i + 1,
            text_lines(content@.take(i as int)).len() == index + 1,
            cur@ == text_lines(content@.take(i as int)).last(),
            out@ == start + tspans(text_lines(content@.take(i as int)).drop_last(), x),
        decreases chars@.len() - i,
    {
        let ghost ls = text_lines(content@.take(i as int));
        assert(content@.take(i + 1).drop_last() =~= content@.take(i as int));
        let c = chars[i];
        if c == '\n' {
            write_tspan(out, index, x, &cur);
            let ghost next = text_lines(content@.take(i + 1));
            assert(next == ls.push(Seq::<char>::empty()));
            assert(next.drop_last() =~= ls);
            assert(ls.drop_last() =~= ls.take(ls.len() - 1));
            assert(tspans(ls, x) == tspans(ls.drop_last(), x) + tspan(index as nat, x, ls.last()));
            cur = String::new();
            index = index + 1;
        } else {
            push_char(&mut cur, c);
            let ghost next = text_lines(content@.take(i + 1));
            assert(next == ls.update(ls.len() - 1, ls.last().push(c)));
            assert(next.drop_last() =~= ls.drop_last());
        }
        i = i + 1;
    }
    assert(content@.take(chars@.len() as int) =~= content@);
    write_tspan(out, index, x, &cur);
    proof {
        lemma_text_lines_nonempty(content@);
    }
}

/// The group attribute text of a layer.
pub open spec fn layer_attrs(class: Seq<char>) -> Seq<char> {
    "class=\""@ + escaped_attr(class) + "\""@
}

/// The clip-path definition line of clip `id` for a rectangle.
#[verifier::opaque]
pub open spec fn clip_def_line(id: nat, rect: Rect) -> Seq<char> {
    "<clipPath id=\"algraf-clip-"@ + decimal_digits(id) + "\"><rect x=\""@ + thousandths_text(
        rect.x as int,
    ) + "\" y=\""@ + thousandths_text(rect.y as int) + "\" width=\""@ + thousandths_text(
        rect.width as int,
    ) + "\" height=\""@ + thousandths_text(rect.height as int) + "\" /></clipPath>"@
}

/// The group attribute text that applies clip `id`.
pub open spec fn clip_attrs(id: nat) -> Seq<char> {
    "clip-path=\"url(#algraf-clip-"@ + decimal_digits(id) + ")\""@
}

/// One indented output line.
pub open spec fn svg_line(level: nat, text: Seq<char>) -> Seq<char> {
    indentation(level) + text + seq!['\n']
}

/// A primitive sink that writes canonical SVG into an indenting writer.
pub struct SvgSink {
    w: SvgWriter,
    count: usize,
    clip_id: usize,
    mark: Option<MarkInteraction>,
}

impl SvgSink {
    /// Everything written so far.
    pub closed spec fn output(&self) -> Seq<char> {
        self.w.output()
    }

    /// The current nesting depth.
    pub closed spec fn level(&self) -> nat {
        self.w.level()
    }

    /// The number of primitives written so far.
    pub closed spec fn count(&self) -> nat {
        self.count as nat
    }

    /// The number of clip paths defined so far.
    pub closed spec fn clips(&self) -> nat {
        self.clip_id as nat
    }

    /// The interaction metadata of the mark being written.
    pub closed spec fn active_mark(&self) -> Option<MarkInteraction> {
        self.mark
    }

    /// A sink over a writer, with no primitives, clips or mark yet.
    pub fn new(w: SvgWriter) -> (sink: Self)
        ensures
            sink.output() == w.output(),
            sink.level() == w.level(),
            sink.count() == 0,
            sink.clips() == 0,
            sink.active_mark() is None,
    {
        SvgSink { w, count: 0, clip_id: 0, mark: None }
    }

    /// The writer, with everything written through the sink.
    pub fn into_writer(self) -> (w: SvgWriter)
        ensures
            w.output() == self.output(),
            w.level() == self.level(),
    {
        self.w
    }

    /// The number of primitives written so far.
    pub fn primitive_count(&self) -> (count: usize)
        ensures
            count == self.count(),
    {
        self.count
    }

    /// Close a shape element `s` (open tag and attributes) as
    /// `shape_close` describes, and write it as one line.
    fn finish_shape(&mut self, s: String, tag: &str)
        ensures
            final(self).output() == old(self).output() + svg_line(
                old(self).level(),
                s@ + shape_close(old(self).active_mark(), tag@),
            ),
            final(self).level() == old(self).level(),
            final(self).count() == old(self).count(),
            final(self).clips() == old(self).clips(),
            final(self).active_mark() == old(self).active_mark(),
    {
        let mut s = s;
        let ghost start = s@;
        reveal(shape_close);
        let mark = match &self.mark {
            Some(mark) => if mark.is_empty() {
                s.append(" />");
                self.w.line(s.as_str());
                return;
            } else {
                mark
            },
            None => {
                s.append(" />");
                self.w.line(s.as_str());
                return;
            },
        };
        write_highlight_attr(&mut s, &mark.highlight);
        write_event_attrs(&mut s, &mark.event);
        write_title_close(&mut s, &mark.tooltip, tag);
        assert(s@ =~= start + shape_close(self.mark, tag@));
        self.w.line(s.as_str());
    }

    /// Start a mark: later shapes carry its interaction, unless it has none.
    pub fn begin_mark(&mut self, mark: MarkInteraction)
        ensures
            final(self).output() == old(self).output(),
            final(self).level() == old(self).level(),
            final(self).count() == old(self).count(),
            final(self).clips() == old(self).clips(),
            final(self).active_mark() == recorded_mark(Some(mark)),
    {
        self.mark = if mark.is_empty() {
            None
        } else {
            Some(mark)
        };
    }

    /// End the current mark.
    pub fn end_mark(&mut self)
        ensures
            final(self).output() == old(self).output(),
            final(self).level() == old(self).level(),
            final(self).count() == old(self).count(),
            final(self).clips() == old(self).clips(),
            final(self).active_mark() is None,
    {
        self.mark = None;
    }

    /// Open a layer group `<g class="...">`.
    pub fn open_layer(&mut self, class: &str)
        requires
            old(self).level() < usize::MAX,
        ensures
            final(self).output() == old(self).output() + indentation(old(self).level())
                + group_open_text(layer_attrs(class@)),
            final(self).level() == old(self).level() + 1,
            final(self).count() == old(self).count(),
            final(self).clips() == old(self).clips(),
            final(self).active_mark() == old(self).active_mark(),
    {
        let mut attrs = String::new();
        attrs.append("class=\"");
        push_escaped_attr(&mut attrs, class);
        attrs.append("\"");
        assert(attrs@ =~= layer_attrs(class@));
        self.w.open_group(attrs.as_str());
    }

    /// Close the most recent layer (or clip) group.
    pub fn close_layer(&mut self)
        ensures
            final(self).level() == if old(self).level() == 0 {
                0
            } else {
                (old(self).level() - 1) as nat
            },
            final(self).output() == old(self).output() + indentation(final(self).level())
                + seq!['<', '/', 'g', '>', '\n'],
            final(self).count() == old(self).count(),
            final(self).clips() == old(self).clips(),
            final(self).active_mark() == old(self).active_mark(),
    {
        self.w.close_group();
    }

    /// Open a rectangular clip scope: define clip path `algraf-clip-N` and
    /// open a group that applies it.
    pub fn open_clip(&mut self, rect: Rect)
        requires
            old(self).clips() < usize::MAX,
            old(self).level() < usize::MAX,
        ensures
            final(self).output() == old(self).output() + svg_line(old(self).level(), "<defs>"@)
                + svg_line(old(self).level(), clip_def_line(old(self).clips(), rect)) + svg_line(
                old(self).level(),
                "</defs>"@,
            ) + indentation(old(self).level()) + group_open_text(clip_attrs(old(self).clips())),
            final(self).level() == old(self).level() + 1,
            final(self).count() == old(self).count(),
            final(self).clips() == old(self).clips() + 1,
            final(self).active_mark() == old(self).active_mark(),
    {
        let ghost start = self.w.output();
        let id = self.clip_id;
        self.clip_id = self.clip_id + 1;
        self.w.line("<defs>");
        let mut def = String::new();
        def.append("<clipPath id=\"algraf-clip-");
        push_decimal(&mut def, id as u64);
        def.append("\"><rect x=\"");
        push_thousandths(&mut def, rect.x);
        def.append("\" y=\"");
        push_thousandths(&mut def, rect.y);
        def.append("\" width=\"");
        push_thousandths(&mut def, rect.width);
        def.append("\" height=\"");
        push_thousandths(&mut def, rect.height);
        def.append("\" /></clipPath>");
        proof {
            reveal(clip_def_line);
            assert(def@ =~= clip_def_line(id as nat, rect));
        }
        self.w.line(def.as_str());
        self.w.line("</defs>");
        let mut attrs = String::new();
        attrs.append("clip-path=\"url(#algraf-clip-");
        push_decimal(&mut attrs, id as u64);
        attrs.append(")\"");
        assert(attrs@ =~= clip_attrs(id as nat));
        self.w.open_group(attrs.as_str());
        assert(self.w.output() =~= start + svg_line(old(self).level(), "<defs>"@) + svg_line(
            old(self).level(),
            clip_def_line(id as nat, rect),
        ) + svg_line(old(self).level(), "</defs>"@) + indentation(old(self).level())
            + group_open_text(clip_attrs(id as nat)));
    }

    /// Open a circular clip scope: define clip path `algraf-clip-N` and open
    /// a group that applies it.
    pub fn open_circle_clip(&mut self, cx: i64, cy: i64, r: i64)
        requires
            old(self).clips() < usize::MAX,
            old(self).level() < usize::MAX,
        ensures
            final(self).output() == old(self).output() + svg_line(old(self).level(), "<defs>"@)
                + svg_line(old(self).level(), circle_clip_def_line(old(self).clips(), cx, cy, r))
                + svg_line(old(self).level(), "</defs>"@) + indentation(old(self).level())
                + group_open_text(clip_attrs(old(self).clips())),
            final(self).level() == old(self).level() + 1,
            final(self).count() == old(self).count(),
            final(self).clips() == old(self).clips() + 1,
            final(self).active_mark() == old(self).active_mark(),
    {
        let ghost start = self.w.output();
        let id = self.clip_id;
        self.clip_id = self.clip_id + 1;
        self.w.line("<defs>");
        let mut def = String::new();
        def.append("<clipPath id=\"algraf-clip-");
        push_decimal(&mut def, id as u64);
        def.append("\"><circle cx=\"");
        push_thousandths(&mut def, cx);
        def.append("\" cy=\"");
        push_thousandths(&mut def, cy);
        def.append("\" r=\"");
        push_thousandths(
            &mut def,
            if r < 0 {
                0
            } else {
                r
            },
        );
        def.append("\" /></clipPath>");
        proof {
            reveal(circle_clip_def_line);
            assert(def@ =~= circle_clip_def_line(id as nat, cx, cy, r));
        }
        self.w.line(def.as_str());
        self.w.line("</defs>");
        let mut attrs = String::new();
        attrs.append("clip-path=\"url(#algraf-clip-");
        push_decimal(&mut attrs, id as u64);
        attrs.append(")\"");
        assert(attrs@ =~= clip_attrs(id as nat));
        self.w.open_group(attrs.as_str());
        assert(self.w.output() =~= start + svg_line(old(self).level(), "<defs>"@) + svg_line(
            old(self).level(),
            circle_clip_def_line(id as nat, cx, cy, r),
        ) + svg_line(old(self).level(), "</defs>"@) + indentation(old(self).level())
            + group_open_text(clip_attrs(id as nat)));
    }

    /// Close the most recent clip scope.
    pub fn close_clip(&mut self)
        ensures
            final(self).level() == if old(self).level() == 0 {
                0
            } else {
                (old(self).level() - 1) as nat
            },
            final(self).output() == old(self).output() + indentation(final(self).level())
                + seq!['<', '/', 'g', '>', '\n'],
            final(self).count() == old(self).count(),
            final(self).clips() == old(self).clips(),
            final(self).active_mark() == old(self).active_mark(),
    {
        self.w.close_group();
    }

    /// Write a rectangle.
    pub fn rect(&mut self, x: i64, y: i64, width: i64, height: i64, paint: &Paint)
        requires
            old(self).count() < usize::MAX,
        ensures
            final(self).output() == old(self).output() + svg_line(
                old(self).level(),
                rect_open(x, y, width, height, *paint) + shape_close(old(self).active_mark(), "rect"@),
            ),
            final(self).level() == old(self).level(),
            final(self).count() == old(self).count() + 1,
            final(self).clips() == old(self).clips(),
            final(self).active_mark() == old(self).active_mark(),
    {
        self.count = self.count + 1;
        let mut s = String::new();
        s.append("<rect x=\"");
        push_thousandths(&mut s, x);
        s.append("\" y=\"");
        push_thousandths(&mut s, y);
        s.append("\" width=\"");
        push_thousandths(&mut s, width);
        s.append("\" height=\"");
        push_thousandths(&mut s, height);
        s.append("\"");
        paint.write_svg(&mut s);
        proof {
            reveal(rect_open);
            assert(s@ =~= rect_open(x, y, width, height, *paint));
        }
        self.finish_shape(s, "rect");
    }

    /// Write a circle.
    pub fn circle(&mut self, cx: i64, cy: i64, r: i64, paint: &Paint)
        requires
            old(self).count() < usize::MAX,
        ensures
            final(self).output() == old(self).output() + svg_line(
                old(self).level(),
                circle_open(cx, cy, r, *paint) + shape_close(old(self).active_mark(), "circle"@),
            ),
            final(self).level() == old(self).level(),
            final(self).count() == old(self).count() + 1,
            final(self).clips() == old(self).clips(),
            final(self).active_mark() == old(self).active_mark(),
    {
        self.count = self.count + 1;
        let mut s = String::new();
        s.append("<circle cx=\"");
        push_thousandths(&mut s, cx);
        s.append("\" cy=\"");
        push_thousandths(&mut s, cy);
        s.append("\" r=\"");
        push_thousandths(&mut s, r);
        s.append("\"");
        paint.write_svg(&mut s);
        proof {
            reveal(circle_open);
            assert(s@ =~= circle_open(cx, cy, r, *paint));
        }
        self.finish_shape(s, "circle");
    }

    /// Write a path with an optional dash pattern.
    pub fn path_with_dash(&mut self, d: &str, paint: &Paint, dash: Option<Dash>)
        requires
            old(self).count() < usize::MAX,
        ensures
            final(self).output() == old(self).output() + svg_line(
                old(self).level(),
                path_open(d@, *paint, dash) + shape_close(old(self).active_mark(), "path"@),
            ),
            final(self).level() == old(self).level(),
            final(self).count() == old(self).count() + 1,
            final(self).clips() == old(self).clips(),
            final(self).active_mark() == old(self).active_mark(),
    {
        self.count = self.count + 1;
        let mut s = String::new();
        s.append("<path d=\"");
        s.append(d);
        s.append("\"");
        paint.write_svg(&mut s);
        if let Some(dash) = dash {
            s.append(" stroke-dasharray=\"");
            s.append(dash.dasharray());
            s.append("\"");
        }
        proof {
            reveal(path_open);
            assert(s@ =~= path_open(d@, *paint, dash));
        }
        self.finish_shape(s, "path");
    }

    /// Write a path.
    pub fn path(&mut self, d: &str, paint: &Paint)
        requires
            old(self).count() < usize::MAX,
        ensures
            final(self).output() == old(self).output() + svg_line(
                old(self).level(),
                path_open(d@, *paint, None) + shape_close(old(self).active_mark(), "path"@),
            ),
            final(self).level() == old(self).level(),
            final(self).count() == old(self).count() + 1,
            final(self).clips() == old(self).clips(),
            final(self).active_mark() == old(self).active_mark(),
    {
        self.path_with_dash(d, paint, None);
    }

    /// Write a polygon.
    pub fn polygon(&mut self, points: &str, paint: &Paint)
        requires
            old(self).count() < usize::MAX,
        ensures
            final(self).output() == old(self).output() + svg_line(
                old(self).level(),
                polygon_open(points@, *paint) + shape_close(old(self).active_mark(), "polygon"@),
            ),
            final(self).level() == old(self).level(),
            final(self).count() == old(self).count() + 1,
            final(self).clips() == old(self).clips(),
            final(self).active_mark() == old(self).active_mark(),
    {
        self.count = self.count + 1;
        let mut s = String::new();
        s.append("<polygon points=\"");
        s.append(points);
        s.append("\"");
        paint.write_svg(&mut s);
        proof {
            reveal(polygon_open);
            assert(s@ =~= polygon_open(points@, *paint));
        }
        self.finish_shape(s, "polygon");
    }

    /// Write a line segment; a negative width writes as zero.
    pub fn line(
        &mut self,
        ends: (i64, i64, i64, i64),
        stroke: &str,
        width: i64,
        linecap_round: bool,
        opacity: Option<i64>,
        dash: Option<Dash>,
    )
        requires
            old(self).count() < usize::MAX,
        ensures
            final(self).output() == old(self).output() + svg_line(
                old(self).level(),
                line_element(ends, stroke@, width, linecap_round, opacity, dash),
            ),
            final(self).level() == old(self).level(),
            final(self).count() == old(self).count() + 1,
            final(self).clips() == old(self).clips(),
            final(self).active_mark() == old(self).active_mark(),
    {
        self.count = self.count + 1;
        let mut s = String::new();
        write_line_element_head(&mut s, ends, stroke, width);
        write_line_element_tail(&mut s, linecap_round, opacity, dash);
        assert(s@ =~= line_element(ends, stroke@, width, linecap_round, opacity, dash));
        self.w.line(s.as_str());
    }

    /// Write a run of text; a text with line breaks is written as stacked
    /// `<tspan>` lines, each without a trailing carriage return.
    pub fn text(&mut self, run: &TextRun)
        requires
            old(self).count() < usize::MAX,
        ensures
            final(self).output() == old(self).output() + svg_line(
                old(self).level(),
                text_run_element(*run),
            ),
            final(self).level() == old(self).level(),
            final(self).count() == old(self).count() + 1,
            final(self).clips() == old(self).clips(),
            final(self).active_mark() == old(self).active_mark(),
    {
        self.count = self.count + 1;
        let mut s = String::new();
        s.append("<text");
        write_text_position_attrs(&mut s, run.x, run.y, run.anchor, run.rotate);
        write_text_font_attrs(&mut s, run.font_family, run.font_size, run.font_weight, run.italic);
        s.append(" fill=\"");
        push_escaped_attr(&mut s, run.fill);
        s.append("\"");
        write_opacity_svg(&mut s, run.opacity);
        s.append(">");
        write_text_body(&mut s, run.x, run.content);
        s.append("</text>");
        assert(s@ =~= text_run_element(*run));
        self.w.line(s.as_str());
    }

    /// Write an image; negative sizes are written as zero.
    pub fn image(
        &mut self,
        href: &str,
        x: i64,
        y: i64,
        width: i64,
        height: i64,
        opacity: Option<i64>,
    )
        requires
            old(self).count() < usize::MAX,
        ensures
            final(self).output() == old(self).output() + svg_line(
                old(self).level(),
                image_open(href@, x, y, width, height, opacity) + shape_close(
                    old(self).active_mark(),
                    "image"@,
                ),
            ),
            final(self).level() == old(self).level(),
            final(self).count() == old(self).count() + 1,
            final(self).clips() == old(self).clips(),
            final(self).active_mark() == old(self).active_mark(),
    {
        self.count = self.count + 1;
        let mut s = String::new();
        s.append("<image href=\"");
        push_escaped_attr(&mut s, href);
        s.append("\" x=\"");
        push_thousandths(&mut s, x);
        s.append("\" y=\"");
        push_thousandths(&mut s, y);
        s.append("\" width=\"");
        push_thousandths(
            &mut s,
            if width < 0 {
                0
            } else {
                width
            },
        );
        s.append("\" height=\"");
        push_thousandths(
            &mut s,
            if height < 0 {
                0
            } else {
                height
            },
        );
        s.append("\"");
        write_opacity_svg(&mut s, opacity);
        proof {
            reveal(image_open);
            assert(s@ =~= image_open(href@, x, y, width, height, opacity));
        }
        self.finish_shape(s, "image");
    }

    /// Write a geographic path: `d` as given (already valid path data),
    /// filled even-odd with `fill` (or the default blue) when areal.
    pub fn geo_path(
        &mut self,
        d: &str,
        fill: Option<&str>,
        stroke: Option<&str>,
        stroke_width: i64,
        opacity: Option<i64>,
        areal: bool,
    )
        requires
            old(self).count() < usize::MAX,
        ensures
            final(self).output() == old(self).output() + svg_line(
                old(self).level(),
                geo_path_element(d@, opt_view(fill), opt_view(stroke), stroke_width, opacity, areal),
            ),
            final(self).level() == old(self).level(),
            final(self).count() == old(self).count() + 1,
            final(self).clips() == old(self).clips(),
            final(self).active_mark() == old(self).active_mark(),
    {
        self.count = self.count + 1;
        let mut s = String::new();
        s.append("<path d=\"");
        s.append(d);
        s.append("\"");
        write_geo_fill_attrs(&mut s, fill, areal);
        write_geo_stroke_attrs(&mut s, stroke, stroke_width);
        write_opacity_svg(&mut s, opacity);
        s.append("/>");
        proof {
            assert(s@ =~= geo_path_element(
                d@,
                opt_view(fill),
                opt_view(stroke),
                stroke_width,
                opacity,
                areal,
            ));
        }
        self.w.line(s.as_str());
    }

    /// Write a geographic point marker.
    pub fn geo_point(&mut self, cx: i64, cy: i64, r: i64, fill: &str, opacity: Option<i64>)
        requires
            old(self).count() < usize::MAX,
        ensures
            final(self).output() == old(self).output() + svg_line(
                old(self).level(),
                geo_point_element(cx, cy, r, fill@, opacity),
            ),
            final(self).level() == old(self).level(),
            final(self).count() == old(self).count() + 1,
            final(self).clips() == old(self).clips(),
            final(self).active_mark() == old(self).active_mark(),
    {
        self.count = self.count + 1;
        let mut s = String::new();
        s.append("<circle cx=\"");
        push_thousandths(&mut s, cx);
        s.append("\" cy=\"");
        push_thousandths(&mut s, cy);
        s.append("\" r=\"");
        push_thousandths(&mut s, r);
        s.append("\" fill=\"");
        push_escaped_attr(&mut s, fill);
        s.append("\"");
        write_opacity_svg(&mut s, opacity);
        s.append("/>");
        proof {
            reveal(geo_point_element);
            assert(s@ =~= geo_point_element(cx, cy, r, fill@, opacity));
        }
        self.w.line(s.as_str());
    }

    /// Write a graticule line.
    pub fn graticule_path(&mut self, d: &str, stroke: &str, width: i64, opacity: Option<i64>)
        requires
            old(self).count() < usize::MAX,
        ensures
            final(self).output() == old(self).output() + svg_line(
                old(self).level(),
                graticule_element(d@, stroke@, width, opacity),
            ),
            final(self).level() == old(self).level(),
            final(self).count() == old(self).count() + 1,
            final(self).clips() == old(self).clips(),
            final(self).active_mark() == old(self).active_mark(),
    {
        self.count = self.count + 1;
        let mut s = String::new();
        s.append("<path d=\"");
        s.append(d);
        s.append("\" fill=\"none\" stroke=\"");
        push_escaped_attr(&mut s, stroke);
        s.append("\" stroke-width=\"");
        push_thousandths(
            &mut s,
            if width < 0 {
                0
            } else {
                width
            },
        );
        s.append("\"");
        write_opacity_svg(&mut s, opacity);
        s.append("/>");
        proof {
            reveal(graticule_element);
            assert(s@ =~= graticule_element(d@, stroke@, width, opacity));
        }
        self.w.line(s.as_str());
    }
}

} // verus!
