//! Host-runtime interaction metadata: the plot rectangles, axes, chart text,
//! legend placement, per-mark positions, tooltips and highlight groups that
//! SVG, draw-list JSON and host runtimes share, and its deterministic JSON
//! form. Pixel values are fixed-point, in thousandths of a pixel.

use vstd::prelude::*;

use crate::number::{
    decimal_digits, integer_text, push_decimal, push_integer, push_thousandths, thousandths_text,
};
use crate::sink::{json_literal, push_json_string};
use crate::text::{push_char, str_equal};

verus! {

// ---------------------------------------------------------------------------
// Data
// ---------------------------------------------------------------------------

/// A rectangle in thousandths of a pixel.
#[derive(Debug, Clone, Copy, PartialEq, Eq, Structural)]
pub struct Rect {
    pub x: i64,
    pub y: i64,
    pub width: i64,
    pub height: i64,
}

/// The transform of a continuous position scale.
#[derive(Debug, Clone, Copy, PartialEq, Eq, Structural)]
pub enum ContinuousTransform {
    Linear,
    Log10,
    /// Square-root transform for non-negative continuous position axes.
    Sqrt,
}

/// The scale name of a continuous transform in axis metadata.
pub open spec fn transform_name(transform: ContinuousTransform) -> Seq<char> {
    match transform {
        ContinuousTransform::Linear => "linear"@,
        ContinuousTransform::Log10 => "log10"@,
        ContinuousTransform::Sqrt => "sqrt"@,
    }
}

impl ContinuousTransform {
    /// The scale name used in axis metadata.
    pub fn scale_name(self) -> (name: &'static str)
        ensures
            name@ == transform_name(self),
    {
        match self {
            ContinuousTransform::Linear => "linear",
            ContinuousTransform::Log10 => "log10",
            ContinuousTransform::Sqrt => "sqrt",
        }
    }
}

/// Chart-level presentation text for accessible labels.
#[derive(Debug, Clone, PartialEq, Eq)]
pub struct InteractionChart {
    pub title: Option<String>,
    pub subtitle: Option<String>,
    pub caption: Option<String>,
    pub alt: Option<String>,
    pub description: Option<String>,
}

/// A top-level group domain, in first-appearance order.
#[derive(Debug, Clone, PartialEq, Eq)]
pub struct InteractionGroup {
    pub key: String,
    pub values: Vec<String>,
}

/// One mark's group value.
#[derive(Debug, Clone, PartialEq, Eq)]
pub struct InteractionGroupValue {
    pub key: String,
    pub value: String,
}

/// One tooltip row, with display-ready value text.
#[derive(Debug, Clone, PartialEq, Eq)]
pub struct TooltipRow {
    pub label: String,
    pub value: String,
}

/// Legend placement: the position's name and the legend's rectangle.
#[derive(Debug, Clone, PartialEq, Eq)]
pub struct InteractionLegend {
    pub position: String,
    pub rect: Rect,
}

/// Axis domain values in data space: numbers in thousandths, temporal
/// instants as UTC microseconds, or categories.
#[derive(Debug, Clone, PartialEq, Eq)]
pub enum InteractionDomain {
    Numbers([i64; 2]),
    Integers([i64; 2]),
    Strings(Vec<String>),
}

/// A serializable scale description.
#[derive(Debug, Clone, PartialEq, Eq)]
pub struct InteractionAxis {
    pub scale: String,
    pub domain: InteractionDomain,
    pub range: [i64; 2],
    pub format: String,
    pub label: String,
    pub padding_inner: Option<i64>,
    pub padding_outer: Option<i64>,
    pub bandwidth: Option<i64>,
    pub inner_domain: Vec<String>,
}

/// Axis metadata for Cartesian host-side inversion.
#[derive(Debug, Clone, PartialEq, Eq)]
pub struct InteractionAxes {
    pub x: Option<InteractionAxis>,
    pub y: Option<InteractionAxis>,
}

/// One plot area.
#[derive(Debug, Clone, PartialEq, Eq)]
pub struct InteractionPlot {
    pub id: String,
    pub plot_rect: Rect,
    pub clip_rect: Option<Rect>,
    pub axes: InteractionAxes,
}

/// One pickable per-row mark.
#[derive(Debug, Clone, PartialEq, Eq)]
pub struct InteractionMark {
    pub id: String,
    pub plot: String,
    pub x_px: i64,
    pub y_px: i64,
    pub clipped: bool,
    pub groups: Vec<InteractionGroupValue>,
    pub tooltip: Vec<TooltipRow>,
}

/// Versioned interaction metadata.
#[derive(Debug, Clone, PartialEq, Eq)]
pub struct InteractionMetadata {
    pub version: u32,
    pub plot_rect: Rect,
    pub axes: InteractionAxes,
    pub chart: InteractionChart,
    pub legend: Option<InteractionLegend>,
    pub marks: Vec<InteractionMark>,
    pub groups: Vec<InteractionGroup>,
    pub plots: Vec<InteractionPlot>,
}

// ---------------------------------------------------------------------------
// Identifiers, descriptions and groups
// ---------------------------------------------------------------------------

/// The identifier of the plot with this index.
pub open spec fn plot_id_text(index: nat) -> Seq<char> {
    "plot"@ + decimal_digits(index)
}

/// The identifier of the plot with this index: `plot0`, `plot1`, ...
pub fn plot_id(index: usize) -> (id: String)
    ensures
        id@ == plot_id_text(index as nat),
{
    let mut id = String::new();
    id.append("plot");
    push_decimal(&mut id, index as u64);
    id
}

/// The text an optional string holds.
pub open spec fn text_of(value: Option<&str>) -> Option<Seq<char>> {
    match value {
        Some(v) => Some(v@),
        None => None,
    }
}

/// A chart's description: the explicit one, else the subtitle and caption
/// on two lines, else whichever of them there is.
pub open spec fn description_of(
    description: Option<Seq<char>>,
    subtitle: Option<Seq<char>>,
    caption: Option<Seq<char>>,
) -> Option<Seq<char>> {
    match description {
        Some(d) => Some(d),
        None => match (subtitle, caption) {
            (Some(s), Some(c)) => Some(s + seq!['\n'] + c),
            (Some(s), None) => Some(s),
            (None, Some(c)) => Some(c),
            (None, None) => None,
        },
    }
}

/// The chart description hosts use for accessible labels.
pub fn chart_description(
    description: Option<&str>,
    subtitle: Option<&str>,
    caption: Option<&str>,
) -> (text: Option<String>)
    ensures
        match text {
            Some(t) => description_of(text_of(description), text_of(subtitle), text_of(caption))
                == Some(t@),
            None => description_of(text_of(description), text_of(subtitle), text_of(caption))
                is None,
        },
{
    if let Some(d) = description {
        return Some(d.to_owned());
    }
    match (subtitle, caption) {
        (Some(s), Some(c)) => {
            let mut text = s.to_owned();
            push_char(&mut text, '\n');
            text.append(c);
            Some(text)
        },
        (Some(s), None) => Some(s.to_owned()),
        (None, Some(c)) => Some(c.to_owned()),
        (None, None) => None,
    }
}

/// The texts of a list of strings.
pub open spec fn texts(values: Seq<String>) -> Seq<Seq<char>> {
    values.map_values(|v: String| v@)
}

/// `index` is the first group with this key.
pub open spec fn first_group_with_key(groups: Seq<InteractionGroup>, key: Seq<char>, index: int) -> bool {
    &&& 0 <= index < groups.len()
    &&& groups[index].key@ == key
    &&& forall|j: int| 0 <= j < index ==> #[trigger] groups[j].key@ != key
}

/// No two groups share a key.
pub open spec fn keys_distinct(groups: Seq<InteractionGroup>) -> bool {
    forall|i: int, j: int| 0 <= i < j < groups.len() ==> groups[i].key@ != groups[j].key@
}

/// No value occurs twice in any group.
pub open spec fn values_distinct(groups: Seq<InteractionGroup>) -> bool {
    forall|g: int, i: int, j: int|
        0 <= g < groups.len() && 0 <= i < j < groups[g].values@.len() ==> groups[g].values@[i]@
            != groups[g].values@[j]@
}

fn find_group(groups: &Vec<InteractionGroup>, key: &str) -> (index: Option<usize>)
    ensures
        match index {
            Some(i) => first_group_with_key(groups@, key@, i as int),
            None => forall|j: int| 0 <= j < groups@.len() ==> #[trigger] groups@[j].key@ != key@,
        },
{
    let mut i: usize = 0;
    while i < groups.len()
        invariant
            i <= groups@.len(),
            forall|j: int| 0 <= j < i ==> #[trigger] groups@[j].key@ != key@,
        decreases groups@.len() - i,
    {
        if str_equal(groups[i].key.as_str(), key) {
            return Some(i);
        }
        i = i + 1;
    }
    None
}

fn has_value(values: &Vec<String>, value: &str) -> (found: bool)
    ensures
        found == texts(values@).contains(value@),
{
    let mut i: usize = 0;
    while i < values.len()
        invariant
            i <= values@.len(),
            forall|j: int| 0 <= j < i ==> #[trigger] values@[j]@ != value@,
        decreases values@.len() - i,
    {
        if str_equal(values[i].as_str(), value) {
            assert(texts(values@)[i as int] == value@);
            return true;
        }
        i = i + 1;
    }
    assert forall|k: int| 0 <= k < texts(values@).len() implies texts(values@)[k] != value@ by {
        assert(texts(values@)[k] == values@[k]@);
    }
    false
}

/// How recording `value` under `key` changes a group list: the first group
/// with the key gains the value at the end of its values unless it already
/// holds it, and every other group stays as it was; when no group has the
/// key, a new group holding just the value is added at the end.
pub open spec fn group_value_appended(
    before: Seq<InteractionGroup>,
    after: Seq<InteractionGroup>,
    key: Seq<char>,
    value: Seq<char>,
) -> bool {
    if exists|i: int| first_group_with_key(before, key, i) {
        let i = choose|i: int| first_group_with_key(before, key, i);
        &&& after.len() == before.len()
        &&& forall|j: int| 0 <= j < before.len() && j != i ==> #[trigger] after[j] == before[j]
        &&& after[i].key@ == key
        &&& texts(after[i].values@) == if texts(before[i].values@).contains(value) {
            texts(before[i].values@)
        } else {
            texts(before[i].values@).push(value)
        }
    } else {
        &&& after.len() == before.len() + 1
        &&& forall|j: int| 0 <= j < before.len() ==> #[trigger] after[j] == before[j]
        &&& after.last().key@ == key
        &&& texts(after.last().values@) == seq![value]
    }
}

/// Record that a mark belongs to the group value `value` of the group
/// `key`: the value joins the key's group unless already there, and a key
/// seen for the first time opens a new group at the end.
pub fn append_group_value(groups: &mut Vec<InteractionGroup>, key: &str, value: &str)
    ensures
        group_value_appended(old(groups)@, final(groups)@, key@, value@),
        keys_distinct(old(groups)@) ==> keys_distinct(final(groups)@),
        values_distinct(old(groups)@) ==> values_distinct(final(groups)@),
{
    match find_group(groups, key) {
        Some(i) => {
            proof {
                let k = choose|k: int| first_group_with_key(old(groups)@, key@, k);
                if k < i {
                    assert(old(groups)@[k].key@ != key@);
                } else if k > i {
                    assert(old(groups)@[i as int].key@ != key@);
                }
            }
            let ghost before = groups@;
            let mut group = groups.remove(i);
            let ghost old_values = group.values@;
            if !has_value(&group.values, value) {
                group.values.push(value.to_owned());
                proof {
                    assert(texts(group.values@) =~= texts(old_values).push(value@));
                }
            }
            groups.insert(i, group);
            proof {
                assert(groups@ =~= before.update(i as int, group));
                if values_distinct(before) {
                    assert forall|g: int, a: int, b: int|
                        0 <= g < groups@.len() && 0 <= a < b < groups@[g].values@.len() implies groups@[g].values@[a]@
                        != groups@[g].values@[b]@ by {
                        if g == i {
                            if b == old_values.len() {
                                assert(texts(old_values)[a] == old_values[a]@);
                                assert(groups@[g].values@[a] == old_values[a]);
                            } else {
                                assert(groups@[g].values@[a] == old_values[a]);
                                assert(groups@[g].values@[b] == old_values[b]);
                            }
                        }
                    }
                }
            }
        },
        None => {
            let ghost before = groups@;
            let mut values: Vec<String> = Vec::new();
            values.push(value.to_owned());
            groups.push(InteractionGroup { key: key.to_owned(), values });
            proof {
                assert(texts(groups@.last().values@) =~= seq![value@]);
                assert(forall|i: int| !first_group_with_key(before, key@, i));
                if keys_distinct(before) {
                    assert forall|a: int, b: int| 0 <= a < b < groups@.len() implies groups@[a].key@
                        != groups@[b].key@ by {
                        if b == before.len() {
                            assert(groups@[a] == before[a]);
                        }
                    }
                }
                if values_distinct(before) {
                    assert forall|g: int, a: int, b: int|
                        0 <= g < groups@.len() && 0 <= a < b < groups@[g].values@.len() implies groups@[g].values@[a]@
                        != groups@[g].values@[b]@ by {
                        if g < before.len() {
                            assert(groups@[g] == before[g]);
                        }
                    }
                }
            }
        },
    }
}

proof fn lemma_first_group_exists(groups: Seq<InteractionGroup>, key: Seq<char>, j: int)
    requires
        0 <= j < groups.len(),
        groups[j].key@ == key,
    ensures
        exists|i: int| first_group_with_key(groups, key, i),
    decreases j,
{
    if forall|k: int| 0 <= k < j ==> #[trigger] groups[k].key@ != key {
        assert(first_group_with_key(groups, key, j));
    } else {
        let k = choose|k: int| 0 <= k < j && #[trigger] groups[k].key@ == key;
        lemma_first_group_exists(groups, key, k);
    }
}

/// Recording a group value keeps the group list well formed (keys distinct,
/// no value twice in a group), and afterwards exactly one group has the key,
/// and its values hold the value; groups with other keys are unchanged and
/// keep their places.
pub proof fn lemma_group_value_recorded(
    before: Seq<InteractionGroup>,
    after: Seq<InteractionGroup>,
    key: Seq<char>,
    value: Seq<char>,
)
    requires
        keys_distinct(before),
        values_distinct(before),
        group_value_appended(before, after, key, value),
    ensures
        keys_distinct(after),
        values_distinct(after),
        exists|i: int|
            0 <= i < after.len() && #[trigger] after[i].key@ == key && texts(after[i].values@).contains(
                value,
            ) && forall|j: int| 0 <= j < after.len() && j != i ==> #[trigger] after[j].key@ != key,
        forall|j: int| 0 <= j < before.len() && before[j].key@ != key ==> #[trigger] after[j] == before[j],
{
    if exists|i: int| first_group_with_key(before, key, i) {
        let i = choose|i: int| first_group_with_key(before, key, i);
        let old_vals = texts(before[i].values@);
        let new_vals = texts(after[i].values@);
        assert(new_vals.contains(value)) by {
            if old_vals.contains(value) {
            } else {
                assert(new_vals[old_vals.len() as int] == value);
            }
        }
        assert forall|a: int, b: int| 0 <= a < b < after.len() implies after[a].key@ != after[b].key@ by {
            if a != i && b != i {
                assert(after[a] == before[a]);
                assert(after[b] == before[b]);
            } else if a == i {
                assert(after[b] == before[b]);
            } else {
                assert(after[a] == before[a]);
            }
        }
        assert forall|g: int, a: int, b: int|
            0 <= g < after.len() && 0 <= a < b < after[g].values@.len() implies after[g].values@[a]@
            != after[g].values@[b]@ by {
            if g != i {
                assert(after[g] == before[g]);
            } else {
                assert(new_vals[a] == after[g].values@[a]@);
                assert(new_vals[b] == after[g].values@[b]@);
                if b < old_vals.len() {
                    assert(old_vals[a] == before[i].values@[a]@);
                    assert(old_vals[b] == before[i].values@[b]@);
                } else {
                    assert(new_vals[a] == old_vals[a]);
                    assert(old_vals[a] == before[i].values@[a]@);
                }
            }
        }
        assert forall|j: int| 0 <= j < after.len() && j != i implies #[trigger] after[j].key@ != key by {
            assert(after[j] == before[j]);
            if j < i {
            } else {
                assert(before[i].key@ != before[j].key@);
            }
        }
        assert(0 <= i < after.len() && after[i].key@ == key && texts(after[i].values@).contains(value)
            && forall|j: int| 0 <= j < after.len() && j != i ==> #[trigger] after[j].key@ != key);
    } else {
        assert forall|j: int| 0 <= j < before.len() implies #[trigger] before[j].key@ != key by {
            if before[j].key@ == key {
                lemma_first_group_exists(before, key, j);
            }
        }
        let i = after.len() - 1;
        assert(texts(after[i].values@)[0] == value);
        assert forall|a: int, b: int| 0 <= a < b < after.len() implies after[a].key@ != after[b].key@ by {
            assert(after[a] == before[a]);
            if b < before.len() {
                assert(after[b] == before[b]);
            }
        }
        assert forall|g: int, a: int, b: int|
            0 <= g < after.len() && 0 <= a < b < after[g].values@.len() implies after[g].values@[a]@
            != after[g].values@[b]@ by {
            if g < before.len() {
                assert(after[g] == before[g]);
            } else {
                assert(texts(after[g].values@).len() == 1);
            }
        }
        assert forall|j: int| 0 <= j < after.len() && j != i implies #[trigger] after[j].key@ != key by {
            assert(after[j] == before[j]);
        }
        assert(0 <= i < after.len() && after[i].key@ == key && texts(after[i].values@).contains(value)
            && forall|j: int| 0 <= j < after.len() && j != i ==> #[trigger] after[j].key@ != key);
    }
}

// ---------------------------------------------------------------------------
// JSON text
// ---------------------------------------------------------------------------

/// The JSON text of a rectangle.
#[verifier::opaque]
pub open spec fn rect_json(r: Rect) -> Seq<char> {
    "{\"x\":"@ + thousandths_text(r.x as int) + ",\"y\":"@ + thousandths_text(r.y as int)
        + ",\"width\":"@ + thousandths_text(r.width as int) + ",\"height\":"@ + thousandths_text(
        r.height as int,
    ) + "}"@
}

/// Append the JSON text of a rectangle.
pub fn write_rect_json(out: &mut String, rect: &Rect)
    ensures
        final(out)@ == old(out)@ + rect_json(*rect),
{
    let ghost start = out@;
    out.append("{\"x\":");
    push_thousandths(out, rect.x);
    out.append(",\"y\":");
    push_thousandths(out, rect.y);
    out.append(",\"width\":");
    push_thousandths(out, rect.width);
    out.append(",\"height\":");
    push_thousandths(out, rect.height);
    out.append("}");
    reveal(rect_json);
    assert(out@ =~= start + rect_json(*rect));
}

/// The JSON text of an optional string member: a comma unless it comes
/// first, the quoted key, and the quoted value or `null`.
pub open spec fn optional_string_json(key: Seq<char>, value: Option<Seq<char>>, first: bool) -> Seq<
    char,
> {
    (if first {
        Seq::<char>::empty()
    } else {
        seq![',']
    }) + json_literal(key) + seq![':'] + match value {
        Some(v) => json_literal(v),
        None => "null"@,
    }
}

/// Append an optional string member.
pub fn write_optional_string(out: &mut String, key: &str, value: Option<&str>, first: bool)
    ensures
        final(out)@ == old(out)@ + optional_string_json(key@, text_of(value), first),
{
    let ghost start = out@;
    if !first {
        push_char(out, ',');
    }
    push_json_string(out, key);
    push_char(out, ':');
    match value {
        Some(v) => push_json_string(out, v),
        None => out.append("null"),
    }
    assert(out@ =~= start + optional_string_json(key@, text_of(value), first));
}

/// The text an optional `String` holds.
pub open spec fn string_text(value: Option<String>) -> Option<Seq<char>> {
    match value {
        Some(v) => Some(v@),
        None => None,
    }
}

/// The JSON text of the chart's presentation strings.
#[verifier::opaque]
pub open spec fn chart_json(chart: InteractionChart) -> Seq<char> {
    seq!['{'] + optional_string_json("title"@, string_text(chart.title), true)
        + optional_string_json("subtitle"@, string_text(chart.subtitle), false)
        + optional_string_json("caption"@, string_text(chart.caption), false)
        + optional_string_json("alt"@, string_text(chart.alt), false) + optional_string_json(
        "description"@,
        string_text(chart.description),
        false,
    ) + seq!['}']
}

fn as_text(value: &Option<String>) -> (text: Option<&str>)
    ensures
        text_of(text) == string_text(*value),
{
    match value {
        Some(v) => Some(v.as_str()),
        None => None,
    }
}

/// Append the JSON text of the chart's presentation strings.
pub fn write_chart_json(out: &mut String, chart: &InteractionChart)
    ensures
        final(out)@ == old(out)@ + chart_json(*chart),
{
    let ghost start = out@;
    push_char(out, '{');
    write_optional_string(out, "title", as_text(&chart.title), true);
    write_optional_string(out, "subtitle", as_text(&chart.subtitle), false);
    write_optional_string(out, "caption", as_text(&chart.caption), false);
    write_optional_string(out, "alt", as_text(&chart.alt), false);
    write_optional_string(out, "description", as_text(&chart.description), false);
    push_char(out, '}');
    reveal(chart_json);
    assert(out@ =~= start + chart_json(*chart));
}

/// Comma-separated JSON string literals.
pub open spec fn string_list_json(values: Seq<String>) -> Seq<char>
    decreases values.len(),
{
    if values.len() == 0 {
        Seq::empty()
    } else if values.len() == 1 {
        json_literal(values[0]@)
    } else {
        string_list_json(values.drop_last()) + seq![','] + json_literal(values.last()@)
    }
}

fn write_string_list(out: &mut String, values: &Vec<String>)
    ensures
        final(out)@ == old(out)@ + string_list_json(values@),
{
    let ghost start = out@;
    let mut i: usize = 0;
    while i < values.len()
        invariant
            i <= values@.len(),
            out@ == start + string_list_json(values@.take(i as int)),
        decreases values@.len() - i,
    {
        let ghost mid = out@;
        if i > 0 {
            push_char(out, ',');
        }
        push_json_string(out, values[i].as_str());
        proof {
            assert(values@.take(i + 1).drop_last() =~= values@.take(i as int));
            assert(out@ =~= start + string_list_json(values@.take(i + 1)));
        }
        i = i + 1;
    }
    assert(values@.take(i as int) =~= values@);
}

/// The JSON member text of one mark group value.
pub open spec fn group_value_json(group: InteractionGroupValue) -> Seq<char> {
    json_literal(group.key@) + seq![':'] + json_literal(group.value@)
}

/// Comma-separated mark group values.
pub open spec fn group_value_list_json(groups: Seq<InteractionGroupValue>) -> Seq<char>
    decreases groups.len(),
{
    if groups.len() == 0 {
        Seq::empty()
    } else if groups.len() == 1 {
        group_value_json(groups[0])
    } else {
        group_value_list_json(groups.drop_last()) + seq![','] + group_value_json(groups.last())
    }
}

/// The JSON object of a mark's group values.
#[verifier::opaque]
pub open spec fn group_values_json(groups: Seq<InteractionGroupValue>) -> Seq<char> {
    seq!['{'] + group_value_list_json(groups) + seq!['}']
}

/// Append the JSON object of a mark's group values.
pub fn write_group_values_json(out: &mut String, groups: &[InteractionGroupValue])
    ensures
        final(out)@ == old(out)@ + group_values_json(groups@),
{
    let ghost start = out@;
    push_char(out, '{');
    let mut i: usize = 0;
    while i < groups.len()
        invariant
            i <= groups@.len(),
            out@ == start + seq!['{'] + group_value_list_json(groups@.take(i as int)),
        decreases groups@.len() - i,
    {
        if i > 0 {
            push_char(out, ',');
        }
        push_json_string(out, groups[i].key.as_str());
        push_char(out, ':');
        push_json_string(out, groups[i].value.as_str());
        proof {
            assert(groups@.take(i + 1).drop_last() =~= groups@.take(i as int));
            assert(out@ =~= start + seq!['{'] + group_value_list_json(groups@.take(i + 1)));
        }
        i = i + 1;
    }
    assert(groups@.take(i as int) =~= groups@);
    push_char(out, '}');
    reveal(group_values_json);
    assert(out@ =~= start + group_values_json(groups@));
}

/// The JSON member text of one group domain.
pub open spec fn group_json(group: InteractionGroup) -> Seq<char> {
    json_literal(group.key@) + seq![':', '['] + string_list_json(group.values@) + seq![']']
}

/// Comma-separated group domains.
pub open spec fn group_list_json(groups: Seq<InteractionGroup>) -> Seq<char>
    decreases groups.len(),
{
    if groups.len() == 0 {
        Seq::empty()
    } else if groups.len() == 1 {
        group_json(groups[0])
    } else {
        group_list_json(groups.drop_last()) + seq![','] + group_json(groups.last())
    }
}

/// The JSON object of the group domains.
#[verifier::opaque]
pub open spec fn groups_json(groups: Seq<InteractionGroup>) -> Seq<char> {
    seq!['{'] + group_list_json(groups) + seq!['}']
}

/// Append the JSON object of the group domains.
pub fn write_groups_json(out: &mut String, groups: &[InteractionGroup])
    ensures
        final(out)@ == old(out)@ + groups_json(groups@),
{
    let ghost start = out@;
    push_char(out, '{');
    let mut i: usize = 0;
    while i < groups.len()
        invariant
            i <= groups@.len(),
            out@ == start + seq!['{'] + group_list_json(groups@.take(i as int)),
        decreases groups@.len() - i,
    {
        if i > 0 {
            push_char(out, ',');
        }
        push_json_string(out, groups[i].key.as_str());
        push_char(out, ':');
        push_char(out, '[');
        write_string_list(out, &groups[i].values);
        push_char(out, ']');
        proof {
            assert(groups@.take(i + 1).drop_last() =~= groups@.take(i as int));
            assert(out@ =~= start + seq!['{'] + group_list_json(groups@.take(i + 1)));
        }
        i = i + 1;
    }
    assert(groups@.take(i as int) =~= groups@);
    push_char(out, '}');
    reveal(groups_json);
    assert(out@ =~= start + groups_json(groups@));
}

/// The JSON text of the legend placement, or `null`.
#[verifier::opaque]
pub open spec fn legend_json(legend: Option<InteractionLegend>) -> Seq<char> {
    match legend {
        Some(l) => "{\"position\":"@ + json_literal(l.position@) + ",\"rect\":"@ + rect_json(
            l.rect,
        ) + "}"@,
        None => "null"@,
    }
}

/// The legend an optional reference points at.
pub open spec fn legend_value(legend: Option<&InteractionLegend>) -> Option<InteractionLegend> {
    match legend {
        Some(l) => Some(*l),
        None => None,
    }
}

/// Append the JSON text of the legend placement.
pub fn write_legend_json(out: &mut String, legend: Option<&InteractionLegend>)
    ensures
        final(out)@ == old(out)@ + legend_json(legend_value(legend)),
{
    let ghost start = out@;
    match legend {
        Some(l) => {
            out.append("{\"position\":");
            push_json_string(out, l.position.as_str());
            out.append(",\"rect\":");
            write_rect_json(out, &l.rect);
            out.append("}");
        },
        None => out.append("null"),
    }
    reveal(legend_json);
    assert(out@ =~= start + legend_json(legend_value(legend)));
}

/// The JSON array of an axis domain.
#[verifier::opaque]
pub open spec fn domain_json(domain: InteractionDomain) -> Seq<char> {
    match domain {
        InteractionDomain::Numbers(values) => seq!['['] + thousandths_text(values[0] as int)
            + seq![','] + thousandths_text(values[1] as int) + seq![']'],
        InteractionDomain::Integers(values) => seq!['['] + integer_text(values[0] as int) + seq![
            ',',
        ] + integer_text(values[1] as int) + seq![']'],
        InteractionDomain::Strings(values) => seq!['['] + string_list_json(values@) + seq![']'],
    }
}

/// Append the JSON array of an axis domain.
pub fn write_domain_json(out: &mut String, domain: &InteractionDomain)
    ensures
        final(out)@ == old(out)@ + domain_json(*domain),
{
    let ghost start = out@;
    match domain {
        InteractionDomain::Numbers(values) => {
            push_char(out, '[');
            push_thousandths(out, values[0]);
            push_char(out, ',');
            push_thousandths(out, values[1]);
            push_char(out, ']');
        },
        InteractionDomain::Integers(values) => {
            push_char(out, '[');
            push_integer(out, values[0]);
            push_char(out, ',');
            push_integer(out, values[1]);
            push_char(out, ']');
        },
        InteractionDomain::Strings(values) => {
            push_char(out, '[');
            write_string_list(out, values);
            push_char(out, ']');
        },
    }
    reveal(domain_json);
    assert(out@ =~= start + domain_json(*domain));
}

/// An optional numeric member: its prefix and value, or nothing.
pub open spec fn optional_number_json(prefix: Seq<char>, value: Option<i64>) -> Seq<char> {
    match value {
        Some(v) => prefix + thousandths_text(v as int),
        None => Seq::empty(),
    }
}

/// The members of an axis object up to its label.
#[verifier::opaque]
pub open spec fn axis_head_json(axis: InteractionAxis) -> Seq<char> {
    "{\"scale\":"@ + json_literal(axis.scale@) + ",\"domain\":"@ + domain_json(axis.domain)
        + ",\"range\":["@ + thousandths_text(axis.range[0] as int) + seq![','] + thousandths_text(
        axis.range[1] as int,
    ) + "],\"format\":"@ + json_literal(axis.format@) + ",\"label\":"@ + json_literal(
        axis.label@,
    )
}

/// The optional members of an axis object and its closing brace.
#[verifier::opaque]
pub open spec fn axis_tail_json(axis: InteractionAxis) -> Seq<char> {
    optional_number_json(",\"paddingInner\":"@, axis.padding_inner) + optional_number_json(
        ",\"paddingOuter\":"@,
        axis.padding_outer,
    ) + optional_number_json(",\"bandwidth\":"@, axis.bandwidth) + (if axis.inner_domain@.len()
        == 0 {
        Seq::<char>::empty()
    } else {
        ",\"innerDomain\":["@ + string_list_json(axis.inner_domain@) + seq![']']
    }) + seq!['}']
}

/// The JSON object of one axis.
#[verifier::opaque]
pub open spec fn axis_json(axis: InteractionAxis) -> Seq<char> {
    axis_head_json(axis) + axis_tail_json(axis)
}

fn write_optional_number(out: &mut String, prefix: &str, value: Option<i64>)
    ensures
        final(out)@ == old(out)@ + optional_number_json(prefix@, value),
{
    let ghost start = out@;
    if let Some(v) = value {
        out.append(prefix);
        push_thousandths(out, v);
    }
    assert(out@ =~= start + optional_number_json(prefix@, value));
}

fn write_axis_head(out: &mut String, axis: &InteractionAxis)
    ensures
        final(out)@ == old(out)@ + axis_head_json(*axis),
{
    let ghost start = out@;
    out.append("{\"scale\":");
    push_json_string(out, axis.scale.as_str());
    out.append(",\"domain\":");
    write_domain_json(out, &axis.domain);
    out.append(",\"range\":[");
    push_thousandths(out, axis.range[0]);
    push_char(out, ',');
    push_thousandths(out, axis.range[1]);
    out.append("],\"format\":");
    push_json_string(out, axis.format.as_str());
    out.append(",\"label\":");
    push_json_string(out, axis.label.as_str());
    reveal(axis_head_json);
    assert(out@ =~= start + axis_head_json(*axis));
}

fn write_axis_tail(out: &mut String, axis: &InteractionAxis)
    ensures
        final(out)@ == old(out)@ + axis_tail_json(*axis),
{
    let ghost start = out@;
    write_optional_number(out, ",\"paddingInner\":", axis.padding_inner);
    write_optional_number(out, ",\"paddingOuter\":", axis.padding_outer);
    write_optional_number(out, ",\"bandwidth\":", axis.bandwidth);
    if axis.inner_domain.len() > 0 {
        out.append(",\"innerDomain\":[");
        write_string_list(out, &axis.inner_domain);
        push_char(out, ']');
    }
    push_char(out, '}');
    reveal(axis_tail_json);
    assert(out@ =~= start + axis_tail_json(*axis));
}

/// Append the JSON object of one axis.
pub fn write_axis_json(out: &mut String, axis: &InteractionAxis)
    ensures
        final(out)@ == old(out)@ + axis_json(*axis),
{
    let ghost start = out@;
    write_axis_head(out, axis);
    write_axis_tail(out, axis);
    reveal(axis_json);
    assert(out@ =~= start + axis_json(*axis));
}

/// The JSON object of a pair of axes: `x` and `y` when present.
#[verifier::opaque]
pub open spec fn axes_json(axes: InteractionAxes) -> Seq<char> {
    seq!['{'] + match axes.x {
        Some(x) => "\"x\":"@ + axis_json(x),
        None => Seq::<char>::empty(),
    } + match axes.y {
        Some(y) => (if axes.x is Some {
            seq![',']
        } else {
            Seq::<char>::empty()
        }) + "\"y\":"@ + axis_json(y),
        None => Seq::<char>::empty(),
    } + seq!['}']
}

/// Append the JSON object of a pair of axes.
pub fn write_axes_json(out: &mut String, axes: &InteractionAxes)
    ensures
        final(out)@ == old(out)@ + axes_json(*axes),
{
    let ghost start = out@;
    push_char(out, '{');
    let mut first = true;
    if let Some(axis) = &axes.x {
        out.append("\"x\":");
        write_axis_json(out, axis);
        first = false;
    }
    if let Some(axis) = &axes.y {
        if !first {
            push_char(out, ',');
        }
        out.append("\"y\":");
        write_axis_json(out, axis);
    }
    push_char(out, '}');
    reveal(axes_json);
    assert(out@ =~= start + axes_json(*axes));
}

/// The JSON object of one tooltip row.
pub open spec fn tooltip_row_json(row: TooltipRow) -> Seq<char> {
    "{\"label\":"@ + json_literal(row.label@) + ",\"value\":"@ + json_literal(row.value@)
        + "}"@
}

/// Comma-separated tooltip rows.
pub open spec fn tooltip_list_json(rows: Seq<TooltipRow>) -> Seq<char>
    decreases rows.len(),
{
    if rows.len() == 0 {
        Seq::empty()
    } else if rows.len() == 1 {
        tooltip_row_json(rows[0])
    } else {
        tooltip_list_json(rows.drop_last()) + seq![','] + tooltip_row_json(rows.last())
    }
}

/// The members of a mark object up to its position and clipping flag.
#[verifier::opaque]
pub open spec fn mark_head_json(mark: InteractionMark) -> Seq<char> {
    "{\"id\":"@ + json_literal(mark.id@) + ",\"plot\":"@ + json_literal(mark.plot@)
        + ",\"x_px\":"@ + thousandths_text(mark.x_px as int) + ",\"y_px\":"@ + thousandths_text(
        mark.y_px as int,
    ) + (if mark.clipped {
        ",\"clipped\":true"@
    } else {
        Seq::<char>::empty()
    })
}

/// The group and tooltip members of a mark object and its closing brace.
#[verifier::opaque]
pub open spec fn mark_tail_json(mark: InteractionMark) -> Seq<char> {
    ",\"groups\":"@ + group_values_json(mark.groups@) + ",\"tooltip\":["@ + tooltip_list_json(
        mark.tooltip@,
    ) + "]}"@
}

/// The JSON object of one pickable mark.
#[verifier::opaque]
pub open spec fn mark_json(mark: InteractionMark) -> Seq<char> {
    mark_head_json(mark) + mark_tail_json(mark)
}

fn write_mark_head(out: &mut String, mark: &InteractionMark)
    ensures
        final(out)@ == old(out)@ + mark_head_json(*mark),
{
    let ghost start = out@;
    out.append("{\"id\":");
    push_json_string(out, mark.id.as_str());
    out.append(",\"plot\":");
    push_json_string(out, mark.plot.as_str());
    out.append(",\"x_px\":");
    push_thousandths(out, mark.x_px);
    out.append(",\"y_px\":");
    push_thousandths(out, mark.y_px);
    if mark.clipped {
        out.append(",\"clipped\":true");
    }
    reveal(mark_head_json);
    assert(out@ =~= start + mark_head_json(*mark));
}

fn write_tooltip_rows(out: &mut String, rows: &Vec<TooltipRow>)
    ensures
        final(out)@ == old(out)@ + tooltip_list_json(rows@),
{
    let ghost start = out@;
    let mut i: usize = 0;
    while i < rows.len()
        invariant
            i <= rows@.len(),
            out@ == start + tooltip_list_json(rows@.take(i as int)),
        decreases rows@.len() - i,
    {
        if i > 0 {
            push_char(out, ',');
        }
        out.append("{\"label\":");
        push_json_string(out, rows[i].label.as_str());
        out.append(",\"value\":");
        push_json_string(out, rows[i].value.as_str());
        out.append("}");
        proof {
            assert(rows@.take(i + 1).drop_last() =~= rows@.take(i as int));
            assert(out@ =~= start + tooltip_list_json(rows@.take(i + 1)));
        }
        i = i + 1;
    }
    assert(rows@.take(i as int) =~= rows@);
}

/// Append the JSON object of one pickable mark.
pub fn write_mark_json(out: &mut String, mark: &InteractionMark)
    ensures
        final(out)@ == old(out)@ + mark_json(*mark),
{
    let ghost start = out@;
    write_mark_head(out, mark);
    let ghost mid = out@;
    out.append(",\"groups\":");
    write_group_values_json(out, mark.groups.as_slice());
    out.append(",\"tooltip\":[");
    write_tooltip_rows(out, &mark.tooltip);
    out.append("]}");
    proof {
        reveal(mark_tail_json);
        assert(out@ =~= mid + mark_tail_json(*mark));
        reveal(mark_json);
        assert(out@ =~= start + mark_json(*mark));
    }
}

/// The JSON object of one plot area.
#[verifier::opaque]
pub open spec fn plot_json(plot: InteractionPlot) -> Seq<char> {
    "{\"id\":"@ + json_literal(plot.id@) + ",\"plot_rect\":"@ + rect_json(plot.plot_rect)
        + match plot.clip_rect {
        Some(r) => ",\"clip_rect\":"@ + rect_json(r),
        None => Seq::<char>::empty(),
    } + ",\"axes\":"@ + axes_json(plot.axes) + seq!['}']
}

/// Append the JSON object of one plot area.
pub fn write_plot_json(out: &mut String, plot: &InteractionPlot)
    ensures
        final(out)@ == old(out)@ + plot_json(*plot),
{
    let ghost start = out@;
    out.append("{\"id\":");
    push_json_string(out, plot.id.as_str());
    out.append(",\"plot_rect\":");
    write_rect_json(out, &plot.plot_rect);
    if let Some(rect) = &plot.clip_rect {
        out.append(",\"clip_rect\":");
        write_rect_json(out, rect);
    }
    out.append(",\"axes\":");
    write_axes_json(out, &plot.axes);
    push_char(out, '}');
    reveal(plot_json);
    assert(out@ =~= start + plot_json(*plot));
}

/// Comma-separated marks.
pub open spec fn mark_list_json(marks: Seq<InteractionMark>) -> Seq<char>
    decreases marks.len(),
{
    if marks.len() == 0 {
        Seq::empty()
    } else if marks.len() == 1 {
        mark_json(marks[0])
    } else {
        mark_list_json(marks.drop_last()) + seq![','] + mark_json(marks.last())
    }
}

/// Comma-separated plot areas.
pub open spec fn plot_list_json(plots: Seq<InteractionPlot>) -> Seq<char>
    decreases plots.len(),
{
    if plots.len() == 0 {
        Seq::empty()
    } else if plots.len() == 1 {
        plot_json(plots[0])
    } else {
        plot_list_json(plots.drop_last()) + seq![','] + plot_json(plots.last())
    }
}

/// The deterministic JSON text of the interaction metadata.
#[verifier::opaque]
pub open spec fn metadata_json(m: InteractionMetadata) -> Seq<char> {
    "{\"version\":"@ + decimal_digits(m.version as nat) + ",\"plot_rect\":"@ + rect_json(
        m.plot_rect,
    ) + ",\"axes\":"@ + axes_json(m.axes) + ",\"chart\":"@ + chart_json(m.chart)
        + ",\"legend\":"@ + legend_json(m.legend) + ",\"marks\":["@ + mark_list_json(m.marks@)
        + "],\"groups\":"@ + groups_json(m.groups@) + ",\"plots\":["@ + plot_list_json(
        m.plots@,
    ) + "]}"@
}

impl InteractionMetadata {
    /// Serialize to deterministic JSON with stable key order and the number
    /// format of SVG output.
    pub fn to_json(&self) -> (json: String)
        ensures
            json@ == metadata_json(*self),
    {
        let mut out = String::new();
        out.append("{\"version\":");
        push_decimal(&mut out, self.version as u64);
        out.append(",\"plot_rect\":");
        write_rect_json(&mut out, &self.plot_rect);
        out.append(",\"axes\":");
        write_axes_json(&mut out, &self.axes);
        out.append(",\"chart\":");
        write_chart_json(&mut out, &self.chart);
        out.append(",\"legend\":");
        let legend = match &self.legend {
            Some(l) => Some(l),
            None => None,
        };
        write_legend_json(&mut out, legend);
        out.append(",\"marks\":[");
        let ghost marks_start = out@;
        let mut i: usize = 0;
        while i < self.marks.len()
            invariant
                i <= self.marks@.len(),
                out@ == marks_start + mark_list_json(self.marks@.take(i as int)),
            decreases self.marks@.len() - i,
        {
            if i > 0 {
                push_char(&mut out, ',');
            }
            write_mark_json(&mut out, &self.marks[i]);
            proof {
                assert(self.marks@.take(i + 1).drop_last() =~= self.marks@.take(i as int));
                assert(out@ =~= marks_start + mark_list_json(self.marks@.take(i + 1)));
            }
            i = i + 1;
        }
        assert(self.marks@.take(i as int) =~= self.marks@);
        out.append("],\"groups\":");
        write_groups_json(&mut out, self.groups.as_slice());
        out.append(",\"plots\":[");
        let ghost plots_start = out@;
        let mut j: usize = 0;
        while j < self.plots.len()
            invariant
                j <= self.plots@.len(),
                out@ == plots_start + plot_list_json(self.plots@.take(j as int)),
            decreases self.plots@.len() - j,
        {
            if j > 0 {
                push_char(&mut out, ',');
            }
            write_plot_json(&mut out, &self.plots[j]);
            proof {
                assert(self.plots@.take(j + 1).drop_last() =~= self.plots@.take(j as int));
                assert(out@ =~= plots_start + plot_list_json(self.plots@.take(j + 1)));
            }
            j = j + 1;
        }
        assert(self.plots@.take(j as int) =~= self.plots@);
        out.append("]}");
        assert(legend_value(legend) == self.legend);
        reveal(metadata_json);
        assert(out@ =~= metadata_json(*self));
        out
    }
}

} // verus!
