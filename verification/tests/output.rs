use algraf_render::draw_list::{DrawList, DrawOp, DrawRole, TextAnchor};
use algraf_render::metadata::{
    append_group_value, chart_description, plot_id, ContinuousTransform, InteractionAxes,
    InteractionAxis, InteractionChart, InteractionDomain, InteractionGroup, InteractionGroupValue,
    InteractionLegend, InteractionMark, InteractionMetadata, InteractionPlot, Rect, TooltipRow,
};
use algraf_render::number::{format_thousandths, integer_string};
use algraf_render::sink::{
    json_string, role_for_layer, Dash, DrawListSink, Fill, MarkEventInteraction, MarkInteraction,
    Paint, Stroke, SvgSink, TextRun,
};
use algraf_render::svg::{display_label, escape_attr, escape_text, SvgAttr, SvgWriter};

fn px(v: i64) -> i64 {
    v * 1000
}

#[test]
fn thousandths_print_like_svg_numbers() {
    assert_eq!(format_thousandths(0), "0");
    assert_eq!(format_thousandths(1500), "1.5");
    assert_eq!(format_thousandths(-250), "-0.25");
    assert_eq!(format_thousandths(12345), "12.345");
    assert_eq!(format_thousandths(-1000), "-1");
    assert_eq!(format_thousandths(100), "0.1");
    assert_eq!(format_thousandths(1010), "1.01");
    assert_eq!(format_thousandths(i64::MIN), "-9223372036854775.808");
    assert_eq!(integer_string(-42), "-42");
    assert_eq!(integer_string(i64::MIN), "-9223372036854775808");
}

#[test]
fn escaping_neutralizes_markup() {
    assert_eq!(escape_text("a < b & c > d \"q\""), "a &lt; b &amp; c &gt; d \"q\"");
    assert_eq!(escape_attr("say \"hi\" <x>"), "say &quot;hi&quot; &lt;x&gt;");
    assert_eq!(display_label("total_sales_usd"), "total sales usd");
}

#[test]
fn json_strings_escape_quotes_and_controls() {
    assert_eq!(json_string("plain"), "\"plain\"");
    assert_eq!(json_string("a\"b\\c"), "\"a\\\"b\\\\c\"");
    assert_eq!(json_string("l1\nl2\t\r"), "\"l1\\nl2\\t\\r\"");
    assert_eq!(json_string("\u{1}"), "\"\\u0001\"");
    assert_eq!(json_string("\u{1f}"), "\"\\u001f\"");
}

#[test]
fn svg_writer_indents_nested_groups() {
    let mut w = SvgWriter::new();
    w.open_group("class=\"layer\"");
    w.empty_element(
        "rect",
        &[SvgAttr::new("x", "1".to_string()), SvgAttr::new("fill", "a\"b".to_string())],
    );
    w.text_element("text", &[SvgAttr::new("x", "2".to_string())], "a<b");
    w.close_group();
    w.close_group();
    assert_eq!(
        w.finish(),
        "<g class=\"layer\">\n  <rect x=\"1\" fill=\"a&quot;b\" />\n  <text x=\"2\">a&lt;b</text>\n</g>\n</g>\n"
    );
}

#[test]
fn layer_classes_map_to_roles() {
    assert_eq!(role_for_layer("algraf-layer-3"), DrawRole::Mark);
    assert_eq!(role_for_layer("algraf-polar-grid"), DrawRole::Grid);
    assert_eq!(role_for_layer("algraf-axes"), DrawRole::Axis);
    assert_eq!(role_for_layer("algraf-legends"), DrawRole::Legend);
    assert_eq!(role_for_layer("algraf-polar-labels"), DrawRole::PolarLabel);
    assert_eq!(role_for_layer("algraf-facet-strip"), DrawRole::FacetStrip);
    assert_eq!(role_for_layer("other"), DrawRole::Mark);
    assert_eq!(DrawRole::PlotArea.as_str(), "plot-area");
    assert_eq!(TextAnchor::Middle.as_str(), "middle");
    assert_eq!(Dash::from_setting(Some("dashed")), Some(Dash::Dashed));
    assert_eq!(Dash::from_setting(Some("dots")), None);
    assert_eq!(Dash::Dotted.dasharray(), "1 2");
}

#[test]
fn plot_ids_and_descriptions() {
    assert_eq!(plot_id(0), "plot0");
    assert_eq!(plot_id(12), "plot12");
    assert_eq!(chart_description(Some("d"), Some("s"), Some("c")).as_deref(), Some("d"));
    assert_eq!(chart_description(None, Some("s"), Some("c")).as_deref(), Some("s\nc"));
    assert_eq!(chart_description(None, None, Some("c")).as_deref(), Some("c"));
    assert_eq!(chart_description(None, None, None), None);
    assert_eq!(ContinuousTransform::Log10.scale_name(), "log10");
}

#[test]
fn group_values_keep_first_appearance_order_without_repeats() {
    let mut groups: Vec<InteractionGroup> = Vec::new();
    append_group_value(&mut groups, "kind", "a");
    append_group_value(&mut groups, "size", "s");
    append_group_value(&mut groups, "kind", "b");
    append_group_value(&mut groups, "kind", "a");
    assert_eq!(groups.len(), 2);
    assert_eq!(groups[0].key, "kind");
    assert_eq!(groups[0].values, vec!["a".to_string(), "b".to_string()]);
    assert_eq!(groups[1].values, vec!["s".to_string()]);
}

fn sample_axis() -> InteractionAxis {
    InteractionAxis {
        scale: "band".to_string(),
        domain: InteractionDomain::Strings(vec!["a".to_string(), "b".to_string()]),
        range: [px(10), px(90)],
        format: "category".to_string(),
        label: "cat".to_string(),
        padding_inner: Some(100),
        padding_outer: None,
        bandwidth: Some(px(30)),
        inner_domain: vec!["x".to_string()],
    }
}

fn sample_metadata() -> InteractionMetadata {
    let rect = Rect { x: px(10), y: px(20), width: 150_500, height: px(80) };
    InteractionMetadata {
        version: 1,
        plot_rect: rect,
        axes: InteractionAxes { x: Some(sample_axis()), y: None },
        chart: InteractionChart {
            title: Some("T".to_string()),
            subtitle: None,
            caption: None,
            alt: None,
            description: None,
        },
        legend: Some(InteractionLegend { position: "right".to_string(), rect }),
        marks: vec![InteractionMark {
            id: "p0:g0:r0".to_string(),
            plot: "plot0".to_string(),
            x_px: 12_250,
            y_px: px(40),
            clipped: true,
            groups: vec![InteractionGroupValue { key: "k".to_string(), value: "v".to_string() }],
            tooltip: vec![TooltipRow { label: "n".to_string(), value: "1".to_string() }],
        }],
        groups: vec![InteractionGroup { key: "k".to_string(), values: vec!["v".to_string()] }],
        plots: vec![InteractionPlot {
            id: "plot0".to_string(),
            plot_rect: rect,
            clip_rect: None,
            axes: InteractionAxes {
                x: None,
                y: Some(InteractionAxis {
                    scale: "time".to_string(),
                    domain: InteractionDomain::Integers([-5, 7]),
                    range: [0, 1],
                    format: "auto".to_string(),
                    label: "t".to_string(),
                    padding_inner: None,
                    padding_outer: None,
                    bandwidth: None,
                    inner_domain: vec![],
                }),
            },
        }],
    }
}

#[test]
fn interaction_metadata_serializes_deterministically() {
    let json = sample_metadata().to_json();
    let rect = "{\"x\":10,\"y\":20,\"width\":150.5,\"height\":80}";
    let axis = "{\"scale\":\"band\",\"domain\":[\"a\",\"b\"],\"range\":[10,90],\"format\":\"category\",\"label\":\"cat\",\"paddingInner\":0.1,\"bandwidth\":30,\"innerDomain\":[\"x\"]}";
    let expected = format!(
        "{{\"version\":1,\"plot_rect\":{rect},\"axes\":{{\"x\":{axis}}},\"chart\":{{\"title\":\"T\",\"subtitle\":null,\"caption\":null,\"alt\":null,\"description\":null}},\"legend\":{{\"position\":\"right\",\"rect\":{rect}}},\"marks\":[{{\"id\":\"p0:g0:r0\",\"plot\":\"plot0\",\"x_px\":12.25,\"y_px\":40,\"clipped\":true,\"groups\":{{\"k\":\"v\"}},\"tooltip\":[{{\"label\":\"n\",\"value\":\"1\"}}]}}],\"groups\":{{\"k\":[\"v\"]}},\"plots\":[{{\"id\":\"plot0\",\"plot_rect\":{rect},\"axes\":{{\"y\":{{\"scale\":\"time\",\"domain\":[-5,7],\"range\":[0,0.001],\"format\":\"auto\",\"label\":\"t\"}}}}}}]}}"
    );
    assert_eq!(json, expected);
}

fn tooltip_mark() -> MarkInteraction {
    MarkInteraction {
        tooltip: Some("a < b".to_string()),
        highlight: Some("g\"1".to_string()),
        event: None,
    }
}

#[test]
fn draw_list_serializes_ops_and_interactions() {
    let paint = Paint {
        fill: Fill::Color("#fff".to_string()),
        stroke: Stroke::Solid { color: "red".to_string(), width: -5 },
        opacity: Some(500),
    };
    let ops = vec![
        DrawOp::ClipStart { role: DrawRole::PlotArea, x: 0, y: 0, width: px(10), height: px(5) },
        DrawOp::Rect {
            role: DrawRole::Mark,
            x: px(1),
            y: px(2),
            width: px(3),
            height: px(4),
            paint: paint.clone(),
            interaction: Some(tooltip_mark()),
        },
        DrawOp::Path {
            role: DrawRole::Grid,
            d: "M0 0L1 1".to_string(),
            paint: Paint { fill: Fill::NoFill, stroke: Stroke::NoStroke, opacity: None },
            dash: Some(Dash::Dashed),
            interaction: Some(MarkInteraction::default()),
        },
        DrawOp::Line {
            role: DrawRole::Axis,
            x1: 0,
            y1: 0,
            x2: px(1),
            y2: 0,
            stroke: "#000".to_string(),
            stroke_width: 1500,
            linecap_round: true,
            opacity: None,
            dash: None,
        },
        DrawOp::Text {
            role: DrawRole::Title,
            x: px(1),
            y: px(2),
            anchor: TextAnchor::Start,
            fill: "#111".to_string(),
            opacity: Some(250),
            content: "Hi".to_string(),
        },
        DrawOp::ClipEnd { role: DrawRole::PlotArea },
    ];
    assert_eq!(ops[1].role(), DrawRole::Mark);
    let list = DrawList { width: px(640), height: 480_500, interactions: sample_metadata(), ops };
    let json = list.to_json();
    let prefix = format!(
        "{{\"width\":640,\"height\":480.5,\"interactions\":{},\"ops\":[",
        sample_metadata().to_json()
    );
    assert!(json.starts_with(&prefix));
    let body = &json[prefix.len()..];
    assert_eq!(
        body,
        "{\"op\":\"clipStart\",\"role\":\"plot-area\",\"x\":0,\"y\":0,\"width\":10,\"height\":5},\
{\"op\":\"rect\",\"role\":\"mark\",\"x\":1,\"y\":2,\"width\":3,\"height\":4,\"fill\":\"#fff\",\"stroke\":\"red\",\"strokeWidth\":0,\"opacity\":0.5,\"interaction\":{\"tooltip\":\"a < b\",\"highlight\":\"g\\\"1\"}},\
{\"op\":\"path\",\"role\":\"grid\",\"d\":\"M0 0L1 1\",\"fill\":\"none\",\"stroke\":\"none\",\"strokeDasharray\":\"4 4\"},\
{\"op\":\"line\",\"role\":\"axis\",\"x1\":0,\"y1\":0,\"x2\":1,\"y2\":0,\"stroke\":\"#000\",\"strokeWidth\":1.5,\"strokeLinecap\":\"round\"},\
{\"op\":\"text\",\"role\":\"title\",\"x\":1,\"y\":2,\"anchor\":\"start\",\"fill\":\"#111\",\"opacity\":0.25,\"content\":\"Hi\"},\
{\"op\":\"clipEnd\",\"role\":\"plot-area\"}]}"
    );
}

#[test]
fn svg_sink_writes_canonical_shapes_and_interactions() {
    let mut sink = SvgSink::new(SvgWriter::new());
    sink.open_layer("algraf-layer-0");
    let paint = Paint::fill("#abc".to_string(), None);
    sink.rect(px(1), px(2), px(3), px(4), &paint);
    sink.begin_mark(tooltip_mark());
    sink.circle(px(5), px(6), 2500, &paint);
    sink.end_mark();
    sink.begin_mark(MarkInteraction {
        tooltip: None,
        highlight: None,
        event: Some(MarkEventInteraction {
            event: "pick".to_string(),
            emit_field: "id".to_string(),
            value: Some("7".to_string()),
        }),
    });
    sink.polygon("0,0 1,1", &paint);
    sink.end_mark();
    sink.line((0, 0, px(1), px(1)), "#000", -1, false, Some(800), Some(Dash::Dotted));
    sink.close_layer();
    sink.open_clip(Rect { x: 0, y: 0, width: px(10), height: px(10) });
    sink.geo_point(px(1), px(1), px(2), "navy", None);
    sink.close_clip();
    assert_eq!(sink.primitive_count(), 5);
    let svg = sink.into_writer().finish();
    assert_eq!(
        svg,
        "<g class=\"algraf-layer-0\">\n\
\x20 <rect x=\"1\" y=\"2\" width=\"3\" height=\"4\" fill=\"#abc\" />\n\
\x20 <circle cx=\"5\" cy=\"6\" r=\"2.5\" fill=\"#abc\" data-algraf-highlight=\"g&quot;1\"><title>a &lt; b</title></circle>\n\
\x20 <polygon points=\"0,0 1,1\" fill=\"#abc\" data-algraf-event=\"pick\" data-algraf-emit-field=\"id\" data-algraf-emit-value=\"7\" />\n\
\x20 <line x1=\"0\" y1=\"0\" x2=\"1\" y2=\"1\" stroke=\"#000\" stroke-width=\"0\" opacity=\"0.8\" stroke-dasharray=\"1 2\" />\n\
</g>\n\
<defs>\n\
<clipPath id=\"algraf-clip-0\"><rect x=\"0\" y=\"0\" width=\"10\" height=\"10\" /></clipPath>\n\
</defs>\n\
<g clip-path=\"url(#algraf-clip-0)\">\n\
\x20 <circle cx=\"1\" cy=\"1\" r=\"2\" fill=\"navy\"/>\n\
</g>\n"
    );
}

#[test]
fn draw_list_sink_records_roles_and_marks() {
    let mut sink = DrawListSink::new();
    sink.open_layer("algraf-axes");
    let paint = Paint::fill("#abc".to_string(), Some(900));
    sink.rect(0, 0, px(1), px(1), &paint);
    sink.close_layer();
    sink.begin_mark(tooltip_mark());
    sink.circle(0, 0, px(1), &paint);
    sink.end_mark();
    sink.begin_mark(MarkInteraction::default());
    sink.path("M0 0", &paint);
    sink.graticule_path("M1 1", "#ccc", -3, None);
    assert_eq!(sink.primitive_count(), 4);
    let ops = sink.into_ops();
    assert_eq!(ops[0].role(), DrawRole::Axis);
    assert_eq!(ops[1].role(), DrawRole::Mark);
    match &ops[1] {
        DrawOp::Circle { interaction, .. } => assert_eq!(interaction, &Some(tooltip_mark())),
        other => panic!("unexpected op {other:?}"),
    }
    match &ops[2] {
        DrawOp::Path { interaction, dash, .. } => {
            assert_eq!(interaction, &None);
            assert_eq!(dash, &None);
        }
        other => panic!("unexpected op {other:?}"),
    }
    match &ops[3] {
        DrawOp::Path { paint, .. } => assert_eq!(
            paint.stroke,
            Stroke::Solid { color: "#ccc".to_string(), width: 0 }
        ),
        other => panic!("unexpected op {other:?}"),
    }
}

#[test]
fn svg_sink_writes_images_circle_clips_and_geo_paths() {
    let mut sink = SvgSink::new(SvgWriter::new());
    sink.open_circle_clip(px(5), px(5), -1000);
    sink.image("a&b.png", px(1), px(2), px(-3), px(4), Some(500));
    sink.geo_path("M0 0L1 1Z", None, Some("#333"), 1500, None, true);
    sink.geo_path("M0 0L2 2", Some("red"), None, 0, Some(250), false);
    sink.close_clip();
    assert_eq!(sink.primitive_count(), 3);
    assert_eq!(
        sink.into_writer().finish(),
        "<defs>\n\
<clipPath id=\"algraf-clip-0\"><circle cx=\"5\" cy=\"5\" r=\"0\" /></clipPath>\n\
</defs>\n\
<g clip-path=\"url(#algraf-clip-0)\">\n\
\x20 <image href=\"a&amp;b.png\" x=\"1\" y=\"2\" width=\"0\" height=\"4\" opacity=\"0.5\" />\n\
\x20 <path d=\"M0 0L1 1Z\" fill=\"#4E79A7\" fill-rule=\"evenodd\" stroke=\"#333\" stroke-width=\"1.5\"/>\n\
\x20 <path d=\"M0 0L2 2\" fill=\"none\" opacity=\"0.25\"/>\n\
</g>\n"
    );
}

#[test]
fn draw_list_sink_records_geo_paths() {
    let mut sink = DrawListSink::new();
    sink.geo_path("M0 0Z", Some("teal"), None, 0, Some(300), true);
    sink.geo_path("M0 0L1 1", None, Some("#000"), -5, None, false);
    let ops = sink.into_ops();
    assert_eq!(
        ops[0],
        DrawOp::Path {
            role: DrawRole::Mark,
            d: "M0 0Z".to_string(),
            paint: Paint { fill: Fill::Color("teal".to_string()), stroke: Stroke::Omit, opacity: Some(300) },
            dash: None,
            interaction: None,
        }
    );
    assert_eq!(
        ops[1],
        DrawOp::Path {
            role: DrawRole::Mark,
            d: "M0 0L1 1".to_string(),
            paint: Paint {
                fill: Fill::NoFill,
                stroke: Stroke::Solid { color: "#000".to_string(), width: 0 },
                opacity: None
            },
            dash: None,
            interaction: None,
        }
    );
}

#[test]
fn svg_sink_writes_text_runs() {
    let mut sink = SvgSink::new(SvgWriter::new());
    sink.text(&TextRun {
        x: px(10),
        y: px(20),
        anchor: TextAnchor::Middle,
        rotate: Some((-45_000, px(10), px(20))),
        font_family: "system-ui, sans-serif",
        font_size: 12_000,
        font_weight: Some("bold"),
        italic: true,
        fill: "#222",
        opacity: Some(500),
        content: "a<b",
    });
    sink.text(&TextRun {
        x: px(10),
        y: px(5),
        anchor: TextAnchor::Start,
        rotate: None,
        font_family: "serif",
        font_size: 9_500,
        font_weight: None,
        italic: false,
        fill: "black",
        opacity: None,
        content: "one\r\ntwo\n",
    });
    assert_eq!(sink.primitive_count(), 2);
    assert_eq!(
        sink.into_writer().finish(),
        "<text x=\"10\" y=\"20\" text-anchor=\"middle\" transform=\"rotate(-45 10 20)\" \
font-family=\"system-ui, sans-serif\" font-size=\"12\" font-weight=\"bold\" font-style=\"italic\" \
fill=\"#222\" opacity=\"0.5\">a&lt;b</text>\n\
<text x=\"10\" y=\"5\" text-anchor=\"start\" font-family=\"serif\" font-size=\"9.5\" fill=\"black\">\
<tspan x=\"10\" dy=\"0\">one</tspan><tspan x=\"10\" dy=\"1.2em\">two</tspan>\
<tspan x=\"10\" dy=\"1.2em\"></tspan></text>\n"
    );
}

fn read_xml_text(s: &str) -> String {
    let mut out = String::new();
    let mut rest = s;
    while let Some(c) = rest.chars().next() {
        let mut matched = false;
        for (entity, ch) in [("&amp;", '&'), ("&lt;", '<'), ("&gt;", '>'), ("&quot;", '"'), ("&apos;", '\'')] {
            if rest.starts_with(entity) {
                out.push(ch);
                rest = &rest[entity.len()..];
                matched = true;
                break;
            }
        }
        if !matched {
            out.push(c);
            rest = &rest[c.len_utf8()..];
        }
    }
    out
}

#[test]
fn escaped_text_and_attributes_read_back() {
    for s in ["a<b & c>d", "&amp; stays literal", "quote \" and ' apostrophe", "", "plain"] {
        let t = escape_text(s);
        assert!(!t.contains('<') && !t.contains('>'));
        assert_eq!(read_xml_text(&t), s);
        let a = escape_attr(s);
        assert!(!a.contains('"'));
        assert_eq!(read_xml_text(&a), s);
    }
    assert_eq!(escape_text("&lt;"), "&amp;lt;");
}

fn read_json_string(lit: &str) -> String {
    let chars: Vec<char> = lit.chars().collect();
    assert!(chars.len() >= 2 && chars[0] == '"' && chars[chars.len() - 1] == '"');
    let body = &chars[1..chars.len() - 1];
    let mut out = String::new();
    let mut i = 0;
    while i < body.len() {
        if body[i] == '\\' {
            match body[i + 1] {
                'n' => out.push('\n'),
                'r' => out.push('\r'),
                't' => out.push('\t'),
                'b' => out.push('\u{8}'),
                'f' => out.push('\u{c}'),
                'u' => {
                    let hex: String = body[i + 2..i + 6].iter().collect();
                    out.push(char::from_u32(u32::from_str_radix(&hex, 16).unwrap()).unwrap());
                    i += 4;
                }
                c => out.push(c),
            }
            i += 2;
        } else {
            assert!(body[i] != '"' && (body[i] as u32) >= 0x20);
            out.push(body[i]);
            i += 1;
        }
    }
    out
}

#[test]
fn json_strings_read_back() {
    for s in ["plain", "say \"hi\"", "back\\slash", "line\nbreak\ttab\r", "\u{1}\u{1f}bell\u{7}", "é ü 中", ""] {
        let lit = json_string(s);
        assert_eq!(read_json_string(&lit), s);
    }
    assert_eq!(json_string("\u{1f}"), "\"\\u001f\"");
}
