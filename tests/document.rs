use inkml::error::InkError;
use inkml::number::{Decimal, Rational};
use inkml::parser::{parse_formatted, parser};
use inkml::trace_data::ChannelData;

fn as_f64(r: &Rational) -> f64 {
    r.num as f64 / r.den as f64
}

fn values(v: &[Rational]) -> Vec<f64> {
    v.iter().map(as_f64).collect()
}

fn close(a: &[f64], b: &[f64]) -> bool {
    a.len() == b.len() && a.iter().zip(b).all(|(x, y)| (x - y).abs() < 1e-9)
}

const PRESSURE_CONTEXT: &str = "<context xml:id=\"ctx0\"><inkSource xml:id=\"inkSrc0\"><traceFormat>\
    <channel name=\"X\" type=\"integer\" units=\"cm\"/>\
    <channel name=\"Y\" type=\"integer\" units=\"cm\"/>\
    <channel name=\"F\" type=\"integer\" max=\"32767\" units=\"dev\"/>\
    </traceFormat><channelProperties>\
    <channelProperty channel=\"X\" name=\"resolution\" value=\"1000\" units=\"1/cm\"/>\
    <channelProperty channel=\"Y\" name=\"resolution\" value=\"1000\" units=\"1/cm\"/>\
    <channelProperty channel=\"F\" name=\"resolution\" value=\"0\" units=\"1/dev\"/>\
    </channelProperties></inkSource></context>";

fn document(definitions: &str, traces: &str) -> Vec<u8> {
    format!(
        "<ink xmlns=\"http://www.w3.org/2003/InkML\"><definitions>{}</definitions>{}</ink>",
        definitions, traces
    )
    .into_bytes()
}

#[test]
fn minimal_round_trip_document() {
    let defs = format!(
        "{}<brush xml:id=\"br1\"><brushProperty name=\"width\" value=\"0.5\" units=\"cm\"/>\
         <brushProperty name=\"color\" value=\"#000000\"/></brush>",
        PRESSURE_CONTEXT
    );
    let doc = document(
        &defs,
        "<trace contextRef=\"#ctx0\" brushRef=\"#br1\">500 500 16383,'500 '500 '0</trace>",
    );
    let strokes = parse_formatted(&doc).unwrap();
    assert_eq!(strokes.len(), 1);
    let (s, b) = &strokes[0];
    assert!(close(&values(&s.x), &[0.5, 1.0]));
    assert!(close(&values(&s.y), &[0.5, 1.0]));
    let f = 16383.0 / 32767.0;
    assert!(close(&values(&s.f), &[f, f]));
    assert_eq!(b.name, "br1");
    assert_eq!(b.stroke_width, Decimal { mantissa: 5, scale: 1 });
    assert_eq!(b.color, (0, 0, 0));
}

#[test]
fn missing_pressure_channel_gives_ones() {
    let defs = "<context xml:id=\"ctx0\"><traceFormat>\
    <channel name=\"X\" type=\"integer\"/><channel name=\"Y\" type=\"integer\"/>\
    </traceFormat><channelProperties>\
    <channelProperty channel=\"X\" name=\"resolution\" value=\"1000\" units=\"1/cm\"/>\
    <channelProperty channel=\"Y\" name=\"resolution\" value=\"1000\" units=\"1/cm\"/>\
    </channelProperties></context>";
    let doc = document(defs, "<trace>1000 2000,'1000 '0</trace>");
    let strokes = parse_formatted(&doc).unwrap();
    assert_eq!(strokes.len(), 1);
    let (s, b) = &strokes[0];
    assert!(close(&values(&s.x), &[1.0, 2.0]));
    assert!(close(&values(&s.y), &[2.0, 2.0]));
    assert!(close(&values(&s.f), &[1.0, 1.0]));
    assert_eq!(b.name, "br0");
    assert_eq!(b.color, (255, 255, 255));
    assert!(b.ignorepressure);
    assert_eq!(b.stroke_width, Decimal { mantissa: 1, scale: 1 });
}

#[test]
fn color_and_transparency_parse() {
    let defs = "<brush xml:id=\"br1\"><brushProperty name=\"color\" value=\"#FF8040\"/>\
    <brushProperty name=\"transparency\" value=\"300\"/>\
    <brushProperty name=\"ignorePressure\" value=\"true\"/></brush>";
    let res = parser(&document(defs, "")).unwrap();
    assert_eq!(res.context_brush.len(), 1);
    let b = &res.context_brush[0];
    assert_eq!(b.color, (255, 128, 64));
    assert_eq!(b.transparency, 255);
    assert!(b.ignorepressure);
}

#[test]
fn brush_without_width_closes_at_a_millimetre() {
    let defs = "<brush xml:id=\"br1\"><brushProperty name=\"color\" value=\"#102030\"/></brush>";
    let res = parser(&document(defs, "")).unwrap();
    assert_eq!(res.context_brush[0].stroke_width, Decimal { mantissa: 1, scale: 1 });
}

#[test]
fn brush_width_takes_the_larger_dimension_in_cm() {
    let defs = "<brush xml:id=\"br1\"><brushProperty name=\"width\" value=\"2\" units=\"mm\"/>\
    <brushProperty name=\"height\" value=\"500\" units=\"himetric\"/></brush>";
    let res = parser(&document(defs, "")).unwrap();
    assert_eq!(res.context_brush[0].stroke_width, Decimal { mantissa: 500, scale: 3 });
}

#[test]
fn trace_without_brush_ref_is_ambiguous() {
    let defs = format!(
        "{}<brush xml:id=\"a\"/><brush xml:id=\"b\"/>",
        PRESSURE_CONTEXT
    );
    let doc = document(&defs, "<trace contextRef=\"#ctx0\">1 2 3</trace>");
    assert!(matches!(parser(&doc), Err(InkError::AmbiguousBrush)));
    assert!(matches!(parse_formatted(&doc), Err(InkError::AmbiguousBrush)));
}

#[test]
fn trace_format_alone_synthesizes_a_context() {
    let defs = "<traceFormat><channel name=\"X\" type=\"integer\"/><channel name=\"Y\" type=\"integer\"/></traceFormat>";
    let res = parser(&document(defs, "<trace>10 20</trace>")).unwrap();
    assert_eq!(res.context_dict.len(), 1);
    assert_eq!(res.context_dict[0].name, "ctx0");
    assert_eq!(res.context_dict[0].channel_list.len(), 2);
    assert_eq!(res.context_brush_data_vec.len(), 1);
    let (ctx, brush, data) = &res.context_brush_data_vec[0];
    assert_eq!(ctx, "ctx0");
    assert_eq!(brush, "br0");
    assert!(matches!(&data[0], ChannelData::Integer(v) if v == &vec![10]));
    assert!(matches!(&data[1], ChannelData::Integer(v) if v == &vec![20]));
}

#[test]
fn samples_follow_the_context_columns() {
    let defs = "<traceFormat><channel name=\"X\" type=\"integer\"/><channel name=\"Y\" type=\"decimal\"/><channel name=\"F\" type=\"boolean\"/></traceFormat>";
    let res = parser(&document(defs, "<trace>1 2.5 T</trace>")).unwrap();
    let (_, _, data) = &res.context_brush_data_vec[0];
    assert_eq!(data.len(), 3);
    assert!(matches!(&data[0], ChannelData::Integer(_)));
    assert!(matches!(&data[1], ChannelData::Double(_)));
    assert!(matches!(&data[2], ChannelData::Bool(_)));
}

#[test]
fn duplicate_ids_fail() {
    let doc = document("<context xml:id=\"c\"/><context xml:id=\"c\"/>", "");
    assert!(matches!(parser(&doc), Err(InkError::DuplicateContext)));
    let doc = document("<brush xml:id=\"b\"/><brush xml:id=\"b\"/>", "");
    assert!(matches!(parser(&doc), Err(InkError::DuplicateBrush)));
}

#[test]
fn unknown_brush_reference_fails() {
    let doc = document(PRESSURE_CONTEXT, "<trace brushRef=\"#nope\">1 2 3</trace>");
    assert!(matches!(parser(&doc), Err(InkError::MissingBrush)));
}

#[test]
fn unknown_context_reference_fails() {
    let doc = document(PRESSURE_CONTEXT, "<trace contextRef=\"#other\">1 2 3</trace>");
    assert!(matches!(parser(&doc), Err(InkError::UnknownContext)));
}

#[test]
fn bad_brush_properties_fail() {
    let bad_color = "<brush xml:id=\"b\"><brushProperty name=\"color\" value=\"#12345\"/></brush>";
    assert!(matches!(parser(&document(bad_color, "")), Err(InkError::InvalidColor)));
    let bad_flag = "<brush xml:id=\"b\"><brushProperty name=\"ignorePressure\" value=\"yes\"/></brush>";
    assert!(matches!(parser(&document(bad_flag, "")), Err(InkError::InvalidBoolean)));
    let bad_units = "<brush xml:id=\"b\"><brushProperty name=\"width\" value=\"1\" units=\"deg\"/></brush>";
    assert!(matches!(
        parser(&document(bad_units, "")),
        Err(InkError::IncompatibleUnits(_, _))
    ));
    let no_units = "<brush xml:id=\"b\"><brushProperty name=\"width\" value=\"1\"/></brush>";
    assert!(matches!(parser(&document(no_units, "")), Err(InkError::MissingAttribute)));
}

#[test]
fn property_for_absent_channel_fails() {
    let defs = "<context xml:id=\"c\"><traceFormat><channel name=\"X\" type=\"integer\"/></traceFormat><channelProperty channel=\"Y\" name=\"resolution\" value=\"10\" units=\"1/cm\"/></context>";
    assert!(matches!(parser(&document(defs, "")), Err(InkError::MissingChannel)));
}

#[test]
fn malformed_xml_fails() {
    assert!(matches!(parser(b"<ink><trace></ink>"), Err(InkError::XmlError(_))));
}

#[test]
fn closing_brush_without_opening_fails() {
    assert!(matches!(parser(b"<ink><trace></trace></brush></ink>"), Err(_)));
}

#[test]
fn record_without_x_is_skipped() {
    let defs = "<traceFormat><channel name=\"F\" type=\"integer\"/></traceFormat>";
    let strokes = parse_formatted(&document(defs, "<trace>5</trace>")).unwrap();
    assert!(strokes.is_empty());
}

#[test]
fn zero_resolution_has_no_scaling() {
    let defs = "<context xml:id=\"ctx0\"><traceFormat><channel name=\"X\" type=\"integer\"/><channel name=\"Y\" type=\"integer\"/></traceFormat><channelProperties><channelProperty channel=\"X\" name=\"resolution\" value=\"0\" units=\"1/cm\"/></channelProperties></context>";
    let r = parse_formatted(&document(defs, "<trace>1 1</trace>"));
    assert!(matches!(r, Err(InkError::DegenerateScaling)));
}

#[test]
fn resolution_units_scale_positions() {
    let defs = "<context xml:id=\"ctx0\"><traceFormat><channel name=\"X\" type=\"integer\"/><channel name=\"Y\" type=\"decimal\"/></traceFormat><channelProperties><channelProperty channel=\"X\" name=\"resolution\" value=\"10\" units=\"1/mm\"/><channelProperty channel=\"Y\" name=\"resolution\" value=\"2\" units=\"1/himetric\"/></channelProperties></context>";
    let strokes = parse_formatted(&document(defs, "<trace>25 4.5</trace>")).unwrap();
    let (s, _) = &strokes[0];
    assert!(close(&values(&s.x), &[0.25]));
    assert!(close(&values(&s.y), &[0.00225]));
}

#[test]
fn brush_property_outside_a_brush_fails() {
    let doc = document("<brushProperty name=\"color\" value=\"#000000\"/>", "");
    assert!(matches!(parser(&doc), Err(InkError::MalformedDocument)));
}

#[test]
fn bad_transparency_fails() {
    let defs = "<brush xml:id=\"b\"><brushProperty name=\"transparency\" value=\"70000\"/></brush>";
    assert!(matches!(parser(&document(defs, "")), Err(InkError::InvalidNumber)));
    let defs = "<brush xml:id=\"b\"><brushProperty name=\"transparency\" value=\"-1\"/></brush>";
    assert!(matches!(parser(&document(defs, "")), Err(InkError::InvalidNumber)));
}

#[test]
fn record_with_unknown_brush_fails_to_format() {
    let defs = "<traceFormat><channel name=\"X\" type=\"integer\"/><channel name=\"Y\" type=\"integer\"/></traceFormat>";
    let mut res = parser(&document(defs, "<trace>1 2</trace>")).unwrap();
    res.context_brush_data_vec[0].1 = "missing".to_string();
    assert!(matches!(
        inkml::parser::format_result(&res),
        Err(InkError::UnknownBrush)
    ));
}

#[test]
fn unknown_properties_and_elements_are_ignored() {
    let defs = "<brush xml:id=\"b\"><brushProperty name=\"tip\" value=\"ellipse\"/></brush><foo/>";
    let res = parser(&document(defs, "")).unwrap();
    assert_eq!(res.context_brush.len(), 1);
    assert_eq!(res.context_brush[0].color, (0, 0, 0));
}

#[test]
fn attribute_numbers_may_use_exponents() {
    let defs = "<context xml:id=\"ctx0\"><traceFormat><channel name=\"X\" type=\"integer\"/><channel name=\"Y\" type=\"integer\"/></traceFormat><channelProperties><channelProperty channel=\"X\" name=\"resolution\" value=\"1e3\" units=\"1/cm\"/><channelProperty channel=\"Y\" name=\"resolution\" value=\"1E3\" units=\"1/cm\"/></channelProperties></context><brush xml:id=\"b\"><brushProperty name=\"width\" value=\"5e-1\" units=\"cm\"/></brush>";
    let strokes = parse_formatted(&document(defs, "<trace>500 1500</trace>")).unwrap();
    let (s, b) = &strokes[0];
    assert!(close(&values(&s.x), &[0.5]));
    assert!(close(&values(&s.y), &[1.5]));
    assert_eq!(b.stroke_width, Decimal { mantissa: 5, scale: 1 });
}
