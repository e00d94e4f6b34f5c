use inkml::brushes::PositiveFiniteFloat;
use inkml::xml_helpers::{get_id, get_ids, verify_channel_properties, XmlAttribute};
use inkml::error::{InkError, VocabularyKind};
use inkml::number::{parse_decimal, parse_int, parse_number, Decimal};
use inkml::vocab::{ChannelKind, ChannelType, ChannelUnit, ResolutionUnits};

fn s(v: &str) -> Option<String> {
    Some(v.to_string())
}

#[test]
fn channel_kinds_parse() {
    assert_eq!(ChannelKind::parse(&s("X")).unwrap(), ChannelKind::X);
    assert_eq!(ChannelKind::parse(&s("OTy")).unwrap(), ChannelKind::OTy);
    assert_eq!(
        ChannelKind::parse(&s("Z")),
        Err(InkError::InvalidVocabulary(VocabularyKind::Kind))
    );
    assert_eq!(
        ChannelKind::parse(&None),
        Err(InkError::InvalidVocabulary(VocabularyKind::Kind))
    );
    assert_eq!(ChannelKind::OE.name(), "OE");
}

#[test]
fn channel_types_and_units_parse() {
    assert_eq!(ChannelType::parse(&s("boolean")).unwrap(), ChannelType::Bool);
    assert_eq!(
        ChannelType::parse(&s("float")),
        Err(InkError::InvalidVocabulary(VocabularyKind::Type))
    );
    assert_eq!(ResolutionUnits::parse(&s("1/himetric")).unwrap(), ResolutionUnits::OneOverHimetric);
    assert_eq!(ChannelUnit::parse(&s("himetric")), Some(ChannelUnit::himetric));
    assert_eq!(ChannelUnit::parse(&s("inch")), None);
}

#[test]
fn default_units_follow_kind() {
    assert_eq!(ChannelKind::X.get_default_unit(), ChannelUnit::cm);
    assert_eq!(ChannelKind::F.get_default_resolution_unit(), ResolutionUnits::OneOverDev);
    assert_eq!(ChannelKind::OA.get_default_unit(), ChannelUnit::deg);
}

fn dec(m: i64, sc: u32) -> Decimal {
    Decimal { mantissa: m, scale: sc }
}

#[test]
fn conversion_table() {
    let v = dec(25, 1);
    assert_eq!(ChannelUnit::mm.convert_to(ChannelUnit::cm, v), Ok(dec(25, 2)));
    assert_eq!(ChannelUnit::m.convert_to(ChannelUnit::cm, v), Ok(dec(250, 0)));
    assert_eq!(ChannelUnit::himetric.convert_to(ChannelUnit::m, v), Ok(dec(25, 6)));
    assert_eq!(ChannelUnit::deg.convert_to(ChannelUnit::deg, v), Ok(v));
    assert_eq!(
        ChannelUnit::deg.convert_to(ChannelUnit::cm, v),
        Err(InkError::IncompatibleUnits(ChannelUnit::deg, ChannelUnit::cm))
    );
}

#[test]
fn conversion_round_trip_keeps_value() {
    let v = dec(1234567, 3);
    let there = ChannelUnit::m.convert_to(ChannelUnit::mm, v).unwrap();
    let back = ChannelUnit::mm.convert_to(ChannelUnit::m, there).unwrap();
    assert_eq!(back, v);
    let there = ChannelUnit::cm.convert_to(ChannelUnit::m, v).unwrap();
    let back = ChannelUnit::m.convert_to(ChannelUnit::cm, there).unwrap();
    assert_eq!(back, v);
}

fn chars(v: &str) -> Vec<char> {
    v.chars().collect()
}

#[test]
fn numbers_parse() {
    assert_eq!(parse_int(&chars("-12")), Some(-12));
    assert_eq!(parse_int(&chars("+7")), Some(7));
    assert_eq!(parse_int(&chars("9223372036854775808")), None);
    assert_eq!(parse_int(&chars("-9223372036854775808")), Some(i64::MIN));
    assert_eq!(parse_int(&chars("1.0")), None);
    assert_eq!(parse_decimal(&chars("-12.50")), Some(dec(-1250, 2)));
    assert_eq!(parse_decimal(&chars(".5")), Some(dec(5, 1)));
    assert_eq!(parse_decimal(&chars("3.")), Some(dec(3, 0)));
    assert_eq!(parse_decimal(&chars(".")), None);
    assert_eq!(parse_decimal(&chars("1.2.3")), None);
}

#[test]
fn attribute_lookup_takes_the_first_match() {
    let attrs = vec![
        XmlAttribute { name: "name".to_string(), value: "resolution".to_string() },
        XmlAttribute { name: "value".to_string(), value: "1000".to_string() },
        XmlAttribute { name: "name".to_string(), value: "other".to_string() },
    ];
    assert_eq!(get_id(&attrs, "name"), Some("resolution".to_string()));
    assert_eq!(get_id(&attrs, "units"), None);
    let ids = get_ids(&attrs, vec!["value", "name", "units"]);
    assert_eq!(ids, vec![Some("1000".to_string()), Some("resolution".to_string()), None]);
    assert!(!verify_channel_properties(&ids));
    let full = vec![s("X"), s("resolution"), s("10"), s("1/cm")];
    assert!(verify_channel_properties(&full));
    let other = vec![s("X"), s("width"), s("10"), s("1/cm")];
    assert!(!verify_channel_properties(&other));
}

#[test]
fn widths_compare_by_value() {
    assert_eq!(PositiveFiniteFloat::new(dec(50, 2)), PositiveFiniteFloat::new(dec(5, 1)));
    assert_ne!(PositiveFiniteFloat::new(dec(5, 1)), PositiveFiniteFloat::new(dec(5, 2)));
    assert_eq!(PositiveFiniteFloat::new(dec(0, 3)), PositiveFiniteFloat::new(dec(0, 0)));
}

#[test]
fn numbers_with_exponents_parse() {
    assert_eq!(parse_number(&chars("1e3")), Some(dec(1000, 0)));
    assert_eq!(parse_number(&chars("2.5E-1")), Some(dec(25, 2)));
    assert_eq!(parse_number(&chars("-4e+2")), Some(dec(-400, 0)));
    assert_eq!(parse_number(&chars("12.5")), Some(dec(125, 1)));
    assert_eq!(parse_number(&chars("1e")), None);
    assert_eq!(parse_number(&chars("e3")), None);
    assert_eq!(parse_number(&chars("1e99")), None);
}
