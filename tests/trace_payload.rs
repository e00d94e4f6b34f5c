use inkml::error::InkError;
use inkml::number::Decimal;
use inkml::trace_data::{ChannelData, TraceData};
use inkml::vocab::ChannelType;

fn ints(d: &ChannelData) -> Vec<i64> {
    match d {
        ChannelData::Integer(v) => v.clone(),
        other => panic!("expected integers, found {:?}", other),
    }
}

fn decode(types: Vec<ChannelType>, payload: &str) -> Result<Vec<ChannelData>, InkError> {
    let mut td = TraceData::from_channel_types(types);
    td.parse_raw_data(payload.to_string())?;
    Ok(td.data())
}

fn three_ints() -> Vec<ChannelType> {
    vec![ChannelType::Integer, ChannelType::Integer, ChannelType::Integer]
}

#[test]
fn explicit_single_sample() {
    let data = decode(three_ints(), "0 0 0").unwrap();
    assert_eq!(data.len(), 3);
    for col in &data {
        assert_eq!(ints(col), vec![0]);
    }
}

#[test]
fn single_difference_inherits() {
    let data = decode(three_ints(), "1 2 3,'1 '1 '1").unwrap();
    assert_eq!(ints(&data[0]), vec![1, 2]);
    assert_eq!(ints(&data[1]), vec![2, 3]);
    assert_eq!(ints(&data[2]), vec![3, 4]);
}

#[test]
fn double_difference_accumulates() {
    let data = decode(three_ints(), "10 20 30,\"1 \"2 \"3,\"1 \"2 \"3").unwrap();
    assert_eq!(ints(&data[0]), vec![10, 11, 13]);
    assert_eq!(ints(&data[1]), vec![20, 22, 26]);
    assert_eq!(ints(&data[2]), vec![30, 33, 39]);
}

#[test]
fn minus_splits_concatenated_values() {
    let data = decode(three_ints(), "0-12 0").unwrap();
    assert_eq!(ints(&data[0]), vec![0]);
    assert_eq!(ints(&data[1]), vec![-12]);
    assert_eq!(ints(&data[2]), vec![0]);
}

#[test]
fn bare_value_reuses_previous_modifier() {
    let data = decode(three_ints(), "5 5 5,'1 1 1,2 2 2").unwrap();
    assert_eq!(ints(&data[0]), vec![5, 6, 8]);
    assert_eq!(ints(&data[1]), vec![5, 6, 8]);
}

#[test]
fn trailing_comma_and_whitespace_are_ignored() {
    let data = decode(three_ints(), "1 2 3, ").unwrap();
    assert_eq!(ints(&data[0]), vec![1]);
    let data = decode(three_ints(), "1 2 3,").unwrap();
    assert_eq!(ints(&data[2]), vec![3]);
}

#[test]
fn empty_payload_has_no_sample() {
    let data = decode(three_ints(), "").unwrap();
    assert_eq!(ints(&data[0]), Vec::<i64>::new());
}

#[test]
fn decimal_and_bool_columns() {
    let data = decode(
        vec![ChannelType::Double, ChannelType::Bool],
        "1.5 T,'0.25 F",
    )
    .unwrap();
    match &data[0] {
        ChannelData::Double(v) => {
            assert_eq!(v[0], Decimal { mantissa: 15, scale: 1 });
            assert_eq!(v[1], Decimal { mantissa: 175, scale: 2 });
        }
        other => panic!("expected decimals, found {:?}", other),
    }
    match &data[1] {
        ChannelData::Bool(v) => assert_eq!(v, &vec![true, false]),
        other => panic!("expected booleans, found {:?}", other),
    }
}

#[test]
fn truncated_segment_fails() {
    assert!(matches!(decode(three_ints(), "1 2"), Err(InkError::TruncatedSegment)));
}

#[test]
fn unexpected_trailing_fails() {
    assert!(matches!(decode(three_ints(), "1 2 3 4"), Err(InkError::UnexpectedTrailing)));
}

#[test]
fn unexpected_char_fails() {
    assert!(matches!(decode(three_ints(), "1 x 3"), Err(InkError::UnexpectedChar('x'))));
}

#[test]
fn missing_previous_fails() {
    assert!(matches!(decode(three_ints(), "'1 2 3"), Err(InkError::MissingPrevious)));
}

#[test]
fn type_mismatch_fails() {
    assert!(matches!(decode(three_ints(), "T 2 3"), Err(InkError::TypeMismatch)));
    assert!(matches!(
        decode(vec![ChannelType::Bool], "1"),
        Err(InkError::TypeMismatch)
    ));
}

#[test]
fn invalid_number_fails() {
    assert!(matches!(decode(three_ints(), "1.5 2 3"), Err(InkError::InvalidNumber)));
}

#[test]
fn no_channel_fails() {
    assert!(matches!(decode(vec![], "1"), Err(InkError::MissingChannel)));
}

#[test]
fn integer_overflow_fails() {
    assert!(matches!(
        decode(vec![ChannelType::Integer], "9223372036854775807,'1"),
        Err(InkError::Overflow)
    ));
}

#[test]
fn minus_splits_the_first_value_in_four_columns() {
    let types = vec![
        ChannelType::Integer,
        ChannelType::Integer,
        ChannelType::Integer,
        ChannelType::Integer,
    ];
    let data = decode(types, "0-12 0 0").unwrap();
    assert_eq!(ints(&data[0]), vec![0]);
    assert_eq!(ints(&data[1]), vec![-12]);
    assert_eq!(ints(&data[2]), vec![0]);
    assert_eq!(ints(&data[3]), vec![0]);
    assert!(matches!(decode(three_ints(), "0-12 0 0"), Err(InkError::UnexpectedTrailing)));
}
