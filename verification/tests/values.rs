use wpilog_reader::error::DecodeError;
use wpilog_reader::parser::{
    parse_array, parse_array_ref_with_len, parse_boolean, parse_double, parse_element,
    parse_float, parse_int64, parse_raw, parse_string_full,
};
use wpilog_reader::table::{decode_value, Cell};
use wpilog_reader::types::{DataType, ScalarKind, ValueKind};

#[test]
fn boolean_is_true_only_for_one() {
    assert_eq!(parse_boolean(&[1]).unwrap().1, true);
    assert_eq!(parse_boolean(&[0]).unwrap().1, false);
    assert_eq!(parse_boolean(&[2]).unwrap().1, false);
    assert_eq!(parse_boolean(&[0xff]).unwrap().1, false);
    let (rest, v) = parse_boolean(&[1, 7, 8]).unwrap();
    assert!(v);
    assert_eq!(rest, &[7, 8]);
    assert_eq!(parse_boolean(&[]).unwrap_err(), DecodeError::TruncatedInput);
}

#[test]
fn int64_is_signed_little_endian() {
    assert_eq!(parse_int64(&[1, 0, 0, 0, 0, 0, 0, 0]).unwrap().1, 1);
    assert_eq!(parse_int64(&[0xff; 8]).unwrap().1, -1);
    assert_eq!(parse_int64(&i64::MIN.to_le_bytes()).unwrap().1, i64::MIN);
    assert_eq!(parse_int64(&i64::MAX.to_le_bytes()).unwrap().1, i64::MAX);
    assert_eq!(parse_int64(&(-123456789012345i64).to_le_bytes()).unwrap().1, -123456789012345);
    assert_eq!(
        parse_int64(&[0x08, 0x07, 0x06, 0x05, 0x04, 0x03, 0x02, 0x01]).unwrap().1,
        0x0102030405060708
    );
    let (rest, _) = parse_int64(&[0, 0, 0, 0, 0, 0, 0, 0, 9]).unwrap();
    assert_eq!(rest, &[9]);
    assert_eq!(parse_int64(&[0; 7]).unwrap_err(), DecodeError::TruncatedInput);
}

#[test]
fn float_and_double_keep_the_bit_pattern() {
    let single = 1.5f32.to_le_bytes();
    let (rest, bits) = parse_float(&single).unwrap();
    assert!(rest.is_empty());
    assert_eq!(bits, 0x3fc0_0000);
    assert_eq!(f32::from_bits(bits), 1.5);
    let double = (-2.25f64).to_le_bytes();
    let (rest, bits) = parse_double(&double).unwrap();
    assert!(rest.is_empty());
    assert_eq!(bits, 0xc002_0000_0000_0000);
    assert_eq!(f64::from_bits(bits), -2.25);
    assert_eq!(parse_float(&[0; 3]).unwrap_err(), DecodeError::TruncatedInput);
    assert_eq!(parse_double(&[0; 7]).unwrap_err(), DecodeError::TruncatedInput);
    let nan = f64::NAN.to_le_bytes();
    assert!(f64::from_bits(parse_double(&nan).unwrap().1).is_nan());
}

#[test]
fn string_takes_the_whole_payload() {
    let (rest, s) = parse_string_full("grüß".as_bytes()).unwrap();
    assert!(rest.is_empty());
    assert_eq!(s, "grüß");
    let (rest, s) = parse_string_full(&[]).unwrap();
    assert!(rest.is_empty());
    assert_eq!(s, "");
}

#[test]
fn string_rejects_invalid_utf8() {
    assert_eq!(parse_string_full(&[0xff]).unwrap_err(), DecodeError::InvalidUtf8);
    assert_eq!(parse_string_full(&[b'a', 0xff, b'b']).unwrap_err(), DecodeError::InvalidUtf8);
    assert_eq!(parse_string_full(&[0xe2, 0x82]).unwrap_err(), DecodeError::InvalidUtf8);
    assert_eq!(parse_string_full(&[0xed, 0xa0, 0x80]).unwrap_err(), DecodeError::InvalidUtf8);
    assert_eq!(parse_string_full(&[0xc0, 0x80]).unwrap_err(), DecodeError::InvalidUtf8);
}

#[test]
fn raw_takes_the_whole_payload() {
    let (rest, v) = parse_raw(&[1, 2, 3]).unwrap();
    assert!(rest.is_empty());
    assert_eq!(v, &[1, 2, 3]);
}

fn int_of(v: &DataType) -> i64 {
    match v {
        DataType::Int64(x) => *x,
        _ => panic!("expected an int64"),
    }
}

#[test]
fn arrays_use_up_the_payload() {
    let mut bytes = Vec::new();
    for v in [3i64, -4, 5] {
        bytes.extend_from_slice(&v.to_le_bytes());
    }
    let (rest, values) = parse_array(ScalarKind::Int64, &bytes).unwrap();
    assert!(rest.is_empty());
    assert_eq!(values.len(), 3);
    assert_eq!(int_of(&values[0]), 3);
    assert_eq!(int_of(&values[1]), -4);
    assert_eq!(int_of(&values[2]), 5);

    let (_, bools) = parse_array(ScalarKind::Boolean, &[1, 0, 2]).unwrap();
    assert_eq!(bools.len(), 3);
    assert!(matches!(bools[0], DataType::Boolean(true)));
    assert!(matches!(bools[1], DataType::Boolean(false)));
    assert!(matches!(bools[2], DataType::Boolean(false)));

    let mut fl = Vec::new();
    fl.extend_from_slice(&0.5f32.to_le_bytes());
    fl.extend_from_slice(&(-1.0f32).to_le_bytes());
    let (_, floats) = parse_array(ScalarKind::Float, &fl).unwrap();
    assert_eq!(floats.len(), 2);
    assert!(matches!(floats[0], DataType::Float(b) if f32::from_bits(b) == 0.5));
    assert!(matches!(floats[1], DataType::Float(b) if f32::from_bits(b) == -1.0));

    let eight = 8.0f64.to_le_bytes();
    let (_, doubles) = parse_array(ScalarKind::Double, &eight).unwrap();
    assert_eq!(doubles.len(), 1);
    assert!(matches!(doubles[0], DataType::Double(b) if f64::from_bits(b) == 8.0));

    let (rest, none) = parse_array(ScalarKind::Double, &[]).unwrap();
    assert!(rest.is_empty());
    assert!(none.is_empty());
}

#[test]
fn array_length_must_be_a_multiple_of_the_width() {
    assert_eq!(parse_array(ScalarKind::Int64, &[0; 9]).unwrap_err(), DecodeError::ArrayLengthMismatch);
    assert_eq!(parse_array(ScalarKind::Int64, &[0; 7]).unwrap_err(), DecodeError::ArrayLengthMismatch);
    assert_eq!(parse_array(ScalarKind::Float, &[0; 6]).unwrap_err(), DecodeError::ArrayLengthMismatch);
    assert_eq!(parse_array(ScalarKind::Double, &[0; 12]).unwrap_err(), DecodeError::ArrayLengthMismatch);
    assert!(parse_array(ScalarKind::Float, &[0; 12]).is_ok());
}

#[test]
fn element_widths() {
    assert_eq!(ScalarKind::Boolean.width(), 1);
    assert_eq!(ScalarKind::Int64.width(), 8);
    assert_eq!(ScalarKind::Float.width(), 4);
    assert_eq!(ScalarKind::Double.width(), 8);
    let (rest, v) = parse_element(ScalarKind::Float, &[0, 0, 0x80, 0x3f, 5]).unwrap();
    assert_eq!(rest, &[5]);
    assert!(matches!(v, DataType::Float(0x3f80_0000)));
    assert_eq!(parse_element(ScalarKind::Int64, &[0; 4]).unwrap_err(), DecodeError::TruncatedInput);
}

fn text_array(items: &[&str]) -> Vec<u8> {
    let mut out = (items.len() as u32).to_le_bytes().to_vec();
    for s in items {
        out.extend_from_slice(&(s.len() as u32).to_le_bytes());
        out.extend_from_slice(s.as_bytes());
    }
    out
}

#[test]
fn string_array_is_counted() {
    let bytes = text_array(&["a", "", "xyz"]);
    let (rest, items) = parse_array_ref_with_len(&bytes).unwrap();
    assert!(rest.is_empty());
    assert_eq!(items, vec!["a", "", "xyz"]);
    let empty = text_array(&[]);
    let (_, none) = parse_array_ref_with_len(&empty).unwrap();
    assert!(none.is_empty());
}

#[test]
fn string_array_errors() {
    let bytes = text_array(&["a", "bc"]);
    assert_eq!(parse_array_ref_with_len(&bytes[..2]).unwrap_err(), DecodeError::TruncatedInput);
    assert_eq!(parse_array_ref_with_len(&bytes[..bytes.len() - 1]).unwrap_err(), DecodeError::TruncatedInput);
    let mut more = bytes.clone();
    more.push(0);
    assert_eq!(parse_array_ref_with_len(&more).unwrap_err(), DecodeError::TrailingData);
    let mut short = bytes.clone();
    short[0] = 3;
    assert_eq!(parse_array_ref_with_len(&short).unwrap_err(), DecodeError::TruncatedInput);
    let bad = [1u8, 0, 0, 0, 1, 0, 0, 0, 0xff];
    assert_eq!(parse_array_ref_with_len(&bad).unwrap_err(), DecodeError::InvalidUtf8);
}

#[test]
fn type_tags_resolve_to_kinds() {
    assert_eq!(ValueKind::from_tag("boolean"), ValueKind::Boolean);
    assert_eq!(ValueKind::from_tag("int64"), ValueKind::Int64);
    assert_eq!(ValueKind::from_tag("float"), ValueKind::Float);
    assert_eq!(ValueKind::from_tag("double"), ValueKind::Double);
    assert_eq!(ValueKind::from_tag("string"), ValueKind::Text);
    assert_eq!(ValueKind::from_tag("boolean[]"), ValueKind::BooleanArray);
    assert_eq!(ValueKind::from_tag("int64[]"), ValueKind::Int64Array);
    assert_eq!(ValueKind::from_tag("float[]"), ValueKind::FloatArray);
    assert_eq!(ValueKind::from_tag("double[]"), ValueKind::DoubleArray);
    assert_eq!(ValueKind::from_tag("string[]"), ValueKind::TextArray);
    assert_eq!(ValueKind::from_tag("json"), ValueKind::Opaque);
    assert_eq!(ValueKind::from_tag(""), ValueKind::Opaque);
    assert_eq!(ValueKind::from_tag("Boolean"), ValueKind::Opaque);
    assert_eq!(ValueKind::from_tag("int64 "), ValueKind::Opaque);
    assert_eq!(ValueKind::from_tag("struct:Pose2d[]"), ValueKind::Opaque);
}

#[test]
fn kinds_know_their_elements() {
    assert_eq!(ValueKind::BooleanArray.element(), Some(ScalarKind::Boolean));
    assert_eq!(ValueKind::Int64Array.element(), Some(ScalarKind::Int64));
    assert_eq!(ValueKind::FloatArray.element(), Some(ScalarKind::Float));
    assert_eq!(ValueKind::DoubleArray.element(), Some(ScalarKind::Double));
    assert_eq!(ValueKind::TextArray.element(), None);
    assert_eq!(ValueKind::Int64.element(), None);
    assert_eq!(ValueKind::BooleanArray.element_width(), 1);
    assert_eq!(ValueKind::Int64Array.element_width(), 8);
    assert_eq!(ValueKind::FloatArray.element_width(), 4);
    assert_eq!(ValueKind::DoubleArray.element_width(), 8);
    assert_eq!(ValueKind::Text.element_width(), 0);
    assert_eq!(ValueKind::Opaque.element_width(), 0);
}

#[test]
fn values_decode_by_kind() {
    assert!(matches!(decode_value(ValueKind::Boolean, &[1]).unwrap(), Cell::Value(DataType::Boolean(true))));
    assert!(matches!(
        decode_value(ValueKind::Int64, &(-9i64).to_le_bytes()).unwrap(),
        Cell::Value(DataType::Int64(-9))
    ));
    assert!(matches!(decode_value(ValueKind::Text, b"hi").unwrap(), Cell::Value(DataType::String("hi"))));
    match decode_value(ValueKind::Opaque, &[1, 2]).unwrap() {
        Cell::Value(DataType::Raw(b)) => assert_eq!(b, &[1, 2]),
        _ => panic!("expected raw bytes"),
    }
    match decode_value(ValueKind::BooleanArray, &[1, 0]).unwrap() {
        Cell::List(vs) => assert_eq!(vs.len(), 2),
        _ => panic!("expected a list"),
    }
    match decode_value(ValueKind::TextArray, &text_array(&["p", "q"])).unwrap() {
        Cell::TextList(ts) => assert_eq!(ts, vec!["p", "q"]),
        _ => panic!("expected a text list"),
    }
    assert_eq!(decode_value(ValueKind::Text, &[0xff]).unwrap_err(), DecodeError::InvalidUtf8);
    assert_eq!(decode_value(ValueKind::Int64, &[1, 2]).unwrap_err(), DecodeError::TruncatedInput);
    assert_eq!(decode_value(ValueKind::DoubleArray, &[0; 9]).unwrap_err(), DecodeError::ArrayLengthMismatch);
}
