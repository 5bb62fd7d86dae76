use netex_graph::error::CompileError;
use netex_graph::parser::NetexData;

#[test]
fn parse_minutes() {
    let result = NetexData::parse_minutes("12:34").unwrap();
    assert_eq!(result, 754);
}

#[test]
fn parse_day_bits_group() {
    let result = NetexData::parse_day_bits("1111111011".to_owned()).unwrap();
    assert_eq!(&result, &[127, 3]);
}

#[test]
fn parse_date() {
    let result = NetexData::parse_date("2022-06-13T00:00:00").unwrap();
    assert_eq!(result, 220613);
}

#[test]
fn parse_minutes_ignores_seconds() {
    assert_eq!(NetexData::parse_minutes("23:59:59").unwrap(), 1439);
    assert_eq!(NetexData::parse_minutes("00:00:00").unwrap(), 0);
}

#[test]
fn parse_minutes_rejects_malformed() {
    assert_eq!(NetexData::parse_minutes("1a:00"), Err(CompileError::MalformedField));
    assert_eq!(NetexData::parse_minutes("12:3"), Err(CompileError::MalformedField));
}

#[test]
fn parse_date_rejects_malformed() {
    assert_eq!(NetexData::parse_date("2022-06-1"), Err(CompileError::MalformedField));
    assert_eq!(NetexData::parse_date("2022-0x-13"), Err(CompileError::MalformedField));
}

#[test]
fn day_bits_pack_least_significant_first() {
    assert_eq!(NetexData::parse_day_bits("10000000".to_owned()).unwrap(), vec![1]);
    assert_eq!(NetexData::parse_day_bits("00000001".to_owned()).unwrap(), vec![128]);
    assert_eq!(
        NetexData::parse_day_bits("111111110000000001".to_owned()).unwrap(),
        vec![255, 0, 2]
    );
}

#[test]
fn day_bits_empty_and_malformed() {
    assert_eq!(NetexData::parse_day_bits(String::new()).unwrap(), Vec::<u8>::new());
    assert_eq!(
        NetexData::parse_day_bits("1102".to_owned()),
        Err(CompileError::MalformedField)
    );
}

#[test]
fn day_bit_group_reads_eight_characters() {
    assert_eq!(NetexData::parse_day_bit_group(b"01000000"), 2);
    assert_eq!(NetexData::parse_day_bit_group(b"111111111"), 255);
}

#[test]
fn fixed_width_fields_read_only_their_positions() {
    assert_eq!(NetexData::parse_minutes("12:34é"), Ok(754));
    assert_eq!(NetexData::parse_date("2022-06-13T00:00:00é"), Ok(220613));
    assert_eq!(NetexData::parse_minutes("é2:34"), Err(CompileError::MalformedField));
    assert_eq!(NetexData::parse_day_bits("1é".to_owned()), Err(CompileError::MalformedField));
}
