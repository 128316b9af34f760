use csv::StringRecord;
use event_timeline::message::{CANMessage, ParseError};
use event_timeline::number::{
    digit_of, parse_decimal_i64, parse_decimal_u8, parse_hex_u32, parse_hex_u8, parse_integer_text,
};
use event_timeline::text::text_equals;

fn parse(fields: Vec<&str>, origin: i64) -> Result<CANMessage, ParseError> {
    CANMessage::parse_from(&StringRecord::from(fields), origin)
}

#[test]
fn row_without_marker_is_read() {
    let m = parse(vec!["1000", "1A0", "true", "2", "3", "de", "AD", "0f"], 0).unwrap();
    assert_eq!(m.timestamp, 1_000_000);
    assert_eq!(m.timestamp(), 1_000_000);
    assert_eq!(m.can_id, 0x1A0);
    assert!(m.is_extended_id);
    assert_eq!(m.bus_no, 2);
    assert_eq!(m.data, vec![0xde, 0xad, 0x0f]);
}

#[test]
fn timestamp_is_microseconds_times_thousand_less_origin() {
    let m = parse(vec!["123456", "7", "false", "0", "0"], 456).unwrap();
    assert_eq!(m.timestamp, 123_456 * 1000 - 456);
    let m = parse(vec!["-5", "7", "false", "0", "0"], -20_000).unwrap();
    assert_eq!(m.timestamp, 15_000);
    let m = parse(vec!["5", "7", "false", "0", "0"], 20_000).unwrap();
    assert_eq!(m.timestamp, -15_000);
}

#[test]
fn marker_present_or_absent_gives_the_same_frame() {
    let plain = parse(vec!["2000", "7ff", "false", "1", "2", "01", "02"], 500).unwrap();
    for marker in ["Tx", "Rx"] {
        let marked = parse(vec!["2000", "7ff", "false", marker, "1", "2", "01", "02"], 500).unwrap();
        assert_eq!(marked.timestamp, plain.timestamp);
        assert_eq!(marked.can_id, plain.can_id);
        assert_eq!(marked.is_extended_id, plain.is_extended_id);
        assert_eq!(marked.bus_no, plain.bus_no);
        assert_eq!(marked.data, plain.data);
    }
    assert_eq!(plain.timestamp, 1_999_500);
    assert_eq!(plain.bus_no, 1);
    assert_eq!(plain.data, vec![1, 2]);
}

#[test]
fn marker_is_matched_exactly() {
    // "tx" is no marker, so it is taken for the bus number
    assert_eq!(
        parse(vec!["1", "1", "true", "tx", "0", "0"], 0).unwrap_err(),
        ParseError::InvalidBus
    );
    // a marker at the end of the row leaves no bus number
    assert_eq!(parse(vec!["1", "1", "true", "Rx"], 0).unwrap_err(), ParseError::MissingBus);
}

#[test]
fn extended_flag_is_true_only_for_the_word_true() {
    assert!(parse(vec!["1", "1", "true", "0", "0"], 0).unwrap().is_extended_id);
    assert!(!parse(vec!["1", "1", "True", "0", "0"], 0).unwrap().is_extended_id);
    assert!(!parse(vec!["1", "1", "1", "0", "0"], 0).unwrap().is_extended_id);
    assert!(!parse(vec!["1", "1", "", "0", "0"], 0).unwrap().is_extended_id);
}

#[test]
fn payload_holds_at_most_eight_bytes() {
    let m = parse(
        vec!["1", "1", "true", "0", "8", "00", "01", "02", "03", "04", "05", "06", "07", "08", "zz"],
        0,
    )
    .unwrap();
    assert_eq!(m.data, vec![0, 1, 2, 3, 4, 5, 6, 7]);
    let m = parse(
        vec!["1", "1", "true", "Tx", "0", "8", "10", "11", "12", "13", "14", "15", "16", "17", "18"],
        0,
    )
    .unwrap();
    assert_eq!(m.data, vec![0x10, 0x11, 0x12, 0x13, 0x14, 0x15, 0x16, 0x17]);
}

#[test]
fn declared_length_is_not_looked_at() {
    let m = parse(vec!["1", "1", "true", "0", "8", "aa"], 0).unwrap();
    assert_eq!(m.data, vec![0xaa]);
    let m = parse(vec!["1", "1", "true", "0", "not a number", "aa", "bb"], 0).unwrap();
    assert_eq!(m.data, vec![0xaa, 0xbb]);
    let m = parse(vec!["1", "1", "true", "0", "0"], 0).unwrap();
    assert!(m.data.is_empty());
    // the declared length may be missing altogether
    let m = parse(vec!["1", "1", "true", "0"], 0).unwrap();
    assert!(m.data.is_empty());
}

#[test]
fn each_parse_error_has_its_row() {
    assert_eq!(parse(vec![], 0).unwrap_err(), ParseError::MissingTimestamp);
    assert_eq!(parse(vec!["x"], 0).unwrap_err(), ParseError::InvalidTimestamp);
    assert_eq!(parse(vec!["1.5", "1"], 0).unwrap_err(), ParseError::InvalidTimestamp);
    assert_eq!(parse(vec!["1"], 0).unwrap_err(), ParseError::MissingCanId);
    assert_eq!(parse(vec!["1", "xyz"], 0).unwrap_err(), ParseError::InvalidCanId);
    assert_eq!(parse(vec!["1", "100000000"], 0).unwrap_err(), ParseError::InvalidCanId);
    assert_eq!(parse(vec!["1", "1"], 0).unwrap_err(), ParseError::MissingExtendedFlag);
    assert_eq!(parse(vec!["1", "1", "true"], 0).unwrap_err(), ParseError::MissingBus);
    assert_eq!(parse(vec!["1", "1", "true", "256"], 0).unwrap_err(), ParseError::InvalidBus);
    assert_eq!(parse(vec!["1", "1", "true", "a"], 0).unwrap_err(), ParseError::InvalidBus);
    assert_eq!(
        parse(vec!["1", "1", "true", "0", "1", "0g"], 0).unwrap_err(),
        ParseError::InvalidData
    );
    assert_eq!(
        parse(vec!["1", "1", "true", "0", "1", "100"], 0).unwrap_err(),
        ParseError::InvalidData
    );
    assert_eq!(
        parse(vec!["9223372036854775807", "1", "true", "0", "0"], 0).unwrap_err(),
        ParseError::TimestampOutOfRange
    );
    assert_eq!(
        parse(vec!["0", "1", "true", "0", "0"], i64::MIN).unwrap_err(),
        ParseError::TimestampOutOfRange
    );
}

#[test]
fn earlier_field_at_fault_wins() {
    assert_eq!(parse(vec!["x", "xyz", "true", "a"], 0).unwrap_err(), ParseError::InvalidTimestamp);
    assert_eq!(parse(vec!["1", "xyz", "true", "a"], 0).unwrap_err(), ParseError::InvalidCanId);
    assert_eq!(
        parse(vec!["9223372036854775807", "1", "true", "0", "0", "zz"], 0).unwrap_err(),
        ParseError::InvalidData
    );
}

#[test]
fn timestamp_at_the_edge_of_the_range() {
    // 9223372036854775 * 1000 = 9223372036854775000 fits, with room for 807 more
    let m = parse(vec!["9223372036854775", "1", "true", "0", "0"], -807).unwrap();
    assert_eq!(m.timestamp, i64::MAX);
    assert_eq!(
        parse(vec!["9223372036854775", "1", "true", "0", "0"], -808).unwrap_err(),
        ParseError::TimestampOutOfRange
    );
    // the product alone is out of range, the difference is not
    let m = parse(vec!["9223372036854776", "1", "true", "0", "0"], 1000).unwrap();
    assert_eq!(m.timestamp, 9_223_372_036_854_775_000);
}

#[test]
fn parse_error_messages_name_the_field() {
    assert_eq!(ParseError::MissingTimestamp.message(), "Missing ts field");
    assert_eq!(ParseError::InvalidTimestamp.message(), "Invalid ts field");
    assert_eq!(ParseError::MissingCanId.message(), "Missing can id field");
    assert_eq!(ParseError::InvalidCanId.message(), "Invalid can id field");
    assert_eq!(ParseError::MissingExtendedFlag.message(), "Missing is_extended_id field");
    assert_eq!(ParseError::MissingBus.message(), "Missing bus field");
    assert_eq!(ParseError::InvalidBus.message(), "Invalid bus field");
    assert_eq!(ParseError::InvalidData.message(), "Error parsing CSV data field");
    assert_eq!(ParseError::TimestampOutOfRange.message(), "Timestamp out of range");
}

#[test]
fn decimal_text_is_read_as_the_standard_library_reads_it() {
    for s in [
        "0", "7", "-7", "+7", "007", "-0", "+0", "", "+", "-", "--1", "+-1", "1 ", " 1", "1_0",
        "12a", "9223372036854775807", "9223372036854775808", "-9223372036854775808",
        "-9223372036854775809", "99999999999999999999999999999", "0000000000000000000000000001",
        "١", "1é",
    ] {
        assert_eq!(parse_decimal_i64(s), s.parse::<i64>().ok(), "i64 {:?}", s);
        assert_eq!(parse_decimal_u8(s), s.parse::<u8>().ok(), "u8 {:?}", s);
    }
    assert_eq!(parse_decimal_i64("-42"), Some(-42));
    assert_eq!(parse_decimal_u8("255"), Some(255));
    assert_eq!(parse_decimal_u8("256"), None);
    assert_eq!(parse_decimal_u8("-1"), None);
}

#[test]
fn hexadecimal_text_is_read_as_the_standard_library_reads_it() {
    for s in [
        "0", "f", "F", "ff", "Ff", "100", "+ff", "-ff", "-0", "", "+", "-", "0x10", "g", "fg",
        "ffffffff", "100000000", "FFFFFFFF", "00000000000ff", " ff", "ff ", "ｆ",
    ] {
        assert_eq!(parse_hex_u32(s), u32::from_str_radix(s, 16).ok(), "u32 {:?}", s);
        assert_eq!(parse_hex_u8(s), u8::from_str_radix(s, 16).ok(), "u8 {:?}", s);
    }
    assert_eq!(parse_hex_u32("1A0"), Some(0x1A0));
    assert_eq!(parse_hex_u8("7f"), Some(0x7f));
}

#[test]
fn integer_text_within_given_bounds() {
    assert_eq!(parse_integer_text("-10", 10, -10, 10), Some(-10));
    assert_eq!(parse_integer_text("-11", 10, -10, 10), None);
    assert_eq!(parse_integer_text("10", 10, -10, 10), Some(10));
    assert_eq!(parse_integer_text("11", 10, -10, 10), None);
    assert_eq!(parse_integer_text("-a", 16, -10, 10), Some(-10));
    assert_eq!(parse_integer_text("-1", 10, 0, 10), None);
    assert_eq!(parse_integer_text("a", 10, 0, 10), None);
}

#[test]
fn digits_by_base() {
    assert_eq!(digit_of('0', 10), Some(0));
    assert_eq!(digit_of('9', 10), Some(9));
    assert_eq!(digit_of('a', 10), None);
    assert_eq!(digit_of('a', 16), Some(10));
    assert_eq!(digit_of('F', 16), Some(15));
    assert_eq!(digit_of('g', 16), None);
    assert_eq!(digit_of('/', 16), None);
    assert_eq!(digit_of(':', 16), None);
    assert_eq!(digit_of('@', 16), None);
    assert_eq!(digit_of('`', 16), None);
}

#[test]
fn texts_are_equal_character_by_character() {
    assert!(text_equals("", ""));
    assert!(text_equals("Tx", "Tx"));
    assert!(!text_equals("Tx", "Rx"));
    assert!(!text_equals("Tx", "Txx"));
    assert!(!text_equals("Tx", "T"));
    assert!(text_equals("é", "é"));
}
