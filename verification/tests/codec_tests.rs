use recstream::codec::{decode_line, encode_line, ParseError};
use recstream::record::DataLine;

fn line(s: &str) -> Vec<u8> {
    s.as_bytes().to_vec()
}

#[test]
fn encode_length_announcement() {
    let r = DataLine { length_valid: true, length: 5, data_valid: false, data: 0 };
    let out = encode_line(&r);
    assert_eq!(out, line("1_00000000000000000000000000000101_0_00000000"));
}

#[test]
fn encode_data_byte() {
    let r = DataLine { length_valid: false, length: 0, data_valid: true, data: 0x41 };
    let out = encode_line(&r);
    assert_eq!(out, line("0_00000000000000000000000000000000_1_01000001"));
}

#[test]
fn encode_extreme_fields() {
    let r = DataLine { length_valid: true, length: u32::MAX, data_valid: true, data: 0xFF };
    let out = encode_line(&r);
    assert_eq!(out, line("1_11111111111111111111111111111111_1_11111111"));
}

#[test]
fn decode_underscore_separators() {
    let r = decode_line(&line("1_00000000000000000000000000000101_0_00000000")).unwrap();
    assert_eq!(r, DataLine { length_valid: true, length: 5, data_valid: false, data: 0 });
}

#[test]
fn decode_space_separators() {
    let r = decode_line(&line("1 00000000000000000000000000000101 0 00000000")).unwrap();
    assert_eq!(r, DataLine { length_valid: true, length: 5, data_valid: false, data: 0 });
}

#[test]
fn decode_mixed_separators() {
    let r = decode_line(&line("0 00000000000000000000000000000000_1 01000001")).unwrap();
    assert_eq!(r, DataLine { length_valid: false, length: 0, data_valid: true, data: 0x41 });
}

#[test]
fn decode_accepts_short_and_long_fields() {
    // Leading zeros are not required: any binary field whose value fits is accepted.
    let r = decode_line(&line("1_101_1_1")).unwrap();
    assert_eq!(r, DataLine { length_valid: true, length: 5, data_valid: true, data: 1 });
    let long = format!("1_{}101_0_0", "0".repeat(40));
    let r = decode_line(&line(&long)).unwrap();
    assert_eq!(r, DataLine { length_valid: true, length: 5, data_valid: false, data: 0 });
}

#[test]
fn codec_round_trip_records() {
    let records = vec![
        DataLine { length_valid: false, length: 0, data_valid: false, data: 0 },
        DataLine { length_valid: true, length: 0, data_valid: false, data: 0 },
        DataLine { length_valid: true, length: 7, data_valid: true, data: 0x7F },
        DataLine { length_valid: false, length: 0, data_valid: true, data: 0x00 },
        DataLine { length_valid: true, length: u32::MAX, data_valid: true, data: 0xFF },
    ];
    for r in records {
        assert_eq!(decode_line(&encode_line(&r)).unwrap(), r);
    }
}

#[test]
fn decode_too_few_tokens() {
    assert_eq!(decode_line(&line("1_01")), Err(ParseError::WrongTokenCount));
    assert_eq!(decode_line(&line("")), Err(ParseError::WrongTokenCount));
    assert_eq!(decode_line(&line("101")), Err(ParseError::WrongTokenCount));
}

#[test]
fn decode_too_many_tokens() {
    assert_eq!(decode_line(&line("1_0_1_0_0")), Err(ParseError::WrongTokenCount));
    assert_eq!(decode_line(&line("1_0_1_0 ")), Err(ParseError::WrongTokenCount));
}

#[test]
fn decode_bad_flag_digit() {
    assert_eq!(decode_line(&line("2_0_1_0")), Err(ParseError::BadFlagDigit));
    assert_eq!(decode_line(&line("10_0_1_0")), Err(ParseError::BadFlagDigit));
    assert_eq!(decode_line(&line("1_0_x_0")), Err(ParseError::BadFlagDigit));
}

#[test]
fn decode_non_binary_field() {
    assert_eq!(decode_line(&line("1_0a0_1_0")), Err(ParseError::NonBinaryField));
    assert_eq!(decode_line(&line("1__1_0")), Err(ParseError::NonBinaryField));
    assert_eq!(decode_line(&line("1_101_1_2")), Err(ParseError::NonBinaryField));
}

#[test]
fn decode_field_overflow() {
    // 33 binary digits with a leading 1: value 2^32, one past the length field.
    let too_long = format!("1_1{}_0_0", "0".repeat(32));
    assert_eq!(decode_line(&line(&too_long)), Err(ParseError::FieldOverflow));
    // 2^8 is one past the data field.
    assert_eq!(decode_line(&line("1_0_1_100000000")), Err(ParseError::FieldOverflow));
    // The largest values that still fit are accepted.
    let max = format!("1_{}_1_11111111", "1".repeat(32));
    assert_eq!(
        decode_line(&line(&max)).unwrap(),
        DataLine { length_valid: true, length: u32::MAX, data_valid: true, data: 0xFF }
    );
}

#[test]
fn record_from_byte() {
    let r = DataLine::from(0x41u8);
    assert_eq!(r, DataLine { length_valid: false, length: 0, data_valid: true, data: 0x41 });
}

#[test]
fn record_constructors() {
    assert_eq!(
        DataLine::length_record(9),
        DataLine { length_valid: true, length: 9, data_valid: false, data: 0 }
    );
    assert_eq!(
        DataLine::data_record(0x42),
        DataLine { length_valid: false, length: 0, data_valid: true, data: 0x42 }
    );
}
