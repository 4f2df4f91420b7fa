use recstream::codec::{decode_line, encode_line};
use recstream::encoder::{encode_text, encode_text_line};
use recstream::record::DataLine;
use recstream::stream::decode_records;

#[test]
fn one_line_becomes_length_then_data_records() {
    let records = encode_text_line(&b"AB".to_vec());
    assert_eq!(
        records,
        vec![
            DataLine { length_valid: true, length: 2, data_valid: false, data: 0 },
            DataLine { length_valid: false, length: 0, data_valid: true, data: 0x41 },
            DataLine { length_valid: false, length: 0, data_valid: true, data: 0x42 },
        ]
    );
}

#[test]
fn empty_line_still_announces_its_length() {
    let records = encode_text_line(&Vec::new());
    assert_eq!(
        records,
        vec![DataLine { length_valid: true, length: 0, data_valid: false, data: 0 }]
    );
}

#[test]
fn text_records_concatenate_per_line() {
    let lines = vec![b"A".to_vec(), b"BC".to_vec()];
    let records = encode_text(&lines);
    let mut expected = encode_text_line(&b"A".to_vec());
    expected.extend(encode_text_line(&b"BC".to_vec()));
    assert_eq!(records, expected);
}

#[test]
fn encode_then_reconstruct_reproduces_content() {
    let lines = vec![b"Hello".to_vec(), b"stream world".to_vec(), b"!".to_vec()];
    let out = decode_records(encode_text(&lines));
    assert_eq!(out.len(), lines.len());
    for (pair, line) in out.iter().zip(lines.iter()) {
        assert_eq!(&pair.1, line);
    }
}

#[test]
fn empty_lines_are_skipped_on_reconstruction() {
    let lines = vec![b"A".to_vec(), Vec::new(), b"B".to_vec()];
    let out = decode_records(encode_text(&lines));
    assert_eq!(out.len(), 2);
    assert_eq!(out[0].1, b"A".to_vec());
    assert_eq!(out[1].1, b"B".to_vec());
}

#[test]
fn full_text_round_trip_through_the_codec() {
    // Content -> records -> text lines -> records -> messages.
    let lines = vec![b"first line".to_vec(), b"second".to_vec()];
    let records = encode_text(&lines);
    let mut text: Vec<Vec<u8>> = Vec::new();
    for r in &records {
        text.push(encode_line(r));
    }
    let mut back: Vec<DataLine> = Vec::new();
    for t in &text {
        back.push(decode_line(t).unwrap());
    }
    assert_eq!(back, records);
    let out = decode_records(back);
    assert_eq!(out.len(), 2);
    assert_eq!(out[0].1, b"first line".to_vec());
    assert_eq!(out[1].1, b"second".to_vec());
}

#[test]
fn arbitrary_bytes_round_trip() {
    let line: Vec<u8> = (1u8..=255).collect();
    let out = decode_records(encode_text_line(&line));
    assert_eq!(out.len(), 1);
    assert_eq!(out[0].1, line);
}
