use recstream::record::DataLine;
use recstream::stream::{decode_records, DataStream};

fn length(n: u32) -> DataLine {
    DataLine { length_valid: true, length: n, data_valid: false, data: 0 }
}

fn data(b: u8) -> DataLine {
    DataLine { length_valid: false, length: 0, data_valid: true, data: b }
}

/// The checksum algorithm, written out as the design describes it, for
/// cross-checking the stream's output on larger inputs.
fn reference_checksum(msg: &[u8]) -> u32 {
    let mut a: u16 = 1;
    let mut b: u16 = 0;
    for d in msg {
        a = ((a as u32 + *d as u32) % 65521) as u16;
        b = (((b as u32 + a as u32) % 0x10000) % 65521) as u16;
    }
    ((b as u32) << 16) | (a as u32)
}

#[test]
fn single_message() {
    let records = vec![length(2), data(0x41), data(0x42)];
    let out = decode_records(records);
    assert_eq!(out.len(), 1);
    assert_eq!(out[0].1, b"AB".to_vec());
    // a: 1 -> 66 -> 132; b: 0 -> 66 -> 198; checksum (198 << 16) | 132.
    assert_eq!(out[0].0, 0x00C60084);
}

#[test]
fn checksum_of_initial_state_is_one() {
    let ds = DataStream::new(Vec::new());
    assert_eq!(ds.checksum(), 0x0000_0001);
}

#[test]
fn checksum_combines_accumulators() {
    let mut ds = DataStream::new(Vec::new());
    ds.a = 0x0084;
    ds.b = 0x00C6;
    assert_eq!(ds.checksum(), 0x00C60084);
    ds.reset();
    assert_eq!(ds.checksum(), 0x0000_0001);
    assert_eq!(ds.length, 0);
    assert!(ds.content.is_empty());
}

#[test]
fn zero_length_message_emits_nothing() {
    let records = vec![length(0), data(0x41), data(0x42)];
    assert!(decode_records(records).is_empty());
}

#[test]
fn dangling_partial_message_is_discarded() {
    let records = vec![length(3), data(0x41), data(0x42)];
    assert!(decode_records(records).is_empty());
}

#[test]
fn dropped_bytes_do_not_perturb_later_messages() {
    // A data byte with no message in progress is dropped: the following
    // message's content and checksum are exactly as if it never arrived.
    let records = vec![data(0xFF), data(0x13), length(2), data(0x41), data(0x42)];
    let out = decode_records(records);
    assert_eq!(out.len(), 1);
    assert_eq!(out[0].1, b"AB".to_vec());
    assert_eq!(out[0].0, 0x00C60084);
}

#[test]
fn length_announcement_overwrites_mid_message() {
    // A new announcement while collecting overwrites the owed count
    // without discarding the partial buffer.
    let records = vec![length(5), data(0x41), length(1), data(0x42)];
    let out = decode_records(records);
    assert_eq!(out.len(), 1);
    assert_eq!(out[0].1, b"AB".to_vec());
    assert_eq!(out[0].0, 0x00C60084);
}

#[test]
fn several_messages_have_independent_checksums() {
    let mut records = vec![length(2), data(0x41), data(0x42)];
    records.extend(vec![length(1), data(0x58)]);
    records.extend(vec![length(2), data(0x41), data(0x42)]);
    let out = decode_records(records);
    assert_eq!(out.len(), 3);
    assert_eq!(out[0].1, b"AB".to_vec());
    assert_eq!(out[1].1, b"X".to_vec());
    assert_eq!(out[2].1, b"AB".to_vec());
    // The first and third messages carry the same bytes, so the state
    // reset in between must give them the same checksum.
    assert_eq!(out[0].0, out[2].0);
    assert_eq!(out[1].0, reference_checksum(b"X"));
}

#[test]
fn next_yields_messages_then_none() {
    let records = vec![length(1), data(0x41), length(1), data(0x42)];
    let mut ds = DataStream::new(records);
    let first = ds.next().unwrap();
    assert_eq!(first.1, b"A".to_vec());
    let second = ds.next().unwrap();
    assert_eq!(second.1, b"B".to_vec());
    assert!(ds.next().is_none());
    assert!(ds.next().is_none());
}

#[test]
fn accumulator_wraparound_matches_reference() {
    // Enough 0xFF bytes drive the second accumulator through its 16-bit
    // wraparound before the modulus is applied.
    let n: usize = 300;
    let mut records = vec![length(n as u32)];
    let msg: Vec<u8> = std::iter::repeat(0xFF).take(n).collect();
    for b in &msg {
        records.push(data(*b));
    }
    let out = decode_records(records);
    assert_eq!(out.len(), 1);
    assert_eq!(out[0].1, msg);
    assert_eq!(out[0].0, reference_checksum(&msg));
}

#[test]
fn bytes_before_any_announcement_are_dropped() {
    let records = vec![data(0x41), data(0x42), data(0x43)];
    assert!(decode_records(records).is_empty());
}
