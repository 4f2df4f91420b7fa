//! The byte-stream encoder: the one-shot transform from text content to
//! the record sequence that the reconstructor turns back into that
//! content.
//!
//! Each content line becomes one length announcement carrying the line's
//! byte count, followed by one data record per byte of the line. A line
//! of length zero still emits its announcement, which produces no
//! completed message on decode.

use vstd::prelude::*;

use crate::record::{spec_data_record, spec_length_record, DataLine};
use crate::stream::{checksum_of, run, run_from, lemma_run_from_skip};

verus! {

/// One data record per byte of the line, in order.
pub open spec fn data_records(line: Seq<u8>) -> Seq<DataLine> {
    line.map(|i: int, b: u8| spec_data_record(b))
}

/// The records that encode one content line: its length announcement,
/// then its data records.
pub open spec fn line_records(line: Seq<u8>) -> Seq<DataLine> {
    seq![spec_length_record(line.len() as u32)] + data_records(line)
}

/// The records that encode a whole text, line by line.
pub open spec fn text_records(lines: Seq<Seq<u8>>) -> Seq<DataLine>
    decreases lines.len(),
{
    if lines.len() == 0 {
        Seq::empty()
    } else {
        line_records(lines[0]) + text_records(lines.skip(1))
    }
}

/// The byte sequences of a vector of lines.
pub open spec fn lines_view(lines: Seq<Vec<u8>>) -> Seq<Seq<u8>> {
    lines.map(|i: int, l: Vec<u8>| l@)
}

/// Encodes one content line as its record sequence.
pub fn encode_text_line(line: &Vec<u8>) -> (out: Vec<DataLine>)
    requires
        line@.len() <= u32::MAX,
    ensures
        out@ == line_records(line@),
{
    let mut out: Vec<DataLine> = Vec::new();
    out.push(DataLine::length_record(line.len() as u32));
    let mut i: usize = 0;
    while i < line.len()
        invariant
            i <= line@.len() <= u32::MAX,
            out@.len() == 1 + i,
            out@[0] == spec_length_record(line@.len() as u32),
            forall|j: int| 0 <= j < i ==> #[trigger] out@[1 + j] == spec_data_record(line@[j]),
        decreases line@.len() - i,
    {
        out.push(DataLine::data_record(line[i]));
        i = i + 1;
    }
    proof {
        assert forall|j: int| 0 <= j < out@.len() implies out@[j] == line_records(line@)[j] by {
            if j >= 1 {
                let k = j - 1;
                assert(out@[1 + k] == spec_data_record(line@[k]));
            }
        }
        assert(out@ =~= line_records(line@));
    }
    out
}

/// Encodes a whole text, line by line, as one record sequence.
#[verifier::loop_isolation(false)]
pub fn encode_text(lines: &Vec<Vec<u8>>) -> (out: Vec<DataLine>)
    requires
        forall|i: int| 0 <= i < lines@.len() ==> (#[trigger] lines@[i])@.len() <= u32::MAX,
    ensures
        out@ == text_records(lines_view(lines@)),
{
    let ghost lv = lines_view(lines@);
    let mut out: Vec<DataLine> = Vec::new();
    let mut i: usize = 0;
    proof {
        assert(out@ =~= text_records(lv.take(0)));
    }
    while i < lines.len()
        invariant
            i <= lines@.len(),
            out@ == text_records(lv.take(i as int)),
        decreases lines@.len() - i,
    {
        let mut lr = encode_text_line(&lines[i]);
        proof {
            lemma_text_records_push(lv.take(i as int), lv[i as int]);
            assert(lv.take(i + 1) =~= lv.take(i as int).push(lv[i as int]));
        }
        out.append(&mut lr);
        i = i + 1;
    }
    proof {
        assert(lv.take(lines@.len() as int) =~= lv);
    }
    out
}

/// Appending one more line to a text appends that line's records.
pub proof fn lemma_text_records_push(lines: Seq<Seq<u8>>, line: Seq<u8>)
    ensures
        text_records(lines.push(line)) == text_records(lines) + line_records(line),
    decreases lines.len(),
{
    if lines.len() == 0 {
        assert(lines.push(line)[0] == line);
        assert(lines.push(line).skip(1) =~= Seq::<Seq<u8>>::empty());
        assert(text_records(lines.push(line)) == line_records(line) + text_records(
            Seq::<Seq<u8>>::empty(),
        ));
        assert(line_records(line) + Seq::<DataLine>::empty() =~= line_records(line));
        assert(text_records(lines) + line_records(line) =~= line_records(line));
    } else {
        assert(lines.push(line)[0] == lines[0]);
        assert(lines.push(line).skip(1) =~= lines.skip(1).push(line));
        lemma_text_records_push(lines.skip(1), line);
        assert(line_records(lines[0]) + (text_records(lines.skip(1)) + line_records(line))
            =~= (line_records(lines[0]) + text_records(lines.skip(1))) + line_records(line));
    }
}

/// Consuming the data records of the owed bytes `s`, with `buf` already
/// collected, emits exactly the completed message `buf + s` with its
/// checksum, and goes on idle.
proof fn lemma_consume(s: Seq<u8>, buf: Seq<u8>, rest: Seq<DataLine>)
    requires
        s.len() >= 1,
    ensures
        run_from(data_records(s) + rest, 0, s.len(), buf) == seq![
            (checksum_of(buf + s), buf + s),
        ] + run_from(rest, 0, 0, Seq::empty()),
    decreases s.len(),
{
    let recs = data_records(s) + rest;
    assert(recs[0] == spec_data_record(s[0]));
    let buf1 = buf.push(s[0]);
    if s.len() == 1 {
        assert(buf.push(s[0]) =~= buf + s);
        lemma_run_from_skip(recs, 1, 0, Seq::empty());
        assert(recs.skip(1) =~= rest);
    } else {
        lemma_run_from_skip(recs, 1, (s.len() - 1) as nat, buf1);
        assert(recs.skip(1) =~= data_records(s.skip(1)) + rest);
        lemma_consume(s.skip(1), buf1, rest);
        assert(buf1 + s.skip(1) =~= buf + s);
    }
}

/// From idle, the records of one non-empty line emit exactly that line
/// with its checksum, and leave the reconstructor idle for what follows.
pub proof fn lemma_line_round_trip(line: Seq<u8>, rest: Seq<DataLine>)
    requires
        1 <= line.len() <= u32::MAX,
    ensures
        run_from(line_records(line) + rest, 0, 0, Seq::empty()) == seq![
            (checksum_of(line), line),
        ] + run_from(rest, 0, 0, Seq::empty()),
{
    let recs = line_records(line) + rest;
    assert(recs[0] == spec_length_record(line.len() as u32));
    lemma_run_from_skip(recs, 1, line.len(), Seq::empty());
    assert(recs.skip(1) =~= data_records(line) + rest);
    lemma_consume(line, Seq::empty(), rest);
    assert(Seq::<u8>::empty() + line =~= line);
}

/// Round trip: encoding text content and reconstructing the resulting
/// record sequence reproduces the content, line for line and byte for
/// byte, each line paired with its checksum. Lines must be non-empty: a
/// zero-length line's announcement completes no message on decode.
pub proof fn lemma_stream_round_trip(lines: Seq<Seq<u8>>)
    requires
        forall|i: int| 0 <= i < lines.len() ==> 1 <= (#[trigger] lines[i]).len() <= u32::MAX,
    ensures
        run(text_records(lines)) == lines.map(|i: int, l: Seq<u8>| (checksum_of(l), l)),
    decreases lines.len(),
{
    let f = |i: int, l: Seq<u8>| (checksum_of(l), l);
    if lines.len() == 0 {
        assert(lines.map(f) =~= Seq::<(nat, Seq<u8>)>::empty());
    } else {
        lemma_line_round_trip(lines[0], text_records(lines.skip(1)));
        lemma_stream_round_trip(lines.skip(1));
        assert(seq![(checksum_of(lines[0]), lines[0])] + lines.skip(1).map(f) =~= lines.map(f));
    }
}

/// Zero-length message: a length announcement of zero followed by any
/// data records produces no emitted message — the bytes are dropped,
/// attributed to no message.
pub proof fn lemma_zero_length_message(s: Seq<u8>)
    ensures
        run(seq![spec_length_record(0)] + data_records(s)) == Seq::<(nat, Seq<u8>)>::empty(),
{
    let prefix = seq![spec_length_record(0)] + data_records(s);
    assert(forall|j: int|
        0 <= j < prefix.len() ==> ((#[trigger] prefix[j]).length_valid ==> prefix[j].length
            == 0));
    assert(prefix + Seq::<DataLine>::empty() =~= prefix);
    crate::stream::lemma_inert_prefix(prefix, Seq::empty(), Seq::empty());
}

} // verus!
