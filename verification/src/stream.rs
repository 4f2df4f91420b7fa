//! The message reconstructor: a stateful stream processor that consumes
//! an ordered sequence of records and emits each completed message paired
//! with its rolling checksum.
//!
//! A record with a valid length announcement overwrites the count of data
//! bytes still owed to the current message. A record with a valid data
//! byte, while at least one byte is owed, appends that byte to the
//! message, feeds it to the checksum, and decrements the count; when the
//! count reaches zero the message is emitted and the state resets. A data
//! byte arriving while no message is in progress is silently dropped, and
//! a partial message left when the records run out is silently discarded.

use vstd::prelude::*;

use crate::record::DataLine;

verus! {

/// The checksum modulus: the largest prime below `2^16`.
pub open spec fn checksum_modulus() -> nat {
    65521
}

/// The first checksum accumulator after consuming `msg`: starts at 1 and
/// adds each byte, reduced modulo the checksum modulus.
pub open spec fn sum_a(msg: Seq<u8>) -> nat
    decreases msg.len(),
{
    if msg.len() == 0 {
        1
    } else {
        ((sum_a(msg.drop_last()) + msg.last()) % (checksum_modulus() as int)) as nat
    }
}

/// The second checksum accumulator after consuming `msg`: starts at 0
/// and adds the first accumulator after each byte. The sum wraps on the
/// accumulator's 16-bit width before the modulus is applied.
pub open spec fn sum_b(msg: Seq<u8>) -> nat
    decreases msg.len(),
{
    if msg.len() == 0 {
        0
    } else {
        ((((sum_b(msg.drop_last()) + sum_a(msg)) % 0x10000) as int) % (checksum_modulus()
            as int)) as nat
    }
}

/// The checksum of a message: the second accumulator in the upper 16
/// bits, the first in the lower 16.
pub open spec fn checksum_of(msg: Seq<u8>) -> nat {
    sum_b(msg) * 0x10000 + sum_a(msg)
}

/// Both accumulators stay below the checksum modulus.
pub proof fn lemma_sum_bounds(msg: Seq<u8>)
    ensures
        sum_a(msg) < checksum_modulus(),
        sum_b(msg) < checksum_modulus(),
{
}

/// The messages that the reconstructor emits from `records[i..]`, given
/// that `rem` data bytes are still owed to the message whose bytes so far
/// are `buf`. Each element pairs a checksum with the message it covers.
pub open spec fn run_from(records: Seq<DataLine>, i: int, rem: nat, buf: Seq<u8>) -> Seq<
    (nat, Seq<u8>),
>
    decreases records.len() - i,
{
    if i < 0 || i >= records.len() {
        Seq::empty()
    } else {
        let r = records[i];
        let rem1: nat = if r.length_valid {
            r.length as nat
        } else {
            rem
        };
        if r.data_valid && rem1 > 0 {
            let buf1 = buf.push(r.data);
            if rem1 == 1 {
                seq![(checksum_of(buf1), buf1)] + run_from(records, i + 1, 0, Seq::empty())
            } else {
                run_from(records, i + 1, (rem1 - 1) as nat, buf1)
            }
        } else {
            run_from(records, i + 1, rem1, buf)
        }
    }
}

/// The messages the reconstructor emits from a whole record sequence,
/// starting idle.
pub open spec fn run(records: Seq<DataLine>) -> Seq<(nat, Seq<u8>)> {
    run_from(records, 0, 0, Seq::empty())
}

/// Consuming `records[i..]` is the same as consuming the suffix
/// `records.skip(i)` from its start.
pub proof fn lemma_run_from_skip(records: Seq<DataLine>, i: int, rem: nat, buf: Seq<u8>)
    requires
        0 <= i <= records.len(),
    ensures
        run_from(records, i, rem, buf) == run_from(records.skip(i), 0, rem, buf),
    decreases records.len() - i,
{
    if i == records.len() {
    } else {
        let r = records[i];
        assert(records.skip(i)[0] == records[i]);
        assert(records.skip(i).skip(1) =~= records.skip(i + 1));
        let rem1: nat = if r.length_valid {
            r.length as nat
        } else {
            rem
        };
        if r.data_valid && rem1 > 0 {
            let buf1 = buf.push(r.data);
            if rem1 == 1 {
                lemma_run_from_skip(records, i + 1, 0, Seq::empty());
                lemma_run_from_skip(records.skip(i), 1, 0, Seq::empty());
            } else {
                lemma_run_from_skip(records, i + 1, (rem1 - 1) as nat, buf1);
                lemma_run_from_skip(records.skip(i), 1, (rem1 - 1) as nat, buf1);
            }
        } else {
            lemma_run_from_skip(records, i + 1, rem1, buf);
            lemma_run_from_skip(records.skip(i), 1, rem1, buf);
        }
    }
}

/// Checksum determinism: every emitted checksum is the pure function
/// `checksum_of` of the emitted message bytes alone, whatever records
/// surrounded the message and whatever state the reconstructor was in.
pub proof fn lemma_checksum_pure(records: Seq<DataLine>, i: int, rem: nat, buf: Seq<u8>, k: int)
    requires
        0 <= k < run_from(records, i, rem, buf).len(),
    ensures
        run_from(records, i, rem, buf)[k].0 == checksum_of(run_from(records, i, rem, buf)[k].1),
    decreases records.len() - i,
{
    if i < 0 || i >= records.len() {
    } else {
        let r = records[i];
        let rem1: nat = if r.length_valid {
            r.length as nat
        } else {
            rem
        };
        if r.data_valid && rem1 > 0 {
            let buf1 = buf.push(r.data);
            if rem1 == 1 {
                if k == 0 {
                } else {
                    lemma_checksum_pure(records, i + 1, 0, Seq::empty(), k - 1);
                }
            } else {
                lemma_checksum_pure(records, i + 1, (rem1 - 1) as nat, buf1, k);
            }
        } else {
            lemma_checksum_pure(records, i + 1, rem1, buf, k);
        }
    }
}

/// Drop semantics: while the reconstructor is idle, records that carry
/// no positive length announcement leave it idle and emit nothing —
/// dropped data bytes never appear in any later message and never
/// perturb a later message's checksum.
pub proof fn lemma_inert_prefix(prefix: Seq<DataLine>, rest: Seq<DataLine>, buf: Seq<u8>)
    requires
        forall|j: int|
            0 <= j < prefix.len() ==> ((#[trigger] prefix[j]).length_valid ==> prefix[j].length
                == 0),
    ensures
        run_from(prefix + rest, 0, 0, buf) == run_from(rest, 0, 0, buf),
    decreases prefix.len(),
{
    if prefix.len() == 0 {
        assert(prefix + rest =~= rest);
    } else {
        let s = prefix + rest;
        assert(s[0] == prefix[0]);
        assert(run_from(s, 0, 0, buf) == run_from(s, 1, 0, buf));
        lemma_run_from_skip(s, 1, 0, buf);
        assert(s.skip(1) =~= prefix.skip(1) + rest);
        assert(forall|j: int|
            0 <= j < prefix.skip(1).len() ==> ((#[trigger] prefix.skip(1)[j]).length_valid
                ==> prefix.skip(1)[j].length == 0));
        lemma_inert_prefix(prefix.skip(1), rest, buf);
    }
}

/// Dangling partial message: if the records carry no further length
/// announcement and end before the owed byte count can reach zero, no
/// message is emitted for the partial buffer.
pub proof fn lemma_dangling_partial(records: Seq<DataLine>, i: int, rem: nat, buf: Seq<u8>)
    requires
        0 <= i <= records.len(),
        rem > records.len() - i,
        forall|j: int| i <= j < records.len() ==> !(#[trigger] records[j]).length_valid,
    ensures
        run_from(records, i, rem, buf) == Seq::<(nat, Seq<u8>)>::empty(),
    decreases records.len() - i,
{
    if i == records.len() {
    } else {
        let r = records[i];
        if r.data_valid {
            lemma_dangling_partial(records, i + 1, (rem - 1) as nat, buf.push(r.data));
        } else {
            lemma_dangling_partial(records, i + 1, rem, buf);
        }
    }
}

/// The reconstructor's state and its source of records. The state is
/// owned exclusively by one instance and is reset after each completed
/// message.
pub struct DataStream {
    /// The record sequence being consumed.
    pub data: Vec<DataLine>,
    /// How many records have been consumed already.
    pub pos: usize,
    /// Count of data bytes still owed to the in-progress message.
    pub length: u32,
    /// The in-progress message content.
    pub content: Vec<u8>,
    /// First rolling checksum accumulator.
    pub a: u16,
    /// Second rolling checksum accumulator.
    pub b: u16,
}

impl DataStream {
    /// The checksum accumulators agree with the buffered content, and the
    /// position lies within the record sequence.
    pub open spec fn wf(self) -> bool {
        &&& self.pos <= self.data.len()
        &&& self.a as nat == sum_a(self.content@)
        &&& self.b as nat == sum_b(self.content@)
    }

    /// The messages still to come from this stream.
    pub open spec fn remaining(self) -> Seq<(nat, Seq<u8>)> {
        run_from(self.data@, self.pos as int, self.length as nat, self.content@)
    }

    /// Creates a reconstructor over `data`, idle: no bytes owed, empty
    /// buffer, accumulators at their initial values.
    pub fn new(data: Vec<DataLine>) -> (s: DataStream)
        ensures
            s.wf(),
            s.data == data,
            s.pos == 0,
            s.length == 0,
            s.content@ == Seq::<u8>::empty(),
            s.remaining() == run(data@),
    {
        let s = DataStream { data, pos: 0, length: 0, content: Vec::new(), a: 1, b: 0 };
        proof {
            assert(s.content@ =~= Seq::<u8>::empty());
        }
        s
    }

    /// Resets the message state to idle without touching the position:
    /// accumulators back to their initial values, buffer cleared, no
    /// bytes owed.
    pub fn reset(&mut self)
        ensures
            final(self).data == old(self).data,
            final(self).pos == old(self).pos,
            final(self).length == 0,
            final(self).content@ == Seq::<u8>::empty(),
            final(self).a == 1,
            final(self).b == 0,
            old(self).pos <= old(self).data.len() ==> final(self).wf(),
    {
        self.a = 1;
        self.b = 0;
        self.content.clear();
        self.length = 0;
        proof {
            assert(self.content@ =~= Seq::<u8>::empty());
        }
    }

    /// The checksum of the current accumulators: the second in the upper
    /// 16 bits, the first in the lower 16.
    pub fn checksum(&self) -> (c: u32)
        ensures
            c as nat == (self.b as nat) * 0x10000 + self.a as nat,
    {
        let b32: u32 = (self.b as u32) << 16u32;
        let a32: u32 = self.a as u32;
        proof {
            let bb = self.b as u32;
            let aa = self.a as u32;
            assert((bb << 16u32) | aa == bb * 0x10000 + aa) by (bit_vector)
                requires
                    bb < 0x10000,
                    aa < 0x10000,
            ;
        }
        b32 | a32
    }

    /// Consumes records until either a message completes, yielding its
    /// checksum and content, or the records run out, yielding `None`
    /// with any partial message silently discarded.
    pub fn next(&mut self) -> (r: Option<(u32, Vec<u8>)>)
        requires
            old(self).wf(),
        ensures
            final(self).wf(),
            final(self).data == old(self).data,
            match r {
                Some(p) => {
                    &&& old(self).remaining() == seq![(p.0 as nat, p.1@)]
                        + final(self).remaining()
                    &&& p.0 as nat == checksum_of(p.1@)
                    &&& final(self).length == 0
                    &&& final(self).content@ == Seq::<u8>::empty()
                    &&& old(self).pos < final(self).pos
                },
                None => {
                    &&& old(self).remaining() == Seq::<(nat, Seq<u8>)>::empty()
                    &&& final(self).pos == final(self).data.len()
                },
            },
    {
        while self.pos < self.data.len()
            invariant
                self.wf(),
                self.data == old(self).data,
                old(self).pos <= self.pos,
                old(self).remaining() == self.remaining(),
            decreases self.data.len() - self.pos,
        {
            let ghost pre = *self;
            let rec = self.data[self.pos];
            self.pos = self.pos + 1;
            if rec.length_valid {
                self.length = rec.length;
            }
            if rec.data_valid && self.length > 0 {
                self.content.push(rec.data);
                proof {
                    assert(self.content@.drop_last() =~= pre.content@);
                    lemma_sum_bounds(pre.content@);
                }
                let a1: u32 = ((self.a as u32) + (rec.data as u32)) % 65521;
                self.a = a1 as u16;
                let b1: u32 = (((self.b as u32) + a1) % 0x10000) % 65521;
                self.b = b1 as u16;
                self.length = self.length - 1;
                if self.length == 0 {
                    let ck = self.checksum();
                    let msg = copy_bytes(&self.content);
                    proof {
                        assert(pre.remaining() == seq![
                            (checksum_of(self.content@), self.content@),
                        ] + run_from(self.data@, self.pos as int, 0, Seq::<u8>::empty()));
                    }
                    self.reset();
                    return Some((ck, msg));
                }
            }
        }
        None
    }
}

/// Copies a byte vector element by element.
fn copy_bytes(v: &Vec<u8>) -> (c: Vec<u8>)
    ensures
        c@ == v@,
{
    let mut c: Vec<u8> = Vec::new();
    let mut j: usize = 0;
    while j < v.len()
        invariant
            j <= v@.len(),
            c@ == v@.take(j as int),
        decreases v@.len() - j,
    {
        c.push(v[j]);
        proof {
            assert(v@.take(j + 1) =~= v@.take(j as int).push(v@[j as int]));
        }
        j = j + 1;
    }
    proof {
        assert(v@.take(v@.len() as int) =~= v@);
    }
    c
}

/// The mathematical view of a vector of emitted results.
pub open spec fn outputs_view(s: Seq<(u32, Vec<u8>)>) -> Seq<(nat, Seq<u8>)> {
    s.map(|i: int, p: (u32, Vec<u8>)| (p.0 as nat, p.1@))
}

/// Runs a whole record sequence through a fresh reconstructor and
/// collects every emitted (checksum, message) pair, in order.
#[verifier::loop_isolation(false)]
pub fn decode_records(data: Vec<DataLine>) -> (out: Vec<(u32, Vec<u8>)>)
    ensures
        outputs_view(out@) == run(data@),
{
    let ghost all = data@;
    let mut ds = DataStream::new(data);
    let mut out: Vec<(u32, Vec<u8>)> = Vec::new();
    proof {
        assert(outputs_view(out@) + ds.remaining() =~= run(all));
    }
    loop
        invariant
            ds.wf(),
            ds.data@ == all,
            run(all) == outputs_view(out@) + ds.remaining(),
        decreases ds.data@.len() - ds.pos,
    {
        let ghost prev = out@;
        let ghost before = ds.remaining();
        match ds.next() {
            Some(p) => {
                let ghost pv = (p.0 as nat, p.1@);
                out.push(p);
                proof {
                    assert(outputs_view(out@) =~= outputs_view(prev) + seq![pv]);
                    assert((outputs_view(prev) + seq![pv]) + ds.remaining() =~= outputs_view(prev)
                        + (seq![pv] + ds.remaining()));
                }
            },
            None => {
                proof {
                    assert(outputs_view(prev) + before =~= outputs_view(prev));
                }
                return out;
            },
        }
    }
}

} // verus!
