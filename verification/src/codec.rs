//! The record codec: the bidirectional mapping between a [`DataLine`]
//! record and its canonical text line.
//!
//! A line holds four tokens joined by `_` (or, on decode, space)
//! separators: the length-valid flag as a `0`/`1` digit, the length as a
//! 32-character zero-padded binary field, the data-valid flag as a `0`/`1`
//! digit, and the data byte as an 8-character zero-padded binary field.
//! Lines are handled as sequences of ASCII bytes.

use vstd::arithmetic::div_mod::*;
use vstd::arithmetic::power2::*;
use vstd::prelude::*;

use crate::record::DataLine;

verus! {

/// Why a text line failed to decode.
#[derive(Clone, Copy, Debug, PartialEq, Eq, Structural)]
pub enum ParseError {
    /// The line does not split into exactly four tokens.
    WrongTokenCount,
    /// A flag token is not the single digit `0` or `1`.
    BadFlagDigit,
    /// A numeric token is empty or holds a character other than `0` or `1`.
    NonBinaryField,
    /// A numeric token is binary but its value exceeds the field's width.
    FieldOverflow,
}

/// The token separators accepted on decode: space and underscore.
pub open spec fn is_sep(c: u8) -> bool {
    c == 32 || c == 95
}

/// The two binary digit characters `0` and `1`.
pub open spec fn is_bin_digit(c: u8) -> bool {
    c == 48 || c == 49
}

/// The numeric value of a binary digit character.
pub open spec fn digit_val(c: u8) -> nat {
    if c == 49 {
        1
    } else {
        0
    }
}

/// The digit character that renders a flag.
pub open spec fn flag_byte(b: bool) -> u8 {
    if b {
        49
    } else {
        48
    }
}

/// The fixed-width, zero-padded, most-significant-first binary rendering
/// of `v` in `width` digit characters.
pub open spec fn bin_seq(v: nat, width: nat) -> Seq<u8>
    decreases width,
{
    if width == 0 {
        Seq::empty()
    } else {
        bin_seq(v / 2, (width - 1) as nat).push(if v % 2 == 1 {
            49u8
        } else {
            48u8
        })
    }
}

/// The value of a most-significant-first sequence of binary digit
/// characters.
pub open spec fn bin_val(t: Seq<u8>) -> nat
    decreases t.len(),
{
    if t.len() == 0 {
        0
    } else {
        bin_val(t.drop_last()) * 2 + digit_val(t.last())
    }
}

/// Every character of `t` is a binary digit.
pub open spec fn all_bin_digits(t: Seq<u8>) -> bool {
    forall|i: int| 0 <= i < t.len() ==> is_bin_digit(#[trigger] t[i])
}

/// `t` is a well-formed flag token: the single digit `0` or `1`.
pub open spec fn is_flag_token(t: Seq<u8>) -> bool {
    t.len() == 1 && is_bin_digit(t[0])
}

/// The flag a well-formed flag token denotes.
pub open spec fn flag_val(t: Seq<u8>) -> bool {
    t[0] == 49
}

/// The positions `p1 < p2 < p3` are the separators of `s`, and `s` holds
/// no other separator; equivalently, `s` splits into exactly four tokens.
pub open spec fn line_shape(s: Seq<u8>, p1: int, p2: int, p3: int) -> bool {
    &&& 0 <= p1 < p2 < p3 < s.len()
    &&& is_sep(s[p1])
    &&& is_sep(s[p2])
    &&& is_sep(s[p3])
    &&& forall|j: int| 0 <= j < s.len() && is_sep(#[trigger] s[j]) ==> j == p1 || j == p2 || j == p3
}

/// What the four tokens of a line denote, with the tokens examined in
/// order: length-valid flag, length field, data-valid flag, data field.
pub open spec fn spec_parse_tokens(t1: Seq<u8>, t2: Seq<u8>, t3: Seq<u8>, t4: Seq<u8>) -> Result<
    DataLine,
    ParseError,
> {
    if !is_flag_token(t1) {
        Err(ParseError::BadFlagDigit)
    } else if !(t2.len() > 0 && all_bin_digits(t2)) {
        Err(ParseError::NonBinaryField)
    } else if bin_val(t2) > 0xFFFF_FFFF {
        Err(ParseError::FieldOverflow)
    } else if !is_flag_token(t3) {
        Err(ParseError::BadFlagDigit)
    } else if !(t4.len() > 0 && all_bin_digits(t4)) {
        Err(ParseError::NonBinaryField)
    } else if bin_val(t4) > 0xFF {
        Err(ParseError::FieldOverflow)
    } else {
        Ok(
            (DataLine {
                length_valid: flag_val(t1),
                length: bin_val(t2) as u32,
                data_valid: flag_val(t3),
                data: bin_val(t4) as u8,
            }),
        )
    }
}

/// What decoding a text line yields: the record its four tokens denote,
/// or the error raised by the first failing check.
pub open spec fn spec_decode(s: Seq<u8>) -> Result<DataLine, ParseError> {
    if exists|p1: int, p2: int, p3: int| line_shape(s, p1, p2, p3) {
        let (p1, p2, p3) = choose|p1: int, p2: int, p3: int| line_shape(s, p1, p2, p3);
        spec_parse_tokens(
            s.subrange(0, p1),
            s.subrange(p1 + 1, p2),
            s.subrange(p2 + 1, p3),
            s.subrange(p3 + 1, s.len() as int),
        )
    } else {
        Err(ParseError::WrongTokenCount)
    }
}

/// The canonical text rendering of a record: the four fields in order,
/// joined by underscores.
pub open spec fn encoded_line(r: DataLine) -> Seq<u8> {
    seq![flag_byte(r.length_valid), 95u8] + bin_seq(r.length as nat, 32) + seq![
        95u8,
        flag_byte(r.data_valid),
        95u8,
    ] + bin_seq(r.data as nat, 8)
}

/// A fixed-width binary rendering has exactly `width` characters.
pub proof fn lemma_bin_seq_len(v: nat, width: nat)
    ensures
        bin_seq(v, width).len() == width,
    decreases width,
{
    if width > 0 {
        lemma_bin_seq_len(v / 2, (width - 1) as nat);
    }
}

/// A fixed-width binary rendering holds only binary digit characters.
pub proof fn lemma_bin_seq_all_bin(v: nat, width: nat)
    ensures
        all_bin_digits(bin_seq(v, width)),
    decreases width,
{
    if width > 0 {
        lemma_bin_seq_len(v / 2, (width - 1) as nat);
        lemma_bin_seq_all_bin(v / 2, (width - 1) as nat);
    }
}

/// The character at position `i` of a fixed-width binary rendering is the
/// digit of the bit with place value `pow2(width - 1 - i)`.
pub proof fn lemma_bin_seq_index(v: nat, width: nat, i: int)
    requires
        0 <= i < width,
    ensures
        bin_seq(v, width)[i] == (if (v / pow2((width - 1 - i) as nat)) % 2 == 1 {
            49u8
        } else {
            48u8
        }),
    decreases width,
{
    lemma_bin_seq_len(v / 2, (width - 1) as nat);
    let tail = bin_seq(v / 2, (width - 1) as nat);
    let d: u8 = if v % 2 == 1 {
        49u8
    } else {
        48u8
    };
    assert(bin_seq(v, width) == tail.push(d));
    if i == width - 1 {
        assert(tail.push(d)[i] == d);
        lemma2_to64();
        assert(pow2(0) == 1);
        assert(v / 1 == v);
    } else {
        assert(tail.push(d)[i] == tail[i]);
        lemma_bin_seq_index(v / 2, (width - 1) as nat, i);
        assert(tail[i] == (if ((v / 2) / pow2((width - 2 - i) as nat)) % 2 == 1 {
            49u8
        } else {
            48u8
        }));
        lemma_pow2_pos((width - 2 - i) as nat);
        lemma_div_denominator(v as int, 2, pow2((width - 2 - i) as nat) as int);
        assert((v / 2) / pow2((width - 2 - i) as nat) == v as int / (2 * pow2(
            (width - 2 - i) as nat,
        ) as int));
        lemma_pow2_unfold((width - 1 - i) as nat);
        assert(pow2((width - 1 - i) as nat) == 2 * pow2((width - 2 - i) as nat));
    }
}

/// Rendering a value in a width that holds it and reading the digits back
/// returns the value.
pub proof fn lemma_bin_round(v: nat, width: nat)
    requires
        v < pow2(width),
    ensures
        bin_val(bin_seq(v, width)) == v,
    decreases width,
{
    if width == 0 {
        lemma2_to64();
    } else {
        lemma_pow2_unfold(width);
        lemma_bin_round(v / 2, (width - 1) as nat);
        lemma_bin_seq_len(v / 2, (width - 1) as nat);
        let s = bin_seq(v, width);
        assert(s.drop_last() =~= bin_seq(v / 2, (width - 1) as nat));
        lemma_fundamental_div_mod(v as int, 2);
    }
}

/// The value of a prefix of a binary token never exceeds the value of the
/// whole token.
pub proof fn lemma_bin_val_take_le(t: Seq<u8>, k: int)
    requires
        0 <= k <= t.len(),
    ensures
        bin_val(t.take(k)) <= bin_val(t),
    decreases t.len() - k,
{
    if k == t.len() {
        assert(t.take(k) =~= t);
    } else {
        assert(t.take(k + 1).drop_last() =~= t.take(k));
        lemma_bin_val_take_le(t, k + 1);
    }
}

/// A line splits into four tokens in only one way: the three separator
/// positions are determined by the line.
pub proof fn lemma_line_shape_unique(s: Seq<u8>, p1: int, p2: int, p3: int, q1: int, q2: int, q3: int)
    requires
        line_shape(s, p1, p2, p3),
        line_shape(s, q1, q2, q3),
    ensures
        p1 == q1 && p2 == q2 && p3 == q3,
{
    assert(is_sep(s[p1]) && is_sep(s[p2]) && is_sep(s[p3]));
    assert(is_sep(s[q1]) && is_sep(s[q2]) && is_sep(s[q3]));
}

/// Record codec round trip: decoding the canonical text rendering of any
/// record recovers that record, field for field.
pub proof fn lemma_record_round_trip(r: DataLine)
    ensures
        spec_decode(encoded_line(r)) == Ok::<DataLine, ParseError>(r),
{
    let s = encoded_line(r);
    lemma_bin_seq_len(r.length as nat, 32);
    lemma_bin_seq_len(r.data as nat, 8);
    lemma_bin_seq_all_bin(r.length as nat, 32);
    lemma_bin_seq_all_bin(r.data as nat, 8);
    assert(s.len() == 45);
    assert(is_sep(s[1]) && is_sep(s[34]) && is_sep(s[36]));
    assert forall|j: int| 0 <= j < s.len() && is_sep(#[trigger] s[j]) implies j == 1 || j == 34
        || j == 36 by {
        if 2 <= j < 34 {
            assert(s[j] == bin_seq(r.length as nat, 32)[j - 2]);
            assert(is_bin_digit(s[j]));
        } else if 37 <= j < 45 {
            assert(s[j] == bin_seq(r.data as nat, 8)[j - 37]);
            assert(is_bin_digit(s[j]));
        }
    }
    assert(line_shape(s, 1, 34, 36));
    assert(exists|p1: int, p2: int, p3: int| line_shape(s, p1, p2, p3));
    let (p1, p2, p3) = choose|p1: int, p2: int, p3: int| line_shape(s, p1, p2, p3);
    lemma_line_shape_unique(s, p1, p2, p3, 1, 34, 36);
    assert(s.subrange(0, 1) =~= seq![flag_byte(r.length_valid)]);
    assert(s.subrange(2, 34) =~= bin_seq(r.length as nat, 32));
    assert(s.subrange(35, 36) =~= seq![flag_byte(r.data_valid)]);
    assert(s.subrange(37, 45) =~= bin_seq(r.data as nat, 8));
    lemma2_to64();
    lemma_bin_round(r.length as nat, 32);
    lemma_bin_round(r.data as nat, 8);
}

/// Appends the fixed-width binary rendering of `v` to `out`. `top` is
/// the place value of the leading digit.
fn push_bin(out: &mut Vec<u8>, v: u64, width: usize, top: u64)
    requires
        width >= 1,
        top as nat == pow2((width - 1) as nat),
        (v as nat) < pow2(width as nat),
    ensures
        final(out)@ == old(out)@ + bin_seq(v as nat, width as nat),
{
    let ghost base = old(out)@;
    let mut div: u64 = top;
    let mut i: usize = 0;
    while i < width
        invariant
            i <= width,
            width >= 1,
            i < width ==> div as nat == pow2((width - 1 - i) as nat),
            out@.len() == base.len() + i,
            forall|j: int| 0 <= j < base.len() ==> out@[j] == base[j],
            forall|j: int|
                0 <= j < i ==> #[trigger] out@[base.len() + j] == (if ((v as nat) / pow2(
                    (width - 1 - j) as nat,
                )) % 2 == 1 {
                    49u8
                } else {
                    48u8
                }),
        decreases width - i,
    {
        proof {
            lemma_pow2_pos((width - 1 - i) as nat);
        }
        let bit: u64 = (v / div) % 2;
        let c: u8 = if bit == 1 {
            49
        } else {
            48
        };
        out.push(c);
        proof {
            if i + 1 < width {
                lemma_pow2_unfold((width - 1 - i) as nat);
            }
        }
        div = div / 2;
        i = i + 1;
    }
    proof {
        lemma_bin_seq_len(v as nat, width as nat);
        let full = base + bin_seq(v as nat, width as nat);
        assert forall|j: int| 0 <= j < out@.len() implies out@[j] == full[j] by {
            if base.len() <= j {
                let k = j - base.len();
                assert(out@[base.len() + k] == (if ((v as nat) / pow2((width - 1 - k) as nat)) % 2
                    == 1 {
                    49u8
                } else {
                    48u8
                }));
                lemma_bin_seq_index(v as nat, width as nat, k);
            }
        }
        assert(out@ =~= full);
    }
}

/// Renders a record as its canonical text line.
pub fn encode_line(r: &DataLine) -> (out: Vec<u8>)
    ensures
        out@ == encoded_line(*r),
{
    proof {
        lemma2_to64();
    }
    let mut out: Vec<u8> = Vec::new();
    out.push(if r.length_valid {
        49
    } else {
        48
    });
    out.push(95);
    push_bin(&mut out, r.length as u64, 32, 0x8000_0000);
    out.push(95);
    out.push(if r.data_valid {
        49
    } else {
        48
    });
    out.push(95);
    push_bin(&mut out, r.data as u64, 8, 0x80);
    proof {
        lemma_bin_seq_len(r.length as nat, 32);
        lemma_bin_seq_len(r.data as nat, 8);
        assert(out@ =~= encoded_line(*r));
    }
    out
}

/// Reads the flag token `s[from..to]` as a single `0`/`1` digit.
fn parse_flag(s: &Vec<u8>, from: usize, to: usize) -> (r: Result<bool, ParseError>)
    requires
        from <= to <= s@.len(),
    ensures
        ({
            let t = s@.subrange(from as int, to as int);
            if is_flag_token(t) {
                r == Ok::<bool, ParseError>(flag_val(t))
            } else {
                r == Err::<bool, ParseError>(ParseError::BadFlagDigit)
            }
        }),
{
    if to - from == 1 {
        let c: u8 = s[from];
        if c == 48 {
            Ok(false)
        } else if c == 49 {
            Ok(true)
        } else {
            Err(ParseError::BadFlagDigit)
        }
    } else {
        Err(ParseError::BadFlagDigit)
    }
}

/// Reads the numeric token `s[from..to]` as a binary integer of value at
/// most `max`.
fn parse_bin(s: &Vec<u8>, from: usize, to: usize, max: u64) -> (r: Result<u64, ParseError>)
    requires
        from <= to <= s@.len(),
        max <= 0xFFFF_FFFF,
    ensures
        ({
            let t = s@.subrange(from as int, to as int);
            if !(t.len() > 0 && all_bin_digits(t)) {
                r == Err::<u64, ParseError>(ParseError::NonBinaryField)
            } else if bin_val(t) > max {
                r == Err::<u64, ParseError>(ParseError::FieldOverflow)
            } else {
                r == Ok::<u64, ParseError>(bin_val(t) as u64)
            }
        }),
{
    let ghost t = s@.subrange(from as int, to as int);
    if to == from {
        return Err(ParseError::NonBinaryField);
    }
    let mut i: usize = from;
    while i < to
        invariant
            from <= i <= to <= s@.len(),
            t == s@.subrange(from as int, to as int),
            forall|j: int| from <= j < i ==> is_bin_digit(#[trigger] s@[j]),
        decreases to - i,
    {
        let c: u8 = s[i];
        if c != 48 && c != 49 {
            proof {
                assert(t[i - from] == s@[i as int]);
                assert(!all_bin_digits(t));
            }
            return Err(ParseError::NonBinaryField);
        }
        i = i + 1;
    }
    proof {
        assert forall|j: int| 0 <= j < t.len() implies is_bin_digit(#[trigger] t[j]) by {
            assert(t[j] == s@[from + j]);
        }
    }
    let mut v: u64 = 0;
    let mut k: usize = from;
    while k < to
        invariant
            from <= k <= to <= s@.len(),
            max <= 0xFFFF_FFFF,
            t == s@.subrange(from as int, to as int),
            t.len() > 0,
            all_bin_digits(t),
            v as nat == bin_val(t.take(k - from)),
            v <= max,
        decreases to - k,
    {
        let c: u8 = s[k];
        let d: u64 = if c == 49 {
            1
        } else {
            0
        };
        proof {
            assert(t.take(k - from + 1).drop_last() =~= t.take(k - from));
            assert(t.take(k - from + 1).last() == s@[k as int]);
        }
        v = v * 2 + d;
        if v > max {
            proof {
                lemma_bin_val_take_le(t, k - from + 1);
            }
            return Err(ParseError::FieldOverflow);
        }
        k = k + 1;
    }
    proof {
        assert(t.take(to - from) =~= t);
    }
    Ok(v)
}

/// Decodes one text line into the record it denotes, or reports why it is
/// malformed. The line must split on space or underscore into exactly
/// four tokens: a `0`/`1` flag, a binary length of value at most
/// `u32::MAX`, a `0`/`1` flag, and a binary data byte of value at most
/// `u8::MAX`.
pub fn decode_line(s: &Vec<u8>) -> (r: Result<DataLine, ParseError>)
    ensures
        r == spec_decode(s@),
{
    let n: usize = s.len();
    let mut p1: usize = 0;
    let mut p2: usize = 0;
    let mut p3: usize = 0;
    let mut count: usize = 0;
    let mut i: usize = 0;
    while i < n
        invariant
            n == s@.len(),
            i <= n,
            count <= 3,
            count >= 1 ==> p1 < i && is_sep(s@[p1 as int]),
            count >= 2 ==> p1 < p2 && p2 < i && is_sep(s@[p2 as int]),
            count >= 3 ==> p2 < p3 && p3 < i && is_sep(s@[p3 as int]),
            forall|j: int|
                0 <= j < i && is_sep(#[trigger] s@[j]) ==> ((count >= 1 && j == p1) || (count >= 2
                    && j == p2) || (count >= 3 && j == p3)),
        decreases n - i,
    {
        let c: u8 = s[i];
        if c == 32 || c == 95 {
            if count == 0 {
                p1 = i;
                count = 1;
            } else if count == 1 {
                p2 = i;
                count = 2;
            } else if count == 2 {
                p3 = i;
                count = 3;
            } else {
                proof {
                    assert(!exists|q1: int, q2: int, q3: int| line_shape(s@, q1, q2, q3)) by {
                        if exists|q1: int, q2: int, q3: int| line_shape(s@, q1, q2, q3) {
                            let (q1, q2, q3) = choose|q1: int, q2: int, q3: int|
                                line_shape(s@, q1, q2, q3);
                            assert(is_sep(s@[p1 as int]) && is_sep(s@[p2 as int]) && is_sep(
                                s@[p3 as int],
                            ) && is_sep(s@[i as int]));
                        }
                    }
                }
                return Err(ParseError::WrongTokenCount);
            }
        }
        i = i + 1;
    }
    if count != 3 {
        proof {
            assert(!exists|q1: int, q2: int, q3: int| line_shape(s@, q1, q2, q3)) by {
                if exists|q1: int, q2: int, q3: int| line_shape(s@, q1, q2, q3) {
                    let (q1, q2, q3) = choose|q1: int, q2: int, q3: int|
                        line_shape(s@, q1, q2, q3);
                    assert(is_sep(s@[q1]) && is_sep(s@[q2]) && is_sep(s@[q3]));
                }
            }
        }
        return Err(ParseError::WrongTokenCount);
    }
    proof {
        assert(line_shape(s@, p1 as int, p2 as int, p3 as int));
        let (q1, q2, q3) = choose|q1: int, q2: int, q3: int| line_shape(s@, q1, q2, q3);
        lemma_line_shape_unique(s@, q1, q2, q3, p1 as int, p2 as int, p3 as int);
    }
    let length_valid: bool = match parse_flag(s, 0, p1) {
        Ok(b) => b,
        Err(e) => {
            return Err(e);
        },
    };
    let length64: u64 = match parse_bin(s, p1 + 1, p2, 0xFFFF_FFFF) {
        Ok(v) => v,
        Err(e) => {
            return Err(e);
        },
    };
    let data_valid: bool = match parse_flag(s, p2 + 1, p3) {
        Ok(b) => b,
        Err(e) => {
            return Err(e);
        },
    };
    let data64: u64 = match parse_bin(s, p3 + 1, n, 0xFF) {
        Ok(v) => v,
        Err(e) => {
            return Err(e);
        },
    };
    Ok(
        DataLine {
            length_valid,
            length: length64 as u32,
            data_valid,
            data: data64 as u8,
        },
    )
}

} // verus!
