//! The pieces of the binary layouts: little-endian integers, UTF-8 texts, and
//! sequences of records, each as a function on bytes with the executable code
//! that computes it.

use crate::outside::text_from_utf8;
use vstd::prelude::*;
use vstd::slice::slice_subrange;
use vstd::utf8::{decode_utf8, encode_utf8, valid_utf8};

verus! {

/// Why bytes are no table.
#[derive(Debug, Clone, Copy, PartialEq, Eq, Structural)]
pub enum DecodeReason {
    /// The bytes end inside a record or inside the count.
    Truncated,
    /// A key record starts with a tag that is neither 0 nor 4.
    InvalidTag,
    /// A text is no UTF-8.
    InvalidUtf8,
    /// A length is negative.
    InvalidLength,
}

/// Where and why decoding stopped: `index` records were read before the
/// failure.
#[derive(Debug, Clone, Copy, PartialEq, Eq, Structural)]
pub struct TableError {
    pub index: usize,
    pub reason: DecodeReason,
}

/// A value read from the front of some bytes, with the number of bytes read.
pub type Parsed<T> = Result<(T, int), DecodeReason>;

/// The four bytes of `v`, lowest first.
pub open spec fn le_u32(v: u32) -> Seq<u8> {
    seq![
        (v % 256) as u8,
        ((v / 256) % 256) as u8,
        ((v / 65536) % 256) as u8,
        ((v / 16777216) % 256) as u8,
    ]
}

/// The number whose four bytes, lowest first, `b` begins with.
pub open spec fn u32_of_le(b: Seq<u8>) -> u32 {
    (b[0] + 256 * b[1] + 65536 * b[2] + 16777216 * b[3]) as u32
}

/// The 32 bits of `v` in two's complement.
pub open spec fn i32_bits(v: i32) -> u32 {
    if v >= 0 {
        v as u32
    } else {
        (v + 0x1_0000_0000) as u32
    }
}

/// The number whose 32 bits in two's complement are `bits`.
pub open spec fn i32_of_bits(bits: u32) -> i32 {
    if bits < 0x8000_0000 {
        bits as i32
    } else {
        (bits - 0x1_0000_0000) as i32
    }
}

/// The four bytes of `v` in two's complement, lowest first.
pub open spec fn le_i32(v: i32) -> Seq<u8> {
    le_u32(i32_bits(v))
}

/// The signed number whose four bytes, lowest first, `b` begins with.
pub open spec fn i32_of_le(b: Seq<u8>) -> i32 {
    i32_of_bits(u32_of_le(b))
}

/// Reading gives back what was written, whatever follows.
pub proof fn lemma_u32_round_trip(v: u32, tail: Seq<u8>)
    ensures
        le_u32(v).len() == 4,
        u32_of_le(le_u32(v) + tail) == v,
{
    let b = le_u32(v) + tail;
    assert(b[0] == le_u32(v)[0]);
    assert(b[1] == le_u32(v)[1]);
    assert(b[2] == le_u32(v)[2]);
    assert(b[3] == le_u32(v)[3]);
}

/// Reading gives back what was written, whatever follows.
pub proof fn lemma_i32_round_trip(v: i32, tail: Seq<u8>)
    ensures
        le_i32(v).len() == 4,
        i32_of_le(le_i32(v) + tail) == v,
{
    lemma_u32_round_trip(i32_bits(v), tail);
}

/// The text of `len` bytes at the front of `b`.
pub open spec fn parse_text(b: Seq<u8>, len: int) -> Result<Seq<char>, DecodeReason> {
    if b.len() < len {
        Err(DecodeReason::Truncated)
    } else if !valid_utf8(b.take(len)) {
        Err(DecodeReason::InvalidUtf8)
    } else {
        Ok(decode_utf8(b.take(len)))
    }
}

/// Reading gives back the text that was written, whatever follows.
pub proof fn lemma_text_round_trip(text: Seq<char>, tail: Seq<u8>)
    ensures
        parse_text(encode_utf8(text) + tail, encode_utf8(text).len() as int) == Ok::<
            Seq<char>,
            DecodeReason,
        >(text),
{
    broadcast use vstd::utf8::encode_utf8_valid_utf8, vstd::utf8::encode_utf8_decode_utf8;

    let bytes = encode_utf8(text);
    assert((bytes + tail).take(bytes.len() as int) =~= bytes);
}

/// `head`, followed by what was decoded behind it.
pub open spec fn prepend<T>(head: Seq<T>, rest: Result<Seq<T>, TableError>) -> Result<
    Seq<T>,
    TableError,
> {
    match rest {
        Ok(tail) => Ok(head + tail),
        Err(e) => Err(e),
    }
}

/// The `n` records at the front of `b`, each read by `one`. A failure names
/// the record at which it happened, counted from `index`.
pub open spec fn parse_records<T>(
    b: Seq<u8>,
    n: nat,
    index: nat,
    one: spec_fn(Seq<u8>) -> Parsed<T>,
) -> Result<Seq<T>, TableError>
    decreases n,
{
    if n == 0 {
        Ok(Seq::empty())
    } else {
        match one(b) {
            Err(reason) => Err(TableError { index: index as usize, reason }),
            Ok((value, used)) => prepend(
                seq![value],
                parse_records(b.skip(used), (n - 1) as nat, index + 1, one),
            ),
        }
    }
}

/// The records that fill `b` to its end, each read by `one`. A failure names
/// the record at which it happened, counted from `index`.
pub open spec fn parse_stream<T>(b: Seq<u8>, index: nat, one: spec_fn(Seq<u8>) -> Parsed<T>) -> Result<
    Seq<T>,
    TableError,
>
    decreases b.len(),
{
    if b.len() == 0 {
        Ok(Seq::empty())
    } else {
        match one(b) {
            Err(reason) => Err(TableError { index: index as usize, reason }),
            Ok((value, used)) => if 0 < used <= b.len() {
                prepend(seq![value], parse_stream(b.skip(used), index + 1, one))
            } else {
                Err(TableError { index: index as usize, reason: DecodeReason::Truncated })
            },
        }
    }
}

/// The records of `values` one after the other, each written by `write`.
pub open spec fn encode_records<T>(values: Seq<T>, write: spec_fn(T) -> Seq<u8>) -> Seq<u8> {
    values.map_values(write).flatten()
}

/// `one` reads back what `write` wrote for `value`, whatever follows.
pub open spec fn reads_back<T>(
    one: spec_fn(Seq<u8>) -> Parsed<T>,
    write: spec_fn(T) -> Seq<u8>,
    value: T,
) -> bool {
    forall|tail: Seq<u8>| #[trigger]
        one(write(value) + tail) == Ok::<(T, int), DecodeReason>(
            (value, write(value).len() as int),
        )
}

/// Records that are read back one by one are read back in a row, whatever
/// follows.
pub proof fn lemma_records_round_trip<T>(
    values: Seq<T>,
    write: spec_fn(T) -> Seq<u8>,
    one: spec_fn(Seq<u8>) -> Parsed<T>,
    tail: Seq<u8>,
    index: nat,
)
    requires
        forall|i: int| 0 <= i < values.len() ==> reads_back(one, write, #[trigger] values[i]),
    ensures
        parse_records(encode_records(values, write) + tail, values.len(), index, one) == Ok::<
            Seq<T>,
            TableError,
        >(values),
    decreases values.len(),
{
    if values.len() > 0 {
        let first = write(values[0]);
        let rest = values.drop_first();
        let bytes = encode_records(values, write) + tail;
        assert(values.map_values(write).drop_first() =~= rest.map_values(write));
        assert(bytes =~= first + (encode_records(rest, write) + tail));
        assert(reads_back(one, write, values[0]));
        assert(one(first + (encode_records(rest, write) + tail)) == Ok::<(T, int), DecodeReason>(
            (values[0], first.len() as int),
        ));
        assert(bytes.skip(first.len() as int) =~= encode_records(rest, write) + tail);
        assert forall|i: int| 0 <= i < rest.len() implies reads_back(
            one,
            write,
            #[trigger] rest[i],
        ) by {
            assert(rest[i] == values[i + 1]);
        }
        lemma_records_round_trip(rest, write, one, tail, index + 1);
        assert(seq![values[0]] + rest =~= values);
    } else {
        assert(values =~= Seq::<T>::empty());
    }
}

/// Records that are read back one by one, and are not empty, are read back
/// as a stream.
pub proof fn lemma_stream_round_trip<T>(
    values: Seq<T>,
    write: spec_fn(T) -> Seq<u8>,
    one: spec_fn(Seq<u8>) -> Parsed<T>,
    index: nat,
)
    requires
        forall|i: int| 0 <= i < values.len() ==> reads_back(one, write, #[trigger] values[i]),
        forall|i: int| 0 <= i < values.len() ==> write(#[trigger] values[i]).len() > 0,
    ensures
        parse_stream(encode_records(values, write), index, one) == Ok::<Seq<T>, TableError>(
            values,
        ),
    decreases values.len(),
{
    if values.len() > 0 {
        let first = write(values[0]);
        let rest = values.drop_first();
        let bytes = encode_records(values, write);
        assert(values.map_values(write).drop_first() =~= rest.map_values(write));
        assert(bytes =~= first + encode_records(rest, write));
        assert(reads_back(one, write, values[0]));
        assert(one(first + encode_records(rest, write)) == Ok::<(T, int), DecodeReason>(
            (values[0], first.len() as int),
        ));
        assert(bytes.skip(first.len() as int) =~= encode_records(rest, write));
        assert forall|i: int| 0 <= i < rest.len() implies reads_back(
            one,
            write,
            #[trigger] rest[i],
        ) by {
            assert(rest[i] == values[i + 1]);
        }
        assert forall|i: int| 0 <= i < rest.len() implies write(#[trigger] rest[i]).len() > 0 by {
            assert(rest[i] == values[i + 1]);
        }
        lemma_stream_round_trip(rest, write, one, index + 1);
        assert(seq![values[0]] + rest =~= values);
    } else {
        assert(values =~= Seq::<T>::empty());
        assert(values.map_values(write) =~= Seq::<Seq<u8>>::empty());
    }
}

/// Appends the four bytes of `v`.
pub fn put_u32(out: &mut Vec<u8>, v: u32)
    ensures
        final(out)@ == old(out)@ + le_u32(v),
{
    out.push((v % 256) as u8);
    out.push(((v / 256) % 256) as u8);
    out.push(((v / 65536) % 256) as u8);
    out.push(((v / 16777216) % 256) as u8);
    assert(out@ =~= old(out)@ + le_u32(v));
}

/// Appends the four bytes of `v`.
pub fn put_i32(out: &mut Vec<u8>, v: i32)
    ensures
        final(out)@ == old(out)@ + le_i32(v),
{
    let bits: u32 = if v >= 0 {
        v as u32
    } else {
        ((v as i64) + 0x1_0000_0000i64) as u32
    };
    put_u32(out, bits);
}

/// Appends `bytes`.
pub fn put_bytes(out: &mut Vec<u8>, bytes: &[u8])
    ensures
        final(out)@ == old(out)@ + bytes@,
{
    out.extend_from_slice(bytes);
    assert(out@ =~= old(out)@ + bytes@);
}

/// Appends the UTF-8 bytes of `text`.
pub fn put_text(out: &mut Vec<u8>, text: &str)
    ensures
        final(out)@ == old(out)@ + encode_utf8(text@),
{
    put_bytes(out, text.as_bytes());
}

/// The number in the four bytes at `at`.
pub fn get_u32(bytes: &[u8], at: usize) -> (v: u32)
    requires
        at + 4 <= bytes@.len(),
    ensures
        v == u32_of_le(bytes@.skip(at as int)),
{
    let b0 = bytes[at] as u32;
    let b1 = bytes[at + 1] as u32;
    let b2 = bytes[at + 2] as u32;
    let b3 = bytes[at + 3] as u32;
    b0 + 256 * b1 + 65536 * b2 + 16777216 * b3
}

/// The signed number in the four bytes at `at`.
pub fn get_i32(bytes: &[u8], at: usize) -> (v: i32)
    requires
        at + 4 <= bytes@.len(),
    ensures
        v == i32_of_le(bytes@.skip(at as int)),
{
    let bits = get_u32(bytes, at);
    if bits < 0x8000_0000 {
        bits as i32
    } else {
        ((bits as i64) - 0x1_0000_0000i64) as i32
    }
}

/// The text in the `len` bytes at `at`.
pub fn get_text(bytes: &[u8], at: usize, len: usize) -> (text: Result<String, DecodeReason>)
    requires
        at <= bytes@.len(),
    ensures
        match text {
            Ok(s) => parse_text(bytes@.skip(at as int), len as int) == Ok::<
                Seq<char>,
                DecodeReason,
            >(s@) && at + len <= bytes@.len(),
            Err(reason) => parse_text(bytes@.skip(at as int), len as int) == Err::<
                Seq<char>,
                DecodeReason,
            >(reason),
        },
{
    if bytes.len() - at < len {
        return Err(DecodeReason::Truncated);
    }
    let part = slice_subrange(bytes, at, at + len);
    let mut body: Vec<u8> = Vec::new();
    put_bytes(&mut body, part);
    assert(body@ =~= bytes@.skip(at as int).take(len as int));
    match text_from_utf8(body) {
        Some(s) => Ok(s),
        None => Err(DecodeReason::InvalidUtf8),
    }
}

} // verus!
