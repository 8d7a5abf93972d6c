//! The layout of the extra-data stream: records one after the other to the
//! end of the bytes, with no count. A record is a tag, the name of an
//! assembly and the name of a class, each behind its length of 8 bits, and a
//! JSON text behind its length of 32 bits.

use crate::lookup::{ExtraData, ExtraValue, ExtraView};
use crate::wire::{
    encode_records, get_i32, get_text, i32_of_le, le_i32, lemma_i32_round_trip,
    lemma_stream_round_trip, lemma_text_round_trip, parse_stream, parse_text, prepend, put_i32,
    put_text, reads_back, DecodeReason, Parsed, TableError,
};
use vstd::prelude::*;
use vstd::utf8::encode_utf8;

verus! {

/// The tag that every written record starts with.
pub const EXTRA_TAG: u8 = 7;

/// The record of `extra`. The tag that is written is `EXTRA_TAG`, whatever
/// tag the record holds.
pub open spec fn encode_extra(extra: ExtraView) -> Seq<u8> {
    seq![EXTRA_TAG, encode_utf8(extra.assembly_name).len() as u8] + encode_utf8(
        extra.assembly_name,
    ) + seq![encode_utf8(extra.class_name).len() as u8] + encode_utf8(extra.class_name) + le_i32(
        encode_utf8(extra.json_text).len() as i32,
    ) + encode_utf8(extra.json_text)
}

/// The record at the front of `b`. Its tag is kept and decides nothing.
pub open spec fn parse_extra(b: Seq<u8>) -> Parsed<ExtraView> {
    if b.len() < 2 {
        Err(DecodeReason::Truncated)
    } else {
        let a = b[1] as int;
        match parse_text(b.skip(2), a) {
            Err(reason) => Err(reason),
            Ok(assembly_name) => if b.len() < 3 + a {
                Err(DecodeReason::Truncated)
            } else {
                let c = b[2 + a] as int;
                match parse_text(b.skip(3 + a), c) {
                    Err(reason) => Err(reason),
                    Ok(class_name) => if b.len() < 7 + a + c {
                        Err(DecodeReason::Truncated)
                    } else {
                        let j = i32_of_le(b.skip(3 + a + c)) as int;
                        if j < 0 {
                            Err(DecodeReason::InvalidLength)
                        } else {
                            match parse_text(b.skip(7 + a + c), j) {
                                Err(reason) => Err(reason),
                                Ok(json_text) => Ok(
                                    (
                                        ExtraView {
                                            key_type: b[0],
                                            assembly_name,
                                            class_name,
                                            json_text,
                                        },
                                        7 + a + c + j,
                                    ),
                                ),
                            }
                        }
                    },
                }
            },
        }
    }
}

/// `encode_extra` as a value.
pub open spec fn extra_writer() -> spec_fn(ExtraView) -> Seq<u8> {
    |extra: ExtraView| encode_extra(extra)
}

/// `parse_extra` as a value.
pub open spec fn extra_reader() -> spec_fn(Seq<u8>) -> Parsed<ExtraView> {
    |b: Seq<u8>| parse_extra(b)
}

/// The bytes of an extra-data stream.
pub open spec fn encode_extras(extras: Seq<ExtraView>) -> Seq<u8> {
    encode_records(extras, extra_writer())
}

/// The extra-data stream that fills `b`.
pub open spec fn decode_extras(b: Seq<u8>) -> Result<Seq<ExtraView>, TableError> {
    parse_stream(b, 0, extra_reader())
}

/// Whether the texts of a record are short enough for their length fields.
pub open spec fn extra_fits(extra: ExtraView) -> bool {
    ExtraValue::fits(extra.assembly_name, extra.class_name, extra.json_text)
}

/// Where the parts of a record lie in its bytes.
proof fn lemma_extra_layout(
    tag: u8,
    a: Seq<u8>,
    c: Seq<u8>,
    len: Seq<u8>,
    j: Seq<u8>,
    tail: Seq<u8>,
)
    requires
        a.len() <= u8::MAX,
        c.len() <= u8::MAX,
        len.len() == 4,
    ensures
        ({
            let b = seq![tag, a.len() as u8] + a + seq![c.len() as u8] + c + len + j + tail;
            let al = a.len() as int;
            let cl = c.len() as int;
            &&& b.len() == 7 + al + cl + j.len() + tail.len()
            &&& b[0] == tag
            &&& b[1] == al
            &&& b.skip(2) == a + (seq![c.len() as u8] + c + len + j + tail)
            &&& b[2 + al] == cl
            &&& b.skip(3 + al) == c + (len + j + tail)
            &&& b.skip(3 + al + cl) == len + (j + tail)
            &&& b.skip(7 + al + cl) == j + tail
        }),
{
    let b = seq![tag, a.len() as u8] + a + seq![c.len() as u8] + c + len + j + tail;
    let al = a.len() as int;
    let cl = c.len() as int;
    assert(b.skip(2) =~= a + (seq![c.len() as u8] + c + len + j + tail));
    assert(b.skip(3 + al) =~= c + (len + j + tail));
    assert(b.skip(3 + al + cl) =~= len + (j + tail));
    assert(b.skip(7 + al + cl) =~= j + tail);
}

/// A record with the written tag, whose texts fit, is read back from its
/// bytes, whatever follows.
pub proof fn lemma_extra_round_trip(extra: ExtraView, tail: Seq<u8>)
    requires
        extra_fits(extra),
        extra.key_type == EXTRA_TAG,
    ensures
        encode_extra(extra).len() == extra.size(),
        parse_extra(encode_extra(extra) + tail) == Ok::<(ExtraView, int), DecodeReason>(
            (extra, extra.size() as int),
        ),
{
    let a = encode_utf8(extra.assembly_name);
    let c = encode_utf8(extra.class_name);
    let j = encode_utf8(extra.json_text);
    let len = le_i32(j.len() as i32);
    lemma_i32_round_trip(j.len() as i32, j + tail);
    lemma_extra_layout(EXTRA_TAG, a, c, len, j, tail);
    lemma_extra_layout(EXTRA_TAG, a, c, len, j, Seq::empty());
    assert(encode_extra(extra) + Seq::<u8>::empty() =~= encode_extra(extra));
    lemma_text_round_trip(extra.assembly_name, seq![c.len() as u8] + c + len + j + tail);
    lemma_text_round_trip(extra.class_name, len + j + tail);
    lemma_text_round_trip(extra.json_text, tail);
}

/// The reader reads back what the writer wrote for `extra`, whatever follows.
pub proof fn lemma_extra_reads_back(extra: ExtraView)
    requires
        extra_fits(extra),
        extra.key_type == EXTRA_TAG,
    ensures
        reads_back(extra_reader(), extra_writer(), extra),
{
    assert forall|tail: Seq<u8>| #[trigger]
        extra_reader()(extra_writer()(extra) + tail) == Ok::<(ExtraView, int), DecodeReason>(
            (extra, extra_writer()(extra).len() as int),
        ) by {
        lemma_extra_round_trip(extra, tail);
    }
}

/// Decoding the bytes of an extra-data stream gives the stream back, where
/// every record holds the written tag.
pub proof fn lemma_extras_round_trip(extras: Seq<ExtraView>)
    requires
        forall|i: int| 0 <= i < extras.len() ==> extra_fits(#[trigger] extras[i]),
        forall|i: int| 0 <= i < extras.len() ==> (#[trigger] extras[i]).key_type == EXTRA_TAG,
    ensures
        decode_extras(encode_extras(extras)) == Ok::<Seq<ExtraView>, TableError>(extras),
{
    assert forall|i: int| 0 <= i < extras.len() implies reads_back(
        extra_reader(),
        extra_writer(),
        #[trigger] extras[i],
    ) by {
        lemma_extra_reads_back(extras[i]);
    }
    assert forall|i: int| 0 <= i < extras.len() implies extra_writer()(#[trigger] extras[i]).len()
        > 0 by {
        lemma_extra_round_trip(extras[i], Seq::empty());
    }
    lemma_stream_round_trip(extras, extra_writer(), extra_reader(), 0);
}

/// Appends the record of `extra`.
pub fn write_extra(out: &mut Vec<u8>, extra: &ExtraValue)
    requires
        extra.wf(),
    ensures
        final(out)@ == old(out)@ + encode_extra(extra@),
{
    out.push(EXTRA_TAG);
    out.push(extra.assembly_name_len);
    put_text(out, extra.assembly_name.as_str());
    out.push(extra.class_name_len);
    put_text(out, extra.class_name.as_str());
    put_i32(out, extra.json_len);
    put_text(out, extra.json_text.as_str());
    assert(out@ =~= old(out)@ + encode_extra(extra@));
}

/// The record that starts at `at`, and where the next record starts.
pub fn read_extra(bytes: &[u8], at: usize) -> (extra: Result<(ExtraValue, usize), DecodeReason>)
    requires
        at <= bytes@.len(),
    ensures
        match extra {
            Ok((x, next)) => {
                &&& x.wf()
                &&& at < next <= bytes@.len()
                &&& parse_extra(bytes@.skip(at as int)) == Ok::<(ExtraView, int), DecodeReason>(
                    (x@, next - at),
                )
            },
            Err(reason) => parse_extra(bytes@.skip(at as int)) == Err::<
                (ExtraView, int),
                DecodeReason,
            >(reason),
        },
{
    broadcast use vstd::utf8::decode_utf8_encode_utf8;

    let ghost b = bytes@.skip(at as int);
    let total = bytes.len();
    if total - at < 2 {
        return Err(DecodeReason::Truncated);
    }
    let key_type = bytes[at];
    let assembly_name_len = bytes[at + 1];
    assert(key_type == b[0] && assembly_name_len == b[1]);
    let a = assembly_name_len as usize;
    assert(bytes@.skip(at + 2) =~= b.skip(2));
    let assembly_name = match get_text(bytes, at + 2, a) {
        Ok(text) => text,
        Err(reason) => {
            return Err(reason);
        },
    };
    assert(b.skip(2).take(a as int).len() == a);
    if total - at < 3 + a {
        return Err(DecodeReason::Truncated);
    }
    let class_name_len = bytes[at + 2 + a];
    assert(class_name_len == b[2 + a]);
    let c = class_name_len as usize;
    assert(bytes@.skip(at + 3 + a) =~= b.skip(3 + a));
    let class_name = match get_text(bytes, at + 3 + a, c) {
        Ok(text) => text,
        Err(reason) => {
            return Err(reason);
        },
    };
    assert(b.skip(3 + a).take(c as int).len() == c);
    if total - at < 7 + a + c {
        return Err(DecodeReason::Truncated);
    }
    let json_len = get_i32(bytes, at + 3 + a + c);
    assert(bytes@.skip(at + 3 + a + c) =~= b.skip(3 + a + c));
    if json_len < 0 {
        return Err(DecodeReason::InvalidLength);
    }
    let j = json_len as usize;
    assert(bytes@.skip(at + 7 + a + c) =~= b.skip(7 + a + c));
    let json_text = match get_text(bytes, at + 7 + a + c, j) {
        Ok(text) => text,
        Err(reason) => {
            return Err(reason);
        },
    };
    assert(b.skip(7 + a + c).take(j as int).len() == j);
    Ok(
        (
            ExtraValue {
                key_type,
                assembly_name_len,
                assembly_name,
                class_name_len,
                class_name,
                json_len,
                json_text,
            },
            at + 7 + a + c + j,
        ),
    )
}

impl ExtraData {
    /// The bytes of the stream.
    pub fn encode(&self) -> (bytes: Vec<u8>)
        requires
            self.wf(),
        ensures
            bytes@ == encode_extras(self@),
    {
        let ghost extras = self@;
        let mut out: Vec<u8> = Vec::new();
        let mut i: usize = 0;
        assert(extras.take(0).map_values(extra_writer()) =~= Seq::<Seq<u8>>::empty());
        while i < self.entries.len()
            invariant
                i <= self.entries@.len(),
                extras == self@,
                self.wf(),
                out@ == encode_records(extras.take(i as int), extra_writer()),
            decreases self.entries@.len() - i,
        {
            proof {
                broadcast use Seq::lemma_flatten_push;

                assert(extras.take(i + 1).map_values(extra_writer()) =~= extras.take(
                    i as int,
                ).map_values(extra_writer()).push(encode_extra(extras[i as int])));
            }
            write_extra(&mut out, &self.entries[i]);
            i += 1;
        }
        assert(extras.take(i as int) =~= extras);
        out
    }

    /// The stream that fills `bytes`.
    pub fn decode(bytes: &[u8]) -> (table: Result<ExtraData, TableError>)
        ensures
            match table {
                Ok(t) => t.wf() && decode_extras(bytes@) == Ok::<Seq<ExtraView>, TableError>(t@),
                Err(e) => decode_extras(bytes@) == Err::<Seq<ExtraView>, TableError>(e),
            },
    {
        let mut entries: Vec<ExtraValue> = Vec::new();
        let mut at: usize = 0;
        let total = bytes.len();
        let ghost mut extras: Seq<ExtraView> = Seq::empty();
        assert(bytes@.skip(0) =~= bytes@);
        while at < total
            invariant
                at <= bytes@.len() == total,
                extras == entries@.map_values(|extra: ExtraValue| extra@),
                forall|k: int| 0 <= k < entries@.len() ==> (#[trigger] entries@[k]).wf(),
                decode_extras(bytes@) == prepend(
                    extras,
                    parse_stream(bytes@.skip(at as int), entries@.len(), extra_reader()),
                ),
            decreases bytes@.len() - at,
        {
            match read_extra(bytes, at) {
                Err(reason) => {
                    return Err(TableError { index: entries.len(), reason });
                },
                Ok((extra, next)) => {
                    proof {
                        let here = bytes@.skip(at as int);
                        let rest = parse_stream(
                            bytes@.skip(next as int),
                            entries@.len() + 1,
                            extra_reader(),
                        );
                        assert(here.skip(next - at) =~= bytes@.skip(next as int));
                        assert(extra_reader()(here) == parse_extra(here));
                        assert(parse_stream(here, entries@.len(), extra_reader()) == prepend(
                            seq![extra@],
                            rest,
                        ));
                        if rest is Ok {
                            assert(extras + (seq![extra@] + rest->Ok_0) =~= extras.push(extra@)
                                + rest->Ok_0);
                        }
                        extras = extras.push(extra@);
                    }
                    entries.push(extra);
                    assert(extras =~= entries@.map_values(|extra: ExtraValue| extra@));
                    at = next;
                },
            }
        }
        assert(extras + Seq::<ExtraView>::empty() =~= extras);
        Ok(ExtraData { entries })
    }
}

} // verus!
