//! The layout of the key table: a count of 32 bits, then one record for each
//! key. A record starts with a tag: 0 before a string key, which is a length
//! of 32 bits and that many bytes of UTF-8; 4 before a hash key of 32 bits.

use crate::lookup::{KeyData, KeyDataValue, KeyView};
use crate::wire::{
    encode_records, get_i32, get_text, get_u32, i32_of_le, le_i32, le_u32, lemma_i32_round_trip,
    lemma_records_round_trip, lemma_text_round_trip, lemma_u32_round_trip, parse_records,
    parse_text, prepend, put_i32, put_text, put_u32, reads_back, u32_of_le, DecodeReason, Parsed,
    TableError,
};
use vstd::prelude::*;
use vstd::utf8::encode_utf8;

verus! {

/// The record of one key.
pub open spec fn encode_key(key: KeyView) -> Seq<u8> {
    match key {
        KeyView::Text(text) => seq![0u8] + le_u32(encode_utf8(text).len() as u32) + encode_utf8(
            text,
        ),
        KeyView::Hash(hash) => seq![4u8] + le_i32(hash),
    }
}

/// The key whose record is at the front of `b`.
pub open spec fn parse_key(b: Seq<u8>) -> Parsed<KeyView> {
    if b.len() < 1 {
        Err(DecodeReason::Truncated)
    } else if b[0] == 0 {
        if b.len() < 5 {
            Err(DecodeReason::Truncated)
        } else {
            let len = u32_of_le(b.skip(1));
            match parse_text(b.skip(5), len as int) {
                Ok(text) => Ok((KeyView::Text(text), 5 + len)),
                Err(reason) => Err(reason),
            }
        }
    } else if b[0] == 4 {
        if b.len() < 5 {
            Err(DecodeReason::Truncated)
        } else {
            Ok((KeyView::Hash(i32_of_le(b.skip(1))), 5))
        }
    } else {
        Err(DecodeReason::InvalidTag)
    }
}

/// `encode_key` as a value.
pub open spec fn key_writer() -> spec_fn(KeyView) -> Seq<u8> {
    |key: KeyView| encode_key(key)
}

/// `parse_key` as a value.
pub open spec fn key_reader() -> spec_fn(Seq<u8>) -> Parsed<KeyView> {
    |b: Seq<u8>| parse_key(b)
}

/// The bytes of a key table.
pub open spec fn encode_keys(keys: Seq<KeyView>) -> Seq<u8> {
    le_u32(keys.len() as u32) + encode_records(keys, key_writer())
}

/// The key table at the front of `b`. What follows the last record is not
/// read.
pub open spec fn decode_keys(b: Seq<u8>) -> Result<Seq<KeyView>, TableError> {
    if b.len() < 4 {
        Err(TableError { index: 0, reason: DecodeReason::Truncated })
    } else {
        parse_records(b.skip(4), u32_of_le(b) as nat, 0, key_reader())
    }
}

/// Whether the text of a key is short enough for its length field.
pub open spec fn key_fits(key: KeyView) -> bool {
    key matches KeyView::Text(text) ==> encode_utf8(text).len() <= u32::MAX
}

/// A key whose text fits is read back from its record, whatever follows.
pub proof fn lemma_key_round_trip(key: KeyView, tail: Seq<u8>)
    requires
        key_fits(key),
    ensures
        encode_key(key).len() == key.size(),
        parse_key(encode_key(key) + tail) == Ok::<(KeyView, int), DecodeReason>(
            (key, key.size() as int),
        ),
{
    let b = encode_key(key) + tail;
    match key {
        KeyView::Text(text) => {
            let len = encode_utf8(text).len() as u32;
            lemma_u32_round_trip(len, encode_utf8(text) + tail);
            assert(b.skip(1) =~= le_u32(len) + (encode_utf8(text) + tail));
            assert(b.skip(5) =~= encode_utf8(text) + tail);
            lemma_text_round_trip(text, tail);
        },
        KeyView::Hash(hash) => {
            lemma_i32_round_trip(hash, tail);
            assert(b.skip(1) =~= le_i32(hash) + tail);
        },
    }
}

/// The reader reads back what the writer wrote for `key`, whatever follows.
pub proof fn lemma_key_reads_back(key: KeyView)
    requires
        key_fits(key),
    ensures
        reads_back(key_reader(), key_writer(), key),
{
    assert forall|tail: Seq<u8>| #[trigger]
        key_reader()(key_writer()(key) + tail) == Ok::<(KeyView, int), DecodeReason>(
            (key, key_writer()(key).len() as int),
        ) by {
        lemma_key_round_trip(key, tail);
    }
}

/// Decoding the bytes of a key table gives the table back, whatever follows
/// the bytes.
pub proof fn lemma_keys_round_trip(keys: Seq<KeyView>, tail: Seq<u8>)
    requires
        keys.len() <= u32::MAX,
        forall|i: int| 0 <= i < keys.len() ==> key_fits(#[trigger] keys[i]),
    ensures
        decode_keys(encode_keys(keys) + tail) == Ok::<Seq<KeyView>, TableError>(keys),
{
    let body = encode_records(keys, key_writer());
    let b = encode_keys(keys) + tail;
    lemma_u32_round_trip(keys.len() as u32, body + tail);
    assert(b =~= le_u32(keys.len() as u32) + (body + tail));
    assert(b.skip(4) =~= body + tail);
    assert forall|i: int| 0 <= i < keys.len() implies reads_back(
        key_reader(),
        key_writer(),
        #[trigger] keys[i],
    ) by {
        lemma_key_reads_back(keys[i]);
    }
    lemma_records_round_trip(keys, key_writer(), key_reader(), tail, 0);
}

/// Appends the record of `key`.
pub fn write_key(out: &mut Vec<u8>, key: &KeyDataValue)
    requires
        key_fits(key@),
    ensures
        final(out)@ == old(out)@ + encode_key(key@),
{
    match key {
        KeyDataValue::Hash(hash) => {
            out.push(4u8);
            put_i32(out, *hash);
            assert(out@ =~= old(out)@ + encode_key(key@));
        },
        KeyDataValue::String { string, .. } => {
            out.push(0u8);
            put_u32(out, string.as_str().as_bytes().len() as u32);
            put_text(out, string.as_str());
            assert(out@ =~= old(out)@ + encode_key(key@));
        },
    }
}

/// The key whose record starts at `at`, and where the next record starts.
pub fn read_key(bytes: &[u8], at: usize) -> (key: Result<(KeyDataValue, usize), DecodeReason>)
    requires
        at <= bytes@.len(),
    ensures
        match key {
            Ok((k, next)) => {
                &&& k.wf()
                &&& at < next <= bytes@.len()
                &&& parse_key(bytes@.skip(at as int)) == Ok::<(KeyView, int), DecodeReason>(
                    (k@, next - at),
                )
            },
            Err(reason) => parse_key(bytes@.skip(at as int)) == Err::<
                (KeyView, int),
                DecodeReason,
            >(reason),
        },
{
    let ghost b = bytes@.skip(at as int);
    let left = bytes.len() - at;
    if left < 1 {
        return Err(DecodeReason::Truncated);
    }
    let tag = bytes[at];
    assert(tag == b[0]);
    if tag == 0 {
        if left < 5 {
            return Err(DecodeReason::Truncated);
        }
        let length = get_u32(bytes, at + 1);
        assert(bytes@.skip(at + 1) =~= b.skip(1));
        assert(bytes@.skip(at + 5) =~= b.skip(5));
        if left - 5 < length as usize {
            return Err(DecodeReason::Truncated);
        }
        match get_text(bytes, at + 5, length as usize) {
            Ok(string) => {
                proof {
                    broadcast use vstd::utf8::decode_utf8_encode_utf8;

                    assert(b.skip(5).take(length as int).len() == length);
                }
                Ok((KeyDataValue::String { length, string }, at + 5 + length as usize))
            },
            Err(reason) => Err(reason),
        }
    } else if tag == 4 {
        if left < 5 {
            return Err(DecodeReason::Truncated);
        }
        let hash = get_i32(bytes, at + 1);
        assert(bytes@.skip(at + 1) =~= b.skip(1));
        Ok((KeyDataValue::Hash(hash), at + 5))
    } else {
        Err(DecodeReason::InvalidTag)
    }
}

impl KeyData {
    /// Whether the table can be encoded: the text of every key fits its
    /// length field.
    pub open spec fn encodable(&self) -> bool {
        &&& self.entries@.len() <= u32::MAX
        &&& forall|i: int| 0 <= i < self@.len() ==> key_fits(#[trigger] self@[i])
    }

    /// A well-formed table can be encoded.
    pub proof fn lemma_wf_encodable(&self)
        requires
            self.wf(),
        ensures
            self.encodable(),
    {
        assert forall|i: int| 0 <= i < self@.len() implies key_fits(#[trigger] self@[i]) by {
            assert(self.entries@[i].wf());
        }
    }

    /// The bytes of the table.
    pub fn encode(&self) -> (bytes: Vec<u8>)
        requires
            self.wf(),
        ensures
            bytes@ == encode_keys(self@),
    {
        proof {
            self.lemma_wf_encodable();
        }
        let ghost keys = self@;
        let mut out: Vec<u8> = Vec::new();
        put_u32(&mut out, self.count);
        let mut i: usize = 0;
        assert(keys.take(0).map_values(key_writer()) =~= Seq::<Seq<u8>>::empty());
        while i < self.entries.len()
            invariant
                i <= self.entries@.len(),
                keys == self@,
                self.encodable(),
                out@ == le_u32(self.count) + encode_records(keys.take(i as int), key_writer()),
            decreases self.entries@.len() - i,
        {
            proof {
                broadcast use Seq::lemma_flatten_push;

                assert(keys.take(i + 1).map_values(key_writer()) =~= keys.take(
                    i as int,
                ).map_values(key_writer()).push(encode_key(keys[i as int])));
                assert(key_fits(keys[i as int]));
            }
            write_key(&mut out, &self.entries[i]);
            i += 1;
        }
        assert(keys.take(i as int) =~= keys);
        out
    }

    /// The table at the front of `bytes`.
    pub fn decode(bytes: &[u8]) -> (table: Result<KeyData, TableError>)
        ensures
            match table {
                Ok(t) => t.wf() && decode_keys(bytes@) == Ok::<Seq<KeyView>, TableError>(t@),
                Err(e) => decode_keys(bytes@) == Err::<Seq<KeyView>, TableError>(e),
            },
    {
        if bytes.len() < 4 {
            return Err(TableError { index: 0, reason: DecodeReason::Truncated });
        }
        let count = get_u32(bytes, 0);
        assert(bytes@.skip(0) =~= bytes@);
        let mut entries: Vec<KeyDataValue> = Vec::new();
        let mut at: usize = 4;
        let mut i: u32 = 0;
        let ghost mut keys: Seq<KeyView> = Seq::empty();
        while i < count
            invariant
                i <= count,
                4 <= at <= bytes@.len(),
                entries@.len() == i,
                keys == entries@.map_values(|key: KeyDataValue| key@),
                forall|j: int| 0 <= j < entries@.len() ==> (#[trigger] entries@[j]).wf(),
                decode_keys(bytes@) == prepend(
                    keys,
                    parse_records(bytes@.skip(at as int), (count - i) as nat, i as nat, key_reader()),
                ),
            decreases count - i,
        {
            match read_key(bytes, at) {
                Err(reason) => {
                    return Err(TableError { index: i as usize, reason });
                },
                Ok((key, next)) => {
                    proof {
                        let here = bytes@.skip(at as int);
                        let rest = parse_records(
                            bytes@.skip(next as int),
                            (count - i - 1) as nat,
                            (i + 1) as nat,
                            key_reader(),
                        );
                        assert(here.skip(next - at) =~= bytes@.skip(next as int));
                        assert(key_reader()(here) == parse_key(here));
                        assert(parse_records(here, (count - i) as nat, i as nat, key_reader())
                            == prepend(seq![key@], rest));
                        if rest is Ok {
                            assert(keys + (seq![key@] + rest->Ok_0) =~= keys.push(key@)
                                + rest->Ok_0);
                        }
                        keys = keys.push(key@);
                    }
                    entries.push(key);
                    assert(keys =~= entries@.map_values(|key: KeyDataValue| key@));
                    at = next;
                    i += 1;
                },
            }
        }
        assert(keys + Seq::<KeyView>::empty() =~= keys);
        Ok(KeyData { count, entries })
    }
}

} // verus!
