//! The layout of the entry table: a count of 32 bits, then one record of 28
//! bytes for each entry, its seven fields in order, 32 bits each.

use crate::lookup::{EntryData, EntryValue, ExtraId, InternalId, KeyId};
use crate::wire::{
    encode_records, get_i32, get_u32, i32_of_le, le_i32, le_u32, lemma_i32_round_trip,
    lemma_records_round_trip, lemma_u32_round_trip, parse_records, prepend, put_i32, put_u32,
    reads_back, u32_of_le, DecodeReason, Parsed, TableError,
};
use vstd::prelude::*;

verus! {

/// The record of one entry.
pub open spec fn encode_entry(entry: EntryValue) -> Seq<u8> {
    le_u32(entry.internal_id.0) + le_u32(entry.provider_index) + le_i32(
        entry.dependency_key_idx.0,
    ) + le_i32(entry.dependency_hash) + le_i32(entry.data_index.0) + le_i32(entry.primary_key.0)
        + le_i32(entry.resource_type)
}

/// The entry whose record is at the front of `b`.
pub open spec fn parse_entry(b: Seq<u8>) -> Parsed<EntryValue> {
    if b.len() < 28 {
        Err(DecodeReason::Truncated)
    } else {
        Ok(
            (
                EntryValue {
                    internal_id: InternalId(u32_of_le(b)),
                    provider_index: u32_of_le(b.skip(4)),
                    dependency_key_idx: KeyId(i32_of_le(b.skip(8))),
                    dependency_hash: i32_of_le(b.skip(12)),
                    data_index: ExtraId(i32_of_le(b.skip(16))),
                    primary_key: KeyId(i32_of_le(b.skip(20))),
                    resource_type: i32_of_le(b.skip(24)),
                },
                28,
            ),
        )
    }
}

/// `encode_entry` as a value.
pub open spec fn entry_writer() -> spec_fn(EntryValue) -> Seq<u8> {
    |entry: EntryValue| encode_entry(entry)
}

/// `parse_entry` as a value.
pub open spec fn entry_reader() -> spec_fn(Seq<u8>) -> Parsed<EntryValue> {
    |b: Seq<u8>| parse_entry(b)
}

/// The bytes of an entry table.
pub open spec fn encode_entries(entries: Seq<EntryValue>) -> Seq<u8> {
    le_u32(entries.len() as u32) + encode_records(entries, entry_writer())
}

/// The entry table at the front of `b`. What follows the last record is not
/// read.
pub open spec fn decode_entries(b: Seq<u8>) -> Result<Seq<EntryValue>, TableError> {
    if b.len() < 4 {
        Err(TableError { index: 0, reason: DecodeReason::Truncated })
    } else {
        parse_records(b.skip(4), u32_of_le(b) as nat, 0, entry_reader())
    }
}

/// An entry is read back from its record, whatever follows.
pub proof fn lemma_entry_round_trip(entry: EntryValue, tail: Seq<u8>)
    ensures
        encode_entry(entry).len() == 28,
        parse_entry(encode_entry(entry) + tail) == Ok::<(EntryValue, int), DecodeReason>(
            (entry, 28),
        ),
{
    let f0 = le_u32(entry.internal_id.0);
    let f1 = le_u32(entry.provider_index);
    let f2 = le_i32(entry.dependency_key_idx.0);
    let f3 = le_i32(entry.dependency_hash);
    let f4 = le_i32(entry.data_index.0);
    let f5 = le_i32(entry.primary_key.0);
    let f6 = le_i32(entry.resource_type);
    let b = encode_entry(entry) + tail;
    let t6 = tail;
    let t5 = f6 + t6;
    let t4 = f5 + t5;
    let t3 = f4 + t4;
    let t2 = f3 + t3;
    let t1 = f2 + t2;
    let t0 = f1 + t1;
    lemma_u32_round_trip(entry.internal_id.0, t0);
    lemma_u32_round_trip(entry.provider_index, t1);
    lemma_i32_round_trip(entry.dependency_key_idx.0, t2);
    lemma_i32_round_trip(entry.dependency_hash, t3);
    lemma_i32_round_trip(entry.data_index.0, t4);
    lemma_i32_round_trip(entry.primary_key.0, t5);
    lemma_i32_round_trip(entry.resource_type, t6);
    assert(b =~= f0 + t0);
    assert(b.skip(4) =~= f1 + t1);
    assert(b.skip(8) =~= f2 + t2);
    assert(b.skip(12) =~= f3 + t3);
    assert(b.skip(16) =~= f4 + t4);
    assert(b.skip(20) =~= f5 + t5);
    assert(b.skip(24) =~= f6 + t6);
}

/// The reader reads back what the writer wrote for `entry`, whatever follows.
pub proof fn lemma_entry_reads_back(entry: EntryValue)
    ensures
        reads_back(entry_reader(), entry_writer(), entry),
{
    assert forall|tail: Seq<u8>| #[trigger]
        entry_reader()(entry_writer()(entry) + tail) == Ok::<(EntryValue, int), DecodeReason>(
            (entry, entry_writer()(entry).len() as int),
        ) by {
        lemma_entry_round_trip(entry, tail);
    }
}

/// Decoding the bytes of an entry table gives the table back, whatever
/// follows the bytes.
pub proof fn lemma_entries_round_trip(entries: Seq<EntryValue>, tail: Seq<u8>)
    requires
        entries.len() <= u32::MAX,
    ensures
        decode_entries(encode_entries(entries) + tail) == Ok::<Seq<EntryValue>, TableError>(
            entries,
        ),
{
    let body = encode_records(entries, entry_writer());
    let b = encode_entries(entries) + tail;
    lemma_u32_round_trip(entries.len() as u32, body + tail);
    assert(b =~= le_u32(entries.len() as u32) + (body + tail));
    assert(b.skip(4) =~= body + tail);
    assert forall|i: int| 0 <= i < entries.len() implies reads_back(
        entry_reader(),
        entry_writer(),
        #[trigger] entries[i],
    ) by {
        lemma_entry_reads_back(entries[i]);
    }
    lemma_records_round_trip(entries, entry_writer(), entry_reader(), tail, 0);
}

/// Appends the record of `entry`.
pub fn write_entry(out: &mut Vec<u8>, entry: &EntryValue)
    ensures
        final(out)@ == old(out)@ + encode_entry(*entry),
{
    put_u32(out, entry.internal_id.0);
    put_u32(out, entry.provider_index);
    put_i32(out, entry.dependency_key_idx.0);
    put_i32(out, entry.dependency_hash);
    put_i32(out, entry.data_index.0);
    put_i32(out, entry.primary_key.0);
    put_i32(out, entry.resource_type);
    assert(out@ =~= old(out)@ + encode_entry(*entry));
}

/// The entry whose record starts at `at`.
pub fn read_entry(bytes: &[u8], at: usize) -> (entry: Result<EntryValue, DecodeReason>)
    requires
        at <= bytes@.len(),
    ensures
        match entry {
            Ok(e) => at + 28 <= bytes@.len() && parse_entry(bytes@.skip(at as int)) == Ok::<
                (EntryValue, int),
                DecodeReason,
            >((e, 28)),
            Err(reason) => parse_entry(bytes@.skip(at as int)) == Err::<
                (EntryValue, int),
                DecodeReason,
            >(reason),
        },
{
    let ghost b = bytes@.skip(at as int);
    if bytes.len() - at < 28 {
        return Err(DecodeReason::Truncated);
    }
    proof {
        assert(bytes@.skip(at + 4) =~= b.skip(4));
        assert(bytes@.skip(at + 8) =~= b.skip(8));
        assert(bytes@.skip(at + 12) =~= b.skip(12));
        assert(bytes@.skip(at + 16) =~= b.skip(16));
        assert(bytes@.skip(at + 20) =~= b.skip(20));
        assert(bytes@.skip(at + 24) =~= b.skip(24));
    }
    Ok(
        EntryValue {
            internal_id: InternalId(get_u32(bytes, at)),
            provider_index: get_u32(bytes, at + 4),
            dependency_key_idx: KeyId(get_i32(bytes, at + 8)),
            dependency_hash: get_i32(bytes, at + 12),
            data_index: ExtraId(get_i32(bytes, at + 16)),
            primary_key: KeyId(get_i32(bytes, at + 20)),
            resource_type: get_i32(bytes, at + 24),
        },
    )
}

impl EntryData {
    /// The bytes of the table.
    pub fn encode(&self) -> (bytes: Vec<u8>)
        requires
            self.wf(),
        ensures
            bytes@ == encode_entries(self@),
    {
        let ghost entries = self@;
        let mut out: Vec<u8> = Vec::new();
        put_u32(&mut out, self.count);
        let mut i: usize = 0;
        assert(entries.take(0).map_values(entry_writer()) =~= Seq::<Seq<u8>>::empty());
        while i < self.entries.len()
            invariant
                i <= self.entries@.len(),
                entries == self@,
                out@ == le_u32(self.count) + encode_records(
                    entries.take(i as int),
                    entry_writer(),
                ),
            decreases self.entries@.len() - i,
        {
            proof {
                broadcast use Seq::lemma_flatten_push;

                assert(entries.take(i + 1).map_values(entry_writer()) =~= entries.take(
                    i as int,
                ).map_values(entry_writer()).push(encode_entry(entries[i as int])));
            }
            write_entry(&mut out, &self.entries[i]);
            i += 1;
        }
        assert(entries.take(i as int) =~= entries);
        out
    }

    /// The table at the front of `bytes`.
    pub fn decode(bytes: &[u8]) -> (table: Result<EntryData, TableError>)
        ensures
            match table {
                Ok(t) => t.wf() && decode_entries(bytes@) == Ok::<Seq<EntryValue>, TableError>(
                    t@,
                ),
                Err(e) => decode_entries(bytes@) == Err::<Seq<EntryValue>, TableError>(e),
            },
    {
        if bytes.len() < 4 {
            return Err(TableError { index: 0, reason: DecodeReason::Truncated });
        }
        let count = get_u32(bytes, 0);
        assert(bytes@.skip(0) =~= bytes@);
        let mut entries: Vec<EntryValue> = Vec::new();
        let mut at: usize = 4;
        let mut i: u32 = 0;
        while i < count
            invariant
                i <= count,
                4 <= at <= bytes@.len() <= usize::MAX,
                entries@.len() == i,
                decode_entries(bytes@) == prepend(
                    entries@,
                    parse_records(
                        bytes@.skip(at as int),
                        (count - i) as nat,
                        i as nat,
                        entry_reader(),
                    ),
                ),
            decreases count - i,
        {
            match read_entry(bytes, at) {
                Err(reason) => {
                    return Err(TableError { index: i as usize, reason });
                },
                Ok(entry) => {
                    proof {
                        let here = bytes@.skip(at as int);
                        let rest = parse_records(
                            bytes@.skip(at + 28),
                            (count - i - 1) as nat,
                            (i + 1) as nat,
                            entry_reader(),
                        );
                        assert(here.skip(28) =~= bytes@.skip(at + 28));
                        assert(entry_reader()(here) == parse_entry(here));
                        assert(parse_records(here, (count - i) as nat, i as nat, entry_reader())
                            == prepend(seq![entry], rest));
                        if rest is Ok {
                            assert(entries@ + (seq![entry] + rest->Ok_0) =~= entries@.push(entry)
                                + rest->Ok_0);
                        }
                    }
                    entries.push(entry);
                    at = at + 28;
                    i += 1;
                },
            }
        }
        assert(entries@ + Seq::<EntryValue>::empty() =~= entries@);
        Ok(EntryData { count, entries })
    }
}

} // verus!
