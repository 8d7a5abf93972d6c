//! The layout of the bucket table: a count of 32 bits, then one record for
//! each bucket. A record is the offset of the bucket's key, the number of
//! entries that the key selects, and their positions, 32 bits each.

use crate::lookup::{BucketData, BucketEntry, BucketView, EntryId};
use crate::wire::{
    encode_records, get_u32, le_u32, lemma_records_round_trip, lemma_u32_round_trip,
    parse_records, prepend, put_u32, reads_back, u32_of_le, DecodeReason, Parsed, TableError,
};
use vstd::prelude::*;

verus! {

/// The bytes of some entry positions, four for each.
pub open spec fn encode_ids(ids: Seq<EntryId>) -> Seq<u8> {
    Seq::new(4 * ids.len(), |k: int| le_u32(ids[k / 4].0)[k % 4])
}

/// The `n` entry positions at the front of `b`.
pub open spec fn parse_ids(b: Seq<u8>, n: nat) -> Seq<EntryId> {
    Seq::new(n, |i: int| EntryId(u32_of_le(b.skip(4 * i))))
}

/// The record of one bucket.
pub open spec fn encode_bucket(bucket: BucketView) -> Seq<u8> {
    le_u32(bucket.key_data_offset) + le_u32(bucket.indices.len() as u32) + encode_ids(
        bucket.indices,
    )
}

/// The bucket whose record is at the front of `b`.
pub open spec fn parse_bucket(b: Seq<u8>) -> Parsed<BucketView> {
    if b.len() < 8 {
        Err(DecodeReason::Truncated)
    } else {
        let count = u32_of_le(b.skip(4));
        if b.len() < 8 + 4 * count {
            Err(DecodeReason::Truncated)
        } else {
            Ok(
                (
                    BucketView {
                        key_data_offset: u32_of_le(b),
                        indices: parse_ids(b.skip(8), count as nat),
                    },
                    8 + 4 * count,
                ),
            )
        }
    }
}

/// `encode_bucket` as a value.
pub open spec fn bucket_writer() -> spec_fn(BucketView) -> Seq<u8> {
    |bucket: BucketView| encode_bucket(bucket)
}

/// `parse_bucket` as a value.
pub open spec fn bucket_reader() -> spec_fn(Seq<u8>) -> Parsed<BucketView> {
    |b: Seq<u8>| parse_bucket(b)
}

/// The bytes of a bucket table.
pub open spec fn encode_buckets(buckets: Seq<BucketView>) -> Seq<u8> {
    le_u32(buckets.len() as u32) + encode_records(buckets, bucket_writer())
}

/// The bucket table at the front of `b`. What follows the last record is not
/// read.
pub open spec fn decode_buckets(b: Seq<u8>) -> Result<Seq<BucketView>, TableError> {
    if b.len() < 4 {
        Err(TableError { index: 0, reason: DecodeReason::Truncated })
    } else {
        parse_records(b.skip(4), u32_of_le(b) as nat, 0, bucket_reader())
    }
}

/// Entry positions are read back from their bytes, whatever follows.
pub proof fn lemma_ids_round_trip(ids: Seq<EntryId>, tail: Seq<u8>)
    ensures
        encode_ids(ids).len() == 4 * ids.len(),
        parse_ids(encode_ids(ids) + tail, ids.len()) == ids,
{
    let b = encode_ids(ids) + tail;
    assert forall|i: int| 0 <= i < ids.len() implies parse_ids(b, ids.len())[i] == ids[i] by {
        let at = b.skip(4 * i);
        assert(at[0] == le_u32(ids[i].0)[0]);
        assert(at[1] == le_u32(ids[i].0)[1]);
        assert(at[2] == le_u32(ids[i].0)[2]);
        assert(at[3] == le_u32(ids[i].0)[3]);
        lemma_u32_round_trip(ids[i].0, Seq::empty());
        assert((le_u32(ids[i].0) + Seq::<u8>::empty())[0] == at[0]);
        assert((le_u32(ids[i].0) + Seq::<u8>::empty())[1] == at[1]);
        assert((le_u32(ids[i].0) + Seq::<u8>::empty())[2] == at[2]);
        assert((le_u32(ids[i].0) + Seq::<u8>::empty())[3] == at[3]);
    }
    assert(parse_ids(b, ids.len()) =~= ids);
}

/// A bucket whose entries can be counted in 32 bits is read back from its
/// record, whatever follows.
pub proof fn lemma_bucket_round_trip(bucket: BucketView, tail: Seq<u8>)
    requires
        bucket.indices.len() <= u32::MAX,
    ensures
        encode_bucket(bucket).len() == 8 + 4 * bucket.indices.len(),
        parse_bucket(encode_bucket(bucket) + tail) == Ok::<(BucketView, int), DecodeReason>(
            (bucket, (8 + 4 * bucket.indices.len()) as int),
        ),
{
    let n = bucket.indices.len() as u32;
    let ids = encode_ids(bucket.indices);
    let b = encode_bucket(bucket) + tail;
    lemma_u32_round_trip(bucket.key_data_offset, le_u32(n) + ids + tail);
    lemma_u32_round_trip(n, ids + tail);
    assert(b =~= le_u32(bucket.key_data_offset) + (le_u32(n) + ids + tail));
    assert(b.skip(4) =~= le_u32(n) + (ids + tail));
    assert(b.skip(8) =~= ids + tail);
    lemma_ids_round_trip(bucket.indices, tail);
}

/// The reader reads back what the writer wrote for `bucket`, whatever follows.
pub proof fn lemma_bucket_reads_back(bucket: BucketView)
    requires
        bucket.indices.len() <= u32::MAX,
    ensures
        reads_back(bucket_reader(), bucket_writer(), bucket),
{
    assert forall|tail: Seq<u8>| #[trigger]
        bucket_reader()(bucket_writer()(bucket) + tail) == Ok::<(BucketView, int), DecodeReason>(
            (bucket, bucket_writer()(bucket).len() as int),
        ) by {
        lemma_bucket_round_trip(bucket, tail);
    }
}

/// Decoding the bytes of a bucket table gives the table back, whatever
/// follows the bytes.
pub proof fn lemma_buckets_round_trip(buckets: Seq<BucketView>, tail: Seq<u8>)
    requires
        buckets.len() <= u32::MAX,
        forall|i: int| 0 <= i < buckets.len() ==> (#[trigger] buckets[i]).indices.len() <= u32::MAX,
    ensures
        decode_buckets(encode_buckets(buckets) + tail) == Ok::<Seq<BucketView>, TableError>(
            buckets,
        ),
{
    let body = encode_records(buckets, bucket_writer());
    let b = encode_buckets(buckets) + tail;
    lemma_u32_round_trip(buckets.len() as u32, body + tail);
    assert(b =~= le_u32(buckets.len() as u32) + (body + tail));
    assert(b.skip(4) =~= body + tail);
    assert forall|i: int| 0 <= i < buckets.len() implies reads_back(
        bucket_reader(),
        bucket_writer(),
        #[trigger] buckets[i],
    ) by {
        lemma_bucket_reads_back(buckets[i]);
    }
    lemma_records_round_trip(buckets, bucket_writer(), bucket_reader(), tail, 0);
}

/// Appends the record of `bucket`.
pub fn write_bucket(out: &mut Vec<u8>, bucket: &BucketEntry)
    requires
        bucket.wf(),
    ensures
        final(out)@ == old(out)@ + encode_bucket(bucket@),
{
    put_u32(out, bucket.key_data_offset);
    put_u32(out, bucket.count);
    let ghost head = out@;
    let ghost ids = bucket.indices@;
    let mut i: usize = 0;
    assert(encode_ids(ids.take(0)) =~= Seq::<u8>::empty());
    while i < bucket.indices.len()
        invariant
            i <= bucket.indices@.len(),
            ids == bucket.indices@,
            out@ == head + encode_ids(ids.take(i as int)),
        decreases bucket.indices@.len() - i,
    {
        put_u32(out, bucket.indices[i].0);
        assert(encode_ids(ids.take(i + 1)) =~= encode_ids(ids.take(i as int)) + le_u32(
            ids[i as int].0,
        ));
        i += 1;
    }
    assert(ids.take(i as int) =~= ids);
}

/// The bucket whose record starts at `at`, and where the next record starts.
pub fn read_bucket(bytes: &[u8], at: usize) -> (bucket: Result<(BucketEntry, usize), DecodeReason>)
    requires
        at <= bytes@.len(),
    ensures
        match bucket {
            Ok((k, next)) => {
                &&& k.wf()
                &&& at < next <= bytes@.len()
                &&& parse_bucket(bytes@.skip(at as int)) == Ok::<(BucketView, int), DecodeReason>(
                    (k@, next - at),
                )
            },
            Err(reason) => parse_bucket(bytes@.skip(at as int)) == Err::<
                (BucketView, int),
                DecodeReason,
            >(reason),
        },
{
    let ghost b = bytes@.skip(at as int);
    let left = bytes.len() - at;
    if left < 8 {
        return Err(DecodeReason::Truncated);
    }
    let key_data_offset = get_u32(bytes, at);
    let count = get_u32(bytes, at + 4);
    assert(bytes@.skip(at + 4) =~= b.skip(4));
    if (left - 8) / 4 < count as usize {
        return Err(DecodeReason::Truncated);
    }
    let mut indices: Vec<EntryId> = Vec::new();
    let mut i: u32 = 0;
    while i < count
        invariant
            i <= count,
            at + 8 + 4 * count <= bytes@.len() <= usize::MAX,
            b == bytes@.skip(at as int),
            indices@ == parse_ids(b.skip(8), i as nat),
        decreases count - i,
    {
        let id = get_u32(bytes, at + 8 + 4 * (i as usize));
        assert(bytes@.skip(at + 8 + 4 * i) =~= b.skip(8).skip(4 * i));
        indices.push(EntryId(id));
        assert(indices@ =~= parse_ids(b.skip(8), (i + 1) as nat));
        i += 1;
    }
    Ok((BucketEntry { key_data_offset, count, indices }, at + 8 + 4 * (count as usize)))
}

impl BucketData {
    /// The bytes of the table.
    pub fn encode(&self) -> (bytes: Vec<u8>)
        requires
            self.wf(),
        ensures
            bytes@ == encode_buckets(self@),
    {
        let ghost buckets = self@;
        let mut out: Vec<u8> = Vec::new();
        put_u32(&mut out, self.count);
        let mut i: usize = 0;
        assert(buckets.take(0).map_values(bucket_writer()) =~= Seq::<Seq<u8>>::empty());
        while i < self.entries.len()
            invariant
                i <= self.entries@.len(),
                buckets == self@,
                self.wf(),
                out@ == le_u32(self.count) + encode_records(
                    buckets.take(i as int),
                    bucket_writer(),
                ),
            decreases self.entries@.len() - i,
        {
            proof {
                broadcast use Seq::lemma_flatten_push;

                assert(buckets.take(i + 1).map_values(bucket_writer()) =~= buckets.take(
                    i as int,
                ).map_values(bucket_writer()).push(encode_bucket(buckets[i as int])));
            }
            write_bucket(&mut out, &self.entries[i]);
            i += 1;
        }
        assert(buckets.take(i as int) =~= buckets);
        out
    }

    /// The table at the front of `bytes`.
    pub fn decode(bytes: &[u8]) -> (table: Result<BucketData, TableError>)
        ensures
            match table {
                Ok(t) => t.wf() && decode_buckets(bytes@) == Ok::<Seq<BucketView>, TableError>(
                    t@,
                ),
                Err(e) => decode_buckets(bytes@) == Err::<Seq<BucketView>, TableError>(e),
            },
    {
        if bytes.len() < 4 {
            return Err(TableError { index: 0, reason: DecodeReason::Truncated });
        }
        let count = get_u32(bytes, 0);
        assert(bytes@.skip(0) =~= bytes@);
        let mut entries: Vec<BucketEntry> = Vec::new();
        let mut at: usize = 4;
        let mut i: u32 = 0;
        let ghost mut buckets: Seq<BucketView> = Seq::empty();
        while i < count
            invariant
                i <= count,
                4 <= at <= bytes@.len(),
                entries@.len() == i,
                buckets == entries@.map_values(|bucket: BucketEntry| bucket@),
                forall|j: int| 0 <= j < entries@.len() ==> (#[trigger] entries@[j]).wf(),
                decode_buckets(bytes@) == prepend(
                    buckets,
                    parse_records(
                        bytes@.skip(at as int),
                        (count - i) as nat,
                        i as nat,
                        bucket_reader(),
                    ),
                ),
            decreases count - i,
        {
            match read_bucket(bytes, at) {
                Err(reason) => {
                    return Err(TableError { index: i as usize, reason });
                },
                Ok((bucket, next)) => {
                    proof {
                        let here = bytes@.skip(at as int);
                        let rest = parse_records(
                            bytes@.skip(next as int),
                            (count - i - 1) as nat,
                            (i + 1) as nat,
                            bucket_reader(),
                        );
                        assert(here.skip(next - at) =~= bytes@.skip(next as int));
                        assert(bucket_reader()(here) == parse_bucket(here));
                        assert(parse_records(here, (count - i) as nat, i as nat, bucket_reader())
                            == prepend(seq![bucket@], rest));
                        if rest is Ok {
                            assert(buckets + (seq![bucket@] + rest->Ok_0) =~= buckets.push(bucket@)
                                + rest->Ok_0);
                        }
                        buckets = buckets.push(bucket@);
                    }
                    entries.push(bucket);
                    assert(buckets =~= entries@.map_values(|bucket: BucketEntry| bucket@));
                    at = next;
                    i += 1;
                },
            }
        }
        assert(buckets + Seq::<BucketView>::empty() =~= buckets);
        Ok(BucketData { count, entries })
    }
}

} // verus!
