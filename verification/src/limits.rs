//! The limits of the layouts, tested before an append: positions and offsets
//! have 32 bits, and an operation that would need more is not begun.

use crate::catalog::Catalog;
use crate::edit::lemma_extras_size_prefix;
use crate::lookup::KeyDataValue;
use crate::model::extras_size;
use vstd::prelude::*;

verus! {

impl Catalog {
    /// Where the record of the next key starts, in 64 bits.
    fn wide_next_key_offset(&self) -> (offset: u64)
        requires
            self.wf(),
        ensures
            offset == self@.next_key_offset(),
    {
        let keys = self.m_KeyDataString.entries.len();
        let buckets = self.m_BucketDataString.entries.len();
        if keys == 0 || buckets == 0 {
            4
        } else {
            let key = &self.m_KeyDataString.entries[keys - 1];
            proof {
                key.lemma_size_of_wf();
            }
            let size: u64 = match key {
                KeyDataValue::String { length, .. } => *length as u64 + 5,
                KeyDataValue::Hash(_) => 5,
            };
            self.m_BucketDataString.entries[buckets - 1].key_data_offset as u64 + size
        }
    }

    /// Whether `add_key` and `add_dependency_key` can append a key.
    pub fn has_room_for_key(&self) -> (room: bool)
        requires
            self.wf(),
        ensures
            room == self@.room_for_key(),
    {
        self.m_KeyDataString.entries.len() < 0x7fff_ffff && self.wide_next_key_offset()
            <= 0xffff_ffff
    }

    /// Whether `add_extra_data` can append a record.
    pub fn has_room_for_extra(&self) -> (room: bool)
        requires
            self.wf(),
        ensures
            room == self@.room_for_extra(),
    {
        let ghost extras = self@.extras;
        let mut offset: u64 = 0;
        let mut i: usize = 0;
        while i < self.m_ExtraDataString.entries.len()
            invariant
                i <= self.m_ExtraDataString.entries@.len(),
                self.m_ExtraDataString.wf(),
                extras == self.m_ExtraDataString@,
                offset == extras_size(extras.take(i as int)),
                offset <= i32::MAX,
            decreases self.m_ExtraDataString.entries@.len() - i,
        {
            proof {
                lemma_extras_size_prefix(extras, i + 1);
                assert(extras.take(i + 1).drop_last() =~= extras.take(i as int));
            }
            offset = offset + self.m_ExtraDataString.entries[i].get_size() as u64;
            if offset > 0x7fff_ffff {
                return false;
            }
            i += 1;
        }
        assert(extras.take(i as int) =~= extras);
        true
    }

    /// Whether `add_bundle` can add a bundle with the string key `key`.
    pub fn has_room_for_bundle(&self, key: &str) -> (room: bool)
        requires
            self.wf(),
        ensures
            room == self@.room_for_bundle(key@),
    {
        self.m_InternalIds.len() < 0xffff_ffff && self.m_EntryDataString.entries.len()
            < 0xffff_ffff && key.as_bytes().len() <= 0xffff_ffff && self.has_room_for_key()
            && self.has_room_for_extra()
    }

    /// Whether `add_prefab` can add a prefab with the string key `key` and
    /// `dependencies` names to resolve.
    pub fn has_room_for_prefab(&self, key: &str, dependencies: usize) -> (room: bool)
        requires
            self.wf(),
        ensures
            room == self@.room_for_prefab(key@, dependencies as nat),
    {
        let length = key.as_bytes().len();
        self.m_InternalIds.len() < 0xffff_ffff && self.m_EntryDataString.entries.len()
            < 0xffff_ffff && dependencies <= 0xffff_ffff && self.m_KeyDataString.entries.len()
            < 0x7fff_fffe && length <= 0xffff_ffff && self.wide_next_key_offset() + length as u64
            + 5 <= 0xffff_ffff
    }
}

} // verus!
