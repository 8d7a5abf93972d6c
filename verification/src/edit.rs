//! The append operations of the catalog. Nothing is ever removed or moved:
//! a position, once given out as an identifier, keeps its meaning.

use crate::catalog::{texts, Catalog, CatalogError};
use crate::lookup::{
    BucketEntry, EntryId, EntryValue, ExtraId, ExtraValue, InternalId, KeyDataValue, KeyId,
    KeyView,
};
use crate::model::{extras_size, is_text, lemma_first_position_is_first};
use crate::outside::random_i32;
use vstd::prelude::*;
use vstd::seq_lib::seq_to_set_is_finite;
use vstd::set_lib::{lemma_int_range, lemma_len_subset, set_int_range};
use vstd::slice::slice_to_vec;

verus! {

/// The size of a stream is at least the size of each of its beginnings.
pub proof fn lemma_extras_size_prefix(extras: Seq<crate::lookup::ExtraView>, i: int)
    requires
        0 <= i <= extras.len(),
    ensures
        extras_size(extras.take(i)) <= extras_size(extras),
    decreases extras.len() - i,
{
    if i == extras.len() {
        assert(extras.take(i) =~= extras);
    } else {
        lemma_extras_size_prefix(extras, i + 1);
        assert(extras.take(i + 1).drop_last() =~= extras.take(i));
    }
}

/// A key table whose positions have 32 bits leaves some hash unused.
pub proof fn lemma_some_hash_is_free(keys: Seq<KeyView>)
    requires
        keys.len() <= u32::MAX,
    ensures
        exists|hash: i32| !keys.contains(KeyView::Hash(hash)),
{
    if forall|hash: i32| keys.contains(KeyView::Hash(hash)) {
        let hashes = keys.map_values(
            |key: KeyView|
                match key {
                    KeyView::Hash(hash) => hash as int,
                    KeyView::Text(_) => i32::MAX + 1,
                },
        );
        let all = set_int_range(i32::MIN as int, i32::MAX + 1);
        lemma_int_range(i32::MIN as int, i32::MAX + 1);
        hashes.lemma_cardinality_of_set();
        seq_to_set_is_finite(hashes);
        assert forall|v: int| all.contains(v) implies hashes.to_set().contains(v) by {
            let hash = v as i32;
            assert(keys.contains(KeyView::Hash(hash)));
            let i = choose|i: int| 0 <= i < keys.len() && keys[i] == KeyView::Hash(hash);
            assert(hashes[i] == v);
        }
        lemma_len_subset(all, hashes.to_set());
        assert(false);
    }
}

/// How many hashes `get_unique_hash` draws at most.
pub const HASH_DRAWS: usize = 64;

impl Catalog {
    /// Registers `internal_id` behind the other path strings. Fails, and
    /// changes nothing, where the string is registered already.
    pub fn add_internalid(&mut self, internal_id: &str) -> (id: Result<InternalId, CatalogError>)
        requires
            old(self).wf(),
            old(self)@.internal_ids.contains(internal_id@) || old(self)@.internal_ids.len()
                < u32::MAX,
        ensures
            final(self).wf(),
            old(self)@.registration(internal_id@) == (
                final(self)@,
                match id {
                    Ok(id) => Some(id),
                    Err(_) => None,
                },
            ),
            match id {
                Ok(id) => {
                    &&& !old(self)@.internal_ids.contains(internal_id@)
                    &&& id.0 == old(self)@.internal_ids.len()
                    &&& final(self)@ == old(self)@.with_internal_id(internal_id@)
                },
                Err(e) => {
                    &&& e is DuplicateInternalId
                    &&& old(self)@.internal_ids.contains(internal_id@)
                    &&& *final(self) == *old(self)
                },
            },
    {
        proof {
            lemma_first_position_is_first(self@.internal_ids, is_text(internal_id@));
        }
        if self.get_internal_id_index(internal_id).is_none() {
            self.m_InternalIds.push(internal_id.to_owned());
            proof {
                assert(self@.internal_ids =~= old(self)@.internal_ids.push(internal_id@));
                assert(self@.resource_providers == old(self)@.resource_providers);
                assert(self@ == old(self)@.with_internal_id(internal_id@));
            }
            Ok(InternalId((self.m_InternalIds.len() - 1) as u32))
        } else {
            Err(CatalogError::DuplicateInternalId)
        }
    }

    /// Where the record of the next key starts in the encoded key table.
    pub fn get_next_key_offset(&self) -> (offset: u32)
        requires
            self.wf(),
            self@.next_key_offset() <= u32::MAX,
        ensures
            offset == self@.next_key_offset(),
    {
        let keys = self.m_KeyDataString.entries.len();
        let buckets = self.m_BucketDataString.entries.len();
        if keys == 0 || buckets == 0 {
            4
        } else {
            let key = &self.m_KeyDataString.entries[keys - 1];
            proof {
                key.lemma_size_of_wf();
            }
            self.m_BucketDataString.entries[buckets - 1].key_data_offset + key.get_size()
        }
    }

    /// Where the next record starts in the encoded extra-data stream.
    pub fn get_next_extra_offset(&self) -> (offset: u32)
        requires
            self.wf(),
            self@.next_extra_offset() <= u32::MAX,
        ensures
            offset == self@.next_extra_offset(),
    {
        let ghost extras = self@.extras;
        let mut offset: u32 = 0;
        let mut i: usize = 0;
        while i < self.m_ExtraDataString.entries.len()
            invariant
                i <= self.m_ExtraDataString.entries@.len(),
                self.m_ExtraDataString.wf(),
                extras == self.m_ExtraDataString@,
                extras_size(extras) <= u32::MAX,
                offset == extras_size(extras.take(i as int)),
            decreases self.m_ExtraDataString.entries@.len() - i,
        {
            proof {
                lemma_extras_size_prefix(extras, i + 1);
                assert(extras.take(i + 1).drop_last() =~= extras.take(i as int));
            }
            offset = offset + self.m_ExtraDataString.entries[i].get_size();
            i += 1;
        }
        assert(extras.take(i as int) =~= extras);
        offset
    }

    /// Whether `hash` is a hash key of the key table.
    pub fn has_hash_key(&self, hash: i32) -> (used: bool)
        ensures
            used == self@.has_hash(hash),
    {
        let ghost keys = self@.keys;
        let mut i: usize = 0;
        while i < self.m_KeyDataString.entries.len()
            invariant
                i <= self.m_KeyDataString.entries@.len(),
                keys == self.m_KeyDataString@,
                forall|j: int| 0 <= j < i ==> keys[j] != KeyView::Hash(hash),
            decreases self.m_KeyDataString.entries@.len() - i,
        {
            match &self.m_KeyDataString.entries[i] {
                KeyDataValue::Hash(h) => {
                    if *h == hash {
                        assert(keys[i as int] == KeyView::Hash(hash));
                        return true;
                    }
                },
                KeyDataValue::String { .. } => {},
            }
            i += 1;
        }
        false
    }

    /// The lowest hash that is no key of the key table.
    pub fn lowest_free_hash(&self) -> (hash: i32)
        requires
            self.wf(),
        ensures
            !self@.has_hash(hash),
            forall|lower: i32| lower < hash ==> self@.has_hash(lower),
    {
        let mut hash: i32 = i32::MIN;
        while hash < i32::MAX && self.has_hash_key(hash)
            invariant
                forall|lower: i32| lower < hash ==> self@.has_hash(lower),
            decreases i32::MAX - hash,
        {
            hash += 1;
        }
        if self.has_hash_key(hash) {
            proof {
                lemma_some_hash_is_free(self@.keys);
                let free = choose|free: i32| !self@.keys.contains(KeyView::Hash(free));
                assert(!self@.has_hash(free));
                assert(free < hash || free == hash);
            }
        }
        hash
    }

    /// The first of `draws` that is no hash key of the key table, with its
    /// position: the draws before it are all hash keys. `None` where every
    /// draw is a hash key. String keys refuse no draw.
    pub fn first_free_draw(&self, draws: &[i32]) -> (found: Option<(usize, i32)>)
        ensures
            match found {
                Some((j, hash)) => {
                    &&& j < draws@.len()
                    &&& hash == draws@[j as int]
                    &&& !self@.has_hash(hash)
                    &&& forall|i: int| 0 <= i < j ==> self@.has_hash(#[trigger] draws@[i])
                },
                None => forall|i: int|
                    0 <= i < draws@.len() ==> self@.has_hash(#[trigger] draws@[i]),
            },
    {
        let mut j: usize = 0;
        while j < draws.len()
            invariant
                j <= draws@.len(),
                forall|i: int| 0 <= i < j ==> self@.has_hash(#[trigger] draws@[i]),
            decreases draws@.len() - j,
        {
            if !self.has_hash_key(draws[j]) {
                return Some((j, draws[j]));
            }
            j += 1;
        }
        None
    }

    /// The hash that `draws` decide on: the first of them that is no hash key
    /// of the key table. Where every draw is a hash key, it is the lowest hash
    /// that is none, which is no draw.
    pub fn unique_hash_from(&self, draws: &[i32]) -> (hash: i32)
        requires
            self.wf(),
        ensures
            !self@.has_hash(hash),
            forall|j: int|
                0 <= j < draws@.len() && !self@.has_hash(#[trigger] draws@[j]) && (forall|i: int|
                    0 <= i < j ==> self@.has_hash(#[trigger] draws@[i])) ==> hash == draws@[j],
            (forall|i: int| 0 <= i < draws@.len() ==> self@.has_hash(#[trigger] draws@[i]))
                ==> forall|lower: i32| lower < hash ==> self@.has_hash(lower),
    {
        match self.first_free_draw(draws) {
            Some((_, hash)) => hash,
            None => self.lowest_free_hash(),
        }
    }

    /// A hash that is no hash key of the key table. Hashes are drawn at random
    /// until one is no hash key, and that one is returned, as
    /// `unique_hash_from` decides on the draws that were made. A table that
    /// leaves almost no hash free could refuse draws without end: after
    /// `HASH_DRAWS` draws that were all refused, no more are made, and the
    /// lowest free hash is returned, which was not drawn.
    pub fn get_unique_hash(&self) -> (hash: i32)
        requires
            self.wf(),
        ensures
            !self@.has_hash(hash),
    {
        let mut drawn: Vec<i32> = Vec::new();
        let mut refused = true;
        while refused && drawn.len() < HASH_DRAWS
            invariant
                drawn@.len() <= HASH_DRAWS,
            decreases HASH_DRAWS - drawn@.len(),
        {
            let draw = random_i32();
            drawn.push(draw);
            refused = self.has_hash_key(draw);
        }
        self.unique_hash_from(drawn.as_slice())
    }

    /// Appends `key` and a bucket for it that selects `indices`.
    fn push_key(&mut self, key: KeyDataValue, indices: Vec<EntryId>) -> (id: KeyId)
        requires
            old(self).wf(),
            key.wf(),
            old(self)@.room_for_key(),
            indices@.len() <= u32::MAX,
        ensures
            final(self).wf(),
            final(self)@ == old(self)@.with_key(key@, indices@),
            id.0 == old(self)@.keys.len(),
    {
        let key_data_offset = self.get_next_key_offset();
        let count = indices.len() as u32;
        let ghost key_view = key@;
        let ghost bucket = (BucketEntry { key_data_offset, count, indices })@;
        self.m_KeyDataString.count += 1;
        self.m_KeyDataString.entries.push(key);
        self.m_BucketDataString.count += 1;
        self.m_BucketDataString.entries.push(BucketEntry { key_data_offset, count, indices });
        proof {
            assert(self@.keys =~= old(self)@.keys.push(key_view));
            assert(self@.buckets =~= old(self)@.buckets.push(bucket));
            assert(self@.resource_providers == old(self)@.resource_providers);
            assert(self@ == old(self)@.with_key(key_view, indices@));
        }
        KeyId((self.m_KeyDataString.count - 1) as i32)
    }

    /// Appends `key`, and a bucket for it that selects the entry that will be
    /// appended next.
    pub fn add_key(&mut self, key: KeyDataValue) -> (id: KeyId)
        requires
            old(self).wf(),
            key.wf(),
            old(self)@.room_for_key(),
        ensures
            final(self).wf(),
            final(self)@ == old(self)@.with_key(
                key@,
                seq![EntryId(old(self)@.entries.len() as u32)],
            ),
            id.0 == old(self)@.keys.len(),
    {
        let mut indices: Vec<EntryId> = Vec::new();
        indices.push(EntryId(self.m_EntryDataString.entries.len() as u32));
        assert(indices@ =~= seq![EntryId(self@.entries.len() as u32)]);
        self.push_key(key, indices)
    }

    /// Appends `key`, and a bucket for it that selects `dependencies`.
    pub fn add_dependency_key(&mut self, key: KeyDataValue, dependencies: &[EntryId]) -> (id: KeyId)
        requires
            old(self).wf(),
            key.wf(),
            old(self)@.room_for_key(),
            dependencies@.len() <= u32::MAX,
        ensures
            final(self).wf(),
            final(self)@ == old(self)@.with_key(key@, dependencies@),
            id.0 == old(self)@.keys.len(),
    {
        self.push_key(key, slice_to_vec(dependencies))
    }

    /// Appends `extra` to the extra-data stream. The identifier that comes
    /// back is the byte at which the record starts in the encoded stream.
    pub fn add_extra_data(&mut self, extra: ExtraValue) -> (id: ExtraId)
        requires
            old(self).wf(),
            extra.wf(),
            old(self)@.room_for_extra(),
        ensures
            final(self).wf(),
            final(self)@ == old(self)@.with_extra(extra@),
            id.0 == old(self)@.next_extra_offset(),
    {
        let offset = self.get_next_extra_offset();
        let ghost extra_view = extra@;
        self.m_ExtraDataString.entries.push(extra);
        proof {
            assert(self@.extras =~= old(self)@.extras.push(extra_view));
            assert(self@.resource_providers == old(self)@.resource_providers);
            assert(self@ == old(self)@.with_extra(extra_view));
        }
        ExtraId(offset as i32)
    }

    /// Appends `entry` to the entry table.
    fn push_entry(&mut self, entry: EntryValue)
        requires
            old(self).wf(),
            old(self)@.entries.len() < u32::MAX,
            entry.internal_id.0 < old(self)@.internal_ids.len(),
        ensures
            final(self).wf(),
            final(self)@ == old(self)@.with_entry(entry),
    {
        self.m_EntryDataString.count += 1;
        self.m_EntryDataString.entries.push(entry);
        proof {
            assert(self@.resource_providers == old(self)@.resource_providers);
            assert(self@ == old(self)@.with_entry(entry));
        }
    }

    /// Adds a bundle: registers `internal_id`, appends the string key `key`
    /// and the record `extra`, and appends an entry without dependencies.
    /// Fails, and changes nothing, where `internal_id` is registered already.
    pub fn add_bundle(&mut self, internal_id: &str, key: &str, extra: ExtraValue) -> (done: Result<
        (),
        CatalogError,
    >)
        requires
            old(self).wf(),
            extra.wf(),
            old(self)@.internal_ids.contains(internal_id@) || old(self)@.room_for_bundle(key@),
        ensures
            final(self).wf(),
            match done {
                Ok(_) => {
                    &&& !old(self)@.internal_ids.contains(internal_id@)
                    &&& final(self)@ == old(self)@.with_bundle(internal_id@, key@, extra@)
                },
                Err(e) => {
                    &&& e is DuplicateInternalId
                    &&& old(self)@.internal_ids.contains(internal_id@)
                    &&& *final(self) == *old(self)
                },
            },
    {
        let iid = match self.add_internalid(internal_id) {
            Ok(iid) => iid,
            Err(e) => {
                return Err(e);
            },
        };
        let primary_key = self.add_key(KeyDataValue::from_string(key));
        let data_index = self.add_extra_data(extra);
        let new_entry = EntryValue {
            internal_id: iid,
            provider_index: 0,
            dependency_key_idx: KeyId(-1),
            dependency_hash: 0,
            data_index,
            primary_key,
            resource_type: 0,
        };
        assert(new_entry == old(self)@.bundle_entry());
        self.push_entry(new_entry);
        Ok(())
    }

    /// The entries that `names` resolve to, in order; names that resolve to
    /// nothing are left out.
    pub fn resolve_dependencies(&self, names: &[String]) -> (indices: Vec<EntryId>)
        ensures
            indices@ == self@.resolve(texts(names@)),
            indices@.len() <= names@.len(),
    {
        let ghost all = texts(names@);
        let mut indices: Vec<EntryId> = Vec::new();
        let mut i: usize = 0;
        assert(all.take(0) =~= Seq::<Seq<char>>::empty());
        while i < names.len()
            invariant
                i <= names@.len(),
                all == texts(names@),
                indices@ == self@.resolve(all.take(i as int)),
                indices@.len() <= i,
            decreases names@.len() - i,
        {
            proof {
                assert(all.take(i + 1).drop_last() =~= all.take(i as int));
                assert(all.take(i + 1).last() == names@[i as int]@);
            }
            if let Some(id) = self.get_internal_id_index(names[i].as_str()) {
                if let Some(position) = self.get_entry_id_by_internal_id(id) {
                    proof {
                        lemma_first_position_is_first(self@.entries, crate::model::owned_by(id));
                    }
                    indices.push(EntryId(position as u32));
                }
            }
            i += 1;
        }
        assert(all.take(i as int) =~= all);
        indices
    }

    /// Adds a prefab whose dependency key is `hash`: registers `internal_id`,
    /// appends the string key `key`, appends the hash key with a bucket that
    /// selects what `dependencies` resolve to, and appends an entry that
    /// depends on that bucket. Fails, and changes nothing, where
    /// `internal_id` is registered already.
    pub fn add_prefab_with_hash(
        &mut self,
        internal_id: &str,
        key: &str,
        dependencies: &[String],
        hash: i32,
    ) -> (done: Result<(), CatalogError>)
        requires
            old(self).wf(),
            old(self)@.internal_ids.contains(internal_id@) || old(self)@.room_for_prefab(
                key@,
                dependencies@.len(),
            ),
        ensures
            final(self).wf(),
            match done {
                Ok(_) => {
                    &&& !old(self)@.internal_ids.contains(internal_id@)
                    &&& final(self)@ == old(self)@.with_prefab(
                        internal_id@,
                        key@,
                        texts(dependencies@),
                        hash,
                    )
                },
                Err(e) => {
                    &&& e is DuplicateInternalId
                    &&& old(self)@.internal_ids.contains(internal_id@)
                    &&& *final(self) == *old(self)
                },
            },
    {
        let iid = match self.add_internalid(internal_id) {
            Ok(iid) => iid,
            Err(e) => {
                return Err(e);
            },
        };
        let primary_key = self.add_key(KeyDataValue::from_string(key));
        let indices = self.resolve_dependencies(dependencies);
        let dependency_key_idx = self.add_dependency_key(
            KeyDataValue::Hash(hash),
            indices.as_slice(),
        );
        let new_entry = EntryValue {
            internal_id: iid,
            provider_index: 2,
            dependency_key_idx,
            dependency_hash: hash,
            data_index: ExtraId(-1),
            primary_key,
            resource_type: 4,
        };
        assert(new_entry == old(self)@.prefab_entry(hash));
        self.push_entry(new_entry);
        Ok(())
    }

    /// Adds a prefab as `add_prefab_with_hash` does, with a hash that is no
    /// key of the key table yet. The hash is the `dependency_hash` of the
    /// entry that was appended.
    pub fn add_prefab(&mut self, internal_id: &str, key: &str, dependencies: &[String]) -> (done:
        Result<(), CatalogError>)
        requires
            old(self).wf(),
            old(self)@.internal_ids.contains(internal_id@) || old(self)@.room_for_prefab(
                key@,
                dependencies@.len(),
            ),
        ensures
            final(self).wf(),
            match done {
                Ok(_) => {
                    let hash = final(self)@.entries.last().dependency_hash;
                    &&& !old(self)@.internal_ids.contains(internal_id@)
                    &&& !old(self)@.has_hash(hash)
                    &&& final(self)@ == old(self)@.with_prefab(
                        internal_id@,
                        key@,
                        texts(dependencies@),
                        hash,
                    )
                },
                Err(e) => {
                    &&& e is DuplicateInternalId
                    &&& old(self)@.internal_ids.contains(internal_id@)
                    &&& *final(self) == *old(self)
                },
            },
    {
        proof {
            lemma_first_position_is_first(self@.internal_ids, is_text(internal_id@));
        }
        if self.get_internal_id_index(internal_id).is_some() {
            return Err(CatalogError::DuplicateInternalId);
        }
        let hash = self.get_unique_hash();
        self.add_prefab_with_hash(internal_id, key, dependencies, hash)
    }
}

} // verus!
