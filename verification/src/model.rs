//! The catalog as a mathematical value: its tables as sequences, its queries
//! and its append operations as functions. The contracts of `Catalog` are
//! stated over this model.

use crate::lookup::{BucketView, EntryId, EntryValue, ExtraId, ExtraView, InternalId, KeyId, KeyView};
use vstd::prelude::*;
use vstd::utf8::encode_utf8;

verus! {

/// Whether `i` is the first position of `s` at which `p` holds.
pub open spec fn first_at<T>(s: Seq<T>, p: spec_fn(T) -> bool, i: int) -> bool {
    &&& 0 <= i < s.len()
    &&& p(s[i])
    &&& forall|j: int| 0 <= j < i ==> !p(#[trigger] s[j])
}

/// The first position of `s` at which `p` holds, if there is one.
pub open spec fn first_position<T>(s: Seq<T>, p: spec_fn(T) -> bool) -> Option<int> {
    if exists|i: int| first_at(s, p, i) {
        Some(choose|i: int| first_at(s, p, i))
    } else {
        None
    }
}

/// A position that is the first match is the one `first_position` names.
pub proof fn lemma_first_position_found<T>(s: Seq<T>, p: spec_fn(T) -> bool, i: int)
    requires
        first_at(s, p, i),
    ensures
        first_position(s, p) == Some(i),
{
    let k = choose|k: int| first_at(s, p, k);
    assert(first_at(s, p, k));
    if k < i {
        assert(!p(s[k]));
    }
    if i < k {
        assert(!p(s[i]));
    }
}

/// Where `p` holds nowhere, `first_position` names nothing.
pub proof fn lemma_first_position_none<T>(s: Seq<T>, p: spec_fn(T) -> bool)
    requires
        forall|j: int| 0 <= j < s.len() ==> !p(#[trigger] s[j]),
    ensures
        first_position(s, p) is None,
{
}

/// What `first_position` names is a first match.
pub proof fn lemma_first_position_is_first<T>(s: Seq<T>, p: spec_fn(T) -> bool)
    ensures
        first_position(s, p) matches Some(i) ==> first_at(s, p, i),
        first_position(s, p) is None ==> forall|j: int| 0 <= j < s.len() ==> !p(#[trigger] s[j]),
{
    if first_position(s, p) is None {
        assert forall|j: int| 0 <= j < s.len() implies !p(#[trigger] s[j]) by {
            if p(s[j]) {
                lemma_some_match_has_first(s, p, j);
            }
        }
    }
}

/// Where `p` holds somewhere, it holds somewhere first.
pub proof fn lemma_some_match_has_first<T>(s: Seq<T>, p: spec_fn(T) -> bool, j: int)
    requires
        0 <= j < s.len(),
        p(s[j]),
    ensures
        exists|i: int| first_at(s, p, i),
    decreases j,
{
    if forall|k: int| 0 <= k < j ==> !p(#[trigger] s[k]) {
        assert(first_at(s, p, j));
    } else {
        let k = choose|k: int| 0 <= k < j && p(#[trigger] s[k]);
        lemma_some_match_has_first(s, p, k);
    }
}

/// The test for being the path string `name`.
pub open spec fn is_text(name: Seq<char>) -> spec_fn(Seq<char>) -> bool {
    |s: Seq<char>| s == name
}

/// The test for being an entry that `id` owns.
pub open spec fn owned_by(id: InternalId) -> spec_fn(EntryValue) -> bool {
    |e: EntryValue| e.internal_id == id
}

/// Number of bytes of an encoded extra-data stream.
pub open spec fn extras_size(extras: Seq<ExtraView>) -> nat
    decreases extras.len(),
{
    if extras.len() == 0 {
        0
    } else {
        extras_size(extras.drop_last()) + extras.last().size()
    }
}

/// Sum of the record sizes of some keys.
pub open spec fn keys_size(keys: Seq<KeyView>) -> nat
    decreases keys.len(),
{
    if keys.len() == 0 {
        0
    } else {
        keys_size(keys.drop_last()) + keys.last().size()
    }
}

/// The name of a type of the runtime.
pub struct ObjectTypeView {
    pub assembly_name: Seq<char>,
    pub class_name: Seq<char>,
}

/// The description of one provider.
pub struct ProviderView {
    pub id: Seq<char>,
    pub object_type: ObjectTypeView,
    pub data: Seq<char>,
}

/// The whole catalog.
pub struct CatalogView {
    pub locator_id: Seq<char>,
    pub instance_provider: ProviderView,
    pub scene_provider: ProviderView,
    pub resource_providers: Seq<ProviderView>,
    pub provider_ids: Seq<Seq<char>>,
    pub internal_ids: Seq<Seq<char>>,
    pub keys: Seq<KeyView>,
    pub buckets: Seq<BucketView>,
    pub entries: Seq<EntryValue>,
    pub extras: Seq<ExtraView>,
    pub resource_types: Seq<ObjectTypeView>,
    pub internal_id_prefixes: Seq<Seq<char>>,
}

impl CatalogView {
    /// The tables fit together: every key has its bucket, every position has
    /// an identifier of its type, and every entry names a registered path.
    pub open spec fn wf(self) -> bool {
        &&& self.keys.len() == self.buckets.len()
        &&& self.internal_ids.len() <= u32::MAX
        &&& self.keys.len() <= u32::MAX
        &&& self.entries.len() <= u32::MAX
        &&& forall|i: int|
            0 <= i < self.entries.len() ==> (#[trigger] self.entries[i]).internal_id.0
                < self.internal_ids.len()
    }

    /// No path string is registered twice.
    pub open spec fn ids_distinct(self) -> bool {
        self.internal_ids.no_duplicates()
    }

    /// The identifier of `name`: its first position in the registry.
    pub open spec fn internal_id_index(self, name: Seq<char>) -> Option<InternalId> {
        match first_position(self.internal_ids, is_text(name)) {
            Some(i) => Some(InternalId(i as u32)),
            None => None,
        }
    }

    /// The path string of an identifier.
    pub open spec fn internal_id(self, index: int) -> Option<Seq<char>> {
        if 0 <= index < self.internal_ids.len() {
            Some(self.internal_ids[index])
        } else {
            None
        }
    }

    /// The key at `id`.
    pub open spec fn key(self, id: KeyId) -> Option<KeyView> {
        if 0 <= id.0 < self.keys.len() {
            Some(self.keys[id.0 as int])
        } else {
            None
        }
    }

    /// The bucket at `id`.
    pub open spec fn bucket(self, id: KeyId) -> Option<BucketView> {
        if 0 <= id.0 < self.buckets.len() {
            Some(self.buckets[id.0 as int])
        } else {
            None
        }
    }

    /// The entry at `id`.
    pub open spec fn entry(self, id: EntryId) -> Option<EntryValue> {
        if id.0 < self.entries.len() {
            Some(self.entries[id.0 as int])
        } else {
            None
        }
    }

    /// The extra-data record at position `id`.
    pub open spec fn extra(self, id: ExtraId) -> Option<ExtraView> {
        if 0 <= id.0 < self.extras.len() {
            Some(self.extras[id.0 as int])
        } else {
            None
        }
    }

    /// The position of the first entry that `id` owns.
    pub open spec fn entry_position(self, id: InternalId) -> Option<int> {
        first_position(self.entries, owned_by(id))
    }

    /// The first entry that `id` owns.
    pub open spec fn entry_by_internal_id(self, id: InternalId) -> Option<EntryValue> {
        match self.entry_position(id) {
            Some(i) => Some(self.entries[i]),
            None => None,
        }
    }

    /// The entries that `entry` depends on, where its dependency key names a
    /// bucket.
    pub open spec fn dependencies(self, entry: EntryValue) -> Option<Seq<EntryId>> {
        match self.bucket(entry.dependency_key_idx) {
            Some(bucket) => Some(bucket.indices),
            None => None,
        }
    }

    /// Where the record of the next key starts in the encoded key table:
    /// behind the last key, or, in an empty table, behind the four bytes of
    /// the count.
    pub open spec fn next_key_offset(self) -> int {
        if self.keys.len() == 0 || self.buckets.len() == 0 {
            4
        } else {
            self.buckets.last().key_data_offset + self.keys.last().size()
        }
    }

    /// Where the next record starts in the encoded extra-data stream.
    pub open spec fn next_extra_offset(self) -> nat {
        extras_size(self.extras)
    }

    /// Whether `hash` is a hash key of the key table.
    pub open spec fn has_hash(self, hash: i32) -> bool {
        self.keys.contains(KeyView::Hash(hash))
    }

    /// The entry that a path string resolves to: the first entry owned by the
    /// string's identifier.
    pub open spec fn entry_of_name(self, name: Seq<char>) -> Option<EntryId> {
        match self.internal_id_index(name) {
            Some(id) => match self.entry_position(id) {
                Some(i) => Some(EntryId(i as u32)),
                None => None,
            },
            None => None,
        }
    }

    /// The entries that some path strings resolve to, in order; strings that
    /// resolve to nothing are left out.
    pub open spec fn resolve(self, names: Seq<Seq<char>>) -> Seq<EntryId>
        decreases names.len(),
    {
        if names.len() == 0 {
            Seq::empty()
        } else {
            let rest = self.resolve(names.drop_last());
            match self.entry_of_name(names.last()) {
                Some(id) => rest.push(id),
                None => rest,
            }
        }
    }

    /// The catalog with `name` registered behind the other identifiers.
    pub open spec fn with_internal_id(self, name: Seq<char>) -> CatalogView {
        CatalogView { internal_ids: self.internal_ids.push(name), ..self }
    }

    /// What registering `name` gives: the catalog and no identifier where the
    /// string is registered already, else the catalog with the string and the
    /// string's new identifier.
    pub open spec fn registration(self, name: Seq<char>) -> (CatalogView, Option<InternalId>) {
        if self.internal_ids.contains(name) {
            (self, None)
        } else {
            (self.with_internal_id(name), Some(InternalId(self.internal_ids.len() as u32)))
        }
    }

    /// The catalog with `keys` behind the other keys, one after the other,
    /// and with their buckets, which select `indices`.
    pub open spec fn with_keys(self, keys: Seq<KeyView>, indices: Seq<Seq<EntryId>>) -> CatalogView
        decreases keys.len(),
    {
        if keys.len() == 0 || indices.len() == 0 {
            self
        } else {
            self.with_keys(keys.drop_last(), indices.drop_last()).with_key(
                keys.last(),
                indices.last(),
            )
        }
    }

    /// The catalog with `key` behind the other keys, and with its bucket,
    /// which selects `indices`.
    pub open spec fn with_key(self, key: KeyView, indices: Seq<EntryId>) -> CatalogView {
        CatalogView {
            keys: self.keys.push(key),
            buckets: self.buckets.push(
                BucketView { key_data_offset: self.next_key_offset() as u32, indices },
            ),
            ..self
        }
    }

    /// The catalog with `extra` at the end of the extra-data stream.
    pub open spec fn with_extra(self, extra: ExtraView) -> CatalogView {
        CatalogView { extras: self.extras.push(extra), ..self }
    }

    /// The catalog with `entry` behind the other entries.
    pub open spec fn with_entry(self, entry: EntryValue) -> CatalogView {
        CatalogView { entries: self.entries.push(entry), ..self }
    }

    /// The entry that `with_bundle` appends.
    pub open spec fn bundle_entry(self) -> EntryValue {
        EntryValue {
            internal_id: InternalId(self.internal_ids.len() as u32),
            provider_index: 0,
            dependency_key_idx: KeyId(-1i32),
            dependency_hash: 0,
            data_index: ExtraId(self.next_extra_offset() as i32),
            primary_key: KeyId(self.keys.len() as i32),
            resource_type: 0,
        }
    }

    /// The catalog with a bundle: its path string `name`, the string key
    /// `key`, whose bucket selects the new entry, the record `extra`, and an
    /// entry without dependencies.
    pub open spec fn with_bundle(self, name: Seq<char>, key: Seq<char>, extra: ExtraView) -> CatalogView {
        self.with_internal_id(name).with_key(
            KeyView::Text(key),
            seq![EntryId(self.entries.len() as u32)],
        ).with_extra(extra).with_entry(self.bundle_entry())
    }

    /// The entry that `with_prefab` appends.
    pub open spec fn prefab_entry(self, hash: i32) -> EntryValue {
        EntryValue {
            internal_id: InternalId(self.internal_ids.len() as u32),
            provider_index: 2,
            dependency_key_idx: KeyId((self.keys.len() + 1) as i32),
            dependency_hash: hash,
            data_index: ExtraId(-1i32),
            primary_key: KeyId(self.keys.len() as i32),
            resource_type: 4,
        }
    }

    /// The catalog with a prefab: its path string `name`, the string key
    /// `key`, whose bucket selects the new entry, the hash key `hash`, whose
    /// bucket selects what `dependencies` resolve to, and an entry that
    /// depends on that bucket.
    pub open spec fn with_prefab(
        self,
        name: Seq<char>,
        key: Seq<char>,
        dependencies: Seq<Seq<char>>,
        hash: i32,
    ) -> CatalogView {
        let named = self.with_internal_id(name).with_key(
            KeyView::Text(key),
            seq![EntryId(self.entries.len() as u32)],
        );
        named.with_key(KeyView::Hash(hash), named.resolve(dependencies)).with_entry(
            self.prefab_entry(hash),
        )
    }

    /// Whether a key fits behind the others: its position has a `KeyId`, and
    /// the start of its record has 32 bits.
    pub open spec fn room_for_key(self) -> bool {
        &&& self.keys.len() < i32::MAX
        &&& self.next_key_offset() <= u32::MAX
    }

    /// Whether a record fits at the end of the extra-data stream: its start
    /// has an `ExtraId`.
    pub open spec fn room_for_extra(self) -> bool {
        self.next_extra_offset() <= i32::MAX
    }

    /// Whether a bundle with the string key `key` fits.
    pub open spec fn room_for_bundle(self, key: Seq<char>) -> bool {
        &&& self.internal_ids.len() < u32::MAX
        &&& self.entries.len() < u32::MAX
        &&& encode_utf8(key).len() <= u32::MAX
        &&& self.room_for_key()
        &&& self.room_for_extra()
    }

    /// Whether a prefab with the string key `key` and `dependencies` names to
    /// resolve fits.
    pub open spec fn room_for_prefab(self, key: Seq<char>, dependencies: nat) -> bool {
        &&& self.internal_ids.len() < u32::MAX
        &&& self.entries.len() < u32::MAX
        &&& dependencies <= u32::MAX
        &&& self.keys.len() + 1 < i32::MAX
        &&& self.next_key_offset() + encode_utf8(key).len() + 5 <= u32::MAX
    }
}

} // verus!
