//! The catalog: the identifier registry, the four tables and the fields of
//! the envelope, with the queries and the append operations on them.

use crate::lookup::{
    BucketData, BucketEntry, EntryData, EntryId, EntryValue, ExtraData, ExtraId, ExtraValue,
    InternalId, KeyData, KeyDataValue, KeyId,
};
use crate::model::{
    first_at, is_text, lemma_first_position_found, lemma_first_position_none,
    owned_by, CatalogView, ObjectTypeView, ProviderView,
};
use crate::wire::TableError;
use vstd::prelude::*;

verus! {

/// Why a catalog operation failed.
#[derive(Debug)]
pub enum CatalogError {
    /// The text of a table is no base64.
    Base64Decode(base64::DecodeError),
    /// The bytes of a table are no table.
    Decode(TableError),
    /// The path string is registered already.
    DuplicateInternalId,
    /// The path string is not registered.
    MissingInternalId,
}

/// The name of a type of the runtime.
#[allow(non_snake_case)]
#[derive(Debug)]
pub struct ObjectType {
    pub m_AssemblyName: String,
    pub m_ClassName: String,
}

impl View for ObjectType {
    type V = ObjectTypeView;

    open spec fn view(&self) -> ObjectTypeView {
        ObjectTypeView { assembly_name: self.m_AssemblyName@, class_name: self.m_ClassName@ }
    }
}

/// The description of one provider.
#[allow(non_snake_case)]
#[derive(Debug)]
pub struct ProviderData {
    pub m_Id: String,
    pub m_ObjectType: ObjectType,
    pub m_Data: String,
}

impl View for ProviderData {
    type V = ProviderView;

    open spec fn view(&self) -> ProviderView {
        ProviderView { id: self.m_Id@, object_type: self.m_ObjectType@, data: self.m_Data@ }
    }
}

/// The views of some strings.
pub open spec fn texts(strings: Seq<String>) -> Seq<Seq<char>> {
    strings.map_values(|s: String| s@)
}

/// The catalog. Its fields are reached through its functions, which keep the
/// tables consistent with each other.
#[allow(non_snake_case)]
pub struct Catalog {
    pub(crate) m_LocatorId: String,
    pub(crate) m_InstanceProviderData: ProviderData,
    pub(crate) m_SceneProviderData: ProviderData,
    pub(crate) m_ResourceProviderData: Vec<ProviderData>,
    pub(crate) m_ProviderIds: Vec<String>,
    pub(crate) m_InternalIds: Vec<String>,
    pub(crate) m_KeyDataString: KeyData,
    pub(crate) m_BucketDataString: BucketData,
    pub(crate) m_EntryDataString: EntryData,
    pub(crate) m_ExtraDataString: ExtraData,
    pub(crate) m_resourceTypes: Vec<ObjectType>,
    pub(crate) m_InternalIdPrefixes: Vec<String>,
}

impl Catalog {
    /// The catalog as a mathematical value.
    pub open(crate) spec fn view(&self) -> CatalogView {
        CatalogView {
            locator_id: self.m_LocatorId@,
            instance_provider: self.m_InstanceProviderData@,
            scene_provider: self.m_SceneProviderData@,
            resource_providers: self.m_ResourceProviderData@.map_values(|p: ProviderData| p@),
            provider_ids: texts(self.m_ProviderIds@),
            internal_ids: texts(self.m_InternalIds@),
            keys: self.m_KeyDataString@,
            buckets: self.m_BucketDataString@,
            entries: self.m_EntryDataString@,
            extras: self.m_ExtraDataString@,
            resource_types: self.m_resourceTypes@.map_values(|t: ObjectType| t@),
            internal_id_prefixes: texts(self.m_InternalIdPrefixes@),
        }
    }

    /// Every table is well formed, and the tables fit together.
    pub open(crate) spec fn wf(&self) -> bool {
        &&& self.m_KeyDataString.wf()
        &&& self.m_BucketDataString.wf()
        &&& self.m_EntryDataString.wf()
        &&& self.m_ExtraDataString.wf()
        &&& self@.wf()
    }

    /// Whether some tables make a catalog: each is well formed, every key has
    /// its bucket, and every entry names one of the path strings.
    pub open spec fn fit_together(
        internal_ids: Seq<Seq<char>>,
        key_data: &KeyData,
        bucket_data: &BucketData,
        entry_data: &EntryData,
        extra_data: &ExtraData,
    ) -> bool {
        &&& key_data.wf()
        &&& bucket_data.wf()
        &&& entry_data.wf()
        &&& extra_data.wf()
        &&& key_data@.len() == bucket_data@.len()
        &&& internal_ids.len() <= u32::MAX
        &&& forall|i: int|
            0 <= i < entry_data@.len() ==> (#[trigger] entry_data@[i]).internal_id.0
                < internal_ids.len()
    }

    /// Whether some tables make a catalog.
    fn tables_fit(
        internal_ids: &Vec<String>,
        key_data: &KeyData,
        bucket_data: &BucketData,
        entry_data: &EntryData,
        extra_data: &ExtraData,
    ) -> (fit: bool)
        ensures
            fit == Self::fit_together(
                texts(internal_ids@),
                key_data,
                bucket_data,
                entry_data,
                extra_data,
            ),
    {
        if !key_data.is_wf() || !bucket_data.is_wf() || !entry_data.is_wf()
            || !extra_data.is_wf() {
            return false;
        }
        if key_data.entries.len() != bucket_data.entries.len() {
            return false;
        }
        if internal_ids.len() > 0xffff_ffff {
            return false;
        }
        let mut i: usize = 0;
        while i < entry_data.entries.len()
            invariant
                i <= entry_data.entries@.len(),
                forall|j: int|
                    0 <= j < i ==> (#[trigger] entry_data.entries@[j]).internal_id.0
                        < internal_ids@.len(),
            decreases entry_data.entries@.len() - i,
        {
            if entry_data.entries[i].internal_id.0 as usize >= internal_ids.len() {
                assert(entry_data@[i as int].internal_id.0 >= texts(internal_ids@).len());
                return false;
            }
            i += 1;
        }
        true
    }

    /// Whether the catalog is well formed. It is after `new`, and stays so
    /// under every operation but a change through `get_bucket_mut` that
    /// leaves the bucket's count and entries apart.
    pub fn is_wf(&self) -> (ok: bool)
        ensures
            ok == self.wf(),
    {
        Self::tables_fit(
            &self.m_InternalIds,
            &self.m_KeyDataString,
            &self.m_BucketDataString,
            &self.m_EntryDataString,
            &self.m_ExtraDataString,
        )
    }

    /// The catalog that holds the given fields and tables. `None` where the
    /// tables do not fit together.
    #[allow(non_snake_case)]
    pub fn new(
        locator_id: String,
        instance_provider: ProviderData,
        scene_provider: ProviderData,
        resource_providers: Vec<ProviderData>,
        provider_ids: Vec<String>,
        internal_ids: Vec<String>,
        key_data: KeyData,
        bucket_data: BucketData,
        entry_data: EntryData,
        extra_data: ExtraData,
        resource_types: Vec<ObjectType>,
        internal_id_prefixes: Vec<String>,
    ) -> (catalog: Option<Catalog>)
        ensures
            catalog is Some <==> Self::fit_together(
                texts(internal_ids@),
                &key_data,
                &bucket_data,
                &entry_data,
                &extra_data,
            ),
            catalog matches Some(c) ==> c.wf() && c@ == (CatalogView {
                locator_id: locator_id@,
                instance_provider: instance_provider@,
                scene_provider: scene_provider@,
                resource_providers: resource_providers@.map_values(|p: ProviderData| p@),
                provider_ids: texts(provider_ids@),
                internal_ids: texts(internal_ids@),
                keys: key_data@,
                buckets: bucket_data@,
                entries: entry_data@,
                extras: extra_data@,
                resource_types: resource_types@.map_values(|t: ObjectType| t@),
                internal_id_prefixes: texts(internal_id_prefixes@),
            }),
    {
        if !Self::tables_fit(&internal_ids, &key_data, &bucket_data, &entry_data, &extra_data) {
            return None;
        }
        Some(
            Catalog {
                m_LocatorId: locator_id,
                m_InstanceProviderData: instance_provider,
                m_SceneProviderData: scene_provider,
                m_ResourceProviderData: resource_providers,
                m_ProviderIds: provider_ids,
                m_InternalIds: internal_ids,
                m_KeyDataString: key_data,
                m_BucketDataString: bucket_data,
                m_EntryDataString: entry_data,
                m_ExtraDataString: extra_data,
                m_resourceTypes: resource_types,
                m_InternalIdPrefixes: internal_id_prefixes,
            },
        )
    }

    /// The identifier of the locator.
    pub fn locator_id(&self) -> (text: &String)
        ensures
            text@ == self@.locator_id,
    {
        &self.m_LocatorId
    }

    /// The provider of instances.
    pub fn instance_provider(&self) -> (provider: &ProviderData)
        ensures
            provider@ == self@.instance_provider,
    {
        &self.m_InstanceProviderData
    }

    /// The provider of scenes.
    pub fn scene_provider(&self) -> (provider: &ProviderData)
        ensures
            provider@ == self@.scene_provider,
    {
        &self.m_SceneProviderData
    }

    /// The providers of resources.
    pub fn resource_providers(&self) -> (providers: &Vec<ProviderData>)
        ensures
            providers@.map_values(|p: ProviderData| p@) == self@.resource_providers,
    {
        &self.m_ResourceProviderData
    }

    /// The identifiers of the providers.
    pub fn provider_ids(&self) -> (ids: &Vec<String>)
        ensures
            texts(ids@) == self@.provider_ids,
    {
        &self.m_ProviderIds
    }

    /// The types of the resources.
    pub fn resource_types(&self) -> (types: &Vec<ObjectType>)
        ensures
            types@.map_values(|t: ObjectType| t@) == self@.resource_types,
    {
        &self.m_resourceTypes
    }

    /// The prefixes of the path strings.
    pub fn internal_id_prefixes(&self) -> (prefixes: &Vec<String>)
        ensures
            texts(prefixes@) == self@.internal_id_prefixes,
    {
        &self.m_InternalIdPrefixes
    }

    /// The key table.
    pub fn key_data(&self) -> (table: &KeyData)
        ensures
            table@ == self@.keys,
            self.wf() ==> table.wf(),
    {
        &self.m_KeyDataString
    }

    /// The bucket table.
    pub fn bucket_data(&self) -> (table: &BucketData)
        ensures
            table@ == self@.buckets,
            self.wf() ==> table.wf(),
    {
        &self.m_BucketDataString
    }

    /// The entry table.
    pub fn entry_data(&self) -> (table: &EntryData)
        ensures
            table@ == self@.entries,
            self.wf() ==> table.wf(),
    {
        &self.m_EntryDataString
    }

    /// The extra-data stream.
    pub fn extra_data(&self) -> (table: &ExtraData)
        ensures
            table@ == self@.extras,
            self.wf() ==> table.wf(),
    {
        &self.m_ExtraDataString
    }

    /// A copy of the registered path strings, in order.
    pub fn get_internal_ids(&self) -> (ids: Vec<String>)
        ensures
            texts(ids@) == self@.internal_ids,
    {
        let mut ids: Vec<String> = Vec::new();
        let mut i: usize = 0;
        while i < self.m_InternalIds.len()
            invariant
                i <= self.m_InternalIds@.len(),
                ids@.len() == i,
                forall|j: int| 0 <= j < i ==> (#[trigger] ids@[j])@ == self.m_InternalIds@[j]@,
            decreases self.m_InternalIds@.len() - i,
        {
            ids.push(self.m_InternalIds[i].clone());
            i += 1;
        }
        assert(texts(ids@) =~= self@.internal_ids);
        ids
    }

    /// Number of entries.
    pub fn entry_count(&self) -> (count: usize)
        ensures
            count == self@.entries.len(),
    {
        self.m_EntryDataString.entries.len()
    }

    /// The first position of `internal_id` in the registry, as an identifier;
    /// of a position that needs more than 32 bits it holds the low 32.
    pub fn get_internal_id_index(&self, internal_id: &str) -> (index: Option<InternalId>)
        ensures
            index == self@.internal_id_index(internal_id@),
    {
        let needle = internal_id.to_owned();
        let ghost ids = self@.internal_ids;
        let ghost p = is_text(internal_id@);
        let mut i: usize = 0;
        while i < self.m_InternalIds.len()
            invariant
                i <= self.m_InternalIds@.len(),
                ids == texts(self.m_InternalIds@),
                needle@ == internal_id@,
                p == is_text(internal_id@),
                forall|j: int| 0 <= j < i ==> !p(#[trigger] ids[j]),
            decreases self.m_InternalIds@.len() - i,
        {
            if self.m_InternalIds[i] == needle {
                proof {
                    assert(p(ids[i as int]));
                    assert(first_at(ids, p, i as int));
                    lemma_first_position_found(ids, p, i as int);
                }
                return Some(InternalId(i as u32));
            }
            assert(!p(ids[i as int]));
            i += 1;
        }
        proof {
            lemma_first_position_none(ids, p);
        }
        None
    }

    /// The path string at `index`.
    pub fn get_internal_id_from_index(&self, index: usize) -> (name: Option<&String>)
        ensures
            match name {
                Some(s) => self@.internal_id(index as int) == Some(s@),
                None => self@.internal_id(index as int) is None,
            },
    {
        if index < self.m_InternalIds.len() {
            Some(&self.m_InternalIds[index])
        } else {
            None
        }
    }

    /// The key at `id`.
    pub fn get_key(&self, id: KeyId) -> (key: Option<&KeyDataValue>)
        ensures
            match key {
                Some(k) => self@.key(id) == Some(k@) && (self.wf() ==> k.wf()),
                None => self@.key(id) is None,
            },
    {
        if id.0 >= 0 && (id.0 as usize) < self.m_KeyDataString.entries.len() {
            Some(&self.m_KeyDataString.entries[id.0 as usize])
        } else {
            None
        }
    }

    /// The bucket at `id`.
    pub fn get_bucket(&self, id: KeyId) -> (bucket: Option<&BucketEntry>)
        ensures
            match bucket {
                Some(b) => self@.bucket(id) == Some(b@) && (self.wf() ==> b.wf()),
                None => self@.bucket(id) is None,
            },
    {
        if id.0 >= 0 && (id.0 as usize) < self.m_BucketDataString.entries.len() {
            Some(&self.m_BucketDataString.entries[id.0 as usize])
        } else {
            None
        }
    }

    /// The bucket at `id`, to be changed in place. The catalog stays well
    /// formed where the bucket does.
    pub fn get_bucket_mut(&mut self, id: KeyId) -> (bucket: Option<&mut BucketEntry>)
        ensures
            match bucket {
                Some(b) => {
                    &&& old(self)@.bucket(id) == Some(b@)
                    &&& old(self).wf() ==> b.wf()
                    &&& final(self)@.buckets == old(self)@.buckets.update(
                        id.0 as int,
                        final(b)@,
                    )
                    &&& final(self)@ == (CatalogView {
                        buckets: final(self)@.buckets,
                        ..old(self)@
                    })
                    &&& old(self).wf() && final(b).wf() ==> final(self).wf()
                },
                None => old(self)@.bucket(id) is None && *final(self) == *old(self),
            },
    {
        if id.0 >= 0 && (id.0 as usize) < self.m_BucketDataString.entries.len() {
            Some(&mut self.m_BucketDataString.entries[id.0 as usize])
        } else {
            None
        }
    }

    /// The entry at `id`.
    pub fn get_entry(&self, id: EntryId) -> (entry: Option<&EntryValue>)
        ensures
            match entry {
                Some(e) => self@.entry(id) == Some(*e),
                None => self@.entry(id) is None,
            },
    {
        if (id.0 as usize) < self.m_EntryDataString.entries.len() {
            Some(&self.m_EntryDataString.entries[id.0 as usize])
        } else {
            None
        }
    }

    /// The position of the first entry that `id` owns.
    pub fn get_entry_id_by_internal_id(&self, id: InternalId) -> (position: Option<usize>)
        ensures
            match position {
                Some(i) => self@.entry_position(id) == Some(i as int),
                None => self@.entry_position(id) is None,
            },
    {
        let ghost entries = self@.entries;
        let ghost p = owned_by(id);
        let mut i: usize = 0;
        while i < self.m_EntryDataString.entries.len()
            invariant
                i <= self.m_EntryDataString.entries@.len(),
                entries == self.m_EntryDataString.entries@,
                p == owned_by(id),
                forall|j: int| 0 <= j < i ==> !p(#[trigger] entries[j]),
            decreases self.m_EntryDataString.entries@.len() - i,
        {
            if self.m_EntryDataString.entries[i].internal_id.0 == id.0 {
                proof {
                    assert(p(entries[i as int]));
                    assert(first_at(entries, p, i as int));
                    lemma_first_position_found(entries, p, i as int);
                }
                return Some(i);
            }
            assert(!p(entries[i as int]));
            i += 1;
        }
        proof {
            lemma_first_position_none(entries, p);
        }
        None
    }

    /// The first entry that `id` owns.
    pub fn get_entry_by_internal_id(&self, id: InternalId) -> (entry: Option<&EntryValue>)
        ensures
            match entry {
                Some(e) => self@.entry_by_internal_id(id) == Some(*e),
                None => self@.entry_by_internal_id(id) is None,
            },
    {
        match self.get_entry_id_by_internal_id(id) {
            Some(i) => {
                proof {
                    crate::model::lemma_first_position_is_first(self@.entries, owned_by(id));
                }
                Some(&self.m_EntryDataString.entries[i])
            },
            None => None,
        }
    }

    /// The extra-data record at position `id`.
    pub fn get_extra(&self, id: ExtraId) -> (extra: Option<&ExtraValue>)
        ensures
            match extra {
                Some(x) => self@.extra(id) == Some(x@) && (self.wf() ==> x.wf()),
                None => self@.extra(id) is None,
            },
    {
        if id.0 >= 0 && (id.0 as usize) < self.m_ExtraDataString.entries.len() {
            Some(&self.m_ExtraDataString.entries[id.0 as usize])
        } else {
            None
        }
    }

    /// The entries that `entry` depends on: those that the bucket of its
    /// dependency key selects. `None` where the key names no bucket.
    pub fn get_dependencies(&self, entry: &EntryValue) -> (dependencies: Option<&[EntryId]>)
        ensures
            match dependencies {
                Some(d) => self@.dependencies(*entry) == Some(d@),
                None => self@.dependencies(*entry) is None,
            },
    {
        match self.get_bucket(entry.dependency_key_idx) {
            Some(bucket) => Some(bucket.indices.as_slice()),
            None => None,
        }
    }
}

} // verus!
