//! Entries of the catalog written out as additions: for a bundle its path
//! string and its key, for a prefab also the path strings of what it depends
//! on.

use crate::catalog::{texts, Catalog};
use crate::lookup::{EntryId, EntryValue, InternalId, KeyDataValue, KeyView};
use crate::model::{lemma_first_position_is_first, owned_by, CatalogView};
use vstd::prelude::*;

verus! {

/// Why an entry cannot be written out.
#[derive(Debug, Clone, Copy, PartialEq, Eq, Structural)]
pub enum DumpError {
    /// No entry is owned by the identifier.
    NoEntry,
    /// The primary key of an entry is no key of the key table.
    NoKey,
    /// The primary key of an entry is a hash.
    HashKey,
    /// An identifier names no path string. A well-formed catalog has no such
    /// identifier.
    NoInternalId,
    /// The dependency key of the entry names no bucket.
    NoDependencies,
    /// A dependency is no entry of the entry table.
    NoDependencyEntry,
}

/// A bundle to add.
pub struct BundleView {
    pub internal_id: Seq<char>,
    pub internal_path: Seq<char>,
}

/// A prefab to add.
pub struct PrefabView {
    pub internal_id: Seq<char>,
    pub internal_path: Seq<char>,
    pub dependencies: Seq<Seq<char>>,
}

/// Bundles and prefabs to add.
pub struct EntriesView {
    pub bundles: Seq<BundleView>,
    pub prefabs: Seq<PrefabView>,
}

/// A bundle to add: its path string and its key.
#[derive(Debug)]
pub struct ExtraBundles {
    pub internal_id: String,
    pub internal_path: String,
}

impl View for ExtraBundles {
    type V = BundleView;

    open spec fn view(&self) -> BundleView {
        BundleView { internal_id: self.internal_id@, internal_path: self.internal_path@ }
    }
}

/// A prefab to add: its path string, its key, and the path strings of what
/// it depends on.
#[derive(Debug)]
pub struct ExtraPrefabs {
    pub internal_id: String,
    pub internal_path: String,
    pub dependencies: Vec<String>,
}

impl View for ExtraPrefabs {
    type V = PrefabView;

    open spec fn view(&self) -> PrefabView {
        PrefabView {
            internal_id: self.internal_id@,
            internal_path: self.internal_path@,
            dependencies: texts(self.dependencies@),
        }
    }
}

/// Bundles and prefabs to add.
#[derive(Debug)]
pub struct CatalogEntries {
    pub bundles: Vec<ExtraBundles>,
    pub prefabs: Vec<ExtraPrefabs>,
}

impl View for CatalogEntries {
    type V = EntriesView;

    open spec fn view(&self) -> EntriesView {
        EntriesView {
            bundles: self.bundles@.map_values(|b: ExtraBundles| b@),
            prefabs: self.prefabs@.map_values(|p: ExtraPrefabs| p@),
        }
    }
}

/// The string of the primary key of `entry`.
pub open spec fn path_of(catalog: CatalogView, entry: EntryValue) -> Result<Seq<char>, DumpError> {
    match catalog.key(entry.primary_key) {
        None => Err(DumpError::NoKey),
        Some(KeyView::Hash(_)) => Err(DumpError::HashKey),
        Some(KeyView::Text(text)) => Ok(text),
    }
}

/// The path string of the entry at `id`.
pub open spec fn name_of(catalog: CatalogView, id: EntryId) -> Result<Seq<char>, DumpError> {
    match catalog.entry(id) {
        None => Err(DumpError::NoDependencyEntry),
        Some(entry) => match catalog.internal_id(entry.internal_id.0 as int) {
            None => Err(DumpError::NoInternalId),
            Some(name) => Ok(name),
        },
    }
}

/// The path strings of the entries at `ids`, or what is wrong with the first
/// of them that has none.
pub open spec fn names_of(catalog: CatalogView, ids: Seq<EntryId>) -> Result<
    Seq<Seq<char>>,
    DumpError,
>
    decreases ids.len(),
{
    if ids.len() == 0 {
        Ok(Seq::empty())
    } else {
        match names_of(catalog, ids.drop_last()) {
            Err(e) => Err(e),
            Ok(names) => match name_of(catalog, ids.last()) {
                Err(e) => Err(e),
                Ok(name) => Ok(names.push(name)),
            },
        }
    }
}

/// The path strings of those of `ids` that are entries with a path string,
/// in order.
pub open spec fn paths_of(catalog: CatalogView, ids: Seq<EntryId>) -> Seq<Seq<char>>
    decreases ids.len(),
{
    if ids.len() == 0 {
        Seq::empty()
    } else {
        match name_of(catalog, ids.last()) {
            Err(_) => paths_of(catalog, ids.drop_last()),
            Ok(name) => paths_of(catalog, ids.drop_last()).push(name),
        }
    }
}

/// The first entry of `id` as additions. An entry whose dependency hash is 0
/// is a bundle. Any other is a prefab; with it stands the bundle that it
/// depends on first, if it depends on any.
pub open spec fn dump(catalog: CatalogView, id: InternalId) -> Result<EntriesView, DumpError> {
    match catalog.entry_by_internal_id(id) {
        None => Err(DumpError::NoEntry),
        Some(entry) => match path_of(catalog, entry) {
            Err(e) => Err(e),
            Ok(internal_path) => match catalog.internal_id(id.0 as int) {
                None => Err(DumpError::NoInternalId),
                Some(internal_id) => if entry.dependency_hash == 0 {
                    Ok(
                        EntriesView {
                            bundles: seq![BundleView { internal_id, internal_path }],
                            prefabs: Seq::empty(),
                        },
                    )
                } else {
                    match catalog.dependencies(entry) {
                        None => Err(DumpError::NoDependencies),
                        Some(ids) => match names_of(catalog, ids) {
                            Err(e) => Err(e),
                            Ok(dependencies) => {
                                let prefabs = seq![
                                    PrefabView { internal_id, internal_path, dependencies },
                                ];
                                if ids.len() == 0 {
                                    Ok(EntriesView { bundles: Seq::empty(), prefabs })
                                } else {
                                    match path_of(catalog, catalog.entry(ids[0])->Some_0) {
                                        Err(e) => Err(e),
                                        Ok(path) => Ok(
                                            EntriesView {
                                                bundles: seq![
                                                    BundleView {
                                                        internal_id: dependencies[0],
                                                        internal_path: path,
                                                    },
                                                ],
                                                prefabs,
                                            },
                                        ),
                                    }
                                }
                            },
                        },
                    }
                },
            },
        },
    }
}

/// In a well-formed catalog every entry has a path string.
pub proof fn lemma_entries_have_names(catalog: CatalogView, ids: Seq<EntryId>)
    requires
        catalog.wf(),
    ensures
        forall|i: int|
            0 <= i < ids.len() ==> name_of(catalog, #[trigger] ids[i]) != Err::<
                Seq<char>,
                DumpError,
            >(DumpError::NoInternalId),
        names_of(catalog, ids) != Err::<Seq<Seq<char>>, DumpError>(DumpError::NoInternalId),
    decreases ids.len(),
{
    if ids.len() > 0 {
        lemma_entries_have_names(catalog, ids.drop_last());
        assert(name_of(catalog, ids[ids.len() - 1]) != Err::<Seq<char>, DumpError>(
            DumpError::NoInternalId,
        ));
    }
}

/// Where every entry has a path string, there are as many strings as
/// entries, and each is the string of its entry.
pub proof fn lemma_names_of(catalog: CatalogView, ids: Seq<EntryId>)
    ensures
        names_of(catalog, ids) matches Ok(names) ==> names.len() == ids.len() && forall|i: int|
            0 <= i < ids.len() ==> name_of(catalog, #[trigger] ids[i]) == Ok::<
                Seq<char>,
                DumpError,
            >(names[i]),
    decreases ids.len(),
{
    if ids.len() > 0 {
        lemma_names_of(catalog, ids.drop_last());
        if let Ok(names) = names_of(catalog, ids) {
            let before = names_of(catalog, ids.drop_last())->Ok_0;
            assert forall|i: int| 0 <= i < ids.len() implies name_of(catalog, #[trigger] ids[i])
                == Ok::<Seq<char>, DumpError>(names[i]) by {
                if i < ids.len() - 1 {
                    assert(ids.drop_last()[i] == ids[i]);
                    assert(names[i] == before[i]);
                }
            }
        }
    }
}

impl Catalog {
    /// The string of the primary key of `entry`.
    pub fn path_of(&self, entry: &EntryValue) -> (path: Result<String, DumpError>)
        ensures
            match path {
                Ok(text) => path_of(self@, *entry) == Ok::<Seq<char>, DumpError>(text@),
                Err(e) => path_of(self@, *entry) == Err::<Seq<char>, DumpError>(e),
            },
    {
        match self.get_key(entry.primary_key) {
            None => Err(DumpError::NoKey),
            Some(KeyDataValue::Hash(_)) => Err(DumpError::HashKey),
            Some(KeyDataValue::String { string, .. }) => Ok(string.clone()),
        }
    }

    /// The path string of the entry at `id`.
    pub fn name_of(&self, id: EntryId) -> (name: Result<String, DumpError>)
        ensures
            match name {
                Ok(text) => name_of(self@, id) == Ok::<Seq<char>, DumpError>(text@),
                Err(e) => name_of(self@, id) == Err::<Seq<char>, DumpError>(e),
            },
    {
        match self.get_entry(id) {
            None => Err(DumpError::NoDependencyEntry),
            Some(entry) => match self.get_internal_id_from_index(entry.internal_id.0 as usize) {
                None => Err(DumpError::NoInternalId),
                Some(name) => Ok(name.clone()),
            },
        }
    }

    /// The path strings of the entries at `ids`, or what is wrong with the
    /// first of them that has none.
    pub fn names_of(&self, ids: &[EntryId]) -> (names: Result<Vec<String>, DumpError>)
        ensures
            match names {
                Ok(list) => names_of(self@, ids@) == Ok::<Seq<Seq<char>>, DumpError>(texts(list@)),
                Err(e) => names_of(self@, ids@) == Err::<Seq<Seq<char>>, DumpError>(e),
            },
    {
        let mut names: Vec<String> = Vec::new();
        let mut i: usize = 0;
        assert(ids@.take(0) =~= Seq::<EntryId>::empty());
        assert(texts(names@) =~= Seq::<Seq<char>>::empty());
        while i < ids.len()
            invariant
                i <= ids@.len(),
                names_of(self@, ids@.take(i as int)) == Ok::<Seq<Seq<char>>, DumpError>(
                    texts(names@),
                ),
            decreases ids@.len() - i,
        {
            proof {
                assert(ids@.take(i + 1).drop_last() =~= ids@.take(i as int));
                assert(ids@.take(i + 1).last() == ids@[i as int]);
            }
            match self.name_of(ids[i]) {
                Err(e) => {
                    proof {
                        lemma_names_fail(self@, ids@, i + 1);
                    }
                    return Err(e);
                },
                Ok(name) => {
                    let ghost before = texts(names@);
                    names.push(name);
                    assert(texts(names@) =~= before.push(name@));
                },
            }
            i += 1;
        }
        assert(ids@.take(i as int) =~= ids@);
        Ok(names)
    }

    /// The path strings of those of `ids` that are entries with a path
    /// string, in order.
    pub fn paths_of(&self, ids: &[EntryId]) -> (paths: Vec<String>)
        ensures
            texts(paths@) == paths_of(self@, ids@),
    {
        let mut paths: Vec<String> = Vec::new();
        let mut i: usize = 0;
        assert(ids@.take(0) =~= Seq::<EntryId>::empty());
        assert(texts(paths@) =~= Seq::<Seq<char>>::empty());
        while i < ids.len()
            invariant
                i <= ids@.len(),
                texts(paths@) == paths_of(self@, ids@.take(i as int)),
            decreases ids@.len() - i,
        {
            proof {
                assert(ids@.take(i + 1).drop_last() =~= ids@.take(i as int));
                assert(ids@.take(i + 1).last() == ids@[i as int]);
            }
            if let Ok(name) = self.name_of(ids[i]) {
                let ghost before = texts(paths@);
                paths.push(name);
                assert(texts(paths@) =~= before.push(name@));
            }
            i += 1;
        }
        assert(ids@.take(i as int) =~= ids@);
        paths
    }

    /// The first entry of `id` as additions.
    pub fn dump_entry(&self, id: InternalId) -> (entries: Result<CatalogEntries, DumpError>)
        ensures
            match entries {
                Ok(list) => dump(self@, id) == Ok::<EntriesView, DumpError>(list@),
                Err(e) => dump(self@, id) == Err::<EntriesView, DumpError>(e),
            },
            self.wf() ==> !(entries matches Err(DumpError::NoInternalId)),
    {
        proof {
            if self.wf() {
                lemma_first_position_is_first(self@.entries, owned_by(id));
                if let Some(entry) = self@.entry_by_internal_id(id) {
                    if let Some(ids) = self@.dependencies(entry) {
                        lemma_entries_have_names(self@, ids);
                    }
                }
            }
        }
        let entry = match self.get_entry_by_internal_id(id) {
            None => {
                return Err(DumpError::NoEntry);
            },
            Some(entry) => entry,
        };
        let internal_path = match self.path_of(entry) {
            Err(e) => {
                return Err(e);
            },
            Ok(path) => path,
        };
        let internal_id = match self.get_internal_id_from_index(id.0 as usize) {
            None => {
                return Err(DumpError::NoInternalId);
            },
            Some(name) => name.clone(),
        };
        let mut bundles: Vec<ExtraBundles> = Vec::new();
        let mut prefabs: Vec<ExtraPrefabs> = Vec::new();
        if entry.dependency_hash == 0 {
            let bundle = ExtraBundles { internal_id, internal_path };
            let ghost view = bundle@;
            bundles.push(bundle);
            let entries = CatalogEntries { bundles, prefabs };
            assert(entries@.bundles =~= seq![view]);
            assert(entries@.prefabs =~= Seq::<PrefabView>::empty());
            return Ok(entries);
        }
        let ids = match self.get_dependencies(entry) {
            None => {
                return Err(DumpError::NoDependencies);
            },
            Some(ids) => ids,
        };
        let dependencies = match self.names_of(ids) {
            Err(e) => {
                return Err(e);
            },
            Ok(names) => names,
        };
        proof {
            lemma_names_of(self@, ids@);
        }
        if ids.len() > 0 {
            let first = match self.get_entry(ids[0]) {
                None => {
                    return Err(DumpError::NoDependencyEntry);
                },
                Some(first) => first,
            };
            let path = match self.path_of(first) {
                Err(e) => {
                    return Err(e);
                },
                Ok(path) => path,
            };
            let bundle = ExtraBundles { internal_id: dependencies[0].clone(), internal_path: path };
            bundles.push(bundle);
        }
        let prefab = ExtraPrefabs { internal_id, internal_path, dependencies };
        let ghost prefab_view = prefab@;
        prefabs.push(prefab);
        let entries = CatalogEntries { bundles, prefabs };
        proof {
            assert(entries@.prefabs =~= seq![prefab_view]);
            if ids@.len() == 0 {
                assert(entries@.bundles =~= Seq::<BundleView>::empty());
            } else {
                assert(entries@.bundles =~= seq![entries.bundles@[0]@]);
            }
        }
        Ok(entries)
    }
}

/// Where the beginning of a list has an entry without a path string, the
/// list fails as its beginning does.
pub proof fn lemma_names_fail(catalog: CatalogView, ids: Seq<EntryId>, k: int)
    requires
        0 <= k <= ids.len(),
        names_of(catalog, ids.take(k)) is Err,
    ensures
        names_of(catalog, ids) == names_of(catalog, ids.take(k)),
    decreases ids.len() - k,
{
    if k == ids.len() {
        assert(ids.take(k) =~= ids);
    } else {
        assert(ids.take(k + 1).drop_last() =~= ids.take(k));
        lemma_names_fail(catalog, ids, k + 1);
    }
}

} // verus!
