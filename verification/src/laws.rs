//! What holds of the catalog's operations taken together.

use crate::lookup::{EntryId, ExtraView, InternalId, KeyId, KeyView};
use crate::model::{
    first_at, is_text, keys_size, lemma_first_position_found, owned_by, CatalogView,
};
use vstd::prelude::*;

verus! {

/// Registering a path string that is not registered succeeds; registering it
/// again is refused; and after both the registry is longer by one.
pub proof fn law_second_registration_is_refused(catalog: CatalogView, name: Seq<char>)
    requires
        !catalog.internal_ids.contains(name),
    ensures
        ({
            let (once, first) = catalog.registration(name);
            let (twice, second) = once.registration(name);
            &&& first is Some
            &&& second is None
            &&& twice.internal_ids.len() == catalog.internal_ids.len() + 1
        }),
{
    let once = catalog.with_internal_id(name);
    assert(once.internal_ids[catalog.internal_ids.len() as int] == name);
}

/// Registering path strings keeps them distinct.
pub proof fn law_registration_keeps_ids_distinct(catalog: CatalogView, name: Seq<char>)
    requires
        catalog.ids_distinct(),
    ensures
        catalog.registration(name).0.ids_distinct(),
{
}

/// After some keys were appended, the next key starts where it started
/// before, moved on by the sizes of those keys. In a table that was empty
/// that is the start of the first key and the sizes of all keys.
pub proof fn law_next_key_offset_adds_sizes(
    catalog: CatalogView,
    keys: Seq<KeyView>,
    indices: Seq<Seq<EntryId>>,
)
    requires
        catalog.keys.len() == catalog.buckets.len(),
        keys.len() == indices.len(),
        catalog.next_key_offset() + keys_size(keys) <= u32::MAX,
    ensures
        ({
            let after = catalog.with_keys(keys, indices);
            &&& after.keys == catalog.keys + keys
            &&& after.buckets.len() == after.keys.len()
            &&& after.next_key_offset() == catalog.next_key_offset() + keys_size(keys)
            &&& catalog.keys.len() == 0 && keys.len() > 0 ==> after.next_key_offset()
                == after.buckets[0].key_data_offset + keys_size(after.keys)
        }),
    decreases keys.len(),
{
    let after = catalog.with_keys(keys, indices);
    if keys.len() == 0 {
        assert(after.keys =~= catalog.keys + keys);
    } else {
        let before = catalog.with_keys(keys.drop_last(), indices.drop_last());
        law_next_key_offset_adds_sizes(catalog, keys.drop_last(), indices.drop_last());
        assert(after.keys =~= catalog.keys + keys);
        assert(before.next_key_offset() as u32 == before.next_key_offset());
        if catalog.keys.len() == 0 {
            assert(catalog.keys + keys =~= keys);
            if keys.len() == 1 {
                assert(keys.drop_last() =~= Seq::<KeyView>::empty());
                assert(keys_size(keys.drop_last()) == 0);
            } else {
                assert(after.buckets[0] == before.buckets[0]);
                assert(catalog.keys + keys.drop_last() =~= keys.drop_last());
            }
        }
    }
}

/// A bundle that was added is what its path string resolves to, and it has
/// no dependencies: its dependency key is `-1`, which names no bucket.
pub proof fn law_bundle_has_no_dependencies(
    catalog: CatalogView,
    name: Seq<char>,
    key: Seq<char>,
    extra: ExtraView,
)
    requires
        catalog.wf(),
        !catalog.internal_ids.contains(name),
        catalog.room_for_bundle(key),
    ensures
        ({
            let after = catalog.with_bundle(name, key, extra);
            let id = InternalId(catalog.internal_ids.len() as u32);
            let entry = catalog.bundle_entry();
            &&& after.wf()
            &&& after.internal_id_index(name) == Some(id)
            &&& after.entry_position(id) == Some(catalog.entries.len() as int)
            &&& after.entry_by_internal_id(id) == Some(entry)
            &&& entry.dependency_key_idx == KeyId(-1i32)
            &&& after.dependencies(entry) is None
        }),
{
    let after = catalog.with_bundle(name, key, extra);
    let id = InternalId(catalog.internal_ids.len() as u32);
    lemma_new_name_resolves(catalog, after, name);
    assert(after.entries.drop_last() =~= catalog.entries);
    lemma_new_entry_is_found(catalog, after, id);
}

/// A prefab that was added with one dependency, a bundle that was added
/// before it, depends on exactly the entry of that bundle.
pub proof fn law_prefab_depends_on_its_bundle(
    catalog: CatalogView,
    bundle: Seq<char>,
    bundle_key: Seq<char>,
    extra: ExtraView,
    prefab: Seq<char>,
    prefab_key: Seq<char>,
    hash: i32,
)
    requires
        catalog.wf(),
        !catalog.internal_ids.contains(bundle),
        !catalog.internal_ids.contains(prefab),
        bundle != prefab,
        catalog.room_for_bundle(bundle_key),
        catalog.with_bundle(bundle, bundle_key, extra).room_for_prefab(prefab_key, 1),
    ensures
        ({
            let with_bundle = catalog.with_bundle(bundle, bundle_key, extra);
            let after = with_bundle.with_prefab(prefab, prefab_key, seq![bundle], hash);
            let id = InternalId(with_bundle.internal_ids.len() as u32);
            let entry = with_bundle.prefab_entry(hash);
            let bundle_entry = EntryId(catalog.entries.len() as u32);
            &&& after.wf()
            &&& after.internal_id_index(prefab) == Some(id)
            &&& after.entry_by_internal_id(id) == Some(entry)
            &&& after.dependencies(entry) == Some(seq![bundle_entry])
            &&& after.entry(bundle_entry) == Some(catalog.bundle_entry())
        }),
{
    let with_bundle = catalog.with_bundle(bundle, bundle_key, extra);
    let bundle_id = InternalId(catalog.internal_ids.len() as u32);
    law_bundle_has_no_dependencies(catalog, bundle, bundle_key, extra);
    let named = with_bundle.with_internal_id(prefab).with_key(
        KeyView::Text(prefab_key),
        seq![EntryId(with_bundle.entries.len() as u32)],
    );
    let after = with_bundle.with_prefab(prefab, prefab_key, seq![bundle], hash);
    let id = InternalId(with_bundle.internal_ids.len() as u32);
    // The bundle's string still resolves to the bundle's entry.
    assert(first_at(named.internal_ids, is_text(bundle), catalog.internal_ids.len() as int)) by {
        assert(named.internal_ids[catalog.internal_ids.len() as int] == bundle);
        assert forall|j: int| 0 <= j < catalog.internal_ids.len() implies !is_text(bundle)(
            #[trigger] named.internal_ids[j],
        ) by {
            assert(named.internal_ids[j] == catalog.internal_ids[j]);
        }
    }
    lemma_first_position_found(
        named.internal_ids,
        is_text(bundle),
        catalog.internal_ids.len() as int,
    );
    assert(named.entries == with_bundle.entries);
    assert(named.entry_of_name(bundle) == Some(EntryId(catalog.entries.len() as u32)));
    assert(seq![bundle].drop_last() =~= Seq::<Seq<char>>::empty());
    assert(named.resolve(seq![bundle].drop_last()) =~= Seq::<EntryId>::empty());
    assert(named.resolve(seq![bundle]) =~= seq![EntryId(catalog.entries.len() as u32)]);
    // The prefab's string resolves to the prefab's entry.
    lemma_new_name_resolves(with_bundle, after, prefab);
    assert(after.entries.drop_last() =~= with_bundle.entries);
    lemma_new_entry_is_found(with_bundle, after, id);
}

/// A path string that was appended to a registry that did not hold it
/// resolves to the position at which it was appended.
proof fn lemma_new_name_resolves(before: CatalogView, after: CatalogView, name: Seq<char>)
    requires
        !before.internal_ids.contains(name),
        before.internal_ids.len() < u32::MAX,
        after.internal_ids == before.internal_ids.push(name),
    ensures
        after.internal_id_index(name) == Some(InternalId(before.internal_ids.len() as u32)),
{
    let at = before.internal_ids.len() as int;
    assert(after.internal_ids[at] == name);
    assert forall|j: int| 0 <= j < at implies !is_text(name)(#[trigger] after.internal_ids[j]) by {
        assert(after.internal_ids[j] == before.internal_ids[j]);
    }
    assert(first_at(after.internal_ids, is_text(name), at));
    lemma_first_position_found(after.internal_ids, is_text(name), at);
}

/// An entry that was appended for an identifier that no entry named before
/// is the first entry of that identifier.
proof fn lemma_new_entry_is_found(before: CatalogView, after: CatalogView, id: InternalId)
    requires
        before.wf(),
        id.0 == before.internal_ids.len(),
        after.entries.len() == before.entries.len() + 1,
        after.entries.drop_last() == before.entries,
        after.entries.last().internal_id == id,
    ensures
        after.entry_position(id) == Some(before.entries.len() as int),
        after.entry_by_internal_id(id) == Some(after.entries.last()),
{
    let at = before.entries.len() as int;
    assert forall|j: int| 0 <= j < at implies !owned_by(id)(#[trigger] after.entries[j]) by {
        assert(after.entries[j] == before.entries[j]);
        assert(before.entries[j].internal_id.0 < before.internal_ids.len());
    }
    assert(first_at(after.entries, owned_by(id), at));
    lemma_first_position_found(after.entries, owned_by(id), at);
}

} // verus!
