use addressables_rs::catalog::{Catalog, CatalogError, ObjectType, ProviderData};
use addressables_rs::lookup::{
    BucketData, BucketEntry, EntryData, EntryId, EntryValue, ExtraData, ExtraId, ExtraValue,
    InternalId, KeyData, KeyDataValue, KeyId,
};
use addressables_rs::resolve::recursive_deps;

fn provider(id: &str) -> ProviderData {
    ProviderData {
        m_Id: String::from(id),
        m_ObjectType: ObjectType {
            m_AssemblyName: String::from("Unity.ResourceManager"),
            m_ClassName: String::from("Provider"),
        },
        m_Data: String::new(),
    }
}

fn catalog_of(
    ids: Vec<String>,
    keys: KeyData,
    buckets: BucketData,
    entries: EntryData,
    extras: ExtraData,
) -> Option<Catalog> {
    Catalog::new(
        String::from("AddressablesMainContentCatalog"),
        provider("instance"),
        provider("scene"),
        vec![provider("bundle")],
        vec![String::from("bundle")],
        ids,
        keys,
        buckets,
        entries,
        extras,
        vec![],
        vec![String::from("Assets/")],
    )
}

fn empty_catalog() -> Catalog {
    catalog_of(
        vec![],
        KeyData::default(),
        BucketData::default(),
        EntryData::default(),
        ExtraData::default(),
    )
    .unwrap()
}

fn extra() -> ExtraValue {
    ExtraValue::new("A", "B", "").unwrap()
}

fn key_text(catalog: &Catalog, id: KeyId) -> Option<String> {
    match catalog.get_key(id) {
        Some(KeyDataValue::String { string, .. }) => Some(string.clone()),
        _ => None,
    }
}

#[test]
fn new_keeps_the_envelope() {
    let catalog = empty_catalog();
    assert_eq!(catalog.locator_id(), "AddressablesMainContentCatalog");
    assert_eq!(catalog.instance_provider().m_Id, "instance");
    assert_eq!(catalog.scene_provider().m_Id, "scene");
    assert_eq!(catalog.resource_providers().len(), 1);
    assert_eq!(catalog.provider_ids(), &vec![String::from("bundle")]);
    assert!(catalog.resource_types().is_empty());
    assert_eq!(catalog.internal_id_prefixes(), &vec![String::from("Assets/")]);
    assert!(catalog.get_internal_ids().is_empty());
    assert_eq!(catalog.entry_count(), 0);
}

#[test]
fn new_refuses_tables_that_do_not_fit() {
    let one_key = || KeyData { count: 1, entries: vec![KeyDataValue::Hash(1)] };
    assert!(catalog_of(
        vec![],
        one_key(),
        BucketData::default(),
        EntryData::default(),
        ExtraData::default()
    )
    .is_none());
    assert!(catalog_of(
        vec![],
        KeyData { count: 2, entries: vec![KeyDataValue::Hash(1)] },
        BucketData {
            count: 1,
            entries: vec![BucketEntry { key_data_offset: 4, count: 0, indices: vec![] }]
        },
        EntryData::default(),
        ExtraData::default()
    )
    .is_none());
    let entry = EntryValue {
        internal_id: InternalId(0),
        provider_index: 0,
        dependency_key_idx: KeyId(-1),
        dependency_hash: 0,
        data_index: ExtraId(-1),
        primary_key: KeyId(-1),
        resource_type: 0,
    };
    assert!(catalog_of(
        vec![],
        KeyData::default(),
        BucketData::default(),
        EntryData { count: 1, entries: vec![entry] },
        ExtraData::default()
    )
    .is_none());
    assert!(catalog_of(
        vec![String::from("a")],
        KeyData::default(),
        BucketData::default(),
        EntryData { count: 1, entries: vec![entry] },
        ExtraData::default()
    )
    .is_some());
}

#[test]
fn catalogs_stay_well_formed() {
    let mut catalog = empty_catalog();
    assert!(catalog.is_wf());
    catalog.add_bundle("b", "kb", extra()).unwrap();
    catalog.add_prefab("p", "kp", &[String::from("b")]).unwrap();
    assert!(catalog.is_wf());
    catalog.get_bucket_mut(KeyId(0)).unwrap().count = 5;
    assert!(!catalog.is_wf());
    catalog.get_bucket_mut(KeyId(0)).unwrap().count = 1;
    assert!(catalog.is_wf());
}

#[test]
fn same_internal_id_twice_is_refused() {
    let mut catalog = empty_catalog();
    catalog.add_internalid("zero").unwrap();
    let before = catalog.get_internal_ids().len();
    assert_eq!(catalog.add_internalid("a/b.bundle").unwrap(), InternalId(1));
    assert!(matches!(
        catalog.add_internalid("a/b.bundle"),
        Err(CatalogError::DuplicateInternalId)
    ));
    assert_eq!(catalog.get_internal_ids().len(), before + 1);
    assert_eq!(
        catalog.get_internal_ids(),
        vec![String::from("zero"), String::from("a/b.bundle")]
    );
}

#[test]
fn internal_ids_are_found_by_first_match() {
    let catalog = catalog_of(
        vec![String::from("x"), String::from("y"), String::from("x")],
        KeyData::default(),
        BucketData::default(),
        EntryData::default(),
        ExtraData::default(),
    )
    .unwrap();
    assert_eq!(catalog.get_internal_id_index("x"), Some(InternalId(0)));
    assert_eq!(catalog.get_internal_id_index("y"), Some(InternalId(1)));
    assert_eq!(catalog.get_internal_id_index("z"), None);
    assert_eq!(catalog.get_internal_id_index(""), None);
    assert_eq!(catalog.get_internal_id_from_index(1), Some(&String::from("y")));
    assert_eq!(catalog.get_internal_id_from_index(3), None);
}

#[test]
fn lookups_out_of_range_find_nothing() {
    let mut catalog = empty_catalog();
    assert!(catalog.get_key(KeyId(0)).is_none());
    assert!(catalog.get_bucket(KeyId(0)).is_none());
    assert!(catalog.get_entry(EntryId(0)).is_none());
    assert!(catalog.get_extra(ExtraId(0)).is_none());
    assert!(catalog.get_entry_by_internal_id(InternalId(0)).is_none());
    assert!(catalog.get_entry_id_by_internal_id(InternalId(0)).is_none());
    catalog.add_bundle("b", "k", extra()).unwrap();
    assert!(catalog.get_key(KeyId(-1)).is_none());
    assert!(catalog.get_key(KeyId(1)).is_none());
    assert!(catalog.get_key(KeyId(i32::MIN)).is_none());
    assert!(catalog.get_bucket(KeyId(-1)).is_none());
    assert!(catalog.get_bucket(KeyId(1)).is_none());
    assert!(catalog.get_entry(EntryId(1)).is_none());
    assert!(catalog.get_entry(EntryId(u32::MAX)).is_none());
    assert!(catalog.get_extra(ExtraId(-1)).is_none());
    assert!(catalog.get_extra(ExtraId(1)).is_none());
    assert!(catalog.get_key(KeyId(0)).is_some());
    assert!(catalog.get_extra(ExtraId(0)).is_some());
}

#[test]
fn next_key_offset_adds_the_sizes_of_the_keys() {
    let mut catalog = empty_catalog();
    assert_eq!(catalog.get_next_key_offset(), 4);
    assert_eq!(catalog.add_key(KeyDataValue::from_string("abc")), KeyId(0));
    assert_eq!(catalog.get_next_key_offset(), 4 + 8);
    assert_eq!(catalog.add_key(KeyDataValue::Hash(99)), KeyId(1));
    assert_eq!(catalog.get_next_key_offset(), 4 + 8 + 5);
    assert_eq!(
        catalog.add_dependency_key(KeyDataValue::from_string(""), &[EntryId(4), EntryId(2)]),
        KeyId(2)
    );
    assert_eq!(catalog.get_next_key_offset(), 4 + 8 + 5 + 5);
    assert_eq!(catalog.get_bucket(KeyId(0)).unwrap().key_data_offset, 4);
    assert_eq!(catalog.get_bucket(KeyId(1)).unwrap().key_data_offset, 12);
    assert_eq!(catalog.get_bucket(KeyId(2)).unwrap().key_data_offset, 17);
    assert_eq!(catalog.get_bucket(KeyId(0)).unwrap().indices, vec![EntryId(0)]);
    assert_eq!(catalog.get_bucket(KeyId(0)).unwrap().count, 1);
    assert_eq!(catalog.get_bucket(KeyId(2)).unwrap().indices, vec![EntryId(4), EntryId(2)]);
    assert_eq!(catalog.get_bucket(KeyId(2)).unwrap().count, 2);
    assert_eq!(catalog.key_data().count, 3);
    assert_eq!(catalog.bucket_data().count, 3);
    assert_eq!(catalog.key_data().encode().len(), 4 + 8 + 5 + 5);
}

#[test]
fn next_key_offset_starts_from_the_last_bucket() {
    let catalog = catalog_of(
        vec![],
        KeyData { count: 1, entries: vec![KeyDataValue::from_string("abcd")] },
        BucketData {
            count: 1,
            entries: vec![BucketEntry { key_data_offset: 100, count: 0, indices: vec![] }],
        },
        EntryData::default(),
        ExtraData::default(),
    )
    .unwrap();
    assert_eq!(catalog.get_next_key_offset(), 109);
}

#[test]
fn extra_ids_are_byte_offsets() {
    let mut catalog = empty_catalog();
    assert_eq!(catalog.get_next_extra_offset(), 0);
    assert_eq!(catalog.add_extra_data(extra()), ExtraId(0));
    assert_eq!(catalog.get_next_extra_offset(), 9);
    assert_eq!(catalog.add_extra_data(ExtraValue::new("ab", "c", "{}").unwrap()), ExtraId(9));
    assert_eq!(catalog.get_next_extra_offset(), 9 + 12);
    assert_eq!(catalog.add_extra_data(ExtraValue::default()), ExtraId(21));
    assert_eq!(catalog.get_extra(ExtraId(1)).unwrap().assembly_name, "ab");
    assert_eq!(catalog.extra_data().entries.len(), 3);
}

#[test]
fn unique_hash_avoids_the_hash_keys() {
    let mut catalog = empty_catalog();
    let seeded = [0, 1, -1, i32::MIN, i32::MAX, 42];
    for hash in seeded {
        catalog.add_key(KeyDataValue::Hash(hash));
    }
    catalog.add_key(KeyDataValue::from_string("7"));
    for hash in seeded {
        assert!(catalog.has_hash_key(hash));
    }
    assert!(!catalog.has_hash_key(7));
    for _ in 0..200 {
        let hash = catalog.get_unique_hash();
        assert!(!seeded.contains(&hash));
        assert!(!catalog.has_hash_key(hash));
    }
}

#[test]
fn first_free_draw_is_taken() {
    let mut catalog = empty_catalog();
    catalog.add_key(KeyDataValue::Hash(1));
    catalog.add_key(KeyDataValue::from_string("3"));
    catalog.add_key(KeyDataValue::Hash(2));
    assert_eq!(catalog.first_free_draw(&[1, 2, 1, 3, 5]), Some((3, 3)));
    assert_eq!(catalog.unique_hash_from(&[1, 2, 1, 3, 5]), 3);
    assert_eq!(catalog.first_free_draw(&[5, 3]), Some((0, 5)));
    assert_eq!(catalog.unique_hash_from(&[2, 2, 7]), 7);
    assert_eq!(catalog.first_free_draw(&[1, 2, 2, 1]), None);
    assert_eq!(catalog.first_free_draw(&[]), None);
}

#[test]
fn refused_draws_end_in_the_lowest_free_hash() {
    let mut catalog = empty_catalog();
    assert_eq!(catalog.lowest_free_hash(), i32::MIN);
    assert_eq!(catalog.unique_hash_from(&[]), i32::MIN);
    catalog.add_key(KeyDataValue::Hash(i32::MIN));
    catalog.add_key(KeyDataValue::Hash(i32::MIN + 2));
    catalog.add_key(KeyDataValue::Hash(9));
    assert_eq!(catalog.lowest_free_hash(), i32::MIN + 1);
    assert_eq!(catalog.unique_hash_from(&[9, i32::MIN, 9]), i32::MIN + 1);
    catalog.add_key(KeyDataValue::Hash(i32::MIN + 1));
    assert_eq!(catalog.lowest_free_hash(), i32::MIN + 3);
}

#[test]
fn unique_hashes_differ_between_draws() {
    let catalog = empty_catalog();
    let first = catalog.get_unique_hash();
    let mut differs = false;
    for _ in 0..64 {
        if catalog.get_unique_hash() != first {
            differs = true;
        }
    }
    assert!(differs);
}

#[test]
fn bundle_has_no_dependencies() {
    let mut catalog = empty_catalog();
    catalog.add_bundle("a/first.bundle", "first.bundle", extra()).unwrap();
    catalog
        .add_bundle("a/second.bundle", "second.bundle", ExtraValue::new("X", "Y", "{}").unwrap())
        .unwrap();
    let id = catalog.get_internal_id_index("a/second.bundle").unwrap();
    assert_eq!(id, InternalId(1));
    let entry = *catalog.get_entry_by_internal_id(id).unwrap();
    assert_eq!(
        entry,
        EntryValue {
            internal_id: InternalId(1),
            provider_index: 0,
            dependency_key_idx: KeyId(-1),
            dependency_hash: 0,
            data_index: ExtraId(9),
            primary_key: KeyId(1),
            resource_type: 0,
        }
    );
    assert_eq!(catalog.get_dependencies(&entry), None);
    assert_eq!(catalog.get_entry_id_by_internal_id(id), Some(1));
    assert_eq!(key_text(&catalog, entry.primary_key), Some(String::from("second.bundle")));
    assert_eq!(catalog.get_bucket(entry.primary_key).unwrap().indices, vec![EntryId(1)]);
    assert_eq!(catalog.get_bucket(entry.primary_key).unwrap().key_data_offset, 4 + 17);
    assert_eq!(catalog.entry_data().count, 2);
    assert_eq!(catalog.entry_count(), 2);
}

#[test]
fn duplicate_bundle_changes_nothing() {
    let mut catalog = empty_catalog();
    catalog.add_bundle("a", "ka", extra()).unwrap();
    assert!(matches!(
        catalog.add_bundle("a", "other", extra()),
        Err(CatalogError::DuplicateInternalId)
    ));
    assert!(matches!(
        catalog.add_prefab("a", "other", &[]),
        Err(CatalogError::DuplicateInternalId)
    ));
    assert_eq!(catalog.get_internal_ids().len(), 1);
    assert_eq!(catalog.key_data().entries.len(), 1);
    assert_eq!(catalog.bucket_data().entries.len(), 1);
    assert_eq!(catalog.entry_data().entries.len(), 1);
    assert_eq!(catalog.extra_data().entries.len(), 1);
}

#[test]
fn prefab_depends_on_its_bundle() {
    let mut catalog = empty_catalog();
    catalog.add_bundle("a/other.bundle", "other.bundle", extra()).unwrap();
    catalog.add_bundle("a/model.bundle", "model.bundle", extra()).unwrap();
    catalog
        .add_prefab("Assets/model.prefab", "model", &[String::from("a/model.bundle")])
        .unwrap();
    let id = catalog.get_internal_id_index("Assets/model.prefab").unwrap();
    let entry = *catalog.get_entry_by_internal_id(id).unwrap();
    let dependencies = catalog.get_dependencies(&entry).unwrap();
    assert_eq!(dependencies, &[EntryId(1)]);
    let bundle = catalog.get_entry(dependencies[0]).unwrap();
    assert_eq!(
        catalog.get_internal_id_from_index(bundle.internal_id.0 as usize),
        Some(&String::from("a/model.bundle"))
    );
    assert_eq!(entry.internal_id, InternalId(2));
    assert_eq!(entry.provider_index, 2);
    assert_eq!(entry.resource_type, 4);
    assert_eq!(entry.data_index, ExtraId(-1));
    assert_eq!(entry.primary_key, KeyId(2));
    assert_eq!(entry.dependency_key_idx, KeyId(3));
    assert_eq!(key_text(&catalog, entry.primary_key), Some(String::from("model")));
    assert!(matches!(
        catalog.get_key(entry.dependency_key_idx),
        Some(KeyDataValue::Hash(hash)) if *hash == entry.dependency_hash
    ));
    assert_eq!(catalog.get_bucket(KeyId(2)).unwrap().indices, vec![EntryId(2)]);
    assert_eq!(catalog.get_bucket(KeyId(3)).unwrap().key_data_offset, 4 + 17 + 17 + 10);
}

#[test]
fn prefab_with_given_hash() {
    let mut catalog = empty_catalog();
    catalog.add_bundle("b", "kb", extra()).unwrap();
    catalog
        .add_prefab_with_hash("p", "kp", &[String::from("b"), String::from("b")], -559038737)
        .unwrap();
    let entry = *catalog.get_entry(EntryId(1)).unwrap();
    assert_eq!(entry.dependency_hash, -559038737);
    assert!(catalog.has_hash_key(-559038737));
    assert_eq!(catalog.get_dependencies(&entry).unwrap(), &[EntryId(0), EntryId(0)]);
    assert_eq!(catalog.get_bucket(entry.dependency_key_idx).unwrap().count, 2);
}

#[test]
fn unresolved_dependencies_are_dropped() {
    let mut catalog = empty_catalog();
    catalog.add_bundle("b", "kb", extra()).unwrap();
    catalog.add_internalid("no entry").unwrap();
    let names = [
        String::from("missing"),
        String::from("b"),
        String::from("no entry"),
        String::from("p"),
    ];
    assert_eq!(catalog.resolve_dependencies(&names), vec![EntryId(0)]);
    catalog.add_prefab("p", "kp", &names).unwrap();
    let entry = *catalog.get_entry_by_internal_id(InternalId(2)).unwrap();
    assert_eq!(catalog.get_dependencies(&entry).unwrap(), &[EntryId(0)]);
    catalog.add_prefab("q", "kq", &[]).unwrap();
    let entry = *catalog.get_entry_by_internal_id(InternalId(3)).unwrap();
    assert_eq!(catalog.get_dependencies(&entry).unwrap(), &[] as &[EntryId]);
}

#[test]
fn transitive_dependencies_of_a_chain() {
    let mut catalog = empty_catalog();
    catalog.add_bundle("shared.bundle", "shared", extra()).unwrap();
    catalog.add_prefab("model.bundle", "model", &[String::from("shared.bundle")]).unwrap();
    catalog.add_prefab("model.prefab", "prefab", &[String::from("model.bundle")]).unwrap();
    assert_eq!(
        recursive_deps(&catalog, &[EntryId(2)]),
        Some(vec![EntryId(2), EntryId(1), EntryId(0)])
    );
    let entry = *catalog.get_entry(EntryId(2)).unwrap();
    let direct = catalog.get_dependencies(&entry).unwrap();
    assert_eq!(recursive_deps(&catalog, direct), Some(vec![EntryId(1), EntryId(0)]));
    assert_eq!(recursive_deps(&catalog, &[EntryId(0)]), Some(vec![EntryId(0)]));
    assert_eq!(recursive_deps(&catalog, &[]), Some(vec![]));
    assert_eq!(recursive_deps(&catalog, &[EntryId(9)]), Some(vec![EntryId(9)]));
}

#[test]
fn transitive_dependencies_keep_order_and_duplicates() {
    let mut catalog = empty_catalog();
    catalog.add_bundle("a", "ka", extra()).unwrap();
    catalog.add_bundle("b", "kb", extra()).unwrap();
    catalog.add_prefab("c", "kc", &[String::from("b"), String::from("a")]).unwrap();
    catalog.add_prefab("d", "kd", &[String::from("c"), String::from("a")]).unwrap();
    assert_eq!(
        recursive_deps(&catalog, &[EntryId(3), EntryId(2)]),
        Some(vec![
            EntryId(3),
            EntryId(2),
            EntryId(2),
            EntryId(0),
            EntryId(1),
            EntryId(0),
            EntryId(1),
            EntryId(0)
        ])
    );
}

#[test]
fn circular_dependencies_are_reported() {
    let entry = |key: i32| EntryValue {
        internal_id: InternalId(0),
        provider_index: 0,
        dependency_key_idx: KeyId(key),
        dependency_hash: 1,
        data_index: ExtraId(-1),
        primary_key: KeyId(0),
        resource_type: 0,
    };
    let catalog = catalog_of(
        vec![String::from("a")],
        KeyData { count: 2, entries: vec![KeyDataValue::Hash(1), KeyDataValue::Hash(2)] },
        BucketData {
            count: 2,
            entries: vec![
                BucketEntry { key_data_offset: 4, count: 1, indices: vec![EntryId(1)] },
                BucketEntry { key_data_offset: 9, count: 1, indices: vec![EntryId(0)] },
            ],
        },
        EntryData { count: 2, entries: vec![entry(0), entry(1)] },
        ExtraData::default(),
    )
    .unwrap();
    assert_eq!(recursive_deps(&catalog, &[EntryId(0)]), None);
    assert_eq!(recursive_deps(&catalog, &[EntryId(5)]), Some(vec![EntryId(5)]));
}

#[test]
fn test() {
    let mut catalog = empty_catalog();
    let bundle = "{UnityEngine.AddressableAssets.Addressables.RuntimePath}/Switch/fe_assets_customrp/shaders/chara/charastandard.shader.bundle";
    let prefab = "Assets/Share/CustomRP/Shaders/Chara/CharaStandard.shader";
    catalog
        .add_bundle(bundle, "fe_assets_customrp/shaders/chara/charastandard.shader.bundle", extra())
        .unwrap();
    catalog.add_prefab(prefab, "CustomRP/Shaders/Chara/CharaStandard", &[String::from(bundle)]).unwrap();

    let bundle_id = catalog.get_internal_id_index(bundle).unwrap();
    let bundle_entry = catalog.get_entry_by_internal_id(bundle_id).unwrap();
    let bundle_key = catalog.get_key(bundle_entry.primary_key).unwrap();
    let bundle_bucket = catalog.get_bucket(bundle_entry.primary_key).unwrap();
    let bundle_entry_id = catalog.get_entry_id_by_internal_id(bundle_id).unwrap();
    assert!(matches!(bundle_key, KeyDataValue::String { .. }));
    assert_eq!(bundle_bucket.indices, vec![EntryId(bundle_entry_id as u32)]);

    let prefab_id = catalog.get_internal_id_index(prefab).unwrap();
    let prefab_entry = catalog.get_entry_by_internal_id(prefab_id).unwrap();
    let prefab_key = catalog.get_key(prefab_entry.primary_key).unwrap();
    let prefab_bucket = catalog.get_bucket(prefab_entry.primary_key).unwrap();
    let prefab_entry_id = catalog.get_entry_id_by_internal_id(prefab_id).unwrap();
    assert!(matches!(prefab_key, KeyDataValue::String { .. }));
    assert_eq!(prefab_bucket.indices, vec![EntryId(prefab_entry_id as u32)]);

    let dependency_key = catalog.get_key(prefab_entry.dependency_key_idx).unwrap();
    let dependency_bucket = catalog.get_bucket(prefab_entry.dependency_key_idx).unwrap();
    assert!(matches!(dependency_key, KeyDataValue::Hash(_)));
    assert_eq!(dependency_bucket.indices, vec![EntryId(bundle_entry_id as u32)]);
}
