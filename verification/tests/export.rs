use addressables_rs::catalog::{Catalog, ObjectType, ProviderData};
use addressables_rs::export::DumpError;
use addressables_rs::lookup::{
    BucketData, BucketEntry, EntryData, EntryId, EntryValue, ExtraData, ExtraId, ExtraValue,
    InternalId, KeyData, KeyDataValue, KeyId,
};

fn no_provider() -> ProviderData {
    ProviderData {
        m_Id: String::new(),
        m_ObjectType: ObjectType { m_AssemblyName: String::new(), m_ClassName: String::new() },
        m_Data: String::new(),
    }
}

fn catalog_from(
    ids: Vec<String>,
    keys: KeyData,
    buckets: BucketData,
    entries: EntryData,
) -> Catalog {
    Catalog::new(
        String::new(),
        no_provider(),
        no_provider(),
        vec![],
        vec![],
        ids,
        keys,
        buckets,
        entries,
        ExtraData::default(),
        vec![],
        vec![],
    )
    .unwrap()
}

fn sample() -> Catalog {
    let mut catalog = catalog_from(
        vec![],
        KeyData::default(),
        BucketData::default(),
        EntryData::default(),
    );
    let extra = || ExtraValue::new("A", "B", "{}").unwrap();
    catalog.add_bundle("rt/shared.bundle", "shared.bundle", extra()).unwrap();
    catalog.add_bundle("rt/model.bundle", "model.bundle", extra()).unwrap();
    catalog
        .add_prefab(
            "Assets/model.prefab",
            "Model",
            &[String::from("rt/model.bundle"), String::from("rt/shared.bundle")],
        )
        .unwrap();
    catalog.add_prefab("Assets/empty.prefab", "Empty", &[]).unwrap();
    catalog
}

#[test]
fn entries_are_written_out_as_additions() {
    let catalog = sample();
    let bundle = catalog.dump_entry(InternalId(1)).unwrap();
    assert_eq!(bundle.bundles.len(), 1);
    assert!(bundle.prefabs.is_empty());
    assert_eq!(bundle.bundles[0].internal_id, "rt/model.bundle");
    assert_eq!(bundle.bundles[0].internal_path, "model.bundle");

    let prefab = catalog.dump_entry(InternalId(2)).unwrap();
    assert_eq!(prefab.bundles.len(), 1);
    assert_eq!(prefab.bundles[0].internal_id, "rt/model.bundle");
    assert_eq!(prefab.bundles[0].internal_path, "model.bundle");
    assert_eq!(prefab.prefabs.len(), 1);
    assert_eq!(prefab.prefabs[0].internal_id, "Assets/model.prefab");
    assert_eq!(prefab.prefabs[0].internal_path, "Model");
    assert_eq!(
        prefab.prefabs[0].dependencies,
        vec![String::from("rt/model.bundle"), String::from("rt/shared.bundle")]
    );

    let alone = catalog.dump_entry(InternalId(3)).unwrap();
    assert!(alone.bundles.is_empty());
    assert_eq!(alone.prefabs.len(), 1);
    assert_eq!(alone.prefabs[0].internal_id, "Assets/empty.prefab");
    assert!(alone.prefabs[0].dependencies.is_empty());
}

#[test]
fn paths_of_entries_skip_what_has_none() {
    let catalog = sample();
    assert_eq!(
        catalog.paths_of(&[EntryId(2), EntryId(7), EntryId(0), EntryId(0)]),
        vec![
            String::from("Assets/model.prefab"),
            String::from("rt/shared.bundle"),
            String::from("rt/shared.bundle")
        ]
    );
    assert!(catalog.paths_of(&[]).is_empty());
    assert_eq!(catalog.name_of(EntryId(1)), Ok(String::from("rt/model.bundle")));
    assert_eq!(catalog.name_of(EntryId(4)), Err(DumpError::NoDependencyEntry));
    assert_eq!(
        catalog.names_of(&[EntryId(0), EntryId(5), EntryId(1)]),
        Err(DumpError::NoDependencyEntry)
    );
}

#[test]
fn dump_errors() {
    let entry = |primary: i32, dependency: i32, hash: i32| EntryValue {
        internal_id: InternalId(0),
        provider_index: 0,
        dependency_key_idx: KeyId(dependency),
        dependency_hash: hash,
        data_index: ExtraId(-1),
        primary_key: KeyId(primary),
        resource_type: 0,
    };
    let tables = |first: EntryValue, indices: Vec<EntryId>| {
        catalog_from(
            vec![String::from("a")],
            KeyData {
                count: 2,
                entries: vec![KeyDataValue::from_string("k"), KeyDataValue::Hash(5)],
            },
            BucketData {
                count: 2,
                entries: vec![
                    BucketEntry { key_data_offset: 4, count: 0, indices: vec![] },
                    BucketEntry {
                        key_data_offset: 10,
                        count: indices.len() as u32,
                        indices,
                    },
                ],
            },
            EntryData { count: 2, entries: vec![first, entry(1, -1, 0)] },
        )
    };
    assert_eq!(tables(entry(0, -1, 0), vec![]).dump_entry(InternalId(1)).err(), Some(DumpError::NoEntry));
    assert_eq!(tables(entry(7, -1, 0), vec![]).dump_entry(InternalId(0)).err(), Some(DumpError::NoKey));
    assert_eq!(tables(entry(1, -1, 0), vec![]).dump_entry(InternalId(0)).err(), Some(DumpError::HashKey));
    assert_eq!(
        tables(entry(0, -1, 5), vec![]).dump_entry(InternalId(0)).err(),
        Some(DumpError::NoDependencies)
    );
    assert_eq!(
        tables(entry(0, 1, 5), vec![EntryId(9)]).dump_entry(InternalId(0)).err(),
        Some(DumpError::NoDependencyEntry)
    );
    assert_eq!(
        tables(entry(0, 1, 5), vec![EntryId(1)]).dump_entry(InternalId(0)).err(),
        Some(DumpError::HashKey)
    );
    assert!(tables(entry(0, 1, 5), vec![EntryId(0)]).dump_entry(InternalId(0)).is_ok());
    assert!(tables(entry(0, -1, 0), vec![]).dump_entry(InternalId(0)).is_ok());
}

#[test]
fn path_of_an_entry() {
    let catalog = sample();
    let entry = *catalog.get_entry(EntryId(0)).unwrap();
    assert_eq!(catalog.path_of(&entry), Ok(String::from("shared.bundle")));
    let mut hashed = entry;
    hashed.primary_key = KeyId(3);
    assert_eq!(catalog.path_of(&hashed), Err(DumpError::HashKey));
    hashed.primary_key = KeyId(-1);
    assert_eq!(catalog.path_of(&hashed), Err(DumpError::NoKey));
}
