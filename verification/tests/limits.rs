use addressables_rs::catalog::{Catalog, ObjectType, ProviderData};
use addressables_rs::lookup::{
    BucketData, BucketEntry, EntryData, EntryId, ExtraData, ExtraId, ExtraValue, InternalId,
    KeyData, KeyDataValue, KeyId,
};

fn no_provider() -> ProviderData {
    ProviderData {
        m_Id: String::new(),
        m_ObjectType: ObjectType { m_AssemblyName: String::new(), m_ClassName: String::new() },
        m_Data: String::new(),
    }
}

fn with_last_offset(offset: u32, key: KeyDataValue) -> Catalog {
    Catalog::new(
        String::new(),
        no_provider(),
        no_provider(),
        vec![],
        vec![],
        vec![],
        KeyData { count: 1, entries: vec![key] },
        BucketData {
            count: 1,
            entries: vec![BucketEntry { key_data_offset: offset, count: 0, indices: vec![] }],
        },
        EntryData::default(),
        ExtraData::default(),
        vec![],
        vec![],
    )
    .unwrap()
}

#[test]
fn room_for_keys_ends_with_the_offsets() {
    assert!(with_last_offset(4, KeyDataValue::Hash(1)).has_room_for_key());
    assert!(with_last_offset(u32::MAX - 5, KeyDataValue::Hash(1)).has_room_for_key());
    assert!(!with_last_offset(u32::MAX - 4, KeyDataValue::Hash(1)).has_room_for_key());
    assert!(with_last_offset(u32::MAX - 8, KeyDataValue::from_string("abc")).has_room_for_key());
    assert!(!with_last_offset(u32::MAX - 7, KeyDataValue::from_string("abc")).has_room_for_key());
    assert_eq!(
        with_last_offset(u32::MAX - 5, KeyDataValue::Hash(1)).get_next_key_offset(),
        u32::MAX
    );
}

#[test]
fn room_for_bundles_and_prefabs() {
    let roomy = with_last_offset(4, KeyDataValue::Hash(1));
    assert!(roomy.has_room_for_extra());
    assert!(roomy.has_room_for_bundle("key"));
    assert!(roomy.has_room_for_prefab("key", 3));
    let tight = with_last_offset(u32::MAX - 5 - 8, KeyDataValue::Hash(1));
    assert!(tight.has_room_for_bundle("abc"));
    assert!(tight.has_room_for_prefab("abc", 0));
    assert!(!tight.has_room_for_prefab("abcd", 0));
    let full = with_last_offset(u32::MAX, KeyDataValue::Hash(1));
    assert!(!full.has_room_for_bundle(""));
    assert!(!full.has_room_for_prefab("", 0));
}

#[test]
fn additions_at_the_limit() {
    let mut catalog = with_last_offset(u32::MAX - 5 - 8, KeyDataValue::Hash(1));
    assert!(catalog.has_room_for_prefab("abc", 0));
    catalog.add_prefab_with_hash("p", "abc", &[], 77).unwrap();
    assert_eq!(catalog.get_bucket(KeyId(1)).unwrap().key_data_offset, u32::MAX - 8);
    assert_eq!(catalog.get_bucket(KeyId(2)).unwrap().key_data_offset, u32::MAX);
    assert!(!catalog.has_room_for_key());
    assert!(catalog.has_room_for_extra());
    assert_eq!(catalog.add_extra_data(ExtraValue::default()), ExtraId(0));
}

#[test]
fn identifiers_convert_to_positions() {
    assert_eq!(usize::from(InternalId(7)), 7);
    assert_eq!(InternalId::from(7u32), InternalId(7));
    assert_eq!(InternalId::from(7usize), InternalId(7));
    assert_eq!(usize::from(EntryId(u32::MAX)), u32::MAX as usize);
    assert_eq!(EntryId::from(9u32), EntryId(9));
    assert_eq!(EntryId::from(9usize), EntryId(9));
    assert_eq!(isize::from(KeyId(-1)), -1);
    assert_eq!(KeyId::from(-1i32), KeyId(-1));
    assert_eq!(KeyId::from(5isize), KeyId(5));
    assert_eq!(isize::from(ExtraId(12)), 12);
    assert_eq!(ExtraId::from(12i32), ExtraId(12));
    assert_eq!(ExtraId::from(-1isize), ExtraId(-1));
    assert!(InternalId(1) < InternalId(2));
    assert!(KeyId(-1) < KeyId(0));
}

#[test]
fn keys_as_text() {
    assert_eq!(KeyDataValue::from_string("a/b").to_text(), "a/b");
    assert_eq!(KeyDataValue::Hash(0).to_text(), "0");
    assert_eq!(KeyDataValue::Hash(-1203).to_text(), "-1203");
    assert_eq!(KeyDataValue::Hash(i32::MAX).to_text(), "2147483647");
    assert_eq!(KeyDataValue::Hash(i32::MIN).to_text(), "-2147483648");
}

#[test]
fn buckets_can_be_changed_in_place() {
    let mut catalog = with_last_offset(4, KeyDataValue::Hash(1));
    assert!(catalog.get_bucket_mut(KeyId(1)).is_none());
    assert!(catalog.get_bucket_mut(KeyId(-1)).is_none());
    let bucket = catalog.get_bucket_mut(KeyId(0)).unwrap();
    bucket.indices.push(EntryId(3));
    bucket.count = 1;
    assert_eq!(catalog.get_bucket(KeyId(0)).unwrap().indices, vec![EntryId(3)]);
    assert_eq!(catalog.get_bucket(KeyId(0)).unwrap().key_data_offset, 4);
    assert_eq!(catalog.bucket_data().encode(), vec![1, 0, 0, 0, 4, 0, 0, 0, 1, 0, 0, 0, 3, 0, 0, 0]);
}
