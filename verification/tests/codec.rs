use addressables_rs::lookup::{
    BucketData, BucketEntry, EntryData, EntryId, EntryValue, ExtraData, ExtraId, ExtraValue,
    InternalId, KeyData, KeyDataValue, KeyId,
};
use addressables_rs::wire::{DecodeReason, TableError};

fn text_of(key: &KeyDataValue) -> Option<&str> {
    match key {
        KeyDataValue::String { string, .. } => Some(string.as_str()),
        KeyDataValue::Hash(_) => None,
    }
}

fn sample_entry() -> EntryValue {
    EntryValue {
        internal_id: InternalId(3),
        provider_index: 2,
        dependency_key_idx: KeyId(-1),
        dependency_hash: 0x12345678,
        data_index: ExtraId(-1),
        primary_key: KeyId(258),
        resource_type: 4,
    }
}

#[test]
fn empty_key_table_is_its_count() {
    let table = KeyData::default();
    assert_eq!(table.encode(), vec![0, 0, 0, 0]);
    let back = KeyData::decode(&[0, 0, 0, 0]).unwrap();
    assert_eq!(back.count, 0);
    assert!(back.entries.is_empty());
}

#[test]
fn key_table_bytes_are_exact() {
    let table = KeyData {
        count: 2,
        entries: vec![KeyDataValue::from_string("ab"), KeyDataValue::Hash(-2)],
    };
    assert_eq!(
        table.encode(),
        vec![2, 0, 0, 0, 0, 2, 0, 0, 0, 0x61, 0x62, 4, 0xfe, 0xff, 0xff, 0xff]
    );
}

#[test]
fn key_table_round_trip_with_both_variants() {
    let table = KeyData {
        count: 3,
        entries: vec![
            KeyDataValue::from_string("Assets/a.prefab"),
            KeyDataValue::Hash(i32::MIN),
            KeyDataValue::from_string(""),
        ],
    };
    let back = KeyData::decode(&table.encode()).unwrap();
    assert_eq!(back.count, 3);
    assert_eq!(back.entries.len(), 3);
    assert_eq!(text_of(&back.entries[0]), Some("Assets/a.prefab"));
    assert!(matches!(back.entries[0], KeyDataValue::String { length: 15, .. }));
    assert!(matches!(back.entries[1], KeyDataValue::Hash(i32::MIN)));
    assert_eq!(text_of(&back.entries[2]), Some(""));
}

#[test]
fn key_table_single_record_round_trip() {
    let table = KeyData { count: 1, entries: vec![KeyDataValue::Hash(123456789)] };
    let bytes = table.encode();
    assert_eq!(bytes.len(), 9);
    let back = KeyData::decode(&bytes).unwrap();
    assert!(matches!(back.entries[0], KeyDataValue::Hash(123456789)));
}

#[test]
fn key_text_is_utf8() {
    let table = KeyData { count: 1, entries: vec![KeyDataValue::from_string("h\u{e9}")] };
    let bytes = table.encode();
    assert_eq!(bytes, vec![1, 0, 0, 0, 0, 3, 0, 0, 0, 0x68, 0xc3, 0xa9]);
    let back = KeyData::decode(&bytes).unwrap();
    assert_eq!(text_of(&back.entries[0]), Some("h\u{e9}"));
}

#[test]
fn key_table_ignores_what_follows() {
    let back = KeyData::decode(&[1, 0, 0, 0, 4, 1, 0, 0, 0, 9, 9, 9]).unwrap();
    assert_eq!(back.entries.len(), 1);
    assert!(matches!(back.entries[0], KeyDataValue::Hash(1)));
}

#[test]
fn key_table_errors_name_record_and_reason() {
    assert_eq!(
        KeyData::decode(&[1, 0]).err(),
        Some(TableError { index: 0, reason: DecodeReason::Truncated })
    );
    assert_eq!(
        KeyData::decode(&[2, 0, 0, 0, 4, 1, 0, 0, 0, 3]).err(),
        Some(TableError { index: 1, reason: DecodeReason::InvalidTag })
    );
    assert_eq!(
        KeyData::decode(&[2, 0, 0, 0, 4, 1, 0, 0, 0]).err(),
        Some(TableError { index: 1, reason: DecodeReason::Truncated })
    );
    assert_eq!(
        KeyData::decode(&[1, 0, 0, 0, 0, 5, 0, 0, 0, 0x61]).err(),
        Some(TableError { index: 0, reason: DecodeReason::Truncated })
    );
    assert_eq!(
        KeyData::decode(&[1, 0, 0, 0, 0, 2, 0, 0, 0, 0xff, 0xfe]).err(),
        Some(TableError { index: 0, reason: DecodeReason::InvalidUtf8 })
    );
    assert_eq!(
        KeyData::decode(&[1, 0, 0, 0, 4, 1, 0]).err(),
        Some(TableError { index: 0, reason: DecodeReason::Truncated })
    );
}

#[test]
fn bucket_table_bytes_are_exact() {
    let table = BucketData {
        count: 2,
        entries: vec![
            BucketEntry { key_data_offset: 4, count: 1, indices: vec![EntryId(7)] },
            BucketEntry { key_data_offset: 0x01020304, count: 0, indices: vec![] },
        ],
    };
    assert_eq!(
        table.encode(),
        vec![2, 0, 0, 0, 4, 0, 0, 0, 1, 0, 0, 0, 7, 0, 0, 0, 4, 3, 2, 1, 0, 0, 0, 0]
    );
}

#[test]
fn bucket_table_round_trip() {
    let empty = BucketData::default();
    assert_eq!(empty.encode(), vec![0, 0, 0, 0]);
    assert!(BucketData::decode(&empty.encode()).unwrap().entries.is_empty());

    let table = BucketData {
        count: 2,
        entries: vec![
            BucketEntry {
                key_data_offset: 11,
                count: 3,
                indices: vec![EntryId(0), EntryId(u32::MAX), EntryId(65536)],
            },
            BucketEntry { key_data_offset: 18, count: 0, indices: vec![] },
        ],
    };
    let back = BucketData::decode(&table.encode()).unwrap();
    assert_eq!(back.count, 2);
    assert_eq!(back.entries[0].key_data_offset, 11);
    assert_eq!(back.entries[0].count, 3);
    assert_eq!(back.entries[0].indices, vec![EntryId(0), EntryId(u32::MAX), EntryId(65536)]);
    assert_eq!(back.entries[1].key_data_offset, 18);
    assert!(back.entries[1].indices.is_empty());
}

#[test]
fn bucket_table_errors() {
    assert_eq!(
        BucketData::decode(&[]).err(),
        Some(TableError { index: 0, reason: DecodeReason::Truncated })
    );
    assert_eq!(
        BucketData::decode(&[1, 0, 0, 0, 4, 0, 0, 0, 2, 0, 0, 0, 1, 0, 0, 0]).err(),
        Some(TableError { index: 0, reason: DecodeReason::Truncated })
    );
    assert_eq!(
        BucketData::decode(&[2, 0, 0, 0, 4, 0, 0, 0, 0, 0, 0, 0, 1]).err(),
        Some(TableError { index: 1, reason: DecodeReason::Truncated })
    );
}

#[test]
fn entry_table_bytes_are_exact() {
    let table = EntryData { count: 1, entries: vec![sample_entry()] };
    assert_eq!(
        table.encode(),
        vec![
            1, 0, 0, 0, 3, 0, 0, 0, 2, 0, 0, 0, 0xff, 0xff, 0xff, 0xff, 0x78, 0x56, 0x34, 0x12,
            0xff, 0xff, 0xff, 0xff, 2, 1, 0, 0, 4, 0, 0, 0
        ]
    );
}

#[test]
fn entry_table_round_trip() {
    let empty = EntryData::default();
    assert_eq!(empty.encode(), vec![0, 0, 0, 0]);
    assert!(EntryData::decode(&empty.encode()).unwrap().entries.is_empty());

    let other = EntryValue {
        internal_id: InternalId(u32::MAX),
        provider_index: 0,
        dependency_key_idx: KeyId(i32::MAX),
        dependency_hash: i32::MIN,
        data_index: ExtraId(9),
        primary_key: KeyId(0),
        resource_type: -7,
    };
    let table = EntryData { count: 2, entries: vec![sample_entry(), other] };
    let bytes = table.encode();
    assert_eq!(bytes.len(), 4 + 2 * 28);
    let back = EntryData::decode(&bytes).unwrap();
    assert_eq!(back.count, 2);
    assert_eq!(back.entries, vec![sample_entry(), other]);
}

#[test]
fn entry_table_errors() {
    let mut bytes = EntryData { count: 2, entries: vec![sample_entry(), sample_entry()] }.encode();
    bytes.pop();
    assert_eq!(
        EntryData::decode(&bytes).err(),
        Some(TableError { index: 1, reason: DecodeReason::Truncated })
    );
}

#[test]
fn extra_record_of_nine_bytes() {
    let extra = ExtraValue::new("A", "B", "").unwrap();
    assert_eq!(extra.get_size(), 9);
    let stream = ExtraData { entries: vec![extra] };
    let bytes = stream.encode();
    assert_eq!(bytes, vec![7, 1, 0x41, 1, 0x42, 0, 0, 0, 0]);
    let back = ExtraData::decode(&bytes).unwrap();
    assert_eq!(back.entries.len(), 1);
    assert_eq!(back.entries[0].key_type, 7);
    assert_eq!(back.entries[0].assembly_name, "A");
    assert_eq!(back.entries[0].class_name, "B");
    assert_eq!(back.entries[0].json_text, "");
    assert_eq!(back.entries[0].assembly_name_len, 1);
    assert_eq!(back.entries[0].class_name_len, 1);
    assert_eq!(back.entries[0].json_len, 0);
}

#[test]
fn extra_stream_round_trip() {
    let empty = ExtraData::default();
    assert!(empty.encode().is_empty());
    assert!(ExtraData::decode(&[]).unwrap().entries.is_empty());

    let stream = ExtraData {
        entries: vec![
            ExtraValue::new("Unity.ResourceManager", "AssetBundleRequestOptions", "{\"m_Hash\":\"x\"}")
                .unwrap(),
            ExtraValue::new("", "", "").unwrap(),
            ExtraValue::new("a", "b", "{}").unwrap(),
        ],
    };
    let bytes = stream.encode();
    assert_eq!(bytes.len(), (7 + 21 + 25 + 14) + 7 + (7 + 1 + 1 + 2));
    let back = ExtraData::decode(&bytes).unwrap();
    assert_eq!(back.entries.len(), 3);
    assert_eq!(back.entries[0].assembly_name, "Unity.ResourceManager");
    assert_eq!(back.entries[0].class_name, "AssetBundleRequestOptions");
    assert_eq!(back.entries[0].json_text, "{\"m_Hash\":\"x\"}");
    assert_eq!(back.entries[1].json_text, "");
    assert_eq!(back.entries[2].json_text, "{}");
}

#[test]
fn extra_tag_is_kept_on_reading_and_seven_on_writing() {
    let back = ExtraData::decode(&[3, 0, 0, 0, 0, 0, 0]).unwrap();
    assert_eq!(back.entries.len(), 1);
    assert_eq!(back.entries[0].key_type, 3);
    assert_eq!(back.encode(), vec![7, 0, 0, 0, 0, 0, 0]);
    assert_eq!(ExtraValue::default().key_type, 0);
}

#[test]
fn extra_stream_errors() {
    assert_eq!(
        ExtraData::decode(&[7]).err(),
        Some(TableError { index: 0, reason: DecodeReason::Truncated })
    );
    assert_eq!(
        ExtraData::decode(&[7, 2, 0x41]).err(),
        Some(TableError { index: 0, reason: DecodeReason::Truncated })
    );
    assert_eq!(
        ExtraData::decode(&[7, 0, 0, 0, 0, 0, 0, 7, 0, 0, 1, 0, 0]).err(),
        Some(TableError { index: 1, reason: DecodeReason::Truncated })
    );
    assert_eq!(
        ExtraData::decode(&[7, 1, 0xff, 0, 0, 0, 0, 0]).err(),
        Some(TableError { index: 0, reason: DecodeReason::InvalidUtf8 })
    );
    assert_eq!(
        ExtraData::decode(&[7, 0, 1, 0x80, 0, 0, 0, 0]).err(),
        Some(TableError { index: 0, reason: DecodeReason::InvalidUtf8 })
    );
    assert_eq!(
        ExtraData::decode(&[7, 0, 0, 0xff, 0xff, 0xff, 0xff]).err(),
        Some(TableError { index: 0, reason: DecodeReason::InvalidLength })
    );
    assert_eq!(
        ExtraData::decode(&[7, 0, 0, 2, 0, 0, 0, 0x7b]).err(),
        Some(TableError { index: 0, reason: DecodeReason::Truncated })
    );
}

#[test]
fn extra_value_new_refuses_long_names() {
    let long = "x".repeat(256);
    assert!(ExtraValue::new(&long, "B", "").is_none());
    assert!(ExtraValue::new("A", &long, "").is_none());
    assert!(ExtraValue::new(&long[..255], &long[..255], &long).is_some());
}

#[test]
fn size_arithmetic() {
    assert_eq!(KeyDataValue::from_string("").get_size(), 5);
    assert_eq!(KeyDataValue::from_string("abc").get_size(), 8);
    assert_eq!(KeyDataValue::from_string("h\u{e9}").get_size(), 8);
    assert_eq!(KeyDataValue::Hash(0).get_size(), 5);
    assert_eq!(KeyDataValue::Hash(-1).get_size(), 5);
    assert_eq!(ExtraValue::default().get_size(), 7);
    assert_eq!(ExtraValue::new("ab", "cde", "{}").unwrap().get_size(), 7 + 2 + 3 + 2);
}

#[test]
fn well_formedness_is_checked() {
    assert!(KeyDataValue::from_string("abc").is_wf());
    assert!(!KeyDataValue::String { length: 2, string: String::from("abc") }.is_wf());
    assert!(KeyData { count: 0, entries: vec![] }.is_wf());
    assert!(!KeyData { count: 1, entries: vec![] }.is_wf());
    assert!(!BucketEntry { key_data_offset: 0, count: 2, indices: vec![EntryId(1)] }.is_wf());
    assert!(BucketEntry { key_data_offset: 0, count: 1, indices: vec![EntryId(1)] }.is_wf());
    assert!(!EntryData { count: 3, entries: vec![] }.is_wf());
    assert!(ExtraValue::default().is_wf());
    let mut extra = ExtraValue::default();
    extra.json_len = -1;
    assert!(!extra.is_wf());
}
