use addressables_rs::catalog::CatalogError;
use addressables_rs::lookup::{
    BucketData, EntryData, EntryId, ExtraData, ExtraValue, KeyData, KeyDataValue,
};
use addressables_rs::text::{
    bytes_to_text, deserialize_catalog_table, serialize_catalog_table, CatalogTable,
};
use addressables_rs::wire::{DecodeReason, TableError};

#[test]
fn empty_table_as_text() {
    assert_eq!(serialize_catalog_table(&KeyData::default()), Some(String::from("AAAAAA==")));
    assert_eq!(serialize_catalog_table(&BucketData::default()), Some(String::from("AAAAAA==")));
    assert_eq!(serialize_catalog_table(&EntryData::default()), Some(String::from("AAAAAA==")));
    assert_eq!(serialize_catalog_table(&ExtraData::default()), Some(String::new()));
}

#[test]
fn tables_say_whether_they_are_well_formed() {
    assert!(KeyData::default().is_well_formed());
    assert!(!KeyData { count: 1, entries: vec![] }.is_well_formed());
    assert!(ExtraData::default().is_well_formed());
    assert!(!EntryData { count: 2, entries: vec![] }.is_well_formed());
    assert!(!BucketData { count: 2, entries: vec![] }.is_well_formed());
}

#[test]
fn bytes_as_text() {
    assert_eq!(bytes_to_text(b"hello world~"), Some(String::from("aGVsbG8gd29ybGR+")));
    assert_eq!(bytes_to_text(&[0xfb, 0xff]), Some(String::from("+/8=")));
    assert_eq!(bytes_to_text(&[]), Some(String::new()));
}

#[test]
fn key_table_from_text() {
    let table: KeyData = deserialize_catalog_table("AQAAAAQqAAAA").unwrap();
    assert_eq!(table.count, 1);
    assert!(matches!(table.entries[0], KeyDataValue::Hash(42)));
}

#[test]
fn tables_come_back_from_their_text() {
    let keys = KeyData {
        count: 2,
        entries: vec![KeyDataValue::from_string("a/b.bundle"), KeyDataValue::Hash(-5)],
    };
    let text = serialize_catalog_table(&keys).unwrap();
    let back: KeyData = deserialize_catalog_table(&text).unwrap();
    assert_eq!(back.encode(), keys.encode());

    let extras = ExtraData { entries: vec![ExtraValue::new("A", "B", "{\"x\":1}").unwrap()] };
    let text = serialize_catalog_table(&extras).unwrap();
    let back: ExtraData = deserialize_catalog_table(&text).unwrap();
    assert_eq!(back.entries[0].json_text, "{\"x\":1}");

    let buckets: BucketData = deserialize_catalog_table("AQAAAAQAAAABAAAABwAAAA==").unwrap();
    assert_eq!(buckets.entries[0].key_data_offset, 4);
    assert_eq!(buckets.entries[0].indices, vec![EntryId(7)]);
}

#[test]
fn text_that_is_no_base64() {
    let table: Result<KeyData, CatalogError> = deserialize_catalog_table("not base64!");
    assert!(matches!(table, Err(CatalogError::Base64Decode(_))));
    let table: Result<EntryData, CatalogError> = deserialize_catalog_table("AAAAAA=");
    assert!(matches!(table, Err(CatalogError::Base64Decode(_))));
}

#[test]
fn text_whose_bytes_are_no_table() {
    let table: Result<KeyData, CatalogError> = deserialize_catalog_table("AQAAAAk=");
    assert!(matches!(
        table,
        Err(CatalogError::Decode(TableError { index: 0, reason: DecodeReason::InvalidTag }))
    ));
    let table: Result<BucketData, CatalogError> = deserialize_catalog_table("");
    assert!(matches!(
        table,
        Err(CatalogError::Decode(TableError { index: 0, reason: DecodeReason::Truncated }))
    ));
}
