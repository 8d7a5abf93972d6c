//! The tables as they stand in the catalog document: the bytes of a table,
//! written as base64.

use crate::bucket_table::{decode_buckets, encode_buckets};
use crate::catalog::CatalogError;
use crate::entry_table::{decode_entries, encode_entries};
use crate::extra_stream::{decode_extras, encode_extras};
use crate::key_table::{decode_keys, encode_keys};
use crate::lookup::{
    BucketData, BucketView, EntryData, EntryValue, ExtraData, ExtraView, KeyData, KeyView,
};
use crate::outside::{base64_bytes, base64_decode, base64_encodable, base64_encode, base64_text};
use crate::wire::TableError;
use vstd::prelude::*;

verus! {

/// One of the four tables, with its binary layout.
pub trait CatalogTable: Sized {
    /// What the table holds.
    type Model;

    /// What the table holds.
    spec fn model(&self) -> Self::Model;

    /// Whether the table is well formed.
    spec fn well_formed(&self) -> bool;

    /// The bytes of a table.
    spec fn bytes_of(model: Self::Model) -> Seq<u8>;

    /// The table that bytes hold.
    spec fn table_of(bytes: Seq<u8>) -> Result<Self::Model, TableError>;

    /// Whether the table is well formed.
    fn is_well_formed(&self) -> (ok: bool)
        ensures
            ok == self.well_formed(),
    ;

    /// The bytes of the table.
    fn to_bytes(&self) -> (bytes: Vec<u8>)
        requires
            self.well_formed(),
        ensures
            bytes@ == Self::bytes_of(self.model()),
    ;

    /// The table that `bytes` hold.
    fn from_bytes(bytes: &[u8]) -> (table: Result<Self, TableError>)
        ensures
            match table {
                Ok(t) => t.well_formed() && Self::table_of(bytes@) == Ok::<
                    Self::Model,
                    TableError,
                >(t.model()),
                Err(e) => Self::table_of(bytes@) == Err::<Self::Model, TableError>(e),
            },
    ;
}

impl CatalogTable for KeyData {
    type Model = Seq<KeyView>;

    open spec fn model(&self) -> Seq<KeyView> {
        self@
    }

    open spec fn well_formed(&self) -> bool {
        self.wf()
    }

    open spec fn bytes_of(model: Seq<KeyView>) -> Seq<u8> {
        encode_keys(model)
    }

    open spec fn table_of(bytes: Seq<u8>) -> Result<Seq<KeyView>, TableError> {
        decode_keys(bytes)
    }

    fn is_well_formed(&self) -> (ok: bool) {
        self.is_wf()
    }

    fn to_bytes(&self) -> (bytes: Vec<u8>) {
        self.encode()
    }

    fn from_bytes(bytes: &[u8]) -> (table: Result<Self, TableError>) {
        KeyData::decode(bytes)
    }
}

impl CatalogTable for BucketData {
    type Model = Seq<BucketView>;

    open spec fn model(&self) -> Seq<BucketView> {
        self@
    }

    open spec fn well_formed(&self) -> bool {
        self.wf()
    }

    open spec fn bytes_of(model: Seq<BucketView>) -> Seq<u8> {
        encode_buckets(model)
    }

    open spec fn table_of(bytes: Seq<u8>) -> Result<Seq<BucketView>, TableError> {
        decode_buckets(bytes)
    }

    fn is_well_formed(&self) -> (ok: bool) {
        self.is_wf()
    }

    fn to_bytes(&self) -> (bytes: Vec<u8>) {
        self.encode()
    }

    fn from_bytes(bytes: &[u8]) -> (table: Result<Self, TableError>) {
        BucketData::decode(bytes)
    }
}

impl CatalogTable for EntryData {
    type Model = Seq<EntryValue>;

    open spec fn model(&self) -> Seq<EntryValue> {
        self@
    }

    open spec fn well_formed(&self) -> bool {
        self.wf()
    }

    open spec fn bytes_of(model: Seq<EntryValue>) -> Seq<u8> {
        encode_entries(model)
    }

    open spec fn table_of(bytes: Seq<u8>) -> Result<Seq<EntryValue>, TableError> {
        decode_entries(bytes)
    }

    fn is_well_formed(&self) -> (ok: bool) {
        self.is_wf()
    }

    fn to_bytes(&self) -> (bytes: Vec<u8>) {
        self.encode()
    }

    fn from_bytes(bytes: &[u8]) -> (table: Result<Self, TableError>) {
        EntryData::decode(bytes)
    }
}

impl CatalogTable for ExtraData {
    type Model = Seq<ExtraView>;

    open spec fn model(&self) -> Seq<ExtraView> {
        self@
    }

    open spec fn well_formed(&self) -> bool {
        self.wf()
    }

    open spec fn bytes_of(model: Seq<ExtraView>) -> Seq<u8> {
        encode_extras(model)
    }

    open spec fn table_of(bytes: Seq<u8>) -> Result<Seq<ExtraView>, TableError> {
        decode_extras(bytes)
    }

    fn is_well_formed(&self) -> (ok: bool) {
        self.is_wf()
    }

    fn to_bytes(&self) -> (bytes: Vec<u8>) {
        self.encode()
    }

    fn from_bytes(bytes: &[u8]) -> (table: Result<Self, TableError>) {
        ExtraData::decode(bytes)
    }
}

/// The base64 text of some bytes. `None` where the bytes are too many for
/// the text to be allocated.
pub fn bytes_to_text(bytes: &[u8]) -> (text: Option<String>)
    ensures
        match text {
            Some(s) => base64_encodable(bytes@.len()) && s@ == base64_text(bytes@),
            None => !base64_encodable(bytes@.len()),
        },
{
    if bytes.len() / 3 <= (isize::MAX as usize - 4) / 4 {
        Some(base64_encode(bytes))
    } else {
        None
    }
}

/// The text of a table as it stands in the catalog document: its bytes in
/// base64. `None` where the bytes are too many for the text to be allocated.
pub fn serialize_catalog_table<T: CatalogTable>(table: &T) -> (text: Option<String>)
    requires
        table.well_formed(),
    ensures
        match text {
            Some(s) => base64_encodable(T::bytes_of(table.model()).len()) && s@ == base64_text(
                T::bytes_of(table.model()),
            ),
            None => !base64_encodable(T::bytes_of(table.model()).len()),
        },
{
    let bytes = table.to_bytes();
    bytes_to_text(bytes.as_slice())
}

/// The table that the bytes `decoded` from a text hold: the first error
/// where the text was no base64, the second where its bytes are no table.
pub fn table_from_decoded<T: CatalogTable>(decoded: Result<Vec<u8>, base64::DecodeError>) -> (table:
    Result<T, CatalogError>)
    ensures
        match table {
            Ok(t) => {
                &&& decoded matches Ok(bytes)
                &&& t.well_formed()
                &&& T::table_of(bytes@) == Ok::<T::Model, TableError>(t.model())
            },
            Err(CatalogError::Base64Decode(e)) => decoded == Err::<Vec<u8>, base64::DecodeError>(e),
            Err(CatalogError::Decode(e)) => {
                &&& decoded matches Ok(bytes)
                &&& T::table_of(bytes@) == Err::<T::Model, TableError>(e)
            },
            Err(_) => false,
        },
{
    match decoded {
        Err(e) => Err(CatalogError::Base64Decode(e)),
        Ok(bytes) => match T::from_bytes(bytes.as_slice()) {
            Ok(table) => Ok(table),
            Err(e) => Err(CatalogError::Decode(e)),
        },
    }
}

/// The table that stands in the catalog document as `text`.
pub fn deserialize_catalog_table<T: CatalogTable>(text: &str) -> (table: Result<T, CatalogError>)
    ensures
        match table {
            Ok(t) => {
                &&& base64_bytes(text@) matches Some(bytes)
                &&& t.well_formed()
                &&& T::table_of(bytes) == Ok::<T::Model, TableError>(t.model())
            },
            Err(CatalogError::Base64Decode(_)) => base64_bytes(text@) is None,
            Err(CatalogError::Decode(e)) => {
                &&& base64_bytes(text@) matches Some(bytes)
                &&& T::table_of(bytes) == Err::<T::Model, TableError>(e)
            },
            Err(_) => false,
        },
{
    table_from_decoded(base64_decode(text))
}

} // verus!
