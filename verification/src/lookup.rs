//! The records of the four catalog tables and the identifiers that link them.
//!
//! Every record has a mathematical view (`@`) that keeps what the record means
//! and drops what only mirrors it on the wire (stored lengths and counts). A
//! record is well formed (`wf`) when those mirrors agree with the data.

use vstd::prelude::*;
use vstd::utf8::encode_utf8;

verus! {

/// Position of a path string in the identifier registry.
#[derive(Debug, Clone, Copy, PartialEq, Eq, PartialOrd, Ord, Hash, Structural)]
pub struct InternalId(pub u32);

/// Position of a key in the key table; `-1` stands for "no key".
#[derive(Debug, Clone, Copy, PartialEq, Eq, PartialOrd, Ord, Hash, Structural)]
pub struct KeyId(pub i32);

/// Position of a record in the entry table.
#[derive(Debug, Clone, Copy, PartialEq, Eq, PartialOrd, Ord, Hash, Structural)]
pub struct EntryId(pub u32);

/// Reference to a record of the extra-data stream; `-1` stands for "none".
#[derive(Debug, Clone, Copy, PartialEq, Eq, PartialOrd, Ord, Hash, Structural)]
pub struct ExtraId(pub i32);

impl From<InternalId> for usize {
    fn from(index: InternalId) -> (position: usize) {
        index.0 as usize
    }
}

impl vstd::std_specs::convert::FromSpecImpl<InternalId> for usize {
    open spec fn obeys_from_spec() -> bool {
        true
    }

    open spec fn from_spec(index: InternalId) -> usize {
        index.0 as usize
    }
}

impl From<u32> for InternalId {
    fn from(index: u32) -> (id: InternalId) {
        InternalId(index)
    }
}

impl vstd::std_specs::convert::FromSpecImpl<u32> for InternalId {
    open spec fn obeys_from_spec() -> bool {
        true
    }

    open spec fn from_spec(index: u32) -> InternalId {
        InternalId(index)
    }
}

/// Keeps the low 32 bits of a position.
impl From<usize> for InternalId {
    fn from(index: usize) -> (id: InternalId) {
        InternalId(index as u32)
    }
}

impl vstd::std_specs::convert::FromSpecImpl<usize> for InternalId {
    open spec fn obeys_from_spec() -> bool {
        true
    }

    open spec fn from_spec(index: usize) -> InternalId {
        InternalId(index as u32)
    }
}

impl From<KeyId> for isize {
    fn from(index: KeyId) -> (position: isize) {
        index.0 as isize
    }
}

impl vstd::std_specs::convert::FromSpecImpl<KeyId> for isize {
    open spec fn obeys_from_spec() -> bool {
        true
    }

    open spec fn from_spec(index: KeyId) -> isize {
        index.0 as isize
    }
}

impl From<i32> for KeyId {
    fn from(index: i32) -> (id: KeyId) {
        KeyId(index)
    }
}

impl vstd::std_specs::convert::FromSpecImpl<i32> for KeyId {
    open spec fn obeys_from_spec() -> bool {
        true
    }

    open spec fn from_spec(index: i32) -> KeyId {
        KeyId(index)
    }
}

/// Keeps the low 32 bits of a position.
impl From<isize> for KeyId {
    fn from(index: isize) -> (id: KeyId) {
        KeyId(index as i32)
    }
}

impl vstd::std_specs::convert::FromSpecImpl<isize> for KeyId {
    open spec fn obeys_from_spec() -> bool {
        true
    }

    open spec fn from_spec(index: isize) -> KeyId {
        KeyId(index as i32)
    }
}

impl From<EntryId> for usize {
    fn from(index: EntryId) -> (position: usize) {
        index.0 as usize
    }
}

impl vstd::std_specs::convert::FromSpecImpl<EntryId> for usize {
    open spec fn obeys_from_spec() -> bool {
        true
    }

    open spec fn from_spec(index: EntryId) -> usize {
        index.0 as usize
    }
}

impl From<u32> for EntryId {
    fn from(index: u32) -> (id: EntryId) {
        EntryId(index)
    }
}

impl vstd::std_specs::convert::FromSpecImpl<u32> for EntryId {
    open spec fn obeys_from_spec() -> bool {
        true
    }

    open spec fn from_spec(index: u32) -> EntryId {
        EntryId(index)
    }
}

/// Keeps the low 32 bits of a position.
impl From<usize> for EntryId {
    fn from(index: usize) -> (id: EntryId) {
        EntryId(index as u32)
    }
}

impl vstd::std_specs::convert::FromSpecImpl<usize> for EntryId {
    open spec fn obeys_from_spec() -> bool {
        true
    }

    open spec fn from_spec(index: usize) -> EntryId {
        EntryId(index as u32)
    }
}

impl From<ExtraId> for isize {
    fn from(index: ExtraId) -> (position: isize) {
        index.0 as isize
    }
}

impl vstd::std_specs::convert::FromSpecImpl<ExtraId> for isize {
    open spec fn obeys_from_spec() -> bool {
        true
    }

    open spec fn from_spec(index: ExtraId) -> isize {
        index.0 as isize
    }
}

impl From<i32> for ExtraId {
    fn from(index: i32) -> (id: ExtraId) {
        ExtraId(index)
    }
}

impl vstd::std_specs::convert::FromSpecImpl<i32> for ExtraId {
    open spec fn obeys_from_spec() -> bool {
        true
    }

    open spec fn from_spec(index: i32) -> ExtraId {
        ExtraId(index)
    }
}

/// Keeps the low 32 bits of a position.
impl From<isize> for ExtraId {
    fn from(index: isize) -> (id: ExtraId) {
        ExtraId(index as i32)
    }
}

impl vstd::std_specs::convert::FromSpecImpl<isize> for ExtraId {
    open spec fn obeys_from_spec() -> bool {
        true
    }

    open spec fn from_spec(index: isize) -> ExtraId {
        ExtraId(index as i32)
    }
}

/// What a key is: a path string or an opaque 32-bit hash.
pub enum KeyView {
    Text(Seq<char>),
    Hash(i32),
}

impl KeyView {
    /// The key as a text: the string of a string key, the number of a hash
    /// key in decimal.
    pub open spec fn text(self) -> Seq<char> {
        match self {
            KeyView::Text(text) => text,
            KeyView::Hash(hash) => crate::outside::decimal(hash as int),
        }
    }

    /// Number of bytes the key occupies in the encoded key table: one tag
    /// byte, four bytes of length or hash, and the UTF-8 text if any.
    pub open spec fn size(self) -> nat {
        match self {
            KeyView::Text(text) => encode_utf8(text).len() + 5,
            KeyView::Hash(_) => 5,
        }
    }
}

/// A key of the key table.
#[derive(Debug)]
pub enum KeyDataValue {
    String { length: u32, string: String },
    Hash(i32),
}

impl View for KeyDataValue {
    type V = KeyView;

    open spec fn view(&self) -> KeyView {
        match self {
            KeyDataValue::String { string, .. } => KeyView::Text(string@),
            KeyDataValue::Hash(hash) => KeyView::Hash(*hash),
        }
    }
}

impl KeyDataValue {
    /// The stored length of a string key is the number of bytes of its text.
    pub open spec fn wf(&self) -> bool {
        match self {
            KeyDataValue::String { length, string } => *length == encode_utf8(string@).len(),
            KeyDataValue::Hash(_) => true,
        }
    }

    /// The record size that the stored length announces.
    pub open spec fn size(&self) -> int {
        match self {
            KeyDataValue::String { length, .. } => *length + 5,
            KeyDataValue::Hash(_) => 5,
        }
    }

    /// On a well-formed key the announced size is the size of what it holds.
    pub proof fn lemma_size_of_wf(&self)
        requires
            self.wf(),
        ensures
            self.size() == self@.size(),
    {
    }

    /// The key as a text: the string of a string key, the number of a hash
    /// key in decimal.
    pub fn to_text(&self) -> (text: String)
        ensures
            text@ == self@.text(),
    {
        match self {
            KeyDataValue::String { string, .. } => string.clone(),
            KeyDataValue::Hash(hash) => crate::outside::decimal_text(*hash),
        }
    }

    /// Whether the key is well formed.
    pub fn is_wf(&self) -> (ok: bool)
        ensures
            ok == self.wf(),
    {
        match self {
            KeyDataValue::String { length, string } => string.as_str().as_bytes().len()
                == *length as usize,
            KeyDataValue::Hash(_) => true,
        }
    }

    /// A string key holding `text`.
    pub fn from_string(text: &str) -> (key: KeyDataValue)
        requires
            encode_utf8(text@).len() <= u32::MAX,
        ensures
            key@ == KeyView::Text(text@),
            key.wf(),
    {
        let length = text.as_bytes().len() as u32;
        KeyDataValue::String { length, string: text.to_owned() }
    }

    /// Number of bytes of the key's record, as its stored length announces it.
    pub fn get_size(&self) -> (size: u32)
        requires
            self.size() <= u32::MAX,
        ensures
            size == self.size(),
    {
        match self {
            KeyDataValue::String { length, .. } => *length + 5,
            KeyDataValue::Hash(_) => 5,
        }
    }
}

/// The entries that one key selects.
pub struct BucketView {
    pub key_data_offset: u32,
    pub indices: Seq<EntryId>,
}

/// The bucket of one key: where the key's record starts in the encoded key
/// table, and the entries that the key selects.
#[derive(Debug)]
pub struct BucketEntry {
    pub key_data_offset: u32,
    pub count: u32,
    pub indices: Vec<EntryId>,
}

impl View for BucketEntry {
    type V = BucketView;

    open spec fn view(&self) -> BucketView {
        BucketView { key_data_offset: self.key_data_offset, indices: self.indices@ }
    }
}

impl BucketEntry {
    /// The stored count is the number of selected entries.
    pub open spec fn wf(&self) -> bool {
        self.count == self.indices@.len()
    }

    /// Whether the bucket is well formed.
    pub fn is_wf(&self) -> (ok: bool)
        ensures
            ok == self.wf(),
    {
        self.indices.len() == self.count as usize
    }
}

/// One resolvable asset.
#[derive(Debug, Clone, Copy, PartialEq, Eq, Structural)]
pub struct EntryValue {
    pub internal_id: InternalId,
    pub provider_index: u32,
    pub dependency_key_idx: KeyId,
    pub dependency_hash: i32,
    pub data_index: ExtraId,
    pub primary_key: KeyId,
    pub resource_type: i32,
}

/// What an extra-data record holds.
pub struct ExtraView {
    pub key_type: u8,
    pub assembly_name: Seq<char>,
    pub class_name: Seq<char>,
    pub json_text: Seq<char>,
}

impl ExtraView {
    /// Number of bytes of the record in the encoded stream.
    pub open spec fn size(self) -> nat {
        1 + 1 + encode_utf8(self.assembly_name).len() + 1 + encode_utf8(self.class_name).len() + 4
            + encode_utf8(self.json_text).len()
    }
}

/// A record of the extra-data stream: the name of a type and a JSON payload.
#[derive(Debug, Clone)]
pub struct ExtraValue {
    pub key_type: u8,
    pub assembly_name_len: u8,
    pub assembly_name: String,
    pub class_name_len: u8,
    pub class_name: String,
    pub json_len: i32,
    pub json_text: String,
}

impl View for ExtraValue {
    type V = ExtraView;

    open spec fn view(&self) -> ExtraView {
        ExtraView {
            key_type: self.key_type,
            assembly_name: self.assembly_name@,
            class_name: self.class_name@,
            json_text: self.json_text@,
        }
    }
}

impl ExtraValue {
    /// The three stored lengths are the byte lengths of the three texts.
    pub open spec fn wf(&self) -> bool {
        &&& self.assembly_name_len == encode_utf8(self.assembly_name@).len()
        &&& self.class_name_len == encode_utf8(self.class_name@).len()
        &&& self.json_len == encode_utf8(self.json_text@).len()
    }

    /// Whether the record is well formed.
    pub fn is_wf(&self) -> (ok: bool)
        ensures
            ok == self.wf(),
    {
        self.json_len >= 0 && self.assembly_name.as_str().as_bytes().len()
            == self.assembly_name_len as usize && self.class_name.as_str().as_bytes().len()
            == self.class_name_len as usize && self.json_text.as_str().as_bytes().len()
            == self.json_len as usize
    }

    /// Whether three texts are short enough for one record.
    pub open spec fn fits(assembly_name: Seq<char>, class_name: Seq<char>, json_text: Seq<char>) -> bool {
        &&& encode_utf8(assembly_name).len() <= u8::MAX
        &&& encode_utf8(class_name).len() <= u8::MAX
        &&& encode_utf8(json_text).len() <= i32::MAX
    }

    /// A record with the tag that the encoder writes. `None` when a text is
    /// too long for its length field.
    pub fn new(assembly_name: &str, class_name: &str, json_text: &str) -> (extra: Option<ExtraValue>)
        ensures
            extra is Some <==> Self::fits(assembly_name@, class_name@, json_text@),
            extra matches Some(e) ==> e.wf() && e@ == (ExtraView {
                key_type: 7,
                assembly_name: assembly_name@,
                class_name: class_name@,
                json_text: json_text@,
            }),
    {
        let a = assembly_name.as_bytes().len();
        let c = class_name.as_bytes().len();
        let j = json_text.as_bytes().len();
        if a <= 0xff && c <= 0xff && j <= 0x7fff_ffff {
            Some(
                ExtraValue {
                    key_type: 7,
                    assembly_name_len: a as u8,
                    assembly_name: assembly_name.to_owned(),
                    class_name_len: c as u8,
                    class_name: class_name.to_owned(),
                    json_len: j as i32,
                    json_text: json_text.to_owned(),
                },
            )
        } else {
            None
        }
    }

    /// Number of bytes of the record in the encoded stream.
    pub fn get_size(&self) -> (size: u32)
        requires
            self.wf(),
        ensures
            size == self@.size(),
    {
        let a = self.assembly_name.as_str().as_bytes().len();
        let c = self.class_name.as_str().as_bytes().len();
        let j = self.json_text.as_str().as_bytes().len();
        (1 + 1 + a + 1 + c + 4 + j) as u32
    }
}

impl Default for ExtraValue {
    fn default() -> (extra: ExtraValue)
        ensures
            extra.wf(),
            extra@ == (ExtraView {
                key_type: 0,
                assembly_name: Seq::empty(),
                class_name: Seq::empty(),
                json_text: Seq::empty(),
            }),
    {
        ExtraValue {
            key_type: 0,
            assembly_name_len: 0,
            assembly_name: String::new(),
            class_name_len: 0,
            class_name: String::new(),
            json_len: 0,
            json_text: String::new(),
        }
    }
}

/// The key table: the keys in order; a key's position is its `KeyId`.
pub struct KeyData {
    pub count: u32,
    pub entries: Vec<KeyDataValue>,
}

impl View for KeyData {
    type V = Seq<KeyView>;

    open spec fn view(&self) -> Seq<KeyView> {
        self.entries@.map_values(|key: KeyDataValue| key@)
    }
}

impl KeyData {
    /// The stored count is the number of keys, and every key is well formed.
    pub open spec fn wf(&self) -> bool {
        &&& self.count == self.entries@.len()
        &&& forall|i: int| 0 <= i < self.entries@.len() ==> (#[trigger] self.entries@[i]).wf()
    }

    /// Whether the table is well formed.
    pub fn is_wf(&self) -> (ok: bool)
        ensures
            ok == self.wf(),
    {
        if self.entries.len() != self.count as usize {
            return false;
        }
        let mut i: usize = 0;
        while i < self.entries.len()
            invariant
                i <= self.entries@.len(),
                forall|j: int| 0 <= j < i ==> (#[trigger] self.entries@[j]).wf(),
            decreases self.entries@.len() - i,
        {
            if !self.entries[i].is_wf() {
                return false;
            }
            i += 1;
        }
        true
    }
}

impl Default for KeyData {
    fn default() -> (table: KeyData)
        ensures
            table.wf(),
            table@ == Seq::<KeyView>::empty(),
    {
        let table = KeyData { count: 0, entries: Vec::new() };
        assert(table@ =~= Seq::<KeyView>::empty());
        table
    }
}

/// The bucket table: bucket `i` belongs to key `i`.
pub struct BucketData {
    pub count: u32,
    pub entries: Vec<BucketEntry>,
}

impl View for BucketData {
    type V = Seq<BucketView>;

    open spec fn view(&self) -> Seq<BucketView> {
        self.entries@.map_values(|bucket: BucketEntry| bucket@)
    }
}

impl BucketData {
    /// The stored count is the number of buckets, and every bucket is well
    /// formed.
    pub open spec fn wf(&self) -> bool {
        &&& self.count == self.entries@.len()
        &&& forall|i: int| 0 <= i < self.entries@.len() ==> (#[trigger] self.entries@[i]).wf()
    }

    /// Whether the table is well formed.
    pub fn is_wf(&self) -> (ok: bool)
        ensures
            ok == self.wf(),
    {
        if self.entries.len() != self.count as usize {
            return false;
        }
        let mut i: usize = 0;
        while i < self.entries.len()
            invariant
                i <= self.entries@.len(),
                forall|j: int| 0 <= j < i ==> (#[trigger] self.entries@[j]).wf(),
            decreases self.entries@.len() - i,
        {
            if !self.entries[i].is_wf() {
                return false;
            }
            i += 1;
        }
        true
    }
}

impl Default for BucketData {
    fn default() -> (table: BucketData)
        ensures
            table.wf(),
            table@ == Seq::<BucketView>::empty(),
    {
        let table = BucketData { count: 0, entries: Vec::new() };
        assert(table@ =~= Seq::<BucketView>::empty());
        table
    }
}

/// The entry table: a record's position is its `EntryId`.
pub struct EntryData {
    pub count: u32,
    pub entries: Vec<EntryValue>,
}

impl View for EntryData {
    type V = Seq<EntryValue>;

    open spec fn view(&self) -> Seq<EntryValue> {
        self.entries@
    }
}

impl EntryData {
    /// The stored count is the number of records.
    pub open spec fn wf(&self) -> bool {
        self.count == self.entries@.len()
    }

    /// Whether the table is well formed.
    pub fn is_wf(&self) -> (ok: bool)
        ensures
            ok == self.wf(),
    {
        if self.entries.len() != self.count as usize {
            return false;
        }
        true
    }
}

impl Default for EntryData {
    fn default() -> (table: EntryData)
        ensures
            table.wf(),
            table@ == Seq::<EntryValue>::empty(),
    {
        EntryData { count: 0, entries: Vec::new() }
    }
}

/// The extra-data stream: records one after the other, with no count.
pub struct ExtraData {
    pub entries: Vec<ExtraValue>,
}

impl View for ExtraData {
    type V = Seq<ExtraView>;

    open spec fn view(&self) -> Seq<ExtraView> {
        self.entries@.map_values(|extra: ExtraValue| extra@)
    }
}

impl ExtraData {
    /// Every record is well formed.
    pub open spec fn wf(&self) -> bool {
        forall|i: int| 0 <= i < self.entries@.len() ==> (#[trigger] self.entries@[i]).wf()
    }

    /// Whether the table is well formed.
    pub fn is_wf(&self) -> (ok: bool)
        ensures
            ok == self.wf(),
    {
        let mut i: usize = 0;
        while i < self.entries.len()
            invariant
                i <= self.entries@.len(),
                forall|j: int| 0 <= j < i ==> (#[trigger] self.entries@[j]).wf(),
            decreases self.entries@.len() - i,
        {
            if !self.entries[i].is_wf() {
                return false;
            }
            i += 1;
        }
        true
    }
}

impl Default for ExtraData {
    fn default() -> (table: ExtraData)
        ensures
            table.wf(),
            table@ == Seq::<ExtraView>::empty(),
    {
        let table = ExtraData { entries: Vec::new() };
        assert(table@ =~= Seq::<ExtraView>::empty());
        table
    }
}

} // verus!
