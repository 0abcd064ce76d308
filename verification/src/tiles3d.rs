//! The tiled point-cloud container: its header, its feature table and batch
//! table headers as JSON documents, and the writer that fills it.

use crate::endian::le_bytes;
use vstd::prelude::*;

pub mod pnts_writer;

verus! {

/// The JSON object of the `serde_json` crate, `serde_json::Map`.
#[verifier::external_type_specification]
#[verifier::external_body]
#[verifier::reject_recursive_types(K)]
#[verifier::reject_recursive_types(V)]
pub struct ExJsonMap<K, V>(serde_json::Map<K, V>);

/// The JSON value of the `serde_json` crate, `serde_json::Value`.
#[verifier::external_type_specification]
#[verifier::external_body]
pub struct ExJsonValue(serde_json::Value);

/// The error of the `serde_json` crate, `serde_json::Error`.
#[verifier::external_type_specification]
#[verifier::external_body]
pub struct ExJsonError(serde_json::Error);

/// The error kinds of the `bincode` crate, `bincode::ErrorKind`.
#[verifier::external_type_specification]
#[verifier::external_body]
pub struct ExBincodeErrorKind(bincode::ErrorKind);

/// The mathematical content of a JSON value, as far as this format uses JSON:
/// unsigned numbers, strings, and objects of such values.
pub enum JsonModel {
    Number(nat),
    Text(Seq<char>),
    Object(Map<Seq<char>, JsonModel>),
}

/// The content of a `serde_json::Value`. Nothing but the functions below
/// says what it is.
pub uninterp spec fn json_content(value: serde_json::Value) -> JsonModel;

/// The members that a `serde_json::Map` holds: for each key the content of
/// its value. Nothing but the functions below says what it is.
pub uninterp spec fn object_members(object: serde_json::Map<String, serde_json::Value>) -> Map<
    Seq<char>,
    JsonModel,
>;

/// No members at all.
pub open spec fn no_members() -> Map<Seq<char>, JsonModel> {
    Map::empty()
}

/// The compact JSON text that `serde_json::to_vec` writes for a document.
/// One document has one text because `serde_json` keeps the members of an
/// object in the order of their keys, as long as its `preserve_order` feature
/// is off, as it is here.
pub uninterp spec fn json_text(document: JsonModel) -> Seq<u8>;

/// `serde_json::Value::from` on an unsigned number: it gives the JSON number
/// of that value.
#[verifier::external_body]
fn json_number(number: u64) -> (value: serde_json::Value)
    ensures
        json_content(value) == JsonModel::Number(number as nat),
{
    serde_json::Value::from(number)
}

/// `serde_json::Value::from` on a string: it gives the JSON string of these
/// characters.
#[verifier::external_body]
fn json_string(text: &str) -> (value: serde_json::Value)
    ensures
        json_content(value) == JsonModel::Text(text@),
{
    serde_json::Value::from(text)
}

/// `serde_json::Value::from` on an object: it gives the JSON value that is
/// this object.
#[verifier::external_body]
fn json_object(object: serde_json::Map<String, serde_json::Value>) -> (value: serde_json::Value)
    ensures
        json_content(value) == JsonModel::Object(object_members(object)),
{
    serde_json::Value::from(object)
}

/// `serde_json::Map::new`: it gives an object without members.
#[verifier::external_body]
fn json_object_new() -> (object: serde_json::Map<String, serde_json::Value>)
    ensures
        object_members(object) == no_members(),
{
    serde_json::Map::new()
}

/// `serde_json::Map::insert`: the object then holds `value` under `key`, in
/// place of what it held there, and its other members as before.
#[verifier::external_body]
fn json_object_insert(
    object: &mut serde_json::Map<String, serde_json::Value>,
    key: &str,
    value: serde_json::Value,
)
    ensures
        object_members(*final(object)) == object_members(*old(object)).insert(
            key@,
            json_content(value),
        ),
{
    object.insert(key.to_string(), value);
}

/// `serde_json::to_vec` on a value: it succeeds and gives the compact JSON
/// text of the value. It succeeds because it writes into a vector, which
/// takes every byte, and because a `Value` serialises without a refusal of
/// its own: the keys of its objects are strings, and a float that is no
/// number is written as `null`.
#[verifier::external_body]
fn json_to_vec(value: &serde_json::Value) -> (result: Result<Vec<u8>, serde_json::Error>)
    ensures
        result is Ok,
        result matches Ok(bytes) ==> bytes@ == json_text(json_content(*value)),
{
    serde_json::to_vec(value)
}

/// `bincode::serialize` on the seven fields of a tile header as one tuple:
/// it succeeds and gives the four magic bytes followed by each number in
/// four bytes, lowest byte first, which is how `bincode` writes a tuple of
/// bytes and 32-bit numbers with its default options. It succeeds because
/// those options set no limit on the size and the bytes go into a vector.
#[verifier::external_body]
fn serialize_header_fields(
    magic: [u8; 4],
    version: u32,
    byte_length: u32,
    feature_table_json_byte_length: u32,
    feature_table_binary_byte_length: u32,
    batch_table_json_byte_length: u32,
    batch_table_binary_byte_length: u32,
) -> (result: Result<Vec<u8>, Box<bincode::ErrorKind>>)
    ensures
        result is Ok,
        result matches Ok(bytes) ==> bytes@ == magic@ + le_bytes(version as nat, 4) + le_bytes(
            byte_length as nat,
            4,
        ) + le_bytes(feature_table_json_byte_length as nat, 4) + le_bytes(
            feature_table_binary_byte_length as nat,
            4,
        ) + le_bytes(batch_table_json_byte_length as nat, 4) + le_bytes(
            batch_table_binary_byte_length as nat,
            4,
        ),
{
    bincode::serialize(
        &(
            magic,
            version,
            byte_length,
            feature_table_json_byte_length,
            feature_table_binary_byte_length,
            batch_table_json_byte_length,
            batch_table_binary_byte_length,
        ),
    )
}

/// Why a tile could not be written.
#[derive(Clone, Copy, Debug, PartialEq, Eq, Structural)]
pub enum PntsError {
    /// A section is longer than the format's 32-bit length fields, or than
    /// the machine can address.
    CapacityOverflow,
    /// A serialiser refused a header. The serialisers in use refuse none,
    /// so that no function of this module gives this answer.
    Serialization,
}

/// The header at the start of a tile.
#[derive(Clone, Copy, Debug, PartialEq, Eq)]
pub struct PntsHeader {
    pub magic: [u8; 4],
    pub version: u32,
    pub byte_length: u32,
    pub feature_table_json_byte_length: u32,
    pub feature_table_binary_byte_length: u32,
    pub batch_table_json_byte_length: u32,
    pub batch_table_binary_byte_length: u32,
}

/// The four bytes that start every tile: the letters `pnts`.
pub open spec fn pnts_magic() -> Seq<u8> {
    seq![0x70u8, 0x6eu8, 0x74u8, 0x73u8]
}

impl PntsHeader {
    /// Bytes that a serialised header takes.
    pub const BYTE_LENGTH: usize = 28;

    /// The serialised header: the magic bytes, then the six numbers in four
    /// bytes each, lowest byte first.
    pub open spec fn spec_bytes(self) -> Seq<u8> {
        self.magic@ + le_bytes(self.version as nat, 4) + le_bytes(self.byte_length as nat, 4)
            + le_bytes(self.feature_table_json_byte_length as nat, 4) + le_bytes(
            self.feature_table_binary_byte_length as nat,
            4,
        ) + le_bytes(self.batch_table_json_byte_length as nat, 4) + le_bytes(
            self.batch_table_binary_byte_length as nat,
            4,
        )
    }

    /// A header with the format's magic bytes and the given numbers.
    pub fn new(
        version: u32,
        byte_length: u32,
        feature_table_json_byte_length: u32,
        feature_table_binary_byte_length: u32,
        batch_table_json_byte_length: u32,
        batch_table_binary_byte_length: u32,
    ) -> (header: Self)
        ensures
            header.magic@ == pnts_magic(),
            header.version == version,
            header.byte_length == byte_length,
            header.feature_table_json_byte_length == feature_table_json_byte_length,
            header.feature_table_binary_byte_length == feature_table_binary_byte_length,
            header.batch_table_json_byte_length == batch_table_json_byte_length,
            header.batch_table_binary_byte_length == batch_table_binary_byte_length,
    {
        let magic: [u8; 4] = [0x70, 0x6e, 0x74, 0x73];
        assert(magic@ =~= pnts_magic());
        PntsHeader {
            magic,
            version,
            byte_length,
            feature_table_json_byte_length,
            feature_table_binary_byte_length,
            batch_table_json_byte_length,
            batch_table_binary_byte_length,
        }
    }

    /// Serialises the header: always the 28 bytes of `spec_bytes`.
    pub fn to_bytes(&self) -> (result: Result<Vec<u8>, PntsError>)
        ensures
            result matches Ok(bytes) && bytes@ == self.spec_bytes(),
    {
        match serialize_header_fields(
            self.magic,
            self.version,
            self.byte_length,
            self.feature_table_json_byte_length,
            self.feature_table_binary_byte_length,
            self.batch_table_json_byte_length,
            self.batch_table_binary_byte_length,
        ) {
            Ok(bytes) => Ok(bytes),
            Err(_) => Err(PntsError::Serialization),
        }
    }
}

/// Where the values of a semantic lie in the feature table body.
#[derive(Debug)]
pub struct FeatureTableDataReference {
    pub byte_offset: usize,
    pub component_type: Option<String>,
}

/// What the feature table header holds under a name: a literal number, or a
/// reference into the body.
#[derive(Debug)]
pub enum FeatureTableValue {
    SingleValue(u64),
    DataReference(FeatureTableDataReference),
}

/// The feature table header: names and what each stands for. Where a name
/// occurs twice, the later entry counts.
pub type FeatureTableHeader = Vec<(String, FeatureTableValue)>;

/// The batch table header, of the same form.
pub type BatchTableHeader = Vec<(String, FeatureTableValue)>;

/// The members of the JSON object that stands for a data reference.
pub open spec fn reference_members(reference: FeatureTableDataReference) -> Map<
    Seq<char>,
    JsonModel,
> {
    let offset = no_members().insert("byteOffset"@, JsonModel::Number(reference.byte_offset as nat));
    match reference.component_type {
        Some(component) => offset.insert("componentType"@, JsonModel::Text(component@)),
        None => offset,
    }
}

/// The JSON value that stands for a header value.
pub open spec fn value_model(value: FeatureTableValue) -> JsonModel {
    match value {
        FeatureTableValue::SingleValue(number) => JsonModel::Number(number as nat),
        FeatureTableValue::DataReference(reference) => JsonModel::Object(
            reference_members(reference),
        ),
    }
}

/// The members of the JSON object that stands for a table header.
pub open spec fn header_members(entries: Seq<(String, FeatureTableValue)>) -> Map<
    Seq<char>,
    JsonModel,
>
    decreases entries.len(),
{
    if entries.len() == 0 {
        no_members()
    } else {
        header_members(entries.drop_last()).insert(
            entries.last().0@,
            value_model(entries.last().1),
        )
    }
}

/// The JSON text of a table header: always one object with a member for
/// every name.
pub fn ser_feature_table_header(header: &FeatureTableHeader) -> (result: Result<
    Vec<u8>,
    PntsError,
>)
    ensures
        result matches Ok(bytes) && bytes@ == json_text(
            JsonModel::Object(header_members(header@)),
        ),
{
    let mut object = json_object_new();
    let mut i: usize = 0;
    assert(header@.take(0) =~= Seq::empty());
    while i < header.len()
        invariant
            i <= header@.len(),
            object_members(object) == header_members(header@.take(i as int)),
        decreases header@.len() - i,
    {
        proof {
            assert(header@.take(i + 1).drop_last() =~= header@.take(i as int));
        }
        let value = match &header[i].1 {
            FeatureTableValue::SingleValue(number) => json_number(*number),
            FeatureTableValue::DataReference(reference) => {
                let mut member = json_object_new();
                json_object_insert(
                    &mut member,
                    "byteOffset",
                    json_number(reference.byte_offset as u64),
                );
                match &reference.component_type {
                    Some(component) => {
                        json_object_insert(
                            &mut member,
                            "componentType",
                            json_string(component.as_str()),
                        );
                    },
                    None => {},
                }
                json_object(member)
            },
        };
        json_object_insert(&mut object, header[i].0.as_str(), value);
        i += 1;
    }
    assert(header@.take(i as int) =~= header@);
    match json_to_vec(&json_object(object)) {
        Ok(bytes) => Ok(bytes),
        Err(_) => Err(PntsError::Serialization),
    }
}

/// The JSON text of a batch table header: always one object with a member
/// for every name.
pub fn ser_batch_table_header(header: &BatchTableHeader) -> (result: Result<Vec<u8>, PntsError>)
    ensures
        result matches Ok(bytes) && bytes@ == json_text(
            JsonModel::Object(header_members(header@)),
        ),
{
    ser_feature_table_header(header)
}

} // verus!
