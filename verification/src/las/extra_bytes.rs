//! The records that describe the values kept in the extra bytes of a point:
//! one record of 192 bytes for each value.

use crate::endian::{
    decode_le, encode_le, le_bytes, le_value, lemma_le_value_bound,
    lemma_le_value_of_le_bytes, lemma_pow256_values, signed_value, ByteOrder,
};
use crate::layout::PointAttributeDataType;
use vstd::prelude::*;

verus! {

/// Bytes of one record.
pub const RECORD_BYTE_LENGTH: usize = 192;

/// Bytes of a name or a description within a record.
pub const TEXT_BYTE_LENGTH: usize = 32;

/// Why a record could not be made or read.
#[derive(Clone, Copy, Debug, PartialEq, Eq, Structural)]
pub enum ExtraBytesError {
    /// The bytes are not one record long.
    WrongLength,
    /// The data type is not one of the ten numeric scalars.
    UnsupportedDataType,
    /// A name or description is longer than 32 bytes or holds a zero byte.
    InvalidText,
}

/// The code that a record holds for a data type; zero for the types that a
/// record cannot describe.
pub open spec fn spec_data_type_code(data_type: PointAttributeDataType) -> u8 {
    match data_type {
        PointAttributeDataType::U8 => 1,
        PointAttributeDataType::I8 => 2,
        PointAttributeDataType::U16 => 3,
        PointAttributeDataType::I16 => 4,
        PointAttributeDataType::U32 => 5,
        PointAttributeDataType::I32 => 6,
        PointAttributeDataType::U64 => 7,
        PointAttributeDataType::I64 => 8,
        PointAttributeDataType::F32 => 9,
        PointAttributeDataType::F64 => 10,
        _ => 0,
    }
}

/// The data type that a code stands for.
pub open spec fn spec_data_type_of_code(code: u8) -> Option<PointAttributeDataType> {
    if code == 1 {
        Some(PointAttributeDataType::U8)
    } else if code == 2 {
        Some(PointAttributeDataType::I8)
    } else if code == 3 {
        Some(PointAttributeDataType::U16)
    } else if code == 4 {
        Some(PointAttributeDataType::I16)
    } else if code == 5 {
        Some(PointAttributeDataType::U32)
    } else if code == 6 {
        Some(PointAttributeDataType::I32)
    } else if code == 7 {
        Some(PointAttributeDataType::U64)
    } else if code == 8 {
        Some(PointAttributeDataType::I64)
    } else if code == 9 {
        Some(PointAttributeDataType::F32)
    } else if code == 10 {
        Some(PointAttributeDataType::F64)
    } else {
        None
    }
}

/// The code that a record holds for a data type.
pub fn data_type_code(data_type: PointAttributeDataType) -> (code: u8)
    ensures
        code == spec_data_type_code(data_type),
{
    match data_type {
        PointAttributeDataType::U8 => 1,
        PointAttributeDataType::I8 => 2,
        PointAttributeDataType::U16 => 3,
        PointAttributeDataType::I16 => 4,
        PointAttributeDataType::U32 => 5,
        PointAttributeDataType::I32 => 6,
        PointAttributeDataType::U64 => 7,
        PointAttributeDataType::I64 => 8,
        PointAttributeDataType::F32 => 9,
        PointAttributeDataType::F64 => 10,
        _ => 0,
    }
}

/// The data type that a code stands for.
pub fn data_type_of_code(code: u8) -> (data_type: Option<PointAttributeDataType>)
    ensures
        data_type == spec_data_type_of_code(code),
{
    if code == 1 {
        Some(PointAttributeDataType::U8)
    } else if code == 2 {
        Some(PointAttributeDataType::I8)
    } else if code == 3 {
        Some(PointAttributeDataType::U16)
    } else if code == 4 {
        Some(PointAttributeDataType::I16)
    } else if code == 5 {
        Some(PointAttributeDataType::U32)
    } else if code == 6 {
        Some(PointAttributeDataType::I32)
    } else if code == 7 {
        Some(PointAttributeDataType::U64)
    } else if code == 8 {
        Some(PointAttributeDataType::I64)
    } else if code == 9 {
        Some(PointAttributeDataType::F32)
    } else if code == 10 {
        Some(PointAttributeDataType::F64)
    } else {
        None
    }
}

/// A text fits a record: at most 32 bytes, none of them zero.
pub open spec fn text_fits(text: Seq<u8>) -> bool {
    text.len() <= TEXT_BYTE_LENGTH && forall|i: int| 0 <= i < text.len() ==> text[i] != 0
}

/// `count` zero bytes.
pub open spec fn zeros(count: nat) -> Seq<u8> {
    Seq::new(count, |i: int| 0u8)
}

/// A text as the record holds it: followed by zero bytes up to 32 bytes.
pub open spec fn padded_text(text: Seq<u8>) -> Seq<u8> {
    text + zeros((TEXT_BYTE_LENGTH - text.len()) as nat)
}

/// The text that a run of bytes holds: the bytes before the first zero.
pub open spec fn text_of(bytes: Seq<u8>) -> Seq<u8>
    decreases bytes.len(),
{
    if bytes.len() == 0 || bytes[0] == 0 {
        Seq::empty()
    } else {
        seq![bytes[0]] + text_of(bytes.skip(1))
    }
}

/// The mathematical content of a record.
pub struct RecordModel {
    pub data_type: PointAttributeDataType,
    pub offset_to_first_extra_byte: nat,
    pub no_data_value: Option<Seq<u8>>,
    pub min_value: Option<Seq<u8>>,
    pub max_value: Option<Seq<u8>>,
    pub scale: Option<u64>,
    pub offset: Option<u64>,
    pub name: Seq<u8>,
    pub description: Seq<u8>,
}

/// One if the value is there, zero if not.
pub open spec fn flag<T>(value: Option<T>) -> nat {
    if value is Some {
        1
    } else {
        0
    }
}

/// The eight bytes that a record holds for an optional pattern: the pattern,
/// or zeros.
pub open spec fn pattern_bytes(pattern: Option<Seq<u8>>) -> Seq<u8> {
    match pattern {
        Some(bytes) => bytes,
        None => zeros(8),
    }
}

/// The eight bytes that a record holds for an optional 64-bit number, lowest
/// byte first.
pub open spec fn number_bytes(number: Option<u64>) -> Seq<u8> {
    match number {
        Some(bits) => le_bytes(bits as nat, 8),
        None => zeros(8),
    }
}

impl RecordModel {
    /// A record describes a numeric scalar, and its patterns and texts fit.
    pub open spec fn wf(self) -> bool {
        &&& spec_data_type_code(self.data_type) != 0
        &&& self.no_data_value matches Some(p) ==> p.len() == 8
        &&& self.min_value matches Some(p) ==> p.len() == 8
        &&& self.max_value matches Some(p) ==> p.len() == 8
        &&& text_fits(self.name)
        &&& text_fits(self.description)
    }

    /// The byte that says which of the optional values are there.
    pub open spec fn options(self) -> nat {
        flag(self.no_data_value) + 2 * flag(self.min_value) + 4 * flag(self.max_value) + 8 * flag(
            self.scale,
        ) + 16 * flag(self.offset)
    }

    /// The 192 bytes of the record: two reserved bytes, the type's code, the
    /// options, the name, four unused bytes, then the pattern for missing
    /// data, the least and the greatest value, the scale and the offset, each
    /// in eight bytes followed by sixteen unused ones, and the description.
    pub open spec fn encoded(self) -> Seq<u8> {
        zeros(2) + seq![spec_data_type_code(self.data_type), self.options() as u8] + padded_text(
            self.name,
        ) + zeros(4) + pattern_bytes(self.no_data_value) + zeros(16) + pattern_bytes(
            self.min_value,
        ) + zeros(16) + pattern_bytes(self.max_value) + zeros(16) + number_bytes(self.scale)
            + zeros(16) + number_bytes(self.offset) + zeros(16) + padded_text(self.description)
    }
}

/// The pattern that eight bytes of a record hold, if the options say that it
/// is there.
pub open spec fn decoded_pattern(present: bool, bytes: Seq<u8>) -> Option<Seq<u8>> {
    if present {
        Some(bytes)
    } else {
        None
    }
}

/// The number that eight bytes of a record hold, if the options say that it
/// is there.
pub open spec fn decoded_number(present: bool, bytes: Seq<u8>) -> Option<u64> {
    if present {
        Some(le_value(bytes) as u64)
    } else {
        None
    }
}

/// The record that 192 bytes hold, for a value at the given offset within the
/// extra bytes.
pub open spec fn decoded(raw: Seq<u8>, offset_to_first_extra_byte: nat) -> Result<
    RecordModel,
    ExtraBytesError,
> {
    if raw.len() != RECORD_BYTE_LENGTH {
        Err(ExtraBytesError::WrongLength)
    } else if spec_data_type_of_code(raw[2]) is None {
        Err(ExtraBytesError::UnsupportedDataType)
    } else {
        let options = raw[3] as nat;
        Ok(
            RecordModel {
                data_type: spec_data_type_of_code(raw[2]).unwrap(),
                offset_to_first_extra_byte,
                no_data_value: decoded_pattern(options % 2 == 1, raw.subrange(40, 48)),
                min_value: decoded_pattern((options / 2) % 2 == 1, raw.subrange(64, 72)),
                max_value: decoded_pattern((options / 4) % 2 == 1, raw.subrange(88, 96)),
                scale: decoded_number((options / 8) % 2 == 1, raw.subrange(112, 120)),
                offset: decoded_number((options / 16) % 2 == 1, raw.subrange(136, 144)),
                name: text_of(raw.subrange(4, 36)),
                description: text_of(raw.subrange(160, 192)),
            },
        )
    }
}

/// Reading a padded text gives the text back.
pub proof fn lemma_text_of_padded(text: Seq<u8>, rest: Seq<u8>)
    requires
        forall|i: int| 0 <= i < text.len() ==> text[i] != 0,
        rest.len() == 0 || rest[0] == 0,
    ensures
        text_of(text + rest) == text,
    decreases text.len(),
{
    let bytes = text + rest;
    if text.len() == 0 {
        assert(bytes =~= rest);
        assert(text_of(bytes) =~= text);
    } else {
        assert(bytes[0] == text[0]);
        assert(bytes.skip(1) =~= text.skip(1) + rest);
        lemma_text_of_padded(text.skip(1), rest);
        assert(seq![text[0]] + text.skip(1) =~= text);
    }
}

/// The text that a run of bytes holds is no longer than the run and holds no
/// zero byte.
pub proof fn lemma_text_of_fits(bytes: Seq<u8>)
    ensures
        text_of(bytes).len() <= bytes.len(),
        forall|i: int| 0 <= i < text_of(bytes).len() ==> text_of(bytes)[i] != 0,
        forall|i: int| 0 <= i < text_of(bytes).len() ==> text_of(bytes)[i] == bytes[i],
        text_of(bytes).len() < bytes.len() ==> bytes[text_of(bytes).len() as int] == 0,
    decreases bytes.len(),
{
    if !(bytes.len() == 0 || bytes[0] == 0) {
        lemma_text_of_fits(bytes.skip(1));
        let tail = text_of(bytes.skip(1));
        assert forall|i: int| 0 <= i < text_of(bytes).len() implies text_of(bytes)[i] != 0
            && text_of(bytes)[i] == bytes[i] by {
            if i > 0 {
                assert(text_of(bytes)[i] == tail[i - 1]);
                assert(bytes.skip(1)[i - 1] == bytes[i]);
            }
        }
        if text_of(bytes).len() < bytes.len() {
            assert(bytes.skip(1)[tail.len() as int] == bytes[(tail.len() + 1) as int]);
        }
    }
}

/// The code of a describable data type stands for that type.
pub proof fn lemma_code_round_trip(data_type: PointAttributeDataType)
    requires
        spec_data_type_code(data_type) != 0,
    ensures
        spec_data_type_of_code(spec_data_type_code(data_type)) == Some(data_type),
{
}

/// Reading the bytes of a record gives the record back.
pub proof fn lemma_decode_of_encoded(record: RecordModel)
    requires
        record.wf(),
    ensures
        record.encoded().len() == RECORD_BYTE_LENGTH,
        decoded(record.encoded(), record.offset_to_first_extra_byte) matches Ok(read) && read
            == record,
{
    let raw = record.encoded();
    let options = record.options();
    let head = zeros(2) + seq![spec_data_type_code(record.data_type), options as u8];
    let with_name = head + padded_text(record.name) + zeros(4);
    let with_no_data = with_name + pattern_bytes(record.no_data_value) + zeros(16);
    let with_min = with_no_data + pattern_bytes(record.min_value) + zeros(16);
    let with_max = with_min + pattern_bytes(record.max_value) + zeros(16);
    let with_scale = with_max + number_bytes(record.scale) + zeros(16);
    let with_offset = with_scale + number_bytes(record.offset) + zeros(16);
    assert(raw == with_offset + padded_text(record.description));
    assert(head.len() == 4);
    assert(with_name.len() == 40);
    assert(with_no_data.len() == 64);
    assert(with_min.len() == 88);
    assert(with_max.len() == 112);
    assert(with_scale.len() == 136);
    assert(with_offset.len() == 160);
    assert(raw.len() == 192);
    assert(raw[2] == spec_data_type_code(record.data_type));
    assert(raw[3] == options as u8);
    lemma_code_round_trip(record.data_type);
    assert(raw.subrange(4, 36) =~= padded_text(record.name));
    assert(raw.subrange(40, 48) =~= pattern_bytes(record.no_data_value));
    assert(raw.subrange(64, 72) =~= pattern_bytes(record.min_value));
    assert(raw.subrange(88, 96) =~= pattern_bytes(record.max_value));
    assert(raw.subrange(112, 120) =~= number_bytes(record.scale));
    assert(raw.subrange(136, 144) =~= number_bytes(record.offset));
    assert(raw.subrange(160, 192) =~= padded_text(record.description));
    lemma_text_of_padded(record.name, zeros((TEXT_BYTE_LENGTH - record.name.len()) as nat));
    lemma_text_of_padded(
        record.description,
        zeros((TEXT_BYTE_LENGTH - record.description.len()) as nat),
    );
    lemma_pow256_values();
    if record.scale is Some {
        lemma_le_value_of_le_bytes(record.scale.unwrap() as nat, 8);
    }
    if record.offset is Some {
        lemma_le_value_of_le_bytes(record.offset.unwrap() as nat, 8);
    }
    let read = decoded(raw, record.offset_to_first_extra_byte).unwrap();
    assert(read.no_data_value == record.no_data_value);
    assert(read.min_value == record.min_value);
    assert(read.max_value == record.max_value);
    assert(read.scale == record.scale);
    assert(read.offset == record.offset);
    assert(read.name == record.name);
    assert(read.description == record.description);
}

/// The description of one value in the extra bytes of a point: a numeric
/// scalar with its place, its optional marker for missing data, least and
/// greatest value, scale and offset, its name and a description. The scale
/// and the offset are kept as the bit patterns of 64-bit floats.
#[derive(Debug)]
pub struct ExtraBytesRecord {
    data_type: PointAttributeDataType,
    offset_to_first_extra_byte: usize,
    no_data_value: Option<[u8; 8]>,
    min_value: Option<[u8; 8]>,
    max_value: Option<[u8; 8]>,
    scale: Option<u64>,
    offset: Option<u64>,
    name: Vec<u8>,
    description: Vec<u8>,
}

/// The bytes of an optional pattern.
pub open spec fn pattern_model(pattern: Option<[u8; 8]>) -> Option<Seq<u8>> {
    match pattern {
        Some(bytes) => Some(bytes@),
        None => None,
    }
}

impl View for ExtraBytesRecord {
    type V = RecordModel;

    closed spec fn view(&self) -> RecordModel {
        RecordModel {
            data_type: self.data_type,
            offset_to_first_extra_byte: self.offset_to_first_extra_byte as nat,
            no_data_value: pattern_model(self.no_data_value),
            min_value: pattern_model(self.min_value),
            max_value: pattern_model(self.max_value),
            scale: self.scale,
            offset: self.offset,
            name: self.name@,
            description: self.description@,
        }
    }
}

/// Appends `count` zero bytes to `out`.
fn push_zeros(out: &mut Vec<u8>, count: usize)
    ensures
        final(out)@ == old(out)@ + zeros(count as nat),
{
    let mut i: usize = 0;
    while i < count
        invariant
            i <= count,
            out@ == old(out)@ + zeros(i as nat),
        decreases count - i,
    {
        out.push(0);
        i += 1;
        assert(out@ =~= old(out)@ + zeros(i as nat));
    }
    assert(zeros(0) =~= Seq::<u8>::empty());
}

/// Appends a text and the zero bytes that fill it up to 32 bytes.
fn push_padded_text(out: &mut Vec<u8>, text: &Vec<u8>)
    requires
        text@.len() <= TEXT_BYTE_LENGTH,
    ensures
        final(out)@ == old(out)@ + padded_text(text@),
{
    out.extend_from_slice(text.as_slice());
    push_zeros(out, TEXT_BYTE_LENGTH - text.len());
    assert(out@ =~= old(out)@ + padded_text(text@));
}

/// Appends the eight bytes of an optional pattern.
fn push_pattern(out: &mut Vec<u8>, pattern: &Option<[u8; 8]>)
    ensures
        final(out)@ == old(out)@ + pattern_bytes(pattern_model(*pattern)),
{
    match pattern {
        Some(bytes) => {
            out.extend_from_slice(bytes.as_slice());
            assert(out@ =~= old(out)@ + bytes@);
        },
        None => {
            push_zeros(out, 8);
        },
    }
}

/// Appends the eight bytes of an optional 64-bit number.
fn push_number(out: &mut Vec<u8>, number: &Option<u64>)
    ensures
        final(out)@ == old(out)@ + number_bytes(*number),
{
    match number {
        Some(bits) => {
            let bytes = encode_le(*bits, 8);
            out.extend_from_slice(bytes.as_slice());
            assert(out@ =~= old(out)@ + bytes@);
        },
        None => {
            push_zeros(out, 8);
        },
    }
}

/// The eight bytes from `begin` on, as a pattern.
fn read_pattern(raw: &[u8], begin: usize) -> (pattern: [u8; 8])
    requires
        begin + 8 <= raw@.len(),
    ensures
        pattern@ == raw@.subrange(begin as int, begin + 8),
{
    let len: usize = raw.len();
    let pattern: [u8; 8] = [
        raw[begin],
        raw[begin + 1],
        raw[begin + 2],
        raw[begin + 3],
        raw[begin + 4],
        raw[begin + 5],
        raw[begin + 6],
        raw[begin + 7],
    ];
    assert(pattern@ =~= raw@.subrange(begin as int, begin + 8));
    pattern
}

/// The text in the 32 bytes from `begin` on.
fn read_text(raw: &[u8], begin: usize) -> (text: Vec<u8>)
    requires
        begin + TEXT_BYTE_LENGTH <= raw@.len(),
    ensures
        text@ == text_of(raw@.subrange(begin as int, begin + TEXT_BYTE_LENGTH)),
{
    let len: usize = raw.len();
    let ghost bytes = raw@.subrange(begin as int, begin + TEXT_BYTE_LENGTH);
    let mut text: Vec<u8> = Vec::new();
    let mut i: usize = 0;
    proof {
        assert(bytes.skip(0) =~= bytes);
        assert(text@ + text_of(bytes) =~= text_of(bytes));
    }
    while i < TEXT_BYTE_LENGTH && raw[begin + i] != 0
        invariant
            i <= TEXT_BYTE_LENGTH,
            len == raw@.len(),
            begin + TEXT_BYTE_LENGTH <= len,
            bytes == raw@.subrange(begin as int, begin + TEXT_BYTE_LENGTH),
            text@.len() == i,
            text_of(bytes) == text@ + text_of(bytes.skip(i as int)),
        decreases TEXT_BYTE_LENGTH - i,
    {
        proof {
            let rest = bytes.skip(i as int);
            assert(rest[0] == raw@[begin + i]);
            assert(rest.skip(1) =~= bytes.skip(i + 1));
            assert(text@.push(rest[0]) + text_of(rest.skip(1)) =~= text@ + (seq![rest[0]]
                + text_of(rest.skip(1))));
        }
        text.push(raw[begin + i]);
        i += 1;
    }
    proof {
        let rest = bytes.skip(i as int);
        if i < TEXT_BYTE_LENGTH {
            assert(rest[0] == raw@[begin + i]);
        }
        assert(text_of(rest) =~= Seq::<u8>::empty());
        assert(text@ + Seq::<u8>::empty() =~= text@);
    }
    assert(bytes.skip(0) =~= bytes);
    text
}

/// Tells whether a text fits a record.
fn check_text(text: &[u8]) -> (fits: bool)
    ensures
        fits == text_fits(text@),
{
    if text.len() > TEXT_BYTE_LENGTH {
        return false;
    }
    let mut i: usize = 0;
    while i < text.len()
        invariant
            i <= text@.len(),
            forall|k: int| 0 <= k < i ==> text@[k] != 0,
        decreases text@.len() - i,
    {
        if text[i] == 0 {
            return false;
        }
        i += 1;
    }
    true
}

impl ExtraBytesRecord {
    /// The record's invariant.
    pub open spec fn wf(&self) -> bool {
        self@.wf()
    }

    /// A record for a value of type `data_type` at the given offset within
    /// the extra bytes, without optional values. Refused where the type is
    /// not a numeric scalar, and where the name or the description is longer
    /// than 32 bytes or holds a zero byte.
    pub fn new(
        data_type: PointAttributeDataType,
        offset_to_first_extra_byte: usize,
        name: &[u8],
        description: &[u8],
    ) -> (result: Result<Self, ExtraBytesError>)
        ensures
            match result {
                Ok(record) => record.wf() && record@ == (RecordModel {
                    data_type,
                    offset_to_first_extra_byte: offset_to_first_extra_byte as nat,
                    no_data_value: None,
                    min_value: None,
                    max_value: None,
                    scale: None,
                    offset: None,
                    name: name@,
                    description: description@,
                }),
                Err(e) => if spec_data_type_code(data_type) == 0 {
                    e == ExtraBytesError::UnsupportedDataType
                } else {
                    e == ExtraBytesError::InvalidText && !(text_fits(name@) && text_fits(
                        description@,
                    ))
                },
            },
    {
        if data_type_code(data_type) == 0 {
            return Err(ExtraBytesError::UnsupportedDataType);
        }
        if !check_text(name) || !check_text(description) {
            return Err(ExtraBytesError::InvalidText);
        }
        Ok(
            ExtraBytesRecord {
                data_type,
                offset_to_first_extra_byte,
                no_data_value: None,
                min_value: None,
                max_value: None,
                scale: None,
                offset: None,
                name: vstd::slice::slice_to_vec(name),
                description: vstd::slice::slice_to_vec(description),
            },
        )
    }

    /// Sets or removes the pattern that marks missing data.
    pub fn set_no_data_value(&mut self, pattern: Option<[u8; 8]>)
        requires
            old(self).wf(),
        ensures
            final(self).wf(),
            final(self)@ == (RecordModel { no_data_value: pattern_model(pattern), ..old(self)@ }),
    {
        self.no_data_value = pattern;
    }

    /// Sets or removes the pattern of the least value.
    pub fn set_min_value(&mut self, pattern: Option<[u8; 8]>)
        requires
            old(self).wf(),
        ensures
            final(self).wf(),
            final(self)@ == (RecordModel { min_value: pattern_model(pattern), ..old(self)@ }),
    {
        self.min_value = pattern;
    }

    /// Sets or removes the pattern of the greatest value.
    pub fn set_max_value(&mut self, pattern: Option<[u8; 8]>)
        requires
            old(self).wf(),
        ensures
            final(self).wf(),
            final(self)@ == (RecordModel { max_value: pattern_model(pattern), ..old(self)@ }),
    {
        self.max_value = pattern;
    }

    /// Sets or removes the scale, the bit pattern of a 64-bit float.
    pub fn set_scale(&mut self, bits: Option<u64>)
        requires
            old(self).wf(),
        ensures
            final(self).wf(),
            final(self)@ == (RecordModel { scale: bits, ..old(self)@ }),
    {
        self.scale = bits;
    }

    /// Sets or removes the offset, the bit pattern of a 64-bit float.
    pub fn set_offset(&mut self, bits: Option<u64>)
        requires
            old(self).wf(),
        ensures
            final(self).wf(),
            final(self)@ == (RecordModel { offset: bits, ..old(self)@ }),
    {
        self.offset = bits;
    }

    /// The data type of the value that the record describes.
    pub fn data_type(&self) -> (data_type: PointAttributeDataType)
        ensures
            data_type == self@.data_type,
    {
        self.data_type
    }

    /// Offset of the value within the extra bytes of a point.
    pub fn offset_to_first_extra_byte(&self) -> (offset: usize)
        ensures
            offset == self@.offset_to_first_extra_byte,
    {
        self.offset_to_first_extra_byte
    }

    /// The name of the value.
    pub fn name(&self) -> (name: &[u8])
        ensures
            name@ == self@.name,
    {
        self.name.as_slice()
    }

    /// The description of the value.
    pub fn description(&self) -> (description: &[u8])
        ensures
            description@ == self@.description,
    {
        self.description.as_slice()
    }

    /// The scale, as the bit pattern of a 64-bit float.
    pub fn scale(&self) -> (bits: Option<u64>)
        ensures
            bits == self@.scale,
    {
        self.scale
    }

    /// The offset, as the bit pattern of a 64-bit float.
    pub fn offset(&self) -> (bits: Option<u64>)
        ensures
            bits == self@.offset,
    {
        self.offset
    }

    /// The marker for missing data of a floating-point value, as the bit
    /// pattern of a 64-bit float. Only for records of a floating-point type.
    pub fn no_data_value_f64(&self) -> (bits: Option<u64>)
        requires
            self.wf(),
            self@.data_type.spec_is_float(),
        ensures
            bits == pattern_number(self@.no_data_value),
    {
        pattern_as_u64(&self.no_data_value)
    }

    /// The marker for missing data of a signed integer value. Only for
    /// records of a signed integer type.
    pub fn no_data_value_i64(&self) -> (value: Option<i64>)
        requires
            self.wf(),
            self@.data_type.spec_is_signed_integer(),
        ensures
            value == pattern_signed_number(self@.no_data_value),
    {
        pattern_as_i64(&self.no_data_value)
    }

    /// The marker for missing data of an unsigned integer value. Only for
    /// records of an unsigned integer type.
    pub fn no_data_value_u64(&self) -> (value: Option<u64>)
        requires
            self.wf(),
            self@.data_type.spec_is_unsigned_integer(),
        ensures
            value == pattern_number(self@.no_data_value),
    {
        pattern_as_u64(&self.no_data_value)
    }

    /// The least value of a floating-point value, as the bit pattern of a
    /// 64-bit float. Only for records of a floating-point type.
    pub fn min_value_f64(&self) -> (bits: Option<u64>)
        requires
            self.wf(),
            self@.data_type.spec_is_float(),
        ensures
            bits == pattern_number(self@.min_value),
    {
        pattern_as_u64(&self.min_value)
    }

    /// The least value of a signed integer value. Only for records of a
    /// signed integer type.
    pub fn min_value_i64(&self) -> (value: Option<i64>)
        requires
            self.wf(),
            self@.data_type.spec_is_signed_integer(),
        ensures
            value == pattern_signed_number(self@.min_value),
    {
        pattern_as_i64(&self.min_value)
    }

    /// The least value of an unsigned integer value. Only for records of an
    /// unsigned integer type.
    pub fn min_value_u64(&self) -> (value: Option<u64>)
        requires
            self.wf(),
            self@.data_type.spec_is_unsigned_integer(),
        ensures
            value == pattern_number(self@.min_value),
    {
        pattern_as_u64(&self.min_value)
    }

    /// The 192 bytes of the record.
    pub fn encode(&self) -> (raw: Vec<u8>)
        requires
            self.wf(),
        ensures
            raw@ == self@.encoded(),
            raw@.len() == RECORD_BYTE_LENGTH,
    {
        let mut raw: Vec<u8> = Vec::new();
        let mut options: u8 = 0;
        if self.no_data_value.is_some() {
            options = options + 1;
        }
        if self.min_value.is_some() {
            options = options + 2;
        }
        if self.max_value.is_some() {
            options = options + 4;
        }
        if self.scale.is_some() {
            options = options + 8;
        }
        if self.offset.is_some() {
            options = options + 16;
        }
        assert(options == self@.options());
        push_zeros(&mut raw, 2);
        raw.push(data_type_code(self.data_type));
        raw.push(options);
        assert(raw@ =~= zeros(2) + seq![spec_data_type_code(self@.data_type), self@.options() as u8]);
        push_padded_text(&mut raw, &self.name);
        push_zeros(&mut raw, 4);
        push_pattern(&mut raw, &self.no_data_value);
        push_zeros(&mut raw, 16);
        push_pattern(&mut raw, &self.min_value);
        push_zeros(&mut raw, 16);
        push_pattern(&mut raw, &self.max_value);
        push_zeros(&mut raw, 16);
        push_number(&mut raw, &self.scale);
        push_zeros(&mut raw, 16);
        push_number(&mut raw, &self.offset);
        push_zeros(&mut raw, 16);
        push_padded_text(&mut raw, &self.description);
        raw
    }

    /// Reads a record from its 192 bytes, for a value at the given offset
    /// within the extra bytes. Refused where the bytes are not 192, and where
    /// the code of the data type stands for no numeric scalar.
    pub fn decode(raw: &[u8], offset_to_first_extra_byte: usize) -> (result: Result<
        Self,
        ExtraBytesError,
    >)
        ensures
            match result {
                Ok(record) => record.wf() && (decoded(raw@, offset_to_first_extra_byte as nat)
                    matches Ok(model) && model == record@),
                Err(e) => (decoded(raw@, offset_to_first_extra_byte as nat) matches Err(refusal)
                    && refusal == e),
            },
    {
        if raw.len() != RECORD_BYTE_LENGTH {
            return Err(ExtraBytesError::WrongLength);
        }
        let data_type = match data_type_of_code(raw[2]) {
            Some(data_type) => data_type,
            None => {
                return Err(ExtraBytesError::UnsupportedDataType);
            },
        };
        let options: u8 = raw[3];
        let no_data_value = if options % 2 == 1 {
            Some(read_pattern(raw, 40))
        } else {
            None
        };
        let min_value = if (options / 2) % 2 == 1 {
            Some(read_pattern(raw, 64))
        } else {
            None
        };
        let max_value = if (options / 4) % 2 == 1 {
            Some(read_pattern(raw, 88))
        } else {
            None
        };
        let scale = if (options / 8) % 2 == 1 {
            let pattern = read_pattern(raw, 112);
            proof {
                lemma_le_value_bound(pattern@);
                lemma_pow256_values();
            }
            Some(decode_le(pattern.as_slice()))
        } else {
            None
        };
        let offset = if (options / 16) % 2 == 1 {
            let pattern = read_pattern(raw, 136);
            proof {
                lemma_le_value_bound(pattern@);
                lemma_pow256_values();
            }
            Some(decode_le(pattern.as_slice()))
        } else {
            None
        };
        let name = read_text(raw, 4);
        let description = read_text(raw, 160);
        proof {
            lemma_text_of_fits(raw@.subrange(4, 36));
            lemma_text_of_fits(raw@.subrange(160, 192));
        }
        let record = ExtraBytesRecord {
            data_type,
            offset_to_first_extra_byte,
            no_data_value,
            min_value,
            max_value,
            scale,
            offset,
            name,
            description,
        };
        Ok(record)
    }
}

/// The number that an optional pattern of eight bytes denotes, lowest byte
/// first.
pub open spec fn pattern_number(pattern: Option<Seq<u8>>) -> Option<u64> {
    match pattern {
        Some(bytes) => Some(le_value(bytes) as u64),
        None => None,
    }
}

/// The two's complement number that an optional pattern of eight bytes
/// denotes, lowest byte first.
pub open spec fn pattern_signed_number(pattern: Option<Seq<u8>>) -> Option<i64> {
    match pattern {
        Some(bytes) => Some(signed_value(bytes, ByteOrder::LittleEndian) as i64),
        None => None,
    }
}

/// Reads an optional pattern as an unsigned number.
fn pattern_as_u64(pattern: &Option<[u8; 8]>) -> (value: Option<u64>)
    ensures
        value == pattern_number(pattern_model(*pattern)),
        pattern matches Some(bytes) ==> value == Some(le_value(bytes@) as u64) && le_value(bytes@)
            <= u64::MAX,
{
    match pattern {
        Some(bytes) => {
            proof {
                lemma_le_value_bound(bytes@);
                lemma_pow256_values();
            }
            Some(decode_le(bytes.as_slice()))
        },
        None => None,
    }
}

/// Reads an optional pattern as a signed number.
fn pattern_as_i64(pattern: &Option<[u8; 8]>) -> (value: Option<i64>)
    ensures
        value == pattern_signed_number(pattern_model(*pattern)),
        pattern matches Some(bytes) ==> i64::MIN <= signed_value(
            bytes@,
            ByteOrder::LittleEndian,
        ) <= i64::MAX,
{
    match pattern {
        Some(bytes) => {
            proof {
                lemma_le_value_bound(bytes@);
                lemma_pow256_values();
                lemma_top_byte_decides_sign(bytes@);
            }
            let unsigned: u64 = decode_le(bytes.as_slice());
            if unsigned >= 0x8000_0000_0000_0000 {
                let above: i64 = (unsigned - 0x8000_0000_0000_0000) as i64;
                Some(above + i64::MIN)
            } else {
                Some(unsigned as i64)
            }
        },
        None => None,
    }
}

/// The highest of eight bytes is 128 or more exactly where the number they
/// denote is in the upper half of the 64-bit range.
proof fn lemma_top_byte_decides_sign(bytes: Seq<u8>)
    requires
        bytes.len() == 8,
    ensures
        bytes[7] >= 128 <==> le_value(bytes) >= 0x8000_0000_0000_0000,
{
    let low = bytes.take(7);
    crate::endian::lemma_le_value_push(low, bytes[7]);
    assert(low.push(bytes[7]) =~= bytes);
    lemma_le_value_bound(low);
    lemma_pow256_values();
    assert(le_value(bytes) == le_value(low) + bytes[7] as nat * 0x100_0000_0000_0000);
}

} // verus!
