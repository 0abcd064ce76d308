//! The attribute and layout model: what one point record is made of, and where
//! each of its fields lies.

use vstd::prelude::*;

pub mod attributes;

verus! {

/// The primitive and vector types a point attribute can have.
#[derive(Clone, Copy, Debug, PartialEq, Eq, Structural, Hash)]
pub enum PointAttributeDataType {
    U8,
    I8,
    U16,
    I16,
    U32,
    I32,
    U64,
    I64,
    F32,
    F64,
    Bool,
    Vec3u8,
    Vec3u16,
    Vec3f32,
    Vec3f64,
}

impl PointAttributeDataType {
    /// Number of bytes that one value of this type occupies.
    pub open spec fn spec_size(self) -> nat {
        match self {
            PointAttributeDataType::U8 => 1,
            PointAttributeDataType::I8 => 1,
            PointAttributeDataType::U16 => 2,
            PointAttributeDataType::I16 => 2,
            PointAttributeDataType::U32 => 4,
            PointAttributeDataType::I32 => 4,
            PointAttributeDataType::U64 => 8,
            PointAttributeDataType::I64 => 8,
            PointAttributeDataType::F32 => 4,
            PointAttributeDataType::F64 => 8,
            PointAttributeDataType::Bool => 1,
            PointAttributeDataType::Vec3u8 => 3,
            PointAttributeDataType::Vec3u16 => 6,
            PointAttributeDataType::Vec3f32 => 12,
            PointAttributeDataType::Vec3f64 => 24,
        }
    }

    /// True for the four three-component vector types.
    pub open spec fn spec_is_vector(self) -> bool {
        self == PointAttributeDataType::Vec3u8 || self == PointAttributeDataType::Vec3u16
            || self == PointAttributeDataType::Vec3f32 || self == PointAttributeDataType::Vec3f64
    }

    /// Number of scalar components: three for a vector, one otherwise.
    pub open spec fn spec_components(self) -> nat {
        if self.spec_is_vector() {
            3
        } else {
            1
        }
    }

    /// Natural alignment: the width of a scalar, and of one component of a
    /// vector.
    pub open spec fn spec_min_alignment(self) -> nat {
        self.spec_size() / self.spec_components()
    }

    /// The type of one component: of a vector the type of its three
    /// components, of a scalar the type itself.
    pub open spec fn spec_component(self) -> PointAttributeDataType {
        match self {
            PointAttributeDataType::Vec3u8 => PointAttributeDataType::U8,
            PointAttributeDataType::Vec3u16 => PointAttributeDataType::U16,
            PointAttributeDataType::Vec3f32 => PointAttributeDataType::F32,
            PointAttributeDataType::Vec3f64 => PointAttributeDataType::F64,
            _ => self,
        }
    }

    /// True for the signed integer types.
    pub open spec fn spec_is_signed_integer(self) -> bool {
        self == PointAttributeDataType::I8 || self == PointAttributeDataType::I16 || self
            == PointAttributeDataType::I32 || self == PointAttributeDataType::I64
    }

    /// True for the unsigned integer types.
    pub open spec fn spec_is_unsigned_integer(self) -> bool {
        self == PointAttributeDataType::U8 || self == PointAttributeDataType::U16 || self
            == PointAttributeDataType::U32 || self == PointAttributeDataType::U64
    }

    /// True for the floating-point types.
    pub open spec fn spec_is_float(self) -> bool {
        self == PointAttributeDataType::F32 || self == PointAttributeDataType::F64
    }

    /// The type of one component: of a vector the type of its three
    /// components, of a scalar the type itself.
    pub fn component(&self) -> (component: PointAttributeDataType)
        ensures
            component == self.spec_component(),
            component.spec_size() == self.spec_min_alignment(),
            !component.spec_is_vector(),
    {
        match self {
            PointAttributeDataType::Vec3u8 => PointAttributeDataType::U8,
            PointAttributeDataType::Vec3u16 => PointAttributeDataType::U16,
            PointAttributeDataType::Vec3f32 => PointAttributeDataType::F32,
            PointAttributeDataType::Vec3f64 => PointAttributeDataType::F64,
            _ => *self,
        }
    }

    /// True for the signed integer types.
    pub fn is_signed_integer(&self) -> (b: bool)
        ensures
            b == self.spec_is_signed_integer(),
    {
        match self {
            PointAttributeDataType::I8 => true,
            PointAttributeDataType::I16 => true,
            PointAttributeDataType::I32 => true,
            PointAttributeDataType::I64 => true,
            _ => false,
        }
    }

    /// True for the unsigned integer types.
    pub fn is_unsigned_integer(&self) -> (b: bool)
        ensures
            b == self.spec_is_unsigned_integer(),
    {
        match self {
            PointAttributeDataType::U8 => true,
            PointAttributeDataType::U16 => true,
            PointAttributeDataType::U32 => true,
            PointAttributeDataType::U64 => true,
            _ => false,
        }
    }

    /// True for the floating-point types.
    pub fn is_float(&self) -> (b: bool)
        ensures
            b == self.spec_is_float(),
    {
        match self {
            PointAttributeDataType::F32 => true,
            PointAttributeDataType::F64 => true,
            _ => false,
        }
    }

    /// Number of bytes that one value of this type occupies.
    pub fn size(&self) -> (bytes: u64)
        ensures
            bytes == self.spec_size(),
    {
        match self {
            PointAttributeDataType::U8 => 1,
            PointAttributeDataType::I8 => 1,
            PointAttributeDataType::U16 => 2,
            PointAttributeDataType::I16 => 2,
            PointAttributeDataType::U32 => 4,
            PointAttributeDataType::I32 => 4,
            PointAttributeDataType::U64 => 8,
            PointAttributeDataType::I64 => 8,
            PointAttributeDataType::F32 => 4,
            PointAttributeDataType::F64 => 8,
            PointAttributeDataType::Bool => 1,
            PointAttributeDataType::Vec3u8 => 3,
            PointAttributeDataType::Vec3u16 => 6,
            PointAttributeDataType::Vec3f32 => 12,
            PointAttributeDataType::Vec3f64 => 24,
        }
    }

    /// True for the four three-component vector types.
    pub fn is_vector(&self) -> (b: bool)
        ensures
            b == self.spec_is_vector(),
    {
        match self {
            PointAttributeDataType::Vec3u8 => true,
            PointAttributeDataType::Vec3u16 => true,
            PointAttributeDataType::Vec3f32 => true,
            PointAttributeDataType::Vec3f64 => true,
            _ => false,
        }
    }

    /// Natural alignment in bytes: the width of a scalar, and of one
    /// component of a vector.
    pub fn min_alignment(&self) -> (bytes: u64)
        ensures
            bytes == self.spec_min_alignment(),
            1 <= bytes <= 8,
    {
        if self.is_vector() {
            self.size() / 3
        } else {
            self.size()
        }
    }
}

/// How a field is aligned when it is added to a layout.
#[derive(Clone, Copy, Debug, PartialEq, Eq, Structural)]
pub enum FieldAlignment {
    /// The natural alignment of the field's data type.
    Default,
    /// The natural alignment, capped at the given number of bytes.
    Packed(u64),
}

impl FieldAlignment {
    /// The alignment that this policy gives a field of type `datatype`.
    pub open spec fn spec_resolve(self, datatype: PointAttributeDataType) -> nat {
        match self {
            FieldAlignment::Default => datatype.spec_min_alignment(),
            FieldAlignment::Packed(cap) => if cap < datatype.spec_min_alignment() {
                cap as nat
            } else {
                datatype.spec_min_alignment()
            },
        }
    }

    /// The alignment that this policy gives a field of type `datatype`.
    pub fn resolve(&self, datatype: PointAttributeDataType) -> (bytes: u64)
        ensures
            bytes == self.spec_resolve(datatype),
            bytes <= 8,
    {
        let natural: u64 = datatype.min_alignment();
        match self {
            FieldAlignment::Default => natural,
            FieldAlignment::Packed(cap) => if *cap < natural {
                *cap
            } else {
                natural
            },
        }
    }
}

/// The smallest multiple of `alignment` that is not below `offset`.
pub open spec fn align_to(offset: nat, alignment: nat) -> nat
    recommends
        alignment > 0,
{
    if offset % alignment == 0 {
        offset
    } else {
        (offset + alignment - offset % alignment) as nat
    }
}

/// `align_to` yields a multiple of the alignment and skips fewer than
/// `alignment` bytes.
pub proof fn lemma_align_to(offset: nat, alignment: nat)
    requires
        alignment > 0,
    ensures
        align_to(offset, alignment) % alignment == 0,
        offset <= align_to(offset, alignment) < offset + alignment,
{
    let r = offset % alignment;
    let q = offset / alignment;
    assert(offset == alignment * q + r) by {
        vstd::arithmetic::div_mod::lemma_fundamental_div_mod(offset as int, alignment as int);
    }
    if r != 0 {
        assert(align_to(offset, alignment) == (q + 1) * alignment) by (nonlinear_arith)
            requires
                offset == alignment * q + r,
                align_to(offset, alignment) == offset + alignment - r,
        ;
        vstd::arithmetic::div_mod::lemma_mod_multiples_basic((q + 1) as int, alignment as int);
    }
}

/// No multiple of the alignment lies between `offset` and
/// `align_to(offset, alignment)`.
pub proof fn lemma_align_to_least(offset: nat, alignment: nat, multiple: nat)
    requires
        alignment > 0,
        offset <= multiple,
        multiple % alignment == 0,
    ensures
        align_to(offset, alignment) <= multiple,
{
    let r = offset % alignment;
    let q = offset / alignment;
    let k = multiple / alignment;
    vstd::arithmetic::div_mod::lemma_fundamental_div_mod(offset as int, alignment as int);
    vstd::arithmetic::div_mod::lemma_fundamental_div_mod(multiple as int, alignment as int);
    if r != 0 {
        assert(k >= q + 1) by (nonlinear_arith)
            requires
                multiple == alignment * k,
                offset == alignment * q + r,
                0 < r,
                offset <= multiple,
                alignment > 0,
        ;
        assert(alignment * (q + 1) <= alignment * k) by (nonlinear_arith)
            requires
                k >= q + 1,
                alignment > 0,
        ;
        assert(align_to(offset, alignment) == alignment * (q + 1)) by (nonlinear_arith)
            requires
                offset == alignment * q + r,
                align_to(offset, alignment) == offset + alignment - r,
        ;
    }
}

/// Rounds `offset` up to the next multiple of `alignment`; `None` where that
/// multiple does not fit in 64 bits.
pub fn align_offset(offset: u64, alignment: u64) -> (aligned: Option<u64>)
    requires
        alignment > 0,
    ensures
        match aligned {
            Some(a) => a == align_to(offset as nat, alignment as nat),
            None => align_to(offset as nat, alignment as nat) > u64::MAX,
        },
{
    let rest: u64 = offset % alignment;
    if rest == 0 {
        Some(offset)
    } else {
        offset.checked_add(alignment - rest)
    }
}

/// A named, typed field of a point: its name and data type. Two definitions
/// denote the same attribute when their names agree.
#[derive(Debug)]
pub struct PointAttributeDefinition {
    name: String,
    datatype: PointAttributeDataType,
}

impl PointAttributeDefinition {
    /// The attribute's name, as a sequence of characters.
    pub closed spec fn spec_name(&self) -> Seq<char> {
        self.name@
    }

    /// The attribute's data type.
    pub closed spec fn spec_datatype(&self) -> PointAttributeDataType {
        self.datatype
    }

    /// Bytes that one value of the attribute occupies.
    pub open spec fn spec_size(&self) -> nat {
        self.spec_datatype().spec_size()
    }

    /// A user-defined attribute with the given name and data type.
    pub fn custom(name: &str, datatype: PointAttributeDataType) -> (attribute: Self)
        ensures
            attribute.spec_name() == name@,
            attribute.spec_datatype() == datatype,
    {
        PointAttributeDefinition { name: String::from_str(name), datatype }
    }

    /// The attribute's name.
    pub fn name(&self) -> (name: &str)
        ensures
            name@ == self.spec_name(),
    {
        self.name.as_str()
    }

    /// The attribute's data type.
    pub fn datatype(&self) -> (datatype: PointAttributeDataType)
        ensures
            datatype == self.spec_datatype(),
    {
        self.datatype
    }

    /// Bytes that one value of the attribute occupies.
    pub fn size(&self) -> (bytes: u64)
        ensures
            bytes == self.spec_size(),
    {
        self.datatype.size()
    }

    /// The same attribute name with another data type.
    pub fn with_custom_datatype(&self, datatype: PointAttributeDataType) -> (attribute: Self)
        ensures
            attribute.spec_name() == self.spec_name(),
            attribute.spec_datatype() == datatype,
    {
        PointAttributeDefinition { name: self.name.clone(), datatype }
    }
}

impl Clone for PointAttributeDefinition {
    fn clone(&self) -> (copy: Self)
        ensures
            copy == *self,
    {
        PointAttributeDefinition { name: self.name.clone(), datatype: self.datatype }
    }
}

/// The mathematical content of one field of a layout.
pub struct FieldModel {
    pub name: Seq<char>,
    pub datatype: PointAttributeDataType,
    pub offset: nat,
    pub alignment: nat,
}

impl FieldModel {
    /// Bytes that the field occupies.
    pub open spec fn size(self) -> nat {
        self.datatype.spec_size()
    }

    /// Offset of the first byte behind the field.
    pub open spec fn end(self) -> nat {
        self.offset + self.size()
    }
}

/// An attribute as it is placed in a layout: definition, byte offset within
/// one point record, and the alignment it was placed with.
#[derive(Debug)]
pub struct PointAttributeMember {
    name: String,
    datatype: PointAttributeDataType,
    offset: u64,
    alignment: u64,
}

impl View for PointAttributeMember {
    type V = FieldModel;

    closed spec fn view(&self) -> FieldModel {
        FieldModel {
            name: self.name@,
            datatype: self.datatype,
            offset: self.offset as nat,
            alignment: self.alignment as nat,
        }
    }
}

impl PointAttributeMember {
    /// The attribute's name.
    pub fn name(&self) -> (name: &str)
        ensures
            name@ == self@.name,
    {
        self.name.as_str()
    }

    /// The attribute's data type.
    pub fn datatype(&self) -> (datatype: PointAttributeDataType)
        ensures
            datatype == self@.datatype,
    {
        self.datatype
    }

    /// Byte offset of the attribute within one point record.
    pub fn offset(&self) -> (offset: u64)
        ensures
            offset == self@.offset,
    {
        self.offset
    }

    /// The alignment the attribute was placed with.
    pub fn alignment(&self) -> (alignment: u64)
        ensures
            alignment == self@.alignment,
    {
        self.alignment
    }

    /// Bytes that one value of the attribute occupies.
    pub fn size(&self) -> (bytes: u64)
        ensures
            bytes == self@.size(),
    {
        self.datatype.size()
    }

    /// The attribute's definition, without its placement.
    pub fn definition(&self) -> (attribute: PointAttributeDefinition)
        ensures
            attribute.spec_name() == self@.name,
            attribute.spec_datatype() == self@.datatype,
    {
        PointAttributeDefinition { name: self.name.clone(), datatype: self.datatype }
    }
}

impl Clone for PointAttributeMember {
    fn clone(&self) -> (copy: Self)
        ensures
            copy == *self,
    {
        PointAttributeMember {
            name: self.name.clone(),
            datatype: self.datatype,
            offset: self.offset,
            alignment: self.alignment,
        }
    }
}

/// Why a layout could not take another attribute.
#[derive(Clone, Copy, Debug, PartialEq, Eq, Structural)]
pub enum LayoutError {
    /// The layout already holds an attribute of that name.
    DuplicateAttribute,
    /// The alignment policy resolves to zero bytes.
    ZeroAlignment,
    /// The size of one point would no longer fit in 64 bits.
    CapacityOverflow,
}

/// Offset of the first byte behind the last field; zero without fields.
pub open spec fn packed_end(fields: Seq<FieldModel>) -> nat {
    if fields.len() == 0 {
        0
    } else {
        fields.last().end()
    }
}

/// The largest alignment among the fields; one without fields.
pub open spec fn max_alignment(fields: Seq<FieldModel>) -> nat
    decreases fields.len(),
{
    if fields.len() == 0 {
        1
    } else {
        let before = max_alignment(fields.drop_last());
        if fields.last().alignment > before {
            fields.last().alignment
        } else {
            before
        }
    }
}

/// Size of one point record: the fields and the padding between them,
/// rounded up to the largest alignment so that records can follow each other.
pub open spec fn point_size(fields: Seq<FieldModel>) -> nat {
    align_to(packed_end(fields), max_alignment(fields))
}

/// Some field has the given name.
pub open spec fn has_field(fields: Seq<FieldModel>, name: Seq<char>) -> bool {
    exists|i: int| 0 <= i < fields.len() && (#[trigger] fields[i]).name == name
}

/// Index of a field with the given name; meaningful where `has_field` holds.
pub open spec fn field_index(fields: Seq<FieldModel>, name: Seq<char>) -> int {
    choose|i: int| 0 <= i < fields.len() && (#[trigger] fields[i]).name == name
}

/// No two fields share a name.
pub open spec fn names_distinct(fields: Seq<FieldModel>) -> bool {
    forall|i: int, j: int|
        0 <= i < j < fields.len() ==> (#[trigger] fields[i]).name != (#[trigger] fields[j]).name
}

/// Every field has a positive alignment and stands at the first offset
/// behind its predecessor that its alignment divides.
pub open spec fn placed_in_order(fields: Seq<FieldModel>) -> bool
    decreases fields.len(),
{
    if fields.len() == 0 {
        true
    } else {
        &&& placed_in_order(fields.drop_last())
        &&& fields.last().alignment > 0
        &&& fields.last().offset == align_to(
            packed_end(fields.drop_last()),
            fields.last().alignment,
        )
    }
}

/// What makes a sequence of fields a layout.
pub open spec fn layout_wf(fields: Seq<FieldModel>) -> bool {
    &&& names_distinct(fields)
    &&& placed_in_order(fields)
    &&& point_size(fields) <= u64::MAX
}

/// The field that `add_attribute` appends to `fields`.
pub open spec fn placed_field(
    fields: Seq<FieldModel>,
    name: Seq<char>,
    datatype: PointAttributeDataType,
    alignment: FieldAlignment,
) -> FieldModel {
    FieldModel {
        name,
        datatype,
        offset: align_to(packed_end(fields), alignment.spec_resolve(datatype)),
        alignment: alignment.spec_resolve(datatype),
    }
}

/// Whether, and why not, `fields` can take an attribute.
pub open spec fn add_attribute_outcome(
    fields: Seq<FieldModel>,
    name: Seq<char>,
    datatype: PointAttributeDataType,
    alignment: FieldAlignment,
) -> Result<(), LayoutError> {
    if has_field(fields, name) {
        Err(LayoutError::DuplicateAttribute)
    } else if alignment.spec_resolve(datatype) == 0 {
        Err(LayoutError::ZeroAlignment)
    } else if point_size(fields.push(placed_field(fields, name, datatype, alignment)))
        > u64::MAX {
        Err(LayoutError::CapacityOverflow)
    } else {
        Ok(())
    }
}

/// In a layout a name determines its field.
pub proof fn lemma_field_index_unique(fields: Seq<FieldModel>, i: int)
    requires
        names_distinct(fields),
        0 <= i < fields.len(),
    ensures
        has_field(fields, fields[i].name),
        field_index(fields, fields[i].name) == i,
{
    let j = field_index(fields, fields[i].name);
    assert(0 <= j < fields.len() && fields[j].name == fields[i].name);
    if j < i {
        assert(fields[j].name != fields[i].name);
    } else if i < j {
        assert(fields[i].name != fields[j].name);
    }
}

/// The largest alignment is positive, bounds every field's alignment, and is
/// one of them unless there is no field.
pub proof fn lemma_max_alignment(fields: Seq<FieldModel>)
    ensures
        max_alignment(fields) >= 1,
        forall|i: int| 0 <= i < fields.len() ==> (#[trigger] fields[i]).alignment <= max_alignment(fields),
        fields.len() == 0 ==> max_alignment(fields) == 1,
    decreases fields.len(),
{
    if fields.len() > 0 {
        let before = fields.drop_last();
        lemma_max_alignment(before);
        assert forall|i: int| 0 <= i < fields.len() implies (#[trigger] fields[i]).alignment
            <= max_alignment(fields) by {
            if i < fields.len() - 1 {
                assert(fields[i] == before[i]);
            }
        }
    }
}

/// In a layout every field starts at an offset that its alignment divides, a
/// field ends before the next one starts, so that offsets never decrease and
/// no two fields overlap, and every field lies within the point size.
pub proof fn lemma_fields_aligned_and_disjoint(fields: Seq<FieldModel>)
    requires
        placed_in_order(fields),
    ensures
        forall|i: int|
            0 <= i < fields.len() ==> (#[trigger] fields[i]).alignment > 0 && fields[i].offset
                % fields[i].alignment == 0,
        forall|i: int, j: int|
            0 <= i < j < fields.len() ==> (#[trigger] fields[i]).end() <= (#[trigger] fields[j]).offset,
        forall|i: int| 0 <= i < fields.len() ==> (#[trigger] fields[i]).end() <= packed_end(fields),
        packed_end(fields) <= point_size(fields),
        point_size(fields) % max_alignment(fields) == 0,
    decreases fields.len(),
{
    lemma_max_alignment(fields);
    lemma_align_to(packed_end(fields), max_alignment(fields));
    if fields.len() > 0 {
        let before = fields.drop_last();
        let last = fields.last();
        lemma_fields_aligned_and_disjoint(before);
        lemma_align_to(packed_end(before), last.alignment);
        assert forall|i: int| 0 <= i < fields.len() implies (#[trigger] fields[i]).alignment > 0
            && fields[i].offset % fields[i].alignment == 0 by {
            if i < fields.len() - 1 {
                assert(fields[i] == before[i]);
            }
        }
        assert forall|i: int| 0 <= i < fields.len() implies (#[trigger] fields[i]).end()
            <= packed_end(fields) by {
            if i < fields.len() - 1 {
                assert(fields[i] == before[i]);
            }
        }
        assert forall|i: int, j: int| 0 <= i < j < fields.len() implies (#[trigger] fields[i]).end()
            <= (#[trigger] fields[j]).offset by {
            assert(fields[i] == before[i]);
            if j < fields.len() - 1 {
                assert(fields[j] == before[j]);
            }
        }
    }
}

/// The fields of one point record, in the order they were added, each with
/// its offset and alignment.
#[derive(Debug)]
pub struct PointLayout {
    attributes: Vec<PointAttributeMember>,
    packed_end: u64,
    max_alignment: u64,
    point_size: u64,
}

impl View for PointLayout {
    type V = Seq<FieldModel>;

    closed spec fn view(&self) -> Seq<FieldModel> {
        self.attributes@.map_values(|m: PointAttributeMember| m@)
    }
}

impl PointLayout {
    /// The layout's invariant: its fields form a layout, and the sizes it
    /// keeps are those of its fields.
    pub closed spec fn wf(&self) -> bool {
        &&& layout_wf(self@)
        &&& self.packed_end == packed_end(self@)
        &&& self.max_alignment == max_alignment(self@)
        &&& self.point_size == point_size(self@)
    }

    /// A well-formed layout holds a layout of fields.
    pub proof fn lemma_wf(&self)
        requires
            self.wf(),
        ensures
            layout_wf(self@),
    {
    }

    /// In every layout each attribute starts at an offset that its
    /// alignment divides, the attributes follow each other without overlap,
    /// and all of them lie within the size of one point.
    pub proof fn lemma_attributes_aligned_and_disjoint(&self)
        requires
            self.wf(),
        ensures
            forall|i: int|
                0 <= i < self@.len() ==> (#[trigger] self@[i]).alignment > 0 && self@[i].offset
                    % self@[i].alignment == 0,
            forall|i: int, j: int|
                0 <= i < j < self@.len() ==> (#[trigger] self@[i]).end() <= (
                #[trigger] self@[j]).offset,
            forall|i: int| 0 <= i < self@.len() ==> (#[trigger] self@[i]).end() <= point_size(self@),
    {
        lemma_fields_aligned_and_disjoint(self@);
    }

    /// Bytes of one point record.
    pub open spec fn spec_size_of_point_entry(&self) -> nat {
        point_size(self@)
    }

    /// The layout without attributes.
    pub fn new() -> (layout: Self)
        ensures
            layout.wf(),
            layout@ == Seq::<FieldModel>::empty(),
    {
        let layout = PointLayout {
            attributes: Vec::new(),
            packed_end: 0,
            max_alignment: 1,
            point_size: 0,
        };
        assert(layout@ =~= Seq::<FieldModel>::empty());
        layout
    }

    /// Number of attributes.
    pub fn len(&self) -> (count: usize)
        ensures
            count == self@.len(),
    {
        self.attributes.len()
    }

    /// The attributes in the order they were added.
    pub fn attributes(&self) -> (members: &Vec<PointAttributeMember>)
        ensures
            members@.len() == self@.len(),
            forall|i: int| 0 <= i < members@.len() ==> (#[trigger] members@[i])@ == self@[i],
    {
        &self.attributes
    }

    /// The attribute at position `index` in the order of addition.
    pub fn attribute_at(&self, index: usize) -> (member: &PointAttributeMember)
        requires
            index < self@.len(),
        ensures
            member@ == self@[index as int],
    {
        &self.attributes[index]
    }

    /// Bytes of one point record, padding included.
    pub fn size_of_point_entry(&self) -> (bytes: u64)
        requires
            self.wf(),
        ensures
            bytes == point_size(self@),
    {
        self.point_size
    }

    /// Position of the attribute called `name`, if the layout has one.
    pub fn index_of(&self, name: &str) -> (index: Option<usize>)
        requires
            self.wf(),
        ensures
            index is Some <==> has_field(self@, name@),
            index matches Some(i) ==> i == field_index(self@, name@) && i < self@.len()
                && self@[i as int].name == name@,
    {
        let wanted = String::from_str(name);
        let mut i: usize = 0;
        while i < self.attributes.len()
            invariant
                self.wf(),
                i <= self.attributes@.len(),
                wanted@ == name@,
                forall|k: int| 0 <= k < i ==> (#[trigger] self@[k]).name != name@,
            decreases self.attributes@.len() - i,
        {
            if self.attributes[i].name == wanted {
                proof {
                    lemma_field_index_unique(self@, i as int);
                }
                return Some(i);
            }
            i += 1;
        }
        None
    }

    /// The attribute called `name`, or `None` where the layout has none.
    pub fn get_attribute_by_name(&self, name: &str) -> (member: Option<&PointAttributeMember>)
        requires
            self.wf(),
        ensures
            member is Some <==> has_field(self@, name@),
            member matches Some(m) ==> m@ == self@[field_index(self@, name@)],
    {
        match self.index_of(name) {
            Some(i) => Some(&self.attributes[i]),
            None => None,
        }
    }

    /// True where the layout holds an attribute called `name`.
    pub fn has_attribute_with_name(&self, name: &str) -> (found: bool)
        requires
            self.wf(),
        ensures
            found == has_field(self@, name@),
    {
        self.index_of(name).is_some()
    }

    /// True where the layout holds `attribute` with the same data type.
    pub fn has_attribute(&self, attribute: &PointAttributeDefinition) -> (found: bool)
        requires
            self.wf(),
        ensures
            found == (has_field(self@, attribute.spec_name()) && self@[field_index(
                self@,
                attribute.spec_name(),
            )].datatype == attribute.spec_datatype()),
    {
        match self.index_of(attribute.name()) {
            Some(i) => self.attributes[i].datatype == attribute.datatype(),
            None => false,
        }
    }

    /// Byte offset of the attribute called `name` within one point record.
    pub fn offset_of(&self, name: &str) -> (offset: Option<u64>)
        requires
            self.wf(),
        ensures
            offset is Some <==> has_field(self@, name@),
            offset matches Some(o) ==> o == self@[field_index(self@, name@)].offset,
    {
        match self.index_of(name) {
            Some(i) => Some(self.attributes[i].offset),
            None => None,
        }
    }

    /// Appends `attribute` behind the present fields, at the first offset
    /// that the resolved alignment divides. Refuses a name that the layout
    /// already holds, an alignment of zero, and a point size beyond 64 bits;
    /// a refused call leaves the layout as it was.
    pub fn add_attribute(
        &mut self,
        attribute: PointAttributeDefinition,
        alignment: FieldAlignment,
    ) -> (result: Result<(), LayoutError>)
        requires
            old(self).wf(),
        ensures
            final(self).wf(),
            result == add_attribute_outcome(
                old(self)@,
                attribute.spec_name(),
                attribute.spec_datatype(),
                alignment,
            ),
            result is Ok ==> final(self)@ == old(self)@.push(
                placed_field(
                    old(self)@,
                    attribute.spec_name(),
                    attribute.spec_datatype(),
                    alignment,
                ),
            ),
            result is Err ==> final(self)@ == old(self)@,
    {
        let ghost before = self@;
        let ghost field = placed_field(
            before,
            attribute.spec_name(),
            attribute.spec_datatype(),
            alignment,
        );
        let ghost after = before.push(field);
        if self.has_attribute_with_name(attribute.name()) {
            return Err(LayoutError::DuplicateAttribute);
        }
        let datatype = attribute.datatype();
        let field_alignment: u64 = alignment.resolve(datatype);
        if field_alignment == 0 {
            return Err(LayoutError::ZeroAlignment);
        }
        proof {
            assert(after.drop_last() =~= before);
            lemma_max_alignment(before);
            lemma_max_alignment(after);
            lemma_align_to(packed_end(before), field.alignment);
            lemma_align_to(packed_end(after), max_alignment(after));
        }
        let offset: u64 = match align_offset(self.packed_end, field_alignment) {
            Some(o) => o,
            None => {
                return Err(LayoutError::CapacityOverflow);
            },
        };
        let end: u64 = match offset.checked_add(datatype.size()) {
            Some(e) => e,
            None => {
                return Err(LayoutError::CapacityOverflow);
            },
        };
        let largest: u64 = if field_alignment > self.max_alignment {
            field_alignment
        } else {
            self.max_alignment
        };
        let size: u64 = match align_offset(end, largest) {
            Some(s) => s,
            None => {
                return Err(LayoutError::CapacityOverflow);
            },
        };
        let PointAttributeDefinition { name, datatype } = attribute;
        self.attributes.push(PointAttributeMember { name, datatype, offset, alignment: field_alignment });
        self.packed_end = end;
        self.max_alignment = largest;
        self.point_size = size;
        proof {
            assert(self@ =~= after);
            assert forall|i: int, j: int| 0 <= i < j < after.len() implies (#[trigger] after[i]).name
                != (#[trigger] after[j]).name by {
                assert(after[i] == before[i]);
                if j < before.len() {
                    assert(after[j] == before[j]);
                }
            }
        }
        Ok(())
    }

    /// The layout that holds `attributes` in the given order, each at its
    /// natural alignment. Fails with the first refusal that adding them one
    /// by one meets.
    pub fn from_attributes(attributes: &[PointAttributeDefinition]) -> (result: Result<
        Self,
        LayoutError,
    >)
        ensures
            match result {
                Ok(layout) => layout.wf() && (layout_of(attributes@) matches Ok(fields) && fields
                    == layout@),
                Err(e) => (layout_of(attributes@) matches Err(refusal) && refusal == e),
            },
    {
        let mut layout = PointLayout::new();
        let mut i: usize = 0;
        assert(attributes@.take(0) =~= Seq::<PointAttributeDefinition>::empty());
        while i < attributes.len()
            invariant
                i <= attributes@.len(),
                layout.wf(),
                layout_of(attributes@.take(i as int)) matches Ok(fields) && fields == layout@,
            decreases attributes@.len() - i,
        {
            proof {
                assert(attributes@.take(i + 1).drop_last() =~= attributes@.take(i as int));
            }
            match layout.add_attribute(attributes[i].clone(), FieldAlignment::Default) {
                Ok(()) => {},
                Err(e) => {
                    proof {
                        lemma_layout_of_error(attributes@, i + 1);
                    }
                    return Err(e);
                },
            }
            i += 1;
        }
        assert(attributes@.take(i as int) =~= attributes@);
        Ok(layout)
    }

    /// True where both layouts hold the same fields at the same places.
    pub fn equals(&self, other: &PointLayout) -> (same: bool)
        ensures
            same == (self@ == other@),
    {
        if self.attributes.len() != other.attributes.len() {
            assert(self@.len() != other@.len());
            return false;
        }
        let mut i: usize = 0;
        while i < self.attributes.len()
            invariant
                i <= self.attributes@.len(),
                self.attributes@.len() == other.attributes@.len(),
                forall|k: int| 0 <= k < i ==> (#[trigger] self@[k]) == other@[k],
            decreases self.attributes@.len() - i,
        {
            let a = &self.attributes[i];
            let b = &other.attributes[i];
            if !(a.name == b.name && a.datatype == b.datatype && a.offset == b.offset
                && a.alignment == b.alignment) {
                assert(self@[i as int] != other@[i as int]);
                return false;
            }
            i += 1;
        }
        assert(self@ =~= other@);
        true
    }
}

/// The fields that adding `attributes` one by one at their natural alignment
/// gives, or the first refusal met on the way.
pub open spec fn layout_of(attributes: Seq<PointAttributeDefinition>) -> Result<
    Seq<FieldModel>,
    LayoutError,
>
    decreases attributes.len(),
{
    if attributes.len() == 0 {
        Ok(Seq::empty())
    } else {
        let last = attributes.last();
        match layout_of(attributes.drop_last()) {
            Err(e) => Err(e),
            Ok(fields) => match add_attribute_outcome(
                fields,
                last.spec_name(),
                last.spec_datatype(),
                FieldAlignment::Default,
            ) {
                Err(e) => Err(e),
                Ok(_) => Ok(
                    fields.push(
                        placed_field(
                            fields,
                            last.spec_name(),
                            last.spec_datatype(),
                            FieldAlignment::Default,
                        ),
                    ),
                ),
            },
        }
    }
}

/// A refusal met on a prefix of the attributes is the refusal of the whole.
proof fn lemma_layout_of_error(attributes: Seq<PointAttributeDefinition>, prefix: int)
    requires
        0 <= prefix <= attributes.len(),
        layout_of(attributes.take(prefix)) is Err,
    ensures
        layout_of(attributes) == layout_of(attributes.take(prefix)),
    decreases attributes.len() - prefix,
{
    if prefix < attributes.len() {
        assert(attributes.take(prefix + 1).drop_last() =~= attributes.take(prefix));
        lemma_layout_of_error(attributes, prefix + 1);
    } else {
        assert(attributes.take(prefix) =~= attributes);
    }
}

impl Default for PointLayout {
    fn default() -> (layout: Self)
        ensures
            layout.wf(),
            layout@ == Seq::<FieldModel>::empty(),
    {
        PointLayout::new()
    }
}

impl Clone for PointLayout {
    fn clone(&self) -> (copy: Self)
        ensures
            copy@ == self@,
            self.wf() ==> copy.wf(),
    {
        let mut attributes: Vec<PointAttributeMember> = Vec::new();
        let mut i: usize = 0;
        while i < self.attributes.len()
            invariant
                i <= self.attributes@.len(),
                attributes@.len() == i,
                forall|k: int| 0 <= k < i ==> attributes@[k] == self.attributes@[k],
            decreases self.attributes@.len() - i,
        {
            attributes.push(self.attributes[i].clone());
            i += 1;
        }
        let copy = PointLayout {
            attributes,
            packed_end: self.packed_end,
            max_alignment: self.max_alignment,
            point_size: self.point_size,
        };
        assert(copy@ =~= self@);
        copy
    }
}

} // verus!
