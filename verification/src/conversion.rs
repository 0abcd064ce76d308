//! Conversions between attribute data types, one value at a time, on bytes.

use crate::chunks::{chunk, lemma_chunk_bounds, lemma_chunk_of_splice, lemma_chunks_determine};
use crate::endian::{
    lemma_extend_then_truncate, lemma_extension_keeps_value, lemma_ordered_bytes,
    lemma_pow256_values, lemma_truncation_keeps_remainder, native_byte_order, ordered_bytes,
    pow256, read_unsigned, resize_integer, resized_integer, signed_value, unsigned_value,
    write_unsigned, ByteOrder,
};
use crate::ieee::{
    double_from_single, double_is_finite, double_scaled, double_to_single,
    lemma_narrowed_is_settled, lemma_narrowing_rounds_to_nearest,
    lemma_narrowing_undoes_widening, lemma_single_from_unsigned, lemma_widening_keeps_value,
    narrowing_spacing, single_from_double, single_from_unsigned, single_is_finite,
    single_is_nan, single_scaled, single_settled, single_to_double, unsigned_to_single,
};
use crate::layout::{PointAttributeDataType, PointAttributeDefinition};
use vstd::arithmetic::power2::pow2;
use vstd::prelude::*;

verus! {

/// How one component of a value is converted.
#[derive(Clone, Copy, Debug, PartialEq, Eq, Structural)]
pub enum ComponentConversion {
    /// An integer or boolean becomes an integer of another width or sign.
    Resize,
    /// A 32-bit float becomes a 64-bit float.
    Widen,
    /// A 64-bit float becomes a 32-bit float.
    Narrow,
    /// An unsigned integer of 8 or 16 bits becomes a 32-bit float.
    FromUnsigned,
}

/// The conversion from a component of type `from` to one of type `to`, if
/// there is one: between the integers, from the boolean to the integers,
/// between the two floats, and from the small unsigned integers to the
/// 32-bit float.
pub open spec fn component_conversion(
    from: PointAttributeDataType,
    to: PointAttributeDataType,
) -> Option<ComponentConversion> {
    if from == to {
        None
    } else if (from.spec_is_signed_integer() || from.spec_is_unsigned_integer() || from
        == PointAttributeDataType::Bool) && (to.spec_is_signed_integer()
        || to.spec_is_unsigned_integer()) {
        Some(ComponentConversion::Resize)
    } else if from == PointAttributeDataType::F32 && to == PointAttributeDataType::F64 {
        Some(ComponentConversion::Widen)
    } else if from == PointAttributeDataType::F64 && to == PointAttributeDataType::F32 {
        Some(ComponentConversion::Narrow)
    } else if (from == PointAttributeDataType::U8 || from == PointAttributeDataType::U16) && to
        == PointAttributeDataType::F32 {
        Some(ComponentConversion::FromUnsigned)
    } else {
        None
    }
}

/// The pairs of distinct types for which a conversion function exists:
/// scalars among each other and vectors among each other, where their
/// components convert.
pub open spec fn conversion_supported(
    from: PointAttributeDataType,
    to: PointAttributeDataType,
) -> bool {
    &&& from != to
    &&& from.spec_is_vector() == to.spec_is_vector()
    &&& component_conversion(from.spec_component(), to.spec_component()) is Some
}

/// One component as a component of `target_width` bytes: an integer extended
/// by its sign or cut down to its low bytes, a float as the same number in
/// the wider format or as the nearest number of the narrower one, an
/// unsigned integer as the float of the same number.
pub open spec fn converted_component(
    component: Seq<u8>,
    conversion: ComponentConversion,
    target_width: nat,
    signed: bool,
    order: ByteOrder,
) -> Seq<u8> {
    match conversion {
        ComponentConversion::Resize => resized_integer(component, target_width, signed, order),
        ComponentConversion::Widen => ordered_bytes(
            double_from_single(unsigned_value(component, order)),
            8,
            order,
        ),
        ComponentConversion::Narrow => ordered_bytes(
            single_from_double(unsigned_value(component, order)),
            4,
            order,
        ),
        ComponentConversion::FromUnsigned => ordered_bytes(
            single_from_unsigned(unsigned_value(component, order)),
            4,
            order,
        ),
    }
}

/// The value `source` of type `from` as a value of type `to`, component by
/// component.
pub open spec fn converted(
    source: Seq<u8>,
    from: PointAttributeDataType,
    to: PointAttributeDataType,
    order: ByteOrder,
) -> Seq<u8> {
    let conversion = component_conversion(from.spec_component(), to.spec_component()).unwrap();
    let width = from.spec_component().spec_size() as int;
    let target_width = to.spec_component().spec_size();
    let signed = from.spec_component().spec_is_signed_integer();
    if from.spec_is_vector() {
        converted_component(source.subrange(0, width), conversion, target_width, signed, order)
            + converted_component(
            source.subrange(width, 2 * width),
            conversion,
            target_width,
            signed,
            order,
        ) + converted_component(
            source.subrange(2 * width, 3 * width),
            conversion,
            target_width,
            signed,
            order,
        )
    } else {
        converted_component(source, conversion, target_width, signed, order)
    }
}

/// The widths of the components fit the conversion.
pub open spec fn widths_fit(conversion: ComponentConversion, width: nat, target_width: nat) -> bool {
    match conversion {
        ComponentConversion::Resize => 1 <= width <= 8 && 1 <= target_width <= 8,
        ComponentConversion::Widen => width == 4 && target_width == 8,
        ComponentConversion::Narrow => width == 8 && target_width == 4,
        ComponentConversion::FromUnsigned => 1 <= width <= 2 && target_width == 4,
    }
}

/// A converted component has the width of the target.
pub proof fn lemma_converted_component_len(
    component: Seq<u8>,
    conversion: ComponentConversion,
    target_width: nat,
    signed: bool,
    order: ByteOrder,
)
    requires
        widths_fit(conversion, component.len(), target_width),
    ensures
        converted_component(component, conversion, target_width, signed, order).len()
            == target_width,
{
}

/// Writes the component of `width` bytes that `source` holds from `from` on
/// into the `target_width` bytes of `target` from `at` on, converted.
fn convert_component_at(
    target: &mut [u8],
    at: usize,
    target_width: usize,
    source: &[u8],
    from: usize,
    width: usize,
    conversion: ComponentConversion,
    signed: bool,
    order: ByteOrder,
)
    requires
        widths_fit(conversion, width as nat, target_width as nat),
        at + target_width <= old(target)@.len(),
        from + width <= source@.len(),
    ensures
        final(target)@ == old(target)@.subrange(0, at as int) + converted_component(
            source@.subrange(from as int, from + width),
            conversion,
            target_width as nat,
            signed,
            order,
        ) + old(target)@.subrange(at + target_width, old(target)@.len() as int),
{
    let ghost component = source@.subrange(from as int, from + width);
    proof {
        lemma_ordered_bytes(0, component, 0, order);
        lemma_pow256_values();
    }
    match conversion {
        ComponentConversion::Resize => {
            resize_integer(target, at, target_width, source, from, width, signed, order);
        },
        ComponentConversion::Widen => {
            let bits: u64 = read_unsigned(source, from, width, order);
            let wide: u64 = single_to_double(bits as u32);
            write_unsigned(target, at, target_width, wide, order);
        },
        ComponentConversion::Narrow => {
            let bits: u64 = read_unsigned(source, from, width, order);
            let narrow: u32 = double_to_single(bits);
            write_unsigned(target, at, target_width, narrow as u64, order);
        },
        ComponentConversion::FromUnsigned => {
            let number: u64 = read_unsigned(source, from, width, order);
            proof {
                crate::endian::lemma_pow256_monotonic(width as nat, 2);
            }
            let bits: u32 = unsigned_to_single(number as u32);
            write_unsigned(target, at, target_width, bits as u64, order);
        },
    }
}

/// Writes the three components of `width` bytes each that `source` holds
/// from `from` on into `target` from `at` on, converted to components of
/// `target_width` bytes each.
fn convert_vector_at(
    target: &mut [u8],
    at: usize,
    target_width: usize,
    source: &[u8],
    from: usize,
    width: usize,
    conversion: ComponentConversion,
    order: ByteOrder,
)
    requires
        widths_fit(conversion, width as nat, target_width as nat),
        at + 3 * target_width <= old(target)@.len(),
        from + 3 * width <= source@.len(),
    ensures
        final(target)@ == old(target)@.subrange(0, at as int) + (converted_component(
            source@.subrange(from as int, from + 3 * width).subrange(0, width as int),
            conversion,
            target_width as nat,
            false,
            order,
        ) + converted_component(
            source@.subrange(from as int, from + 3 * width).subrange(width as int, 2 * width),
            conversion,
            target_width as nat,
            false,
            order,
        ) + converted_component(
            source@.subrange(from as int, from + 3 * width).subrange(2 * width, 3 * width),
            conversion,
            target_width as nat,
            false,
            order,
        )) + old(target)@.subrange(at + 3 * target_width, old(target)@.len() as int),
{
    assert(source.len() <= usize::MAX);
    assert(target.len() <= usize::MAX);
    let ghost value = source@.subrange(from as int, from + 3 * width);
    let ghost start = target@;
    let ghost first = converted_component(
        value.subrange(0, width as int),
        conversion,
        target_width as nat,
        false,
        order,
    );
    let ghost second = converted_component(
        value.subrange(width as int, 2 * width),
        conversion,
        target_width as nat,
        false,
        order,
    );
    let ghost third = converted_component(
        value.subrange(2 * width, 3 * width),
        conversion,
        target_width as nat,
        false,
        order,
    );
    proof {
        assert(value.subrange(0, width as int) =~= source@.subrange(from as int, from + width));
        assert(value.subrange(width as int, 2 * width) =~= source@.subrange(
            from + width,
            from + 2 * width,
        ));
        assert(value.subrange(2 * width, 3 * width) =~= source@.subrange(
            from + 2 * width,
            from + 3 * width,
        ));
        lemma_converted_component_len(
            value.subrange(0, width as int),
            conversion,
            target_width as nat,
            false,
            order,
        );
        lemma_converted_component_len(
            value.subrange(width as int, 2 * width),
            conversion,
            target_width as nat,
            false,
            order,
        );
        lemma_converted_component_len(
            value.subrange(2 * width, 3 * width),
            conversion,
            target_width as nat,
            false,
            order,
        );
    }
    convert_component_at(target, at, target_width, source, from, width, conversion, false, order);
    assert(target@ =~= start.subrange(0, at as int) + first + start.subrange(
        at + target_width,
        start.len() as int,
    ));
    convert_component_at(
        target,
        at + target_width,
        target_width,
        source,
        from + width,
        width,
        conversion,
        false,
        order,
    );
    assert(target@ =~= start.subrange(0, at as int) + first + second + start.subrange(
        at + 2 * target_width,
        start.len() as int,
    ));
    convert_component_at(
        target,
        at + 2 * target_width,
        target_width,
        source,
        from + 2 * width,
        width,
        conversion,
        false,
        order,
    );
    assert(target@ =~= start.subrange(0, at as int) + (first + second + third) + start.subrange(
        at + 3 * target_width,
        start.len() as int,
    ));
}

/// The conversion from a component of type `from` to one of type `to`, if
/// there is one.
pub fn find_component_conversion(from: PointAttributeDataType, to: PointAttributeDataType) -> (found:
    Option<ComponentConversion>)
    ensures
        found == component_conversion(from, to),
        found matches Some(conversion) ==> widths_fit(conversion, from.spec_size(), to.spec_size()),
{
    if from == to {
        return None;
    }
    let from_integer: bool = from.is_signed_integer() || from.is_unsigned_integer();
    let to_integer: bool = to.is_signed_integer() || to.is_unsigned_integer();
    if (from_integer || from == PointAttributeDataType::Bool) && to_integer {
        Some(ComponentConversion::Resize)
    } else if from == PointAttributeDataType::F32 && to == PointAttributeDataType::F64 {
        Some(ComponentConversion::Widen)
    } else if from == PointAttributeDataType::F64 && to == PointAttributeDataType::F32 {
        Some(ComponentConversion::Narrow)
    } else if (from == PointAttributeDataType::U8 || from == PointAttributeDataType::U16) && to
        == PointAttributeDataType::F32 {
        Some(ComponentConversion::FromUnsigned)
    } else {
        None
    }
}

/// A function from the bytes of one value to the bytes of one value of
/// another type, for a machine of a given byte order.
#[derive(Clone, Copy, Debug, PartialEq, Eq, Structural)]
pub struct AttributeConversionFn {
    from: PointAttributeDataType,
    to: PointAttributeDataType,
    order: ByteOrder,
}

impl AttributeConversionFn {
    /// The type of the values that the function takes.
    pub closed spec fn spec_source_type(&self) -> PointAttributeDataType {
        self.from
    }

    /// The type of the values that the function gives.
    pub closed spec fn spec_target_type(&self) -> PointAttributeDataType {
        self.to
    }

    /// The byte order in which the function reads and writes numbers.
    pub closed spec fn spec_byte_order(&self) -> ByteOrder {
        self.order
    }

    /// The function converts between a supported pair of types.
    pub open spec fn wf(&self) -> bool {
        conversion_supported(self.spec_source_type(), self.spec_target_type())
    }

    /// The bytes that the function gives for `source`.
    pub open spec fn spec_convert(&self, source: Seq<u8>) -> Seq<u8> {
        converted(source, self.spec_source_type(), self.spec_target_type(), self.spec_byte_order())
    }

    /// The type of the values that the function takes.
    pub fn source_type(&self) -> (datatype: PointAttributeDataType)
        ensures
            datatype == self.spec_source_type(),
    {
        self.from
    }

    /// The type of the values that the function gives.
    pub fn target_type(&self) -> (datatype: PointAttributeDataType)
        ensures
            datatype == self.spec_target_type(),
    {
        self.to
    }

    /// The byte order in which the function reads and writes numbers.
    pub fn byte_order(&self) -> (order: ByteOrder)
        ensures
            order == self.spec_byte_order(),
    {
        self.order
    }

    /// Converts the value that starts at `from` in `source` into the bytes
    /// of `target` from `at` on.
    pub fn convert_at(&self, source: &[u8], from: usize, target: &mut [u8], at: usize)
        requires
            self.wf(),
            from + self.spec_source_type().spec_size() <= source@.len(),
            at + self.spec_target_type().spec_size() <= old(target)@.len(),
        ensures
            final(target)@ == old(target)@.subrange(0, at as int) + self.spec_convert(
                source@.subrange(from as int, from + self.spec_source_type().spec_size()),
            ) + old(target)@.subrange(
                at + self.spec_target_type().spec_size(),
                old(target)@.len() as int,
            ),
    {
        let component = self.from.component();
        let target_component = self.to.component();
        let width: usize = component.size() as usize;
        let target_width: usize = target_component.size() as usize;
        let conversion = find_component_conversion(component, target_component).unwrap();
        if self.from.is_vector() {
            convert_vector_at(target, at, target_width, source, from, width, conversion, self.order);
        } else {
            let signed: bool = component.is_signed_integer();
            convert_component_at(
                target,
                at,
                target_width,
                source,
                from,
                width,
                conversion,
                signed,
                self.order,
            );
        }
    }

    /// Converts the one value in `source` into `target`, which the caller
    /// provides in the size of the target type.
    pub fn convert(&self, source: &[u8], target: &mut [u8])
        requires
            self.wf(),
            source@.len() == self.spec_source_type().spec_size(),
            old(target)@.len() == self.spec_target_type().spec_size(),
        ensures
            final(target)@ == self.spec_convert(source@),
    {
        self.convert_at(source, 0, target, 0);
        assert(source@.subrange(0, source@.len() as int) =~= source@);
        assert(target@ =~= self.spec_convert(source@));
    }

    /// Converts the `count` values in `source`, one after the other, into
    /// `target`, which the caller provides in the size of as many values of
    /// the target type.
    pub fn convert_range(&self, source: &[u8], count: usize, target: &mut [u8])
        requires
            self.wf(),
            source@.len() == count * self.spec_source_type().spec_size(),
            old(target)@.len() == count * self.spec_target_type().spec_size(),
        ensures
            final(target)@.len() == old(target)@.len(),
            forall|p: int|
                0 <= p < count ==> #[trigger] chunk(
                    final(target)@,
                    p,
                    self.spec_target_type().spec_size(),
                ) == self.spec_convert(chunk(source@, p, self.spec_source_type().spec_size())),
    {
        let width: usize = self.from.size() as usize;
        let target_width: usize = self.to.size() as usize;
        let source_len: usize = source.len();
        let target_len: usize = target.len();
        let mut p: usize = 0;
        let mut from: usize = 0;
        let mut at: usize = 0;
        while p < count
            invariant
                self.wf(),
                p <= count,
                width == self.spec_source_type().spec_size(),
                target_width == self.spec_target_type().spec_size(),
                source_len == source@.len(),
                target_len == target@.len(),
                source_len == count * width,
                target_len == count * target_width,
                from == p * width,
                at == p * target_width,
                forall|q: int|
                    0 <= q < p ==> #[trigger] chunk(target@, q, target_width as nat)
                        == self.spec_convert(chunk(source@, q, width as nat)),
            decreases count - p,
        {
            proof {
                lemma_chunk_bounds(p as int, width as nat, count as nat);
                lemma_chunk_bounds(p as int, target_width as nat, count as nat);
            }
            let ghost before = target@;
            self.convert_at(source, from, target, at);
            proof {
                let value = self.spec_convert(chunk(source@, p as int, width as nat));
                assert(value.len() == target_width) by {
                    lemma_converted_len(
                        chunk(source@, p as int, width as nat),
                        self.from,
                        self.to,
                        self.order,
                    );
                }
                assert((p + 1 - p) * target_width == target_width) by (nonlinear_arith);
                assert forall|q: int| 0 <= q < p + 1 implies #[trigger] chunk(
                    target@,
                    q,
                    target_width as nat,
                ) == self.spec_convert(chunk(source@, q, width as nat)) by {
                    lemma_chunk_of_splice(
                        before,
                        value,
                        target_width as nat,
                        count as nat,
                        p as int,
                        p + 1,
                        q,
                    );
                    if q == p {
                        assert(chunk(value, 0, target_width as nat) =~= value);
                    }
                }
            }
            from += width;
            at += target_width;
            p += 1;
        }
    }
}

/// A converted value has the size of the target type.
pub proof fn lemma_converted_len(
    source: Seq<u8>,
    from: PointAttributeDataType,
    to: PointAttributeDataType,
    order: ByteOrder,
)
    requires
        conversion_supported(from, to),
        source.len() == from.spec_size(),
    ensures
        converted(source, from, to, order).len() == to.spec_size(),
{
}

/// What a lookup of a conversion between two types gives.
#[derive(Clone, Copy, Debug, PartialEq, Eq, Structural)]
pub enum AttributeConversion {
    /// The types agree: the bytes are taken as they are.
    Identity,
    /// The types differ and this function converts between them.
    Function(AttributeConversionFn),
    /// No conversion between the types is available.
    Unavailable,
}

/// The conversion from `from` to `to` on a machine of the given byte order.
pub open spec fn conversion_between(
    from: PointAttributeDataType,
    to: PointAttributeDataType,
    order: ByteOrder,
    conversion: AttributeConversion,
) -> bool {
    if from == to {
        conversion == AttributeConversion::Identity
    } else if conversion_supported(from, to) {
        conversion matches AttributeConversion::Function(f) && f.spec_source_type() == from
            && f.spec_target_type() == to && f.spec_byte_order() == order
    } else {
        conversion == AttributeConversion::Unavailable
    }
}

/// Looks up the conversion from values of type `from` to values of type `to`
/// for a machine of the given byte order.
pub fn get_converter(
    from: PointAttributeDataType,
    to: PointAttributeDataType,
    order: ByteOrder,
) -> (conversion: AttributeConversion)
    ensures
        conversion_between(from, to, order, conversion),
{
    if from == to {
        return AttributeConversion::Identity;
    }
    if from.is_vector() == to.is_vector() && find_component_conversion(
        from.component(),
        to.component(),
    ).is_some() {
        AttributeConversion::Function(AttributeConversionFn { from, to, order })
    } else {
        AttributeConversion::Unavailable
    }
}

/// Looks up the conversion from the data type of `from_attribute` to that of
/// `to_attribute`, two definitions of one attribute, for the machine that
/// runs this code, whichever byte order it has.
pub fn get_converter_for_attributes(
    from_attribute: &PointAttributeDefinition,
    to_attribute: &PointAttributeDefinition,
) -> (conversion: AttributeConversion)
    requires
        from_attribute.spec_name() == to_attribute.spec_name(),
    ensures
        conversion_between(
            from_attribute.spec_datatype(),
            to_attribute.spec_datatype(),
            ByteOrder::LittleEndian,
            conversion,
        ) || conversion_between(
            from_attribute.spec_datatype(),
            to_attribute.spec_datatype(),
            ByteOrder::BigEndian,
            conversion,
        ),
{
    get_converter(from_attribute.datatype(), to_attribute.datatype(), native_byte_order())
}

/// A converted value is its converted components, one behind the other.
pub proof fn lemma_converted_by_component(
    source: Seq<u8>,
    from: PointAttributeDataType,
    to: PointAttributeDataType,
    order: ByteOrder,
    component: int,
)
    requires
        conversion_supported(from, to),
        source.len() == from.spec_size(),
        0 <= component < from.spec_components(),
    ensures
        to.spec_components() == from.spec_components(),
        from.spec_size() == from.spec_components() * from.spec_component().spec_size(),
        to.spec_size() == to.spec_components() * to.spec_component().spec_size(),
        widths_fit(
            component_conversion(from.spec_component(), to.spec_component()).unwrap(),
            from.spec_component().spec_size(),
            to.spec_component().spec_size(),
        ),
        converted(source, from, to, order).len() == to.spec_size(),
        chunk(converted(source, from, to, order), component, to.spec_component().spec_size())
            == converted_component(
            chunk(source, component, from.spec_component().spec_size()),
            component_conversion(from.spec_component(), to.spec_component()).unwrap(),
            to.spec_component().spec_size(),
            from.spec_component().spec_is_signed_integer(),
            order,
        ),
{
    let conversion = component_conversion(from.spec_component(), to.spec_component()).unwrap();
    let width = from.spec_component().spec_size() as int;
    let target_width = to.spec_component().spec_size();
    let signed = from.spec_component().spec_is_signed_integer();
    let all = converted(source, from, to, order);
    if from.spec_is_vector() {
        let first = converted_component(
            source.subrange(0, width),
            conversion,
            target_width,
            signed,
            order,
        );
        let second = converted_component(
            source.subrange(width, 2 * width),
            conversion,
            target_width,
            signed,
            order,
        );
        let third = converted_component(
            source.subrange(2 * width, 3 * width),
            conversion,
            target_width,
            signed,
            order,
        );
        lemma_converted_component_len(
            source.subrange(0, width),
            conversion,
            target_width,
            signed,
            order,
        );
        lemma_converted_component_len(
            source.subrange(width, 2 * width),
            conversion,
            target_width,
            signed,
            order,
        );
        lemma_converted_component_len(
            source.subrange(2 * width, 3 * width),
            conversion,
            target_width,
            signed,
            order,
        );
        assert(all == first + second + third);
        if component == 0 {
            assert(chunk(source, 0, width as nat) =~= source.subrange(0, width));
            assert(chunk(all, 0, target_width) =~= first);
        } else if component == 1 {
            assert(chunk(source, 1, width as nat) =~= source.subrange(width, 2 * width));
            assert(chunk(all, 1, target_width) =~= second);
        } else {
            assert(chunk(source, 2, width as nat) =~= source.subrange(2 * width, 3 * width));
            assert(chunk(all, 2, target_width) =~= third);
        }
    } else {
        assert(from.spec_component() == from);
        assert(to.spec_component() == to);
        lemma_converted_component_len(source, conversion, target_width, signed, order);
        assert(0 * width == 0 && (0 + 1) * width == width);
        assert(chunk(source, 0, width as nat) =~= source);
        assert(chunk(all, 0, target_width) =~= all);
    }
}

/// The bits of a converted float are the converted bits: the bytes that a
/// conversion to or from a float gives denote, as an unsigned number, what
/// the conversion of patterns makes of the number that the source's bytes
/// denote.
pub proof fn lemma_float_conversion_bits(
    component: Seq<u8>,
    conversion: ComponentConversion,
    order: ByteOrder,
)
    requires
        conversion != ComponentConversion::Resize,
        widths_fit(
            conversion,
            component.len(),
            if conversion == ComponentConversion::Widen {
                8nat
            } else {
                4nat
            },
        ),
    ensures
        conversion == ComponentConversion::Widen ==> unsigned_value(
            converted_component(component, conversion, 8, false, order),
            order,
        ) == double_from_single(unsigned_value(component, order)),
        conversion == ComponentConversion::Narrow ==> unsigned_value(
            converted_component(component, conversion, 4, false, order),
            order,
        ) == single_from_double(unsigned_value(component, order)),
        conversion == ComponentConversion::FromUnsigned ==> unsigned_value(
            converted_component(component, conversion, 4, false, order),
            order,
        ) == single_from_unsigned(unsigned_value(component, order)),
        unsigned_value(component, order) < pow256(component.len()),
{
    let bits = unsigned_value(component, order);
    lemma_ordered_bytes(0, component, 0, order);
    lemma_pow256_values();
    match conversion {
        ComponentConversion::Widen => {
            lemma_widening_keeps_value(bits);
            lemma_ordered_bytes(double_from_single(bits), component, 8, order);
        },
        ComponentConversion::Narrow => {
            lemma_narrowed_is_settled(bits);
            lemma_ordered_bytes(single_from_double(bits), component, 4, order);
        },
        ComponentConversion::FromUnsigned => {
            crate::endian::lemma_pow256_monotonic(component.len(), 2);
            lemma_single_from_unsigned(bits);
            lemma_ordered_bytes(single_from_unsigned(bits), component, 4, order);
        },
        ComponentConversion::Resize => {},
    }
}

/// The value holds numbers only: none of its components is a float that
/// denotes no number.
pub open spec fn holds_numbers(
    source: Seq<u8>,
    datatype: PointAttributeDataType,
    order: ByteOrder,
) -> bool {
    datatype.spec_component() == PointAttributeDataType::F32 ==> forall|c: int|
        0 <= c < datatype.spec_components() ==> !single_is_nan(
            unsigned_value(#[trigger] chunk(source, c, 4), order),
        )
}

/// What a component is after it was converted there and back.
pub open spec fn component_round_trip(
    component: Seq<u8>,
    there: ComponentConversion,
    back: ComponentConversion,
    target_width: nat,
    signed: bool,
    back_signed: bool,
    order: ByteOrder,
) -> Seq<u8> {
    converted_component(
        converted_component(component, there, target_width, signed, order),
        back,
        component.len(),
        back_signed,
        order,
    )
}

/// A component that goes to a type of at least its width and back is the
/// component again, unless it is a float that denotes no number, which comes
/// back settled. A component that comes back from a narrower type changes no
/// more on a second trip.
pub proof fn lemma_component_round_trip(
    component: Seq<u8>,
    there: ComponentConversion,
    back: ComponentConversion,
    target_width: nat,
    signed: bool,
    back_signed: bool,
    order: ByteOrder,
)
    requires
        widths_fit(there, component.len(), target_width),
        widths_fit(back, target_width, component.len()),
        (there == ComponentConversion::Resize && back == ComponentConversion::Resize) || (there
            == ComponentConversion::Widen && back == ComponentConversion::Narrow) || (there
            == ComponentConversion::Narrow && back == ComponentConversion::Widen),
    ensures
        component_round_trip(component, there, back, target_width, signed, back_signed, order).len()
            == component.len(),
        there == ComponentConversion::Resize && component.len() <= target_width
            ==> component_round_trip(component, there, back, target_width, signed, back_signed, order)
            == component,
        there == ComponentConversion::Widen && !single_is_nan(unsigned_value(component, order))
            ==> component_round_trip(component, there, back, target_width, signed, back_signed, order)
            == component,
        component_round_trip(
            component_round_trip(component, there, back, target_width, signed, back_signed, order),
            there,
            back,
            target_width,
            signed,
            back_signed,
            order,
        ) == component_round_trip(component, there, back, target_width, signed, back_signed, order),
{
    let forth = converted_component(component, there, target_width, signed, order);
    let once = component_round_trip(component, there, back, target_width, signed, back_signed, order);
    lemma_converted_component_len(component, there, target_width, signed, order);
    lemma_converted_component_len(forth, back, component.len(), back_signed, order);
    let again = converted_component(once, there, target_width, signed, order);
    lemma_converted_component_len(once, there, target_width, signed, order);
    lemma_pow256_values();
    match there {
        ComponentConversion::Resize => {
            if component.len() <= target_width {
                lemma_extend_then_truncate(component, target_width, signed, back_signed, order);
            } else {
                lemma_extend_then_truncate(forth, component.len(), back_signed, signed, order);
            }
        },
        ComponentConversion::Widen => {
            let bits = unsigned_value(component, order);
            lemma_float_conversion_bits(component, there, order);
            lemma_float_conversion_bits(forth, back, order);
            lemma_narrowing_undoes_widening(bits);
            lemma_widening_keeps_value(bits);
            lemma_narrowed_is_settled(double_from_single(bits));
            let settled = single_settled(bits);
            assert(once == ordered_bytes(settled, 4, order));
            lemma_ordered_bytes(settled, component, 4, order);
            assert(unsigned_value(once, order) == settled);
            lemma_float_conversion_bits(once, there, order);
            lemma_float_conversion_bits(again, back, order);
            lemma_narrowing_undoes_widening(settled);
        },
        ComponentConversion::Narrow => {
            let bits = unsigned_value(component, order);
            lemma_float_conversion_bits(component, there, order);
            lemma_float_conversion_bits(forth, back, order);
            lemma_narrowed_is_settled(bits);
            let narrow = single_from_double(bits);
            lemma_widening_keeps_value(narrow);
            assert(once == ordered_bytes(double_from_single(narrow), 8, order));
            lemma_ordered_bytes(double_from_single(narrow), component, 8, order);
            lemma_float_conversion_bits(once, there, order);
            lemma_narrowing_undoes_widening(narrow);
        },
        ComponentConversion::FromUnsigned => {},
    }
}

/// The conversions between two types that convert into each other are each
/// other's way back.
pub proof fn lemma_conversions_pair_up(from: PointAttributeDataType, to: PointAttributeDataType)
    requires
        conversion_supported(from, to),
        conversion_supported(to, from),
    ensures
        ({
            let there = component_conversion(from.spec_component(), to.spec_component()).unwrap();
            let back = component_conversion(to.spec_component(), from.spec_component()).unwrap();
            (there == ComponentConversion::Resize && back == ComponentConversion::Resize) || (there
                == ComponentConversion::Widen && back == ComponentConversion::Narrow) || (there
                == ComponentConversion::Narrow && back == ComponentConversion::Widen)
        }),
{
}

/// A value that is converted to a type of at least its size and back is the
/// value again, where it holds numbers only.
pub proof fn lemma_round_trip_from_narrower(
    source: Seq<u8>,
    from: PointAttributeDataType,
    to: PointAttributeDataType,
    order: ByteOrder,
)
    requires
        conversion_supported(from, to),
        conversion_supported(to, from),
        source.len() == from.spec_size(),
        from.spec_size() <= to.spec_size(),
        holds_numbers(source, from, order),
    ensures
        converted(converted(source, from, to, order), to, from, order) == source,
{
    let there = converted(source, from, to, order);
    let back = converted(there, to, from, order);
    let width = from.spec_component().spec_size();
    let target_width = to.spec_component().spec_size();
    lemma_conversions_pair_up(from, to);
    lemma_converted_by_component(source, from, to, order, 0);
    lemma_converted_by_component(there, to, from, order, 0);
    assert forall|c: int| 0 <= c < from.spec_components() implies chunk(back, c, width) == chunk(
        source,
        c,
        width,
    ) by {
        lemma_converted_by_component(source, from, to, order, c);
        lemma_converted_by_component(there, to, from, order, c);
        lemma_chunk_bounds(c, width, from.spec_components());
        lemma_component_round_trip(
            chunk(source, c, width),
            component_conversion(from.spec_component(), to.spec_component()).unwrap(),
            component_conversion(to.spec_component(), from.spec_component()).unwrap(),
            target_width,
            from.spec_component().spec_is_signed_integer(),
            to.spec_component().spec_is_signed_integer(),
            order,
        );
    }
    lemma_chunks_determine(back, source, width, from.spec_components());
}

/// Converting a value to another type and back, twice, gives what doing so
/// once gives: what a round trip loses, it loses the first time.
pub proof fn lemma_round_trip_idempotent(
    source: Seq<u8>,
    from: PointAttributeDataType,
    to: PointAttributeDataType,
    order: ByteOrder,
)
    requires
        conversion_supported(from, to),
        conversion_supported(to, from),
        source.len() == from.spec_size(),
    ensures
        converted(
            converted(
                converted(converted(source, from, to, order), to, from, order),
                from,
                to,
                order,
            ),
            to,
            from,
            order,
        ) == converted(converted(source, from, to, order), to, from, order),
{
    let there = converted(source, from, to, order);
    let once = converted(there, to, from, order);
    let again = converted(once, from, to, order);
    let twice = converted(again, to, from, order);
    let width = from.spec_component().spec_size();
    let target_width = to.spec_component().spec_size();
    lemma_conversions_pair_up(from, to);
    lemma_converted_by_component(source, from, to, order, 0);
    lemma_converted_by_component(there, to, from, order, 0);
    lemma_converted_by_component(once, from, to, order, 0);
    lemma_converted_by_component(again, to, from, order, 0);
    assert forall|c: int| 0 <= c < from.spec_components() implies chunk(twice, c, width) == chunk(
        once,
        c,
        width,
    ) by {
        lemma_converted_by_component(source, from, to, order, c);
        lemma_converted_by_component(there, to, from, order, c);
        lemma_converted_by_component(once, from, to, order, c);
        lemma_converted_by_component(again, to, from, order, c);
        lemma_chunk_bounds(c, width, from.spec_components());
        lemma_component_round_trip(
            chunk(source, c, width),
            component_conversion(from.spec_component(), to.spec_component()).unwrap(),
            component_conversion(to.spec_component(), from.spec_component()).unwrap(),
            target_width,
            from.spec_component().spec_is_signed_integer(),
            to.spec_component().spec_is_signed_integer(),
            order,
        );
    }
    lemma_chunks_determine(twice, once, width, from.spec_components());
}

/// An integer or boolean that is converted to an integer of at least its
/// size keeps its number: its two's complement number where the source is
/// signed, its unsigned number where it is not.
pub proof fn lemma_widening_keeps_number(
    source: Seq<u8>,
    from: PointAttributeDataType,
    to: PointAttributeDataType,
    order: ByteOrder,
)
    requires
        conversion_supported(from, to),
        !from.spec_is_vector(),
        component_conversion(from, to) == Some(ComponentConversion::Resize),
        source.len() == from.spec_size(),
        from.spec_size() <= to.spec_size(),
    ensures
        from.spec_is_signed_integer() ==> signed_value(converted(source, from, to, order), order)
            == signed_value(source, order),
        !from.spec_is_signed_integer() ==> unsigned_value(
            converted(source, from, to, order),
            order,
        ) == unsigned_value(source, order),
{
    lemma_extension_keeps_value(source, to.spec_size(), from.spec_is_signed_integer(), order);
}

/// An integer that is converted to a smaller integer keeps the part of its
/// number that the smaller type can hold: the remainder by 256 to the power
/// of the target's size.
pub proof fn lemma_narrowing_keeps_remainder(
    source: Seq<u8>,
    from: PointAttributeDataType,
    to: PointAttributeDataType,
    order: ByteOrder,
)
    requires
        conversion_supported(from, to),
        !from.spec_is_vector(),
        component_conversion(from, to) == Some(ComponentConversion::Resize),
        source.len() == from.spec_size(),
        to.spec_size() <= from.spec_size(),
    ensures
        unsigned_value(converted(source, from, to, order), order) == unsigned_value(source, order)
            % pow256(to.spec_size()),
{
    lemma_truncation_keeps_remainder(
        source,
        to.spec_size(),
        from.spec_is_signed_integer(),
        order,
    );
}

/// A 32-bit float that is converted to a 64-bit float keeps its sign and its
/// number.
pub proof fn lemma_float_widening_is_exact(source: Seq<u8>, order: ByteOrder)
    requires
        source.len() == 4,
        single_is_finite(unsigned_value(source, order)),
    ensures
        ({
            let wide = unsigned_value(
                converted(source, PointAttributeDataType::F32, PointAttributeDataType::F64, order),
                order,
            );
            &&& double_is_finite(wide)
            &&& crate::ieee::double_sign(wide) == crate::ieee::single_sign(
                unsigned_value(source, order),
            )
            &&& double_scaled(wide) == single_scaled(unsigned_value(source, order)) * pow2(925)
        }),
{
    lemma_float_conversion_bits(source, ComponentConversion::Widen, order);
    lemma_pow256_values();
    lemma_widening_keeps_value(unsigned_value(source, order));
}

/// A 64-bit float that is converted to a 32-bit float keeps its sign, and
/// becomes a number that is at most half the distance between neighbouring
/// 32-bit floats away, unless it leaves their range.
pub proof fn lemma_float_narrowing_is_nearest(source: Seq<u8>, order: ByteOrder)
    requires
        source.len() == 8,
        double_is_finite(unsigned_value(source, order)),
        single_is_finite(single_from_double(unsigned_value(source, order))),
    ensures
        ({
            let bits = unsigned_value(source, order);
            let narrow = unsigned_value(
                converted(source, PointAttributeDataType::F64, PointAttributeDataType::F32, order),
                order,
            );
            &&& narrow == single_from_double(bits)
            &&& crate::ieee::single_sign(narrow) == crate::ieee::double_sign(bits)
            &&& 2 * (double_scaled(bits) - single_scaled(narrow) * pow2(925)) <= narrowing_spacing(
                bits,
            )
            &&& 2 * (single_scaled(narrow) * pow2(925) - double_scaled(bits)) <= narrowing_spacing(
                bits,
            )
        }),
{
    lemma_float_conversion_bits(source, ComponentConversion::Narrow, order);
    lemma_pow256_values();
    lemma_narrowing_rounds_to_nearest(unsigned_value(source, order));
}

/// An unsigned integer of 8 or 16 bits that is converted to a 32-bit float
/// keeps its number.
pub proof fn lemma_unsigned_to_float_is_exact(
    source: Seq<u8>,
    from: PointAttributeDataType,
    order: ByteOrder,
)
    requires
        from == PointAttributeDataType::U8 || from == PointAttributeDataType::U16,
        source.len() == from.spec_size(),
    ensures
        ({
            let bits = unsigned_value(
                converted(source, from, PointAttributeDataType::F32, order),
                order,
            );
            &&& single_is_finite(bits)
            &&& crate::ieee::single_sign(bits) == 0
            &&& single_scaled(bits) == unsigned_value(source, order) * pow2(149)
        }),
{
    lemma_float_conversion_bits(source, ComponentConversion::FromUnsigned, order);
    lemma_pow256_values();
    crate::endian::lemma_pow256_monotonic(source.len(), 2);
    lemma_single_from_unsigned(unsigned_value(source, order));
}

} // verus!
