//! GPU marshalling: the byte layout that a compute shader indexes, and the
//! life of a device session from configuration to read-back.

use crate::chunks::{chunk, lemma_chunk_bounds};
use crate::containers::{
    lemma_layouts_agree, range_outcome, BufferError, InterleavedVecPointStorage,
    PerAttributeVecPointStorage, PointBuffer, PointsModel,
};
use crate::endian::{
    in_order, le_bytes, lemma_be_value_reverse, lemma_extension_keeps_value, lemma_le_value_of_le_bytes,
    lemma_pow256_values, native_byte_order, pow256, resize_integer, resized_integer,
    signed_value, unsigned_value, ByteOrder,
};
use crate::layout::{field_index, PointAttributeDataType, PointAttributeDefinition};
use vstd::prelude::*;

verus! {

/// Why the marshalling layer refused a request.
#[derive(Clone, Copy, Debug, PartialEq, Eq, Structural)]
pub enum GpuError {
    /// A 64-bit integer attribute was asked for; shaders have no such type.
    UnsupportedGpuType,
    /// No adapter or device could be had.
    DeviceAcquisitionFailure,
    /// The shader did not compile.
    ShaderCompilationFailure,
    /// The session is not in a state in which the request can be served.
    InvalidState,
    /// The point buffer refused to give the attribute.
    Buffer(BufferError),
}

/// True for the types that a shader cannot hold: the 64-bit integers.
pub open spec fn unsupported_on_gpu(datatype: PointAttributeDataType) -> bool {
    datatype == PointAttributeDataType::U64 || datatype == PointAttributeDataType::I64
}

/// True for the types whose bytes go to the shader as they are.
pub open spec fn passes_unchanged(datatype: PointAttributeDataType) -> bool {
    datatype == PointAttributeDataType::U32 || datatype == PointAttributeDataType::I32
        || datatype == PointAttributeDataType::F32 || datatype == PointAttributeDataType::F64
}

/// `element`, an integer of one or two bytes, as a 32-bit integer of the same
/// value in the same byte order.
pub open spec fn widened(element: Seq<u8>, signed: bool, order: ByteOrder) -> Seq<u8> {
    resized_integer(element, 4, signed, order)
}

/// The fourth component that a three-component vector of `datatype` gets:
/// the number one in the vector's widened component type.
pub open spec fn fourth_component(datatype: PointAttributeDataType, order: ByteOrder) -> Seq<u8> {
    match datatype {
        PointAttributeDataType::Vec3f32 => in_order(seq![0u8, 0u8, 0x80u8, 0x3fu8], order),
        PointAttributeDataType::Vec3f64 => in_order(
            seq![0u8, 0u8, 0u8, 0u8, 0u8, 0u8, 0xf0u8, 0x3fu8],
            order,
        ),
        _ => in_order(seq![1u8, 0u8, 0u8, 0u8], order),
    }
}

/// One value of `datatype` as the shader holds it: integers and booleans
/// below 32 bits widened to 32 bits, three-component vectors widened per
/// component and completed by a fourth component of one, everything else
/// unchanged.
pub open spec fn realigned_element(
    element: Seq<u8>,
    datatype: PointAttributeDataType,
    order: ByteOrder,
) -> Seq<u8> {
    match datatype {
        PointAttributeDataType::U8 => widened(element, false, order),
        PointAttributeDataType::Bool => widened(element, false, order),
        PointAttributeDataType::U16 => widened(element, false, order),
        PointAttributeDataType::I8 => widened(element, true, order),
        PointAttributeDataType::I16 => widened(element, true, order),
        PointAttributeDataType::Vec3u8 => widened(element.subrange(0, 1), false, order) + widened(
            element.subrange(1, 2),
            false,
            order,
        ) + widened(element.subrange(2, 3), false, order) + fourth_component(datatype, order),
        PointAttributeDataType::Vec3u16 => widened(element.subrange(0, 2), false, order) + widened(
            element.subrange(2, 4),
            false,
            order,
        ) + widened(element.subrange(4, 6), false, order) + fourth_component(datatype, order),
        PointAttributeDataType::Vec3f32 => element + fourth_component(datatype, order),
        PointAttributeDataType::Vec3f64 => element + fourth_component(datatype, order),
        _ => element,
    }
}

/// Bytes of one value of `datatype` as the shader holds it.
pub open spec fn realigned_size(datatype: PointAttributeDataType) -> nat {
    match datatype {
        PointAttributeDataType::U64 => 8,
        PointAttributeDataType::I64 => 8,
        PointAttributeDataType::F64 => 8,
        PointAttributeDataType::Vec3u8 => 16,
        PointAttributeDataType::Vec3u16 => 16,
        PointAttributeDataType::Vec3f32 => 16,
        PointAttributeDataType::Vec3f64 => 32,
        _ => 4,
    }
}

/// The first `count` values of `bytes`, each as the shader holds it.
pub open spec fn realigned_prefix(
    bytes: Seq<u8>,
    datatype: PointAttributeDataType,
    order: ByteOrder,
    count: nat,
) -> Seq<u8>
    decreases count,
{
    if count == 0 {
        Seq::empty()
    } else {
        let size = datatype.spec_size();
        realigned_prefix(bytes, datatype, order, (count - 1) as nat) + realigned_element(
            bytes.subrange((count - 1) * size, (count * size) as int),
            datatype,
            order,
        )
    }
}

/// The values that `bytes` hold, each as the shader holds it. Bytes behind
/// the last whole value are left out, except where the type passes unchanged.
pub open spec fn realigned(
    bytes: Seq<u8>,
    datatype: PointAttributeDataType,
    order: ByteOrder,
) -> Seq<u8> {
    if passes_unchanged(datatype) {
        bytes
    } else {
        realigned_prefix(bytes, datatype, order, bytes.len() / datatype.spec_size())
    }
}

/// The number one as the fourth component holds it, lowest byte first: the
/// integer one for the integer vectors, the bit pattern of the float one for
/// the float vectors.
pub open spec fn one_in_bits(datatype: PointAttributeDataType) -> nat {
    match datatype {
        PointAttributeDataType::Vec3f32 => 0x3f80_0000,
        PointAttributeDataType::Vec3f64 => 0x3ff0_0000_0000_0000,
        _ => 1,
    }
}

/// The fourth component denotes the number one, in the given byte order.
pub proof fn lemma_fourth_component_is_one(datatype: PointAttributeDataType, order: ByteOrder)
    ensures
        unsigned_value(fourth_component(datatype, order), order) == one_in_bits(datatype),
        fourth_component(datatype, order).len() == (if datatype == PointAttributeDataType::Vec3f64 {
            8nat
        } else {
            4nat
        }),
{
    let width: nat = if datatype == PointAttributeDataType::Vec3f64 {
        8
    } else {
        4
    };
    let lowest_first = fourth_component(datatype, ByteOrder::LittleEndian);
    lemma_pow256_values();
    let bits = one_in_bits(datatype);
    let wanted = le_bytes(bits, width);
    assert(wanted[0] == ((bits / pow256(0)) % 256) as u8);
    assert(wanted[1] == ((bits / pow256(1)) % 256) as u8);
    assert(wanted[2] == ((bits / pow256(2)) % 256) as u8);
    assert(wanted[3] == ((bits / pow256(3)) % 256) as u8);
    if width == 8 {
        assert(wanted[4] == ((bits / pow256(4)) % 256) as u8);
        assert(wanted[5] == ((bits / pow256(5)) % 256) as u8);
        assert(wanted[6] == ((bits / pow256(6)) % 256) as u8);
        assert(wanted[7] == ((bits / pow256(7)) % 256) as u8);
    }
    assert(lowest_first =~= wanted);
    lemma_le_value_of_le_bytes(one_in_bits(datatype), width);
    match order {
        ByteOrder::LittleEndian => {},
        ByteOrder::BigEndian => {
            lemma_be_value_reverse(lowest_first);
        },
    }
}

/// A value as the shader holds it has the size that the shader expects.
pub proof fn lemma_realigned_element_len(
    element: Seq<u8>,
    datatype: PointAttributeDataType,
    order: ByteOrder,
)
    requires
        element.len() == datatype.spec_size(),
    ensures
        realigned_element(element, datatype, order).len() == realigned_size(datatype),
{
}

/// Realignment keeps numbers: an integer or boolean below 32 bits denotes,
/// as a 32-bit integer, the number it denoted before, by its sign where it
/// has one.
pub proof fn lemma_realigned_scalar_keeps_number(
    element: Seq<u8>,
    datatype: PointAttributeDataType,
    order: ByteOrder,
)
    requires
        element.len() == datatype.spec_size(),
        datatype.spec_size() < 4,
        !datatype.spec_is_vector(),
    ensures
        realigned_element(element, datatype, order).len() == 4,
        datatype.spec_is_signed_integer() ==> signed_value(
            realigned_element(element, datatype, order),
            order,
        ) == signed_value(element, order),
        !datatype.spec_is_signed_integer() ==> unsigned_value(
            realigned_element(element, datatype, order),
            order,
        ) == unsigned_value(element, order),
{
    lemma_extension_keeps_value(element, 4, datatype.spec_is_signed_integer(), order);
}

/// Realignment keeps the components of an integer vector: each of the three
/// denotes, as a 32-bit integer, the number it denoted before, and the
/// fourth denotes one.
pub proof fn lemma_realigned_vector_keeps_numbers(
    element: Seq<u8>,
    datatype: PointAttributeDataType,
    order: ByteOrder,
    component: int,
)
    requires
        datatype == PointAttributeDataType::Vec3u8 || datatype == PointAttributeDataType::Vec3u16,
        element.len() == datatype.spec_size(),
        0 <= component < 3,
    ensures
        realigned_element(element, datatype, order).len() == 16,
        unsigned_value(chunk(realigned_element(element, datatype, order), component, 4), order)
            == unsigned_value(chunk(element, component, datatype.spec_min_alignment()), order),
        unsigned_value(chunk(realigned_element(element, datatype, order), 3, 4), order) == 1,
{
    let width = datatype.spec_min_alignment();
    let wide = realigned_element(element, datatype, order);
    let part = chunk(element, component, width);
    assert(part =~= element.subrange(component * width, component * width + width));
    lemma_extension_keeps_value(part, 4, false, order);
    lemma_fourth_component_is_one(datatype, order);
    assert(chunk(wide, component, 4) =~= widened(part, false, order));
    assert(chunk(wide, 3, 4) =~= fourth_component(datatype, order));
}

/// Realignment keeps the components of a float vector as they are, and the
/// fourth holds the bit pattern of the float one.
pub proof fn lemma_realigned_float_vector(
    element: Seq<u8>,
    datatype: PointAttributeDataType,
    order: ByteOrder,
)
    requires
        datatype == PointAttributeDataType::Vec3f32 || datatype == PointAttributeDataType::Vec3f64,
        element.len() == datatype.spec_size(),
    ensures
        realigned_element(element, datatype, order).take(element.len() as int) == element,
        unsigned_value(
            realigned_element(element, datatype, order).skip(element.len() as int),
            order,
        ) == one_in_bits(datatype),
{
    let wide = realigned_element(element, datatype, order);
    lemma_fourth_component_is_one(datatype, order);
    assert(wide.take(element.len() as int) =~= element);
    assert(wide.skip(element.len() as int) =~= fourth_component(datatype, order));
}

/// The first `count` values as the shader holds them are the values one by
/// one: each takes the shader's size, and stands where its number says.
pub proof fn lemma_realigned_prefix_by_element(
    bytes: Seq<u8>,
    datatype: PointAttributeDataType,
    order: ByteOrder,
    count: nat,
    index: int,
)
    requires
        count * datatype.spec_size() <= bytes.len(),
    ensures
        realigned_prefix(bytes, datatype, order, count).len() == count * realigned_size(datatype),
        0 <= index < count ==> chunk(
            realigned_prefix(bytes, datatype, order, count),
            index,
            realigned_size(datatype),
        ) == realigned_element(chunk(bytes, index, datatype.spec_size()), datatype, order),
    decreases count,
{
    let size = datatype.spec_size();
    let wide = realigned_size(datatype);
    if count > 0 {
        assert((count - 1) * size <= count * size) by (nonlinear_arith)
            requires
                count >= 1,
        ;
        lemma_realigned_prefix_by_element(bytes, datatype, order, (count - 1) as nat, index);
        lemma_chunk_bounds(count - 1, size, count);
        let last = chunk(bytes, count - 1, size);
        lemma_realigned_element_len(last, datatype, order);
        let before = realigned_prefix(bytes, datatype, order, (count - 1) as nat);
        let all = realigned_prefix(bytes, datatype, order, count);
        assert(all == before + realigned_element(last, datatype, order));
        lemma_chunk_bounds(count - 1, wide, count);
        if 0 <= index < count {
            lemma_chunk_bounds(index, wide, count);
            if index < count - 1 {
                lemma_chunk_bounds(index, wide, (count - 1) as nat);
                assert(chunk(all, index, wide) =~= chunk(before, index, wide));
            } else {
                assert(chunk(all, index, wide) =~= realigned_element(last, datatype, order));
            }
        }
    } else {
        assert(0 * wide == 0);
    }
}

/// The values of a slice as the shader holds them are the values one by
/// one, for every type that is widened.
pub proof fn lemma_realigned_by_element(
    bytes: Seq<u8>,
    datatype: PointAttributeDataType,
    order: ByteOrder,
    index: int,
)
    requires
        !passes_unchanged(datatype),
        0 <= index < bytes.len() / datatype.spec_size(),
    ensures
        realigned(bytes, datatype, order).len() == (bytes.len() / datatype.spec_size())
            * realigned_size(datatype),
        chunk(realigned(bytes, datatype, order), index, realigned_size(datatype))
            == realigned_element(chunk(bytes, index, datatype.spec_size()), datatype, order),
{
    let size = datatype.spec_size();
    let count = bytes.len() / size;
    vstd::arithmetic::div_mod::lemma_fundamental_div_mod(bytes.len() as int, size as int);
    assert(count * size == size * count) by (nonlinear_arith);
    lemma_realigned_prefix_by_element(bytes, datatype, order, count, index);
}

/// Appends `slice[begin..end]` to `out`.
fn push_range(out: &mut Vec<u8>, slice: &[u8], begin: usize, end: usize)
    requires
        begin <= end <= slice@.len(),
    ensures
        final(out)@ == old(out)@ + slice@.subrange(begin as int, end as int),
{
    let mut i: usize = begin;
    while i < end
        invariant
            begin <= i <= end,
            end <= slice@.len(),
            out@ == old(out)@ + slice@.subrange(begin as int, i as int),
        decreases end - i,
    {
        out.push(slice[i]);
        assert(slice@.subrange(begin as int, i + 1) =~= slice@.subrange(begin as int, i as int).push(
            slice@[i as int],
        ));
        i += 1;
    }
}

/// Appends the `width` bytes at `begin`, widened to 32 bits, to `out`.
fn push_widened(
    out: &mut Vec<u8>,
    slice: &[u8],
    begin: usize,
    width: usize,
    signed: bool,
    order: ByteOrder,
)
    requires
        1 <= width <= 2,
        begin + width <= slice@.len(),
    ensures
        final(out)@ == old(out)@ + widened(
            slice@.subrange(begin as int, begin + width),
            signed,
            order,
        ),
{
    let mut wide: Vec<u8> = vec![0u8; 4];
    resize_integer(wide.as_mut_slice(), 0, 4, slice, begin, width, signed, order);
    assert(wide@ =~= widened(slice@.subrange(begin as int, begin + width), signed, order));
    out.extend_from_slice(wide.as_slice());
    assert(out@ =~= old(out)@ + wide@);
}

/// Appends `bytes`, given lowest byte first, to `out` in the given order.
fn push_in_order(out: &mut Vec<u8>, bytes: &Vec<u8>, order: ByteOrder)
    ensures
        final(out)@ == old(out)@ + in_order(bytes@, order),
{
    let n: usize = bytes.len();
    let mut i: usize = 0;
    while i < n
        invariant
            i <= n,
            n == bytes@.len(),
            out@ == old(out)@ + in_order(bytes@, order).take(i as int),
        decreases n - i,
    {
        let byte: u8 = match order {
            ByteOrder::LittleEndian => bytes[i],
            ByteOrder::BigEndian => bytes[n - 1 - i],
        };
        out.push(byte);
        assert(in_order(bytes@, order).take(i + 1) =~= in_order(bytes@, order).take(i as int).push(
            byte,
        ));
        i += 1;
    }
    assert(in_order(bytes@, order).take(n as int) =~= in_order(bytes@, order));
}

/// Appends the fourth component of a vector of `datatype` to `out`.
fn push_fourth_component(out: &mut Vec<u8>, datatype: PointAttributeDataType, order: ByteOrder)
    ensures
        final(out)@ == old(out)@ + fourth_component(datatype, order),
{
    let lowest_first: Vec<u8> = match datatype {
        PointAttributeDataType::Vec3f32 => vec![0, 0, 0x80, 0x3f],
        PointAttributeDataType::Vec3f64 => vec![0, 0, 0, 0, 0, 0, 0xf0, 0x3f],
        _ => vec![1, 0, 0, 0],
    };
    assert(in_order(lowest_first@, order) =~= fourth_component(datatype, order));
    push_in_order(out, &lowest_first, order);
}

/// Appends the vector of three integers of `width` bytes each that starts
/// at `begin`, each widened to 32 bits, and the fourth component.
fn push_widened_vector(
    out: &mut Vec<u8>,
    slice: &[u8],
    begin: usize,
    width: usize,
    datatype: PointAttributeDataType,
    order: ByteOrder,
)
    requires
        1 <= width <= 2,
        begin + 3 * width <= slice@.len(),
    ensures
        final(out)@ == old(out)@ + widened(
            slice@.subrange(begin as int, begin + width),
            false,
            order,
        ) + widened(slice@.subrange(begin + width, begin + 2 * width), false, order) + widened(
            slice@.subrange(begin + 2 * width, begin + 3 * width),
            false,
            order,
        ) + fourth_component(datatype, order),
{
    assert(slice.len() <= usize::MAX);
    push_widened(out, slice, begin, width, false, order);
    push_widened(out, slice, begin + width, width, false, order);
    push_widened(out, slice, begin + 2 * width, width, false, order);
    push_fourth_component(out, datatype, order);
}

/// Appends the `size` bytes of the vector that starts at `begin`, and the
/// fourth component.
fn push_completed_vector(
    out: &mut Vec<u8>,
    slice: &[u8],
    begin: usize,
    size: usize,
    datatype: PointAttributeDataType,
    order: ByteOrder,
)
    requires
        begin + size <= slice@.len(),
    ensures
        final(out)@ == old(out)@ + slice@.subrange(begin as int, begin + size) + fourth_component(
            datatype,
            order,
        ),
{
    assert(slice.len() <= usize::MAX);
    push_range(out, slice, begin, begin + size);
    push_fourth_component(out, datatype, order);
}

/// Appends the value of `datatype` that starts at `begin`, as the shader
/// holds it, to `out`.
fn push_realigned_element(
    out: &mut Vec<u8>,
    slice: &[u8],
    begin: usize,
    datatype: PointAttributeDataType,
    order: ByteOrder,
)
    requires
        !unsupported_on_gpu(datatype),
        !passes_unchanged(datatype),
        begin + datatype.spec_size() <= slice@.len(),
    ensures
        final(out)@ == old(out)@ + realigned_element(
            slice@.subrange(begin as int, begin + datatype.spec_size()),
            datatype,
            order,
        ),
{
    assert(slice.len() <= usize::MAX);
    let ghost element = slice@.subrange(begin as int, begin + datatype.spec_size());
    match datatype {
        PointAttributeDataType::U8 => push_widened(out, slice, begin, 1, false, order),
        PointAttributeDataType::Bool => push_widened(out, slice, begin, 1, false, order),
        PointAttributeDataType::U16 => push_widened(out, slice, begin, 2, false, order),
        PointAttributeDataType::I8 => push_widened(out, slice, begin, 1, true, order),
        PointAttributeDataType::I16 => push_widened(out, slice, begin, 2, true, order),
        PointAttributeDataType::Vec3u8 => {
            assert(element.subrange(0, 1) =~= slice@.subrange(begin as int, begin + 1));
            assert(element.subrange(1, 2) =~= slice@.subrange(begin + 1, begin + 2));
            assert(element.subrange(2, 3) =~= slice@.subrange(begin + 2, begin + 3));
            push_widened_vector(out, slice, begin, 1, datatype, order);
        },
        PointAttributeDataType::Vec3u16 => {
            assert(element.subrange(0, 2) =~= slice@.subrange(begin as int, begin + 2));
            assert(element.subrange(2, 4) =~= slice@.subrange(begin + 2, begin + 4));
            assert(element.subrange(4, 6) =~= slice@.subrange(begin + 4, begin + 6));
            push_widened_vector(out, slice, begin, 2, datatype, order);
        },
        PointAttributeDataType::Vec3f32 => {
            push_completed_vector(out, slice, begin, 12, datatype, order);
        },
        PointAttributeDataType::Vec3f64 => {
            push_completed_vector(out, slice, begin, 24, datatype, order);
        },
        _ => {},
    }
}

/// Tells whether a shader can hold values of `datatype`: all but the 64-bit
/// integers.
pub fn supported_on_gpu(datatype: PointAttributeDataType) -> (supported: bool)
    ensures
        supported == !unsupported_on_gpu(datatype),
{
    match datatype {
        PointAttributeDataType::U64 => false,
        PointAttributeDataType::I64 => false,
        _ => true,
    }
}

/// Repacks the values of `datatype` in `slice` as a shader holds them on a
/// machine of the given byte order. A 64-bit integer type is refused, and
/// nothing else is.
pub fn realign(slice: &[u8], datatype: PointAttributeDataType, order: ByteOrder) -> (result:
    Result<Vec<u8>, GpuError>)
    ensures
        match result {
            Ok(bytes) => !unsupported_on_gpu(datatype) && bytes@ == realigned(
                slice@,
                datatype,
                order,
            ),
            Err(e) => unsupported_on_gpu(datatype) && e == GpuError::UnsupportedGpuType,
        },
{
    if supported_on_gpu(datatype) {
        Ok(realign_supported(slice, datatype, order))
    } else {
        Err(GpuError::UnsupportedGpuType)
    }
}

/// Repacks the values of `datatype`, a type that a shader can hold, in
/// `slice` as a shader holds them on a machine of the given byte order.
pub fn realign_supported(slice: &[u8], datatype: PointAttributeDataType, order: ByteOrder) -> (bytes:
    Vec<u8>)
    requires
        !unsupported_on_gpu(datatype),
    ensures
        bytes@ == realigned(slice@, datatype, order),
{
    match datatype {
        PointAttributeDataType::U32 => {
            return vstd::slice::slice_to_vec(slice);
        },
        PointAttributeDataType::I32 => {
            return vstd::slice::slice_to_vec(slice);
        },
        PointAttributeDataType::F32 => {
            return vstd::slice::slice_to_vec(slice);
        },
        PointAttributeDataType::F64 => {
            return vstd::slice::slice_to_vec(slice);
        },
        _ => {},
    }
    let len: usize = slice.len();
    let stride: usize = datatype.size() as usize;
    let mut v: Vec<u8> = Vec::new();
    let mut begin: usize = 0;
    let ghost mut count: nat = 0;
    while len - begin >= stride
        invariant
            len == slice@.len(),
            stride == datatype.spec_size(),
            !unsupported_on_gpu(datatype),
            !passes_unchanged(datatype),
            begin <= len,
            begin == count * stride,
            v@ == realigned_prefix(slice@, datatype, order, count),
        decreases len - begin,
    {
        push_realigned_element(&mut v, slice, begin, datatype, order);
        proof {
            assert((count + 1) * stride == begin + stride) by (nonlinear_arith)
                requires
                    begin == count * stride,
            ;
            count = count + 1;
        }
        begin += stride;
    }
    proof {
        vstd::arithmetic::div_mod::lemma_fundamental_div_mod_converse_div(
            len as int,
            stride as int,
            count as int,
            (len - begin) as int,
        );
    }
    v
}

/// Which kind of adapter to prefer.
#[derive(Clone, Copy, Debug, PartialEq, Eq, Structural)]
pub enum DevicePower {
    /// Usually an integrated GPU.
    Low,
    /// Usually a discrete GPU.
    High,
}

impl Default for DevicePower {
    fn default() -> (power: Self)
        ensures
            power == DevicePower::Low,
    {
        DevicePower::Low
    }
}

/// Which family of graphics backends to use.
#[derive(Clone, Copy, Debug, PartialEq, Eq, Structural)]
pub enum DeviceBackend {
    /// The primary backends: Vulkan, Metal, Dx12, Browser.
    Primary,
    /// The secondary backends: OpenGL, Dx11.
    Secondary,
    Vulkan,
    Metal,
    Dx12,
    Dx11,
    OpenGL,
    Browser,
}

impl Default for DeviceBackend {
    fn default() -> (backend: Self)
        ensures
            backend == DeviceBackend::Primary,
    {
        DeviceBackend::Primary
    }
}

/// What a device should be capable of.
#[derive(Clone, Copy, Debug, PartialEq, Eq, Structural)]
pub struct DeviceOptions {
    pub device_power: DevicePower,
    pub device_backend: DeviceBackend,
    pub use_adapter_features: bool,
    pub use_adapter_limits: bool,
}

impl Default for DeviceOptions {
    fn default() -> (options: Self)
        ensures
            options == (DeviceOptions {
                device_power: DevicePower::Low,
                device_backend: DeviceBackend::Primary,
                use_adapter_features: false,
                use_adapter_limits: false,
            }),
    {
        DeviceOptions {
            device_power: DevicePower::Low,
            device_backend: DeviceBackend::Primary,
            use_adapter_features: false,
            use_adapter_limits: false,
        }
    }
}

impl DeviceOptions {
    /// The features to ask of the device: all that the adapter reports
    /// where the options say so, the conservative default set otherwise.
    pub fn select_features<T>(&self, adapter: T, conservative: T) -> (features: T)
        ensures
            features == (if self.use_adapter_features {
                adapter
            } else {
                conservative
            }),
    {
        if self.use_adapter_features {
            adapter
        } else {
            conservative
        }
    }

    /// The limits to ask of the device: those that the adapter reports where
    /// the options say so, the conservative default set otherwise.
    pub fn select_limits<T>(&self, adapter: T, conservative: T) -> (limits: T)
        ensures
            limits == (if self.use_adapter_limits {
                adapter
            } else {
                conservative
            }),
    {
        if self.use_adapter_limits {
            adapter
        } else {
            conservative
        }
    }
}

/// The name of the entry point of every compute shader.
pub fn shader_entry_point() -> (name: &'static str)
    ensures
        name@ == "main"@,
{
    "main"
}

/// Ties an attribute of a point buffer to a binding of a compute shader.
#[derive(Debug)]
pub struct BufferInfo<'a> {
    pub attribute: &'a PointAttributeDefinition,
    pub binding: u32,
}

/// Where a device session stands.
#[derive(Clone, Copy, Debug, PartialEq, Eq, Structural)]
pub enum DeviceState {
    /// Nothing has been acquired yet.
    Uninitialized,
    /// Adapter and device are there.
    Configured,
    /// Attributes have been uploaded.
    Bound,
    /// A dispatch has been submitted; its results are pending.
    Dispatched,
    /// The results have been read back.
    Downloaded,
}

/// One entry of the bind group: a read-write storage buffer at a binding.
#[derive(Clone, Copy, Debug, PartialEq, Eq, Structural)]
pub struct BindGroupEntry {
    pub binding: u32,
    pub buffer: usize,
    pub read_only: bool,
}

/// A copy on the device from an upload buffer to the download buffer that
/// goes with it.
#[derive(Clone, Copy, Debug, PartialEq, Eq, Structural)]
pub struct BufferCopy {
    pub buffer: usize,
    pub size: u64,
}

/// One batch of commands, submitted as a whole: a dispatch of the pipeline
/// with its bind group, then the copies.
#[derive(Debug)]
pub struct ComputeBatch {
    pub work_groups: (u32, u32, u32),
    pub bind_group: Vec<BindGroupEntry>,
    pub copies: Vec<BufferCopy>,
}

/// Whether, and why not, the attribute with the given name and type, one
/// that a shader can hold, of all `points` can go to the device.
pub open spec fn upload_outcome(
    points: PointsModel,
    name: Seq<char>,
    datatype: PointAttributeDataType,
) -> Result<(), GpuError> {
    let read = range_outcome(
        points.fields,
        points.len(),
        0,
        points.len() as int,
        name,
        datatype,
        points.len() * datatype.spec_size(),
    );
    if points.len() * datatype.spec_size() > usize::MAX {
        Err(GpuError::Buffer(BufferError::CapacityOverflow))
    } else if read is Err {
        Err(GpuError::Buffer(read->Err_0))
    } else {
        Ok(())
    }
}

/// None of the requests asks for an attribute of a type that no shader
/// holds.
pub open spec fn requests_supported(infos: Seq<BufferInfo>) -> bool {
    forall|i: int|
        0 <= i < infos.len() ==> !unsupported_on_gpu(
            (#[trigger] infos[i]).attribute.spec_datatype(),
        )
}

/// The first refusal among the first `count` requests, if there is one.
pub open spec fn first_refusal(points: PointsModel, infos: Seq<BufferInfo>, count: nat) -> Option<
    GpuError,
>
    decreases count,
{
    if count == 0 {
        None
    } else {
        match first_refusal(points, infos, (count - 1) as nat) {
            Some(e) => Some(e),
            None => match upload_outcome(
                points,
                infos[count - 1].attribute.spec_name(),
                infos[count - 1].attribute.spec_datatype(),
            ) {
                Err(e) => Some(e),
                Ok(_) => None,
            },
        }
    }
}

/// The bytes that go to the device for one request: the values of the
/// attribute for all points, as the shader holds them.
pub open spec fn upload_bytes(points: PointsModel, info: BufferInfo, order: ByteOrder) -> Seq<u8> {
    realigned(
        points.attribute_range(
            field_index(points.fields, info.attribute.spec_name()),
            0,
            points.len() as int,
        ),
        info.attribute.spec_datatype(),
        order,
    )
}

/// A session with a compute device: what has been uploaded, where it is
/// bound, and how far the session has come. The calls to the device are the
/// caller's; the session says what to hand to them.
#[derive(Debug)]
pub struct Device {
    options: DeviceOptions,
    byte_order: ByteOrder,
    state: DeviceState,
    upload_contents: Vec<Vec<u8>>,
    buffer_sizes: Vec<u64>,
    buffer_bindings: Vec<u32>,
    bind_group: Option<Vec<BindGroupEntry>>,
}

impl Device {
    /// The options that the session was made with.
    pub closed spec fn spec_options(&self) -> DeviceOptions {
        self.options
    }

    /// The byte order of the machine, in which the shader's integers are
    /// laid out.
    pub closed spec fn spec_byte_order(&self) -> ByteOrder {
        self.byte_order
    }

    /// Where the session stands.
    pub closed spec fn spec_state(&self) -> DeviceState {
        self.state
    }

    /// The contents of the upload buffers, in upload order.
    pub closed spec fn spec_uploads(&self) -> Seq<Seq<u8>> {
        self.upload_contents@.map_values(|bytes: Vec<u8>| bytes@)
    }

    /// The shader binding of each upload buffer.
    pub closed spec fn spec_bindings(&self) -> Seq<u32> {
        self.buffer_bindings@
    }

    /// The size in bytes of each upload buffer.
    pub closed spec fn spec_sizes(&self) -> Seq<u64> {
        self.buffer_sizes@
    }

    /// The bind group of the pipeline, once a shader has been set.
    pub closed spec fn spec_bind_group(&self) -> Option<Seq<BindGroupEntry>> {
        match self.bind_group {
            Some(entries) => Some(entries@),
            None => None,
        }
    }

    /// The session's invariant: every upload buffer has a binding and a
    /// size, which is that of its contents.
    pub open spec fn wf(&self) -> bool {
        &&& self.spec_bindings().len() == self.spec_uploads().len()
        &&& self.spec_sizes().len() == self.spec_uploads().len()
        &&& forall|i: int|
            0 <= i < self.spec_uploads().len() ==> (#[trigger] self.spec_sizes()[i])
                == self.spec_uploads()[i].len()
    }

    /// A session with the given options, before anything has been acquired.
    pub fn new(device_options: DeviceOptions) -> (device: Self)
        ensures
            device.wf(),
            device.spec_options() == device_options,
            device.spec_state() == DeviceState::Uninitialized,
            device.spec_uploads().len() == 0,
            device.spec_bind_group() is None,
    {
        Device {
            options: device_options,
            byte_order: native_byte_order(),
            state: DeviceState::Uninitialized,
            upload_contents: Vec::new(),
            buffer_sizes: Vec::new(),
            buffer_bindings: Vec::new(),
            bind_group: None,
        }
    }

    /// The options that the session was made with.
    pub fn options(&self) -> (options: DeviceOptions)
        ensures
            options == self.spec_options(),
    {
        self.options
    }

    /// Where the session stands.
    pub fn state(&self) -> (state: DeviceState)
        ensures
            state == self.spec_state(),
    {
        self.state
    }

    /// The byte order in which the session lays out the shader's integers.
    pub fn byte_order(&self) -> (order: ByteOrder)
        ensures
            order == self.spec_byte_order(),
    {
        self.byte_order
    }

    /// Number of upload buffers.
    pub fn buffer_count(&self) -> (count: usize)
        ensures
            count == self.spec_uploads().len(),
    {
        self.upload_contents.len()
    }

    /// The contents of upload buffer number `index`.
    pub fn upload_contents(&self, index: usize) -> (bytes: &[u8])
        requires
            index < self.spec_uploads().len(),
        ensures
            bytes@ == self.spec_uploads()[index as int],
    {
        self.upload_contents[index].as_slice()
    }

    /// The shader binding of upload buffer number `index`.
    pub fn buffer_binding(&self, index: usize) -> (binding: u32)
        requires
            index < self.spec_bindings().len(),
        ensures
            binding == self.spec_bindings()[index as int],
    {
        self.buffer_bindings[index]
    }

    /// The size in bytes of upload buffer number `index`, and of the
    /// download buffer that goes with it.
    pub fn buffer_size(&self, index: usize) -> (size: u64)
        requires
            index < self.spec_sizes().len(),
        ensures
            size == self.spec_sizes()[index as int],
    {
        self.buffer_sizes[index]
    }

    /// Takes note of whether adapter and device could be had. A failure is
    /// final for the caller; the session stays where it was.
    pub fn device_acquired(&mut self, acquired: bool) -> (result: Result<(), GpuError>)
        requires
            old(self).wf(),
        ensures
            final(self).wf(),
            result == acquisition_outcome(old(self).spec_state(), acquired),
            final(self).spec_state() == (if result is Ok {
                DeviceState::Configured
            } else {
                old(self).spec_state()
            }),
            final(self).spec_options() == old(self).spec_options(),
            final(self).spec_byte_order() == old(self).spec_byte_order(),
            final(self).spec_uploads() == old(self).spec_uploads(),
            final(self).spec_bindings() == old(self).spec_bindings(),
            final(self).spec_sizes() == old(self).spec_sizes(),
            final(self).spec_bind_group() == old(self).spec_bind_group(),
    {
        match self.state {
            DeviceState::Uninitialized => {},
            _ => {
                return Err(GpuError::InvalidState);
            },
        }
        if !acquired {
            return Err(GpuError::DeviceAcquisitionFailure);
        }
        self.state = DeviceState::Configured;
        Ok(())
    }

    /// Bytes that one value of `datatype` takes in a point buffer.
    pub fn bytes_per_element(&self, datatype: PointAttributeDataType) -> (num_bytes: u32)
        ensures
            num_bytes == datatype.spec_size(),
    {
        let num_bytes: u32 = match datatype {
            PointAttributeDataType::U8 => 1,
            PointAttributeDataType::I8 => 1,
            PointAttributeDataType::U16 => 2,
            PointAttributeDataType::I16 => 2,
            PointAttributeDataType::U32 => 4,
            PointAttributeDataType::I32 => 4,
            PointAttributeDataType::U64 => 8,
            PointAttributeDataType::I64 => 8,
            PointAttributeDataType::F32 => 4,
            PointAttributeDataType::F64 => 8,
            PointAttributeDataType::Bool => 1,
            PointAttributeDataType::Vec3u8 => 3,
            PointAttributeDataType::Vec3u16 => 6,
            PointAttributeDataType::Vec3f32 => 12,
            PointAttributeDataType::Vec3f64 => 24,
        };
        num_bytes
    }

    /// Repacks the values of `datatype` in `slice` as the shader holds them:
    /// integers and booleans below 32 bits widened to 32 bits, by their sign
    /// where they have one; vectors of three widened per component and
    /// completed by a fourth component of one; 32-bit integers and floats as
    /// they are. Not for the 64-bit integer types, which no shader holds.
    pub fn align_slice(&self, slice: &[u8], datatype: PointAttributeDataType) -> (bytes: Vec<u8>)
        requires
            !unsupported_on_gpu(datatype),
        ensures
            bytes@ == realigned(slice@, datatype, self.spec_byte_order()),
    {
        realign_supported(slice, datatype, self.byte_order)
    }

    /// Tells whether an upload can take the requests: whether none of them
    /// asks for an attribute of a 64-bit integer type.
    pub fn takes_requests(&self, buffer_infos: &Vec<BufferInfo>) -> (taken: bool)
        ensures
            taken == requests_supported(buffer_infos@),
    {
        let mut i: usize = 0;
        while i < buffer_infos.len()
            invariant
                i <= buffer_infos@.len(),
                forall|k: int|
                    0 <= k < i ==> !unsupported_on_gpu(
                        (#[trigger] buffer_infos@[k]).attribute.spec_datatype(),
                    ),
            decreases buffer_infos@.len() - i,
        {
            if !supported_on_gpu(buffer_infos[i].attribute.datatype()) {
                return false;
            }
            i += 1;
        }
        true
    }

    /// Reads the attributes named in `buffer_infos` from `buffer`, repacks
    /// each as the shader holds it, and keeps the bytes as the contents of
    /// one more upload buffer each, bound where the request says. The
    /// buffers of earlier uploads stay bound. Not for requests of a 64-bit
    /// integer type. Refused, with the session untouched, before a device is
    /// there and after a dispatch, and at the first attribute that the
    /// buffer does not give.
    pub fn upload<B: PointBuffer>(&mut self, buffer: &B, buffer_infos: Vec<BufferInfo>) -> (result:
        Result<(), GpuError>)
        requires
            old(self).wf(),
            buffer.wf(),
            requests_supported(buffer_infos@),
        ensures
            final(self).wf(),
            final(self).spec_options() == old(self).spec_options(),
            final(self).spec_byte_order() == old(self).spec_byte_order(),
            final(self).spec_bind_group() == old(self).spec_bind_group(),
            result == upload_result(
                old(self).spec_state(),
                first_refusal(buffer@, buffer_infos@, buffer_infos@.len()),
            ),
            result is Err ==> final(self).spec_state() == old(self).spec_state(),
            result is Err ==> final(self).spec_uploads() == old(self).spec_uploads(),
            result is Err ==> final(self).spec_bindings() == old(self).spec_bindings(),
            result is Err ==> final(self).spec_sizes() == old(self).spec_sizes(),
            result is Ok ==> final(self).spec_state() == DeviceState::Bound,
            result is Ok ==> final(self).spec_uploads() == old(self).spec_uploads() + Seq::new(
                buffer_infos@.len(),
                |i: int| upload_bytes(buffer@, buffer_infos@[i], old(self).spec_byte_order()),
            ) && final(self).spec_bindings() == old(self).spec_bindings() + Seq::new(
                buffer_infos@.len(),
                |i: int| buffer_infos@[i].binding,
            ),
    {
        match self.state {
            DeviceState::Configured => {},
            DeviceState::Bound => {},
            _ => {
                return Err(GpuError::InvalidState);
            },
        }
        let len: usize = buffer.len();
        let mut contents: Vec<Vec<u8>> = Vec::new();
        let mut sizes: Vec<u64> = Vec::new();
        let mut bindings: Vec<u32> = Vec::new();
        let mut i: usize = 0;
        proof {
            buffer.lemma_wf();
        }
        while i < buffer_infos.len()
            invariant
                i <= buffer_infos@.len(),
                *self == *old(self),
                self.wf(),
                self.state == DeviceState::Configured || self.state == DeviceState::Bound,
                buffer.wf(),
                buffer@.wf(),
                requests_supported(buffer_infos@),
                len == buffer@.len(),
                first_refusal(buffer@, buffer_infos@, i as nat) is None,
                contents@.len() == i,
                sizes@.len() == i,
                bindings@.len() == i,
                forall|k: int|
                    0 <= k < i ==> (#[trigger] contents@[k])@ == upload_bytes(
                        buffer@,
                        buffer_infos@[k],
                        self.byte_order,
                    ),
                forall|k: int| 0 <= k < i ==> (#[trigger] sizes@[k]) == contents@[k]@.len(),
                forall|k: int| 0 <= k < i ==> (#[trigger] bindings@[k]) == buffer_infos@[k].binding,
            decreases buffer_infos@.len() - i,
        {
            let info = &buffer_infos[i];
            let datatype = info.attribute.datatype();
            let num_bytes: usize = self.bytes_per_element(datatype) as usize;
            let total: usize = match len.checked_mul(num_bytes) {
                Some(n) => n,
                None => {
                    proof {
                        assert(first_refusal(buffer@, buffer_infos@, (i + 1) as nat) == Some(
                            GpuError::Buffer(BufferError::CapacityOverflow),
                        ));
                        lemma_first_refusal_stays(buffer@, buffer_infos@, i + 1);
                    }
                    return Err(GpuError::Buffer(BufferError::CapacityOverflow));
                },
            };
            let mut bytes_to_write: Vec<u8> = vec![0u8; total];
            match buffer.get_raw_attribute_range(
                0..len,
                info.attribute,
                bytes_to_write.as_mut_slice(),
            ) {
                Ok(()) => {},
                Err(e) => {
                    proof {
                        assert(first_refusal(buffer@, buffer_infos@, (i + 1) as nat) == Some(
                            GpuError::Buffer(e),
                        ));
                        lemma_first_refusal_stays(buffer@, buffer_infos@, i + 1);
                    }
                    return Err(GpuError::Buffer(e));
                },
            }
            let aligned = self.align_slice(bytes_to_write.as_slice(), datatype);
            sizes.push(aligned.len() as u64);
            contents.push(aligned);
            bindings.push(info.binding);
            i += 1;
        }
        let ghost before = self.spec_uploads();
        let ghost added = contents@.map_values(|bytes: Vec<u8>| bytes@);
        self.upload_contents.append(&mut contents);
        self.buffer_sizes.append(&mut sizes);
        self.buffer_bindings.append(&mut bindings);
        self.state = DeviceState::Bound;
        proof {
            assert(self.spec_uploads() =~= before + added);
            assert(added =~= Seq::new(
                buffer_infos@.len(),
                |i: int| upload_bytes(buffer@, buffer_infos@[i], old(self).spec_byte_order()),
            ));
            assert(self.spec_bindings() =~= old(self).spec_bindings() + Seq::new(
                buffer_infos@.len(),
                |i: int| buffer_infos@[i].binding,
            ));
        }
        Ok(())
    }

    /// The entries of the bind group that covers the upload buffers: for
    /// each its binding, as a read-write storage buffer.
    pub fn create_compute_pipeline(&self) -> (entries: Vec<BindGroupEntry>)
        requires
            self.wf(),
        ensures
            entries@ == bind_group_entries(self.spec_bindings()),
    {
        let mut group_entries: Vec<BindGroupEntry> = Vec::new();
        let mut i: usize = 0;
        while i < self.buffer_bindings.len()
            invariant
                i <= self.buffer_bindings@.len(),
                group_entries@.len() == i,
                forall|k: int|
                    0 <= k < i ==> (#[trigger] group_entries@[k]) == (BindGroupEntry {
                        binding: self.buffer_bindings@[k],
                        buffer: k as usize,
                        read_only: false,
                    }),
            decreases self.buffer_bindings@.len() - i,
        {
            let b: u32 = self.buffer_bindings[i];
            group_entries.push(BindGroupEntry { binding: b, buffer: i, read_only: false });
            i += 1;
        }
        assert(group_entries@ =~= bind_group_entries(self.spec_bindings()));
        group_entries
    }

    /// Takes note of whether the shader compiled, and gives the bind group
    /// that the pipeline is to be built with. A shader that did not compile
    /// is final for the caller; the session stays where it was.
    pub fn set_compute_shader(&mut self, compiled: bool) -> (result: Result<
        Vec<BindGroupEntry>,
        GpuError,
    >)
        requires
            old(self).wf(),
        ensures
            final(self).wf(),
            final(self).spec_options() == old(self).spec_options(),
            final(self).spec_byte_order() == old(self).spec_byte_order(),
            final(self).spec_state() == old(self).spec_state(),
            final(self).spec_uploads() == old(self).spec_uploads(),
            final(self).spec_bindings() == old(self).spec_bindings(),
            final(self).spec_sizes() == old(self).spec_sizes(),
            match result {
                Ok(entries) => entries@ == bind_group_entries(old(self).spec_bindings())
                    && final(self).spec_bind_group() == Some(entries@),
                Err(e) => final(self).spec_bind_group() == old(self).spec_bind_group() && e == (
                if old(self).spec_state() != DeviceState::Configured && old(self).spec_state()
                    != DeviceState::Bound {
                    GpuError::InvalidState
                } else {
                    GpuError::ShaderCompilationFailure
                }),
            },
            result is Ok <==> compiled && (old(self).spec_state() == DeviceState::Configured
                || old(self).spec_state() == DeviceState::Bound),
    {
        match self.state {
            DeviceState::Configured => {},
            DeviceState::Bound => {},
            _ => {
                return Err(GpuError::InvalidState);
            },
        }
        if !compiled {
            return Err(GpuError::ShaderCompilationFailure);
        }
        let entries = self.create_compute_pipeline();
        self.bind_group = Some(entries.clone());
        assert(self.bind_group.unwrap()@ =~= entries@);
        Ok(entries)
    }

    /// The batch of commands for one run of the shader with the given
    /// numbers of work groups: the dispatch, then for every upload buffer a
    /// copy into its download buffer. Refused, with the session untouched,
    /// unless attributes are bound and a shader is set.
    pub fn compute(&mut self, x: u32, y: u32, z: u32) -> (result: Result<ComputeBatch, GpuError>)
        requires
            old(self).wf(),
        ensures
            final(self).wf(),
            final(self).spec_options() == old(self).spec_options(),
            final(self).spec_byte_order() == old(self).spec_byte_order(),
            final(self).spec_uploads() == old(self).spec_uploads(),
            final(self).spec_bindings() == old(self).spec_bindings(),
            final(self).spec_sizes() == old(self).spec_sizes(),
            final(self).spec_bind_group() == old(self).spec_bind_group(),
            result is Ok <==> old(self).spec_state() == DeviceState::Bound && old(
                self,
            ).spec_bind_group() is Some,
            match result {
                Ok(batch) => final(self).spec_state() == DeviceState::Dispatched
                    && batch.work_groups == (x, y, z) && Some(batch.bind_group@) == old(
                    self,
                ).spec_bind_group() && batch.copies@ == buffer_copies(old(self).spec_sizes()),
                Err(e) => e == GpuError::InvalidState && final(self).spec_state() == old(
                    self,
                ).spec_state(),
            },
    {
        match self.state {
            DeviceState::Bound => {},
            _ => {
                return Err(GpuError::InvalidState);
            },
        }
        let bind_group = match &self.bind_group {
            Some(entries) => entries.clone(),
            None => {
                return Err(GpuError::InvalidState);
            },
        };
        let mut copies: Vec<BufferCopy> = Vec::new();
        let mut i: usize = 0;
        while i < self.buffer_sizes.len()
            invariant
                i <= self.buffer_sizes@.len(),
                copies@.len() == i,
                forall|k: int|
                    0 <= k < i ==> (#[trigger] copies@[k]) == (BufferCopy {
                        buffer: k as usize,
                        size: self.buffer_sizes@[k],
                    }),
            decreases self.buffer_sizes@.len() - i,
        {
            copies.push(BufferCopy { buffer: i, size: self.buffer_sizes[i] });
            i += 1;
        }
        assert(copies@ =~= buffer_copies(self.spec_sizes()));
        assert(bind_group@ =~= self.bind_group.unwrap()@);
        self.state = DeviceState::Dispatched;
        Ok(ComputeBatch { work_groups: (x, y, z), bind_group, copies })
    }

    /// Takes the bytes that were read back, one entry for every download
    /// buffer in upload order, `None` for a buffer that could not be mapped,
    /// and hands them on as the results. The caller interprets the bytes in
    /// the widened types. Refused, with the session untouched, unless a
    /// dispatch is pending and there is an entry for every buffer.
    pub fn download(&mut self, mapped: Vec<Option<Vec<u8>>>) -> (result: Result<
        Vec<Option<Vec<u8>>>,
        GpuError,
    >)
        requires
            old(self).wf(),
        ensures
            final(self).wf(),
            final(self).spec_options() == old(self).spec_options(),
            final(self).spec_byte_order() == old(self).spec_byte_order(),
            final(self).spec_uploads() == old(self).spec_uploads(),
            final(self).spec_bindings() == old(self).spec_bindings(),
            final(self).spec_sizes() == old(self).spec_sizes(),
            final(self).spec_bind_group() == old(self).spec_bind_group(),
            result is Ok <==> old(self).spec_state() == DeviceState::Dispatched && mapped@.len()
                == old(self).spec_uploads().len(),
            match result {
                Ok(results) => results == mapped && final(self).spec_state()
                    == DeviceState::Downloaded,
                Err(e) => e == GpuError::InvalidState && final(self).spec_state() == old(
                    self,
                ).spec_state(),
            },
    {
        match self.state {
            DeviceState::Dispatched => {},
            _ => {
                return Err(GpuError::InvalidState);
            },
        }
        if mapped.len() != self.upload_contents.len() {
            return Err(GpuError::InvalidState);
        }
        self.state = DeviceState::Downloaded;
        Ok(mapped)
    }
}

impl Default for Device {
    fn default() -> (device: Self)
        ensures
            device.wf(),
            device.spec_options() == (DeviceOptions {
                device_power: DevicePower::Low,
                device_backend: DeviceBackend::Primary,
                use_adapter_features: false,
                use_adapter_limits: false,
            }),
            device.spec_state() == DeviceState::Uninitialized,
            device.spec_uploads().len() == 0,
    {
        Device::new(DeviceOptions::default())
    }
}

/// What taking note of an acquisition gives in the given state.
pub open spec fn acquisition_outcome(state: DeviceState, acquired: bool) -> Result<(), GpuError> {
    if state != DeviceState::Uninitialized {
        Err(GpuError::InvalidState)
    } else if !acquired {
        Err(GpuError::DeviceAcquisitionFailure)
    } else {
        Ok(())
    }
}

/// What an upload gives in the given state, where `refusal` is the first
/// refusal among its requests.
pub open spec fn upload_result(state: DeviceState, refusal: Option<GpuError>) -> Result<
    (),
    GpuError,
> {
    if state != DeviceState::Configured && state != DeviceState::Bound {
        Err(GpuError::InvalidState)
    } else {
        match refusal {
            Some(e) => Err(e),
            None => Ok(()),
        }
    }
}

/// The bind group for upload buffers with the given bindings.
pub open spec fn bind_group_entries(bindings: Seq<u32>) -> Seq<BindGroupEntry> {
    Seq::new(
        bindings.len(),
        |i: int| BindGroupEntry { binding: bindings[i], buffer: i as usize, read_only: false },
    )
}

/// The copies for upload buffers of the given sizes.
pub open spec fn buffer_copies(sizes: Seq<u64>) -> Seq<BufferCopy> {
    Seq::new(sizes.len(), |i: int| BufferCopy { buffer: i as usize, size: sizes[i] })
}

/// Sessions of one byte order that are handed the same request, one from a
/// buffer that keeps its points attribute by attribute and one from a buffer
/// that keeps them record by record, holding the same points, put the same
/// bytes, and so as many, into the upload buffer.
pub proof fn lemma_uploads_agree(
    columnar: &PerAttributeVecPointStorage,
    interleaved: &InterleavedVecPointStorage,
    info: BufferInfo,
    order: ByteOrder,
)
    requires
        columnar.wf(),
        interleaved.wf(),
        columnar@ == interleaved@,
    ensures
        upload_bytes(columnar@, info, order) == upload_bytes(interleaved@, info, order),
        upload_bytes(columnar@, info, order).len() == upload_bytes(interleaved@, info, order).len(),
{
    lemma_layouts_agree(
        columnar,
        interleaved,
        field_index(columnar@.fields, info.attribute.spec_name()),
    );
}

/// A refusal among the first requests is the refusal of all.
pub proof fn lemma_first_refusal_stays(points: PointsModel, infos: Seq<BufferInfo>, count: int)
    requires
        0 <= count <= infos.len(),
        first_refusal(points, infos, count as nat) is Some,
    ensures
        first_refusal(points, infos, infos.len()) == first_refusal(points, infos, count as nat),
    decreases infos.len() - count,
{
    if count < infos.len() {
        lemma_first_refusal_stays(points, infos, count + 1);
    }
}

} // verus!
