use pointcloud_engine::conversion::{
    get_converter, get_converter_for_attributes, AttributeConversion, AttributeConversionFn,
};
use pointcloud_engine::endian::{
    byte_order_of_one, decode_le, encode_le, native_byte_order, resize_integer, ByteOrder,
};
use pointcloud_engine::layout::PointAttributeDataType::{
    Bool, F32, F64, I16, I32, I64, I8, U16, U32, U64, U8, Vec3f32, Vec3f64, Vec3u16, Vec3u8,
};
use pointcloud_engine::layout::{PointAttributeDataType, PointAttributeDefinition};

fn function(
    from: PointAttributeDataType,
    to: PointAttributeDataType,
    order: ByteOrder,
) -> AttributeConversionFn {
    match get_converter(from, to, order) {
        AttributeConversion::Function(function) => function,
        other => panic!("no function: {:?}", other),
    }
}

fn convert(
    from: PointAttributeDataType,
    to: PointAttributeDataType,
    order: ByteOrder,
    source: &[u8],
) -> Vec<u8> {
    let mut target = vec![0xaau8; to.size() as usize];
    function(from, to, order).convert(source, &mut target);
    target
}

#[test]
fn lookup_tells_identity_function_and_unavailable_apart() {
    let order = ByteOrder::LittleEndian;
    assert_eq!(
        get_converter(PointAttributeDataType::F64, PointAttributeDataType::F64, order),
        AttributeConversion::Identity
    );
    assert_eq!(
        get_converter(PointAttributeDataType::Vec3f64, PointAttributeDataType::Vec3u8, order),
        AttributeConversion::Unavailable
    );
    assert_eq!(
        get_converter(PointAttributeDataType::F32, PointAttributeDataType::Vec3f32, order),
        AttributeConversion::Unavailable
    );
    assert_eq!(
        get_converter(PointAttributeDataType::F32, PointAttributeDataType::U8, order),
        AttributeConversion::Unavailable
    );
    assert_eq!(
        get_converter(PointAttributeDataType::I16, PointAttributeDataType::F32, order),
        AttributeConversion::Unavailable
    );
    assert_eq!(
        get_converter(PointAttributeDataType::U8, PointAttributeDataType::Bool, order),
        AttributeConversion::Unavailable
    );
    assert_eq!(
        get_converter(PointAttributeDataType::Vec3u8, PointAttributeDataType::U32, order),
        AttributeConversion::Unavailable
    );
    let found = function(PointAttributeDataType::U16, PointAttributeDataType::U32, order);
    assert_eq!(found.source_type(), PointAttributeDataType::U16);
    assert_eq!(found.target_type(), PointAttributeDataType::U32);
    assert_eq!(found.byte_order(), order);
}

#[test]
fn lookup_for_attributes_uses_the_machines_byte_order() {
    let from = PointAttributeDefinition::custom("ColorRGB", PointAttributeDataType::Vec3u16);
    let to = from.with_custom_datatype(PointAttributeDataType::Vec3u8);
    match get_converter_for_attributes(&from, &to) {
        AttributeConversion::Function(function) => {
            assert_eq!(function.byte_order(), native_byte_order());
            assert_eq!(function.target_type(), PointAttributeDataType::Vec3u8);
        }
        other => panic!("no function: {:?}", other),
    }
    assert_eq!(get_converter_for_attributes(&from, &from), AttributeConversion::Identity);
}

#[test]
fn widening_keeps_the_number() {
    let le = ByteOrder::LittleEndian;
    let be = ByteOrder::BigEndian;
    assert_eq!(convert(U16, U32, le, &[0x34, 0x12]), vec![0x34, 0x12, 0, 0]);
    assert_eq!(convert(U16, U32, be, &[0x12, 0x34]), vec![0, 0, 0x12, 0x34]);
    assert_eq!(convert(I8, I32, le, &[0xfb]), (-5i32).to_le_bytes().to_vec());
    assert_eq!(convert(I8, I32, be, &[0xfb]), (-5i32).to_be_bytes().to_vec());
    assert_eq!(convert(I16, I64, le, &(-300i16).to_le_bytes()), (-300i64).to_le_bytes().to_vec());
    assert_eq!(convert(I8, U16, le, &[0xff]), vec![0xff, 0xff]);
    assert_eq!(convert(U8, I16, le, &[0xff]), vec![0xff, 0x00]);
    assert_eq!(convert(Bool, U32, le, &[1]), vec![1, 0, 0, 0]);
    assert_eq!(convert(U8, I8, le, &[0x80]), vec![0x80]);
}

#[test]
fn narrowing_keeps_the_low_bytes() {
    let le = ByteOrder::LittleEndian;
    let be = ByteOrder::BigEndian;
    assert_eq!(convert(U32, U8, le, &0x1234_5678u32.to_le_bytes()), vec![0x78]);
    assert_eq!(convert(U32, U16, be, &0x1234_5678u32.to_be_bytes()), vec![0x56, 0x78]);
    assert_eq!(convert(I32, I8, le, &(-5i32).to_le_bytes()), vec![0xfb]);
    assert_eq!(convert(U64, U32, le, &7u64.to_le_bytes()), vec![7, 0, 0, 0]);
}

#[test]
fn colors_convert_component_by_component() {
    let le = ByteOrder::LittleEndian;
    let be = ByteOrder::BigEndian;
    assert_eq!(convert(Vec3u8, Vec3u16, le, &[1, 2, 3]), vec![1, 0, 2, 0, 3, 0]);
    assert_eq!(convert(Vec3u8, Vec3u16, be, &[1, 2, 3]), vec![0, 1, 0, 2, 0, 3]);
    assert_eq!(convert(Vec3u16, Vec3u8, le, &[1, 9, 2, 9, 3, 9]), vec![1, 2, 3]);
    assert_eq!(convert(Vec3u16, Vec3u8, be, &[9, 1, 9, 2, 9, 3]), vec![1, 2, 3]);
}

#[test]
fn round_trip_from_the_narrower_type_is_the_identity() {
    let pairs = [
        (U8, U16),
        (U8, U64),
        (I8, I16),
        (I8, U32),
        (U16, I64),
        (I16, I64),
        (U32, U64),
        (Vec3u8, Vec3u16),
    ];
    for order in [ByteOrder::LittleEndian, ByteOrder::BigEndian] {
        for (narrow, wide) in pairs {
            let size = narrow.size() as usize;
            for seed in [0u8, 1, 0x7f, 0x80, 0xff] {
                let source: Vec<u8> =
                    (0..size).map(|i| seed.wrapping_add((i as u8).wrapping_mul(37))).collect();
                let there = convert(narrow, wide, order, &source);
                let back = convert(wide, narrow, order, &there);
                assert_eq!(back, source);
            }
        }
    }
}

#[test]
fn round_trip_from_the_wider_type_is_idempotent() {
    for order in [ByteOrder::LittleEndian, ByteOrder::BigEndian] {
        for (wide, narrow) in [(U64, U16), (I32, I8)] {
            let source: Vec<u8> = (0..wide.size() as u8).map(|i| 0x91u8.wrapping_add(i)).collect();
            let once = convert(narrow, wide, order, &convert(wide, narrow, order, &source));
            let twice = convert(narrow, wide, order, &convert(wide, narrow, order, &once));
            assert_eq!(once, twice);
        }
    }
}

#[test]
fn ranges_convert_value_by_value() {
    let widen = function(
        PointAttributeDataType::I16,
        PointAttributeDataType::I32,
        ByteOrder::LittleEndian,
    );
    let mut source = Vec::new();
    for value in [-1i16, 2, -300] {
        source.extend_from_slice(&value.to_le_bytes());
    }
    let mut target = vec![0u8; 12];
    widen.convert_range(&source, 3, &mut target);
    let mut expected = Vec::new();
    for value in [-1i32, 2, -300] {
        expected.extend_from_slice(&value.to_le_bytes());
    }
    assert_eq!(target, expected);
    let mut placed = vec![9u8; 8];
    widen.convert_at(&source, 2, &mut placed, 2);
    assert_eq!(placed, vec![9, 9, 2, 0, 0, 0, 9, 9]);
}

#[test]
fn integers_as_bytes() {
    assert_eq!(encode_le(0x0102_0304, 4), vec![4, 3, 2, 1]);
    assert_eq!(encode_le(0x0102_0304, 2), vec![4, 3]);
    assert_eq!(encode_le(u64::MAX, 8), vec![0xff; 8]);
    assert_eq!(encode_le(5, 0), Vec::<u8>::new());
    assert_eq!(decode_le(&[4, 3, 2, 1]), 0x0102_0304);
    assert_eq!(decode_le(&[]), 0);
    assert_eq!(decode_le(&[0xff; 8]), u64::MAX);
    let mut target = vec![7u8; 6];
    resize_integer(&mut target, 1, 4, &[0x80, 0x01], 0, 2, true, ByteOrder::BigEndian);
    assert_eq!(target, vec![7, 0xff, 0xff, 0x80, 0x01, 7]);
    let expected = if 1u16.to_ne_bytes() == 1u16.to_le_bytes() {
        ByteOrder::LittleEndian
    } else {
        ByteOrder::BigEndian
    };
    assert_eq!(native_byte_order(), expected);
    assert_eq!(byte_order_of_one([1, 0]), ByteOrder::LittleEndian);
    assert_eq!(byte_order_of_one([0, 1]), ByteOrder::BigEndian);
    assert_eq!(byte_order_of_one(1u16.to_ne_bytes()), native_byte_order());
}

fn doubles(values: &[f64], order: ByteOrder) -> Vec<u8> {
    let mut bytes = Vec::new();
    for value in values {
        match order {
            ByteOrder::LittleEndian => bytes.extend_from_slice(&value.to_le_bytes()),
            ByteOrder::BigEndian => bytes.extend_from_slice(&value.to_be_bytes()),
        }
    }
    bytes
}

fn singles(values: &[f32], order: ByteOrder) -> Vec<u8> {
    let mut bytes = Vec::new();
    for value in values {
        match order {
            ByteOrder::LittleEndian => bytes.extend_from_slice(&value.to_le_bytes()),
            ByteOrder::BigEndian => bytes.extend_from_slice(&value.to_be_bytes()),
        }
    }
    bytes
}

#[test]
fn floats_widen_exactly_and_narrow_to_the_nearest() {
    for order in [ByteOrder::LittleEndian, ByteOrder::BigEndian] {
        for value in [0.0f32, -0.0, 1.0, -2.5, 0.1, 3.4e38, 1.0e-40, f32::INFINITY] {
            assert_eq!(
                convert(F32, F64, order, &singles(&[value], order)),
                doubles(&[value as f64], order)
            );
        }
        for value in [0.0f64, -0.0, 1.0, 0.1, -123456.789, 1.0e39, 1.0e-46, 7.0e-46, 16777217.0] {
            assert_eq!(
                convert(F64, F32, order, &doubles(&[value], order)),
                singles(&[value as f32], order)
            );
        }
        assert_eq!(
            convert(Vec3f64, Vec3f32, order, &doubles(&[1.0, 2.0, 0.3], order)),
            singles(&[1.0, 2.0, 0.3], order)
        );
        assert_eq!(
            convert(Vec3f32, Vec3f64, order, &singles(&[1.5, -2.0, 0.3], order)),
            doubles(&[1.5, -2.0, 0.3f32 as f64], order)
        );
    }
}

#[test]
fn unsigned_integers_become_floats_of_the_same_number() {
    for order in [ByteOrder::LittleEndian, ByteOrder::BigEndian] {
        for value in [0u8, 1, 2, 3, 127, 128, 255] {
            assert_eq!(convert(U8, F32, order, &[value]), singles(&[value as f32], order));
        }
        for value in [0u16, 1, 255, 256, 12345, 65535] {
            let source = match order {
                ByteOrder::LittleEndian => value.to_le_bytes(),
                ByteOrder::BigEndian => value.to_be_bytes(),
            };
            assert_eq!(convert(U16, F32, order, &source), singles(&[value as f32], order));
        }
        assert_eq!(
            convert(Vec3u8, Vec3f32, order, &[10, 20, 255]),
            singles(&[10.0, 20.0, 255.0], order)
        );
    }
}

#[test]
fn float_round_trips() {
    for order in [ByteOrder::LittleEndian, ByteOrder::BigEndian] {
        for value in [0.0f32, -0.0, 1.0, 0.1, -3.4e38, 1.0e-45, f32::NEG_INFINITY] {
            let source = singles(&[value], order);
            let there = convert(F32, F64, order, &source);
            assert_eq!(convert(F64, F32, order, &there), source);
        }
        for value in [0.1f64, 1.0e-50, 1.0e300, 16777217.0, f64::NAN] {
            let source = doubles(&[value], order);
            let once = convert(F32, F64, order, &convert(F64, F32, order, &source));
            let twice = convert(F32, F64, order, &convert(F64, F32, order, &once));
            assert_eq!(once, twice);
        }
    }
}
