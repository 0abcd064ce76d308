use pointcloud_engine::las::extra_bytes::{
    data_type_code, data_type_of_code, ExtraBytesError, ExtraBytesRecord, RECORD_BYTE_LENGTH,
};
use pointcloud_engine::layout::PointAttributeDataType;

#[test]
fn float_record_round_trips_and_is_no_unsigned_record() {
    let mut record =
        ExtraBytesRecord::new(PointAttributeDataType::F32, 0, b"height", b"height above ground")
            .unwrap();
    record.set_no_data_value(Some(3.5f64.to_le_bytes()));
    let raw = record.encode();
    assert_eq!(raw.len(), 192);
    assert_eq!(raw.len(), RECORD_BYTE_LENGTH);
    let read = ExtraBytesRecord::decode(&raw, 0).unwrap();
    assert_eq!(read.data_type(), PointAttributeDataType::F32);
    assert_eq!(read.no_data_value_f64().map(f64::from_bits), Some(3.5));
    assert_eq!(read.min_value_f64(), None);
    assert!(read.data_type().is_float());
    assert!(!read.data_type().is_unsigned_integer());
    assert!(!read.data_type().is_signed_integer());
    assert_eq!(read.name(), b"height");
    assert_eq!(read.description(), b"height above ground");
}

#[test]
fn record_layout_is_field_by_field() {
    let mut record =
        ExtraBytesRecord::new(PointAttributeDataType::I16, 6, b"t", b"temperature").unwrap();
    record.set_no_data_value(Some((-1i64).to_le_bytes()));
    record.set_min_value(Some((-40i64).to_le_bytes()));
    record.set_max_value(Some(125i64.to_le_bytes()));
    record.set_scale(Some(0.5f64.to_bits()));
    record.set_offset(Some(2.0f64.to_bits()));
    let raw = record.encode();
    assert_eq!(&raw[0..2], &[0, 0]);
    assert_eq!(raw[2], 4);
    assert_eq!(raw[3], 0b1_1111);
    assert_eq!(&raw[4..6], &[b't', 0]);
    assert_eq!(&raw[6..40], &[0u8; 34]);
    assert_eq!(&raw[40..48], &[0xff; 8]);
    assert_eq!(&raw[48..64], &[0u8; 16]);
    assert_eq!(&raw[64..72], &(-40i64).to_le_bytes());
    assert_eq!(&raw[88..96], &125i64.to_le_bytes());
    assert_eq!(&raw[112..120], &0.5f64.to_le_bytes());
    assert_eq!(&raw[136..144], &2.0f64.to_le_bytes());
    assert_eq!(&raw[160..171], b"temperature");
    assert_eq!(&raw[171..192], &[0u8; 21]);

    let read = ExtraBytesRecord::decode(&raw, 6).unwrap();
    assert_eq!(read.offset_to_first_extra_byte(), 6);
    assert_eq!(read.no_data_value_i64(), Some(-1));
    assert_eq!(read.min_value_i64(), Some(-40));
    assert_eq!(read.scale().map(f64::from_bits), Some(0.5));
    assert_eq!(read.offset().map(f64::from_bits), Some(2.0));
    assert_eq!(read.encode(), raw);
}

#[test]
fn unsigned_and_signed_values() {
    let mut record = ExtraBytesRecord::new(PointAttributeDataType::U32, 0, b"count", b"").unwrap();
    record.set_no_data_value(Some(u64::MAX.to_le_bytes()));
    record.set_min_value(Some(7u64.to_le_bytes()));
    assert_eq!(record.no_data_value_u64(), Some(u64::MAX));
    assert_eq!(record.min_value_u64(), Some(7));
    let mut record = ExtraBytesRecord::new(PointAttributeDataType::I64, 0, b"delta", b"").unwrap();
    assert_eq!(record.no_data_value_i64(), None);
    record.set_no_data_value(Some(i64::MIN.to_le_bytes()));
    record.set_min_value(Some(i64::MAX.to_le_bytes()));
    assert_eq!(record.no_data_value_i64(), Some(i64::MIN));
    assert_eq!(record.min_value_i64(), Some(i64::MAX));
    let mut record = ExtraBytesRecord::new(PointAttributeDataType::F64, 0, b"x", b"").unwrap();
    record.set_min_value(Some((-0.25f64).to_le_bytes()));
    assert_eq!(record.min_value_f64().map(f64::from_bits), Some(-0.25));
}

#[test]
fn records_are_refused_exactly_when_they_cannot_be() {
    assert_eq!(
        ExtraBytesRecord::new(PointAttributeDataType::Vec3u8, 0, b"c", b"").err(),
        Some(ExtraBytesError::UnsupportedDataType)
    );
    assert_eq!(
        ExtraBytesRecord::new(PointAttributeDataType::Bool, 0, b"c", b"").err(),
        Some(ExtraBytesError::UnsupportedDataType)
    );
    assert_eq!(
        ExtraBytesRecord::new(PointAttributeDataType::U8, 0, &[b'a'; 33], b"").err(),
        Some(ExtraBytesError::InvalidText)
    );
    assert_eq!(
        ExtraBytesRecord::new(PointAttributeDataType::U8, 0, b"a", b"b\0c").err(),
        Some(ExtraBytesError::InvalidText)
    );
    assert!(ExtraBytesRecord::new(PointAttributeDataType::U8, 0, &[b'a'; 32], b"").is_ok());
    assert_eq!(
        ExtraBytesRecord::decode(&[0u8; 191], 0).err(),
        Some(ExtraBytesError::WrongLength)
    );
    assert_eq!(
        ExtraBytesRecord::decode(&[0u8; 192], 0).err(),
        Some(ExtraBytesError::UnsupportedDataType)
    );
    let mut raw = [0u8; 192];
    raw[2] = 11;
    assert_eq!(
        ExtraBytesRecord::decode(&raw, 0).err(),
        Some(ExtraBytesError::UnsupportedDataType)
    );
}

#[test]
fn data_type_codes() {
    let types = [
        PointAttributeDataType::U8,
        PointAttributeDataType::I8,
        PointAttributeDataType::U16,
        PointAttributeDataType::I16,
        PointAttributeDataType::U32,
        PointAttributeDataType::I32,
        PointAttributeDataType::U64,
        PointAttributeDataType::I64,
        PointAttributeDataType::F32,
        PointAttributeDataType::F64,
    ];
    for (index, data_type) in types.iter().enumerate() {
        assert_eq!(data_type_code(*data_type), index as u8 + 1);
        assert_eq!(data_type_of_code(index as u8 + 1), Some(*data_type));
    }
    assert_eq!(data_type_code(PointAttributeDataType::Vec3f32), 0);
    assert_eq!(data_type_of_code(0), None);
}
