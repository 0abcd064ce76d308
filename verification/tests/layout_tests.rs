use pointcloud_engine::layout::attributes::{
    classification, color_rgb, gps_time, intensity, normal, position_3d,
    return_point_waveform_location, scan_angle, scan_direction_flag, waveform_packet_size,
};
use pointcloud_engine::layout::{
    align_offset, FieldAlignment, LayoutError, PointAttributeDataType, PointAttributeDefinition,
    PointLayout,
};

#[test]
fn sizes_of_data_types() {
    let expected: [(PointAttributeDataType, u64); 15] = [
        (PointAttributeDataType::U8, 1),
        (PointAttributeDataType::I8, 1),
        (PointAttributeDataType::U16, 2),
        (PointAttributeDataType::I16, 2),
        (PointAttributeDataType::U32, 4),
        (PointAttributeDataType::I32, 4),
        (PointAttributeDataType::U64, 8),
        (PointAttributeDataType::I64, 8),
        (PointAttributeDataType::F32, 4),
        (PointAttributeDataType::F64, 8),
        (PointAttributeDataType::Bool, 1),
        (PointAttributeDataType::Vec3u8, 3),
        (PointAttributeDataType::Vec3u16, 6),
        (PointAttributeDataType::Vec3f32, 12),
        (PointAttributeDataType::Vec3f64, 24),
    ];
    for (datatype, size) in expected.iter() {
        assert_eq!(datatype.size(), *size);
    }
}

#[test]
fn layout_places_attributes_at_aligned_offsets() {
    let mut layout = PointLayout::new();
    layout
        .add_attribute(
            PointAttributeDefinition::custom("Classification", PointAttributeDataType::U8),
            FieldAlignment::Default,
        )
        .unwrap();
    layout
        .add_attribute(
            PointAttributeDefinition::custom("Position3D", PointAttributeDataType::Vec3f64),
            FieldAlignment::Default,
        )
        .unwrap();
    layout
        .add_attribute(
            PointAttributeDefinition::custom("Intensity", PointAttributeDataType::U16),
            FieldAlignment::Default,
        )
        .unwrap();
    assert_eq!(layout.offset_of("Classification"), Some(0));
    assert_eq!(layout.offset_of("Position3D"), Some(8));
    assert_eq!(layout.offset_of("Intensity"), Some(32));
    assert_eq!(layout.size_of_point_entry(), 40);
    assert_eq!(layout.offset_of("Color"), None);
}

#[test]
fn duplicate_attribute_is_refused() {
    let mut layout = PointLayout::new();
    let first = layout.add_attribute(
        PointAttributeDefinition::custom("Intensity", PointAttributeDataType::U16),
        FieldAlignment::Default,
    );
    assert_eq!(first, Ok(()));
    let second = layout.add_attribute(
        PointAttributeDefinition::custom("Intensity", PointAttributeDataType::U32),
        FieldAlignment::Default,
    );
    assert_eq!(second, Err(LayoutError::DuplicateAttribute));
    assert_eq!(layout.len(), 1);
}

#[test]
fn packed_alignment_caps_the_natural_one() {
    let mut layout = PointLayout::new();
    for (name, datatype) in [
        ("Classification", PointAttributeDataType::U8),
        ("GpsTime", PointAttributeDataType::F64),
        ("Intensity", PointAttributeDataType::U16),
    ] {
        layout
            .add_attribute(PointAttributeDefinition::custom(name, datatype), FieldAlignment::Packed(1))
            .unwrap();
    }
    assert_eq!(layout.offset_of("GpsTime"), Some(1));
    assert_eq!(layout.offset_of("Intensity"), Some(9));
    assert_eq!(layout.size_of_point_entry(), 11);
    let mut capped = PointLayout::new();
    capped
        .add_attribute(
            PointAttributeDefinition::custom("Classification", PointAttributeDataType::U8),
            FieldAlignment::Packed(4),
        )
        .unwrap();
    capped
        .add_attribute(
            PointAttributeDefinition::custom("GpsTime", PointAttributeDataType::F64),
            FieldAlignment::Packed(4),
        )
        .unwrap();
    assert_eq!(capped.attribute_at(0).alignment(), 1);
    assert_eq!(capped.attribute_at(1).alignment(), 4);
    assert_eq!(capped.offset_of("GpsTime"), Some(4));
    assert_eq!(capped.size_of_point_entry(), 12);
    assert_eq!(FieldAlignment::Packed(16).resolve(PointAttributeDataType::Vec3f64), 8);
    assert_eq!(FieldAlignment::Default.resolve(PointAttributeDataType::Vec3u16), 2);
}

#[test]
fn alignment_of_zero_is_refused() {
    let mut layout = PointLayout::new();
    let result = layout.add_attribute(
        PointAttributeDefinition::custom("Intensity", PointAttributeDataType::U16),
        FieldAlignment::Packed(0),
    );
    assert_eq!(result, Err(LayoutError::ZeroAlignment));
    assert_eq!(layout.len(), 0);
    assert_eq!(layout.size_of_point_entry(), 0);
}

#[test]
fn every_attribute_is_aligned_and_none_overlap() {
    let layout = PointLayout::from_attributes(&[
        scan_direction_flag(),
        position_3d(),
        color_rgb(),
        classification(),
        waveform_packet_size(),
        intensity(),
        gps_time(),
        scan_angle(),
        return_point_waveform_location(),
        normal(),
    ])
    .unwrap();
    let members = layout.attributes();
    assert_eq!(members.len(), 10);
    let mut end = 0;
    for member in members.iter() {
        assert_eq!(member.alignment(), member.datatype().min_alignment());
        assert_eq!(member.offset() % member.alignment(), 0);
        assert!(member.offset() >= end);
        assert!(member.offset() < end + member.alignment());
        end = member.offset() + member.size();
    }
    assert!(layout.size_of_point_entry() >= end);
    assert_eq!(layout.size_of_point_entry() % 8, 0);
    assert_eq!(layout.size_of_point_entry(), 80);
}

#[test]
fn lookup_by_name() {
    let layout = PointLayout::from_attributes(&[position_3d(), intensity()]).unwrap();
    assert_eq!(layout.index_of("Intensity"), Some(1));
    assert_eq!(layout.index_of("intensity"), None);
    assert!(layout.has_attribute_with_name("Position3D"));
    assert!(layout.has_attribute(&intensity()));
    assert!(!layout.has_attribute(&intensity().with_custom_datatype(PointAttributeDataType::U8)));
    let member = layout.get_attribute_by_name("Intensity").unwrap();
    assert_eq!(member.name(), "Intensity");
    assert_eq!(member.datatype(), PointAttributeDataType::U16);
    assert_eq!(member.offset(), 24);
    assert_eq!(member.definition().name(), "Intensity");
    assert!(layout.get_attribute_by_name("Normal").is_none());
    assert!(layout.equals(&layout.clone()));
    assert!(!layout.equals(&PointLayout::default()));
    assert_eq!(
        PointLayout::from_attributes(&[intensity(), position_3d(), intensity()]).err(),
        Some(LayoutError::DuplicateAttribute)
    );
}

#[test]
fn builtin_attributes() {
    assert_eq!(position_3d().name(), "Position3D");
    assert_eq!(position_3d().datatype(), PointAttributeDataType::Vec3f64);
    assert_eq!(color_rgb().datatype(), PointAttributeDataType::Vec3u16);
    assert_eq!(normal().datatype(), PointAttributeDataType::Vec3f32);
    assert_eq!(scan_direction_flag().datatype(), PointAttributeDataType::Bool);
    assert_eq!(gps_time().size(), 8);
    assert_eq!(scan_angle().name(), "ScanAngle");
}

#[test]
fn rounding_up_offsets() {
    assert_eq!(align_offset(0, 8), Some(0));
    assert_eq!(align_offset(1, 8), Some(8));
    assert_eq!(align_offset(16, 8), Some(16));
    assert_eq!(align_offset(17, 3), Some(18));
    assert_eq!(align_offset(u64::MAX, 8), None);
    assert_eq!(align_offset(u64::MAX - 7, 8), Some(u64::MAX - 7));
}
