use pointcloud_engine::containers::{
    PerAttributeVecPointStorage, PointBuffer, PointBufferWriteable,
};
use pointcloud_engine::layout::{
    FieldAlignment, PointAttributeDataType, PointAttributeDefinition, PointLayout,
};
use pointcloud_engine::tiles3d::pnts_writer::{
    pnts_semantics_name_from_point_attribute, PntsWriter,
};
use pointcloud_engine::tiles3d::{
    ser_feature_table_header, FeatureTableDataReference, FeatureTableValue, PntsError, PntsHeader,
};

#[derive(Debug, Copy, Clone, PartialEq)]
struct PntsDefaultPoint {
    position: [f32; 3],
    color: [u8; 3],
    normal: [f32; 3],
}

fn default_point_layout() -> PointLayout {
    let mut layout = PointLayout::new();
    layout
        .add_attribute(
            PointAttributeDefinition::custom("Position3D", PointAttributeDataType::Vec3f32),
            FieldAlignment::Packed(1),
        )
        .unwrap();
    layout
        .add_attribute(
            PointAttributeDefinition::custom("ColorRGB", PointAttributeDataType::Vec3u8),
            FieldAlignment::Packed(1),
        )
        .unwrap();
    layout
        .add_attribute(
            PointAttributeDefinition::custom("Normal", PointAttributeDataType::Vec3f32),
            FieldAlignment::Packed(1),
        )
        .unwrap();
    layout
}

fn floats_to_bytes(values: &[[f32; 3]]) -> Vec<u8> {
    let mut bytes = Vec::new();
    for value in values {
        for component in value {
            bytes.extend_from_slice(&component.to_ne_bytes());
        }
    }
    bytes
}

fn floats_from_bytes(bytes: &[u8]) -> [f32; 3] {
    let mut value = [0.0f32; 3];
    for (index, chunk) in bytes.chunks_exact(4).enumerate() {
        value[index] = f32::from_ne_bytes([chunk[0], chunk[1], chunk[2], chunk[3]]);
    }
    value
}

fn buffer_of(points: &[PntsDefaultPoint]) -> PerAttributeVecPointStorage {
    let mut buffer = PerAttributeVecPointStorage::new(default_point_layout());
    buffer.resize(points.len()).unwrap();
    let positions: Vec<[f32; 3]> = points.iter().map(|p| p.position).collect();
    let normals: Vec<[f32; 3]> = points.iter().map(|p| p.normal).collect();
    let colors: Vec<u8> = points.iter().flat_map(|p| p.color.iter().copied()).collect();
    buffer
        .set_raw_attribute_range(
            0..points.len(),
            &PointAttributeDefinition::custom("Position3D", PointAttributeDataType::Vec3f32),
            &floats_to_bytes(&positions),
        )
        .unwrap();
    buffer
        .set_raw_attribute_range(
            0..points.len(),
            &PointAttributeDefinition::custom("ColorRGB", PointAttributeDataType::Vec3u8),
            &colors,
        )
        .unwrap();
    buffer
        .set_raw_attribute_range(
            0..points.len(),
            &PointAttributeDefinition::custom("Normal", PointAttributeDataType::Vec3f32),
            &floats_to_bytes(&normals),
        )
        .unwrap();
    buffer
}

fn attributes_of(layout: &PointLayout) -> Vec<(String, PointAttributeDataType)> {
    layout
        .attributes()
        .iter()
        .map(|member| (member.name().to_string(), member.datatype()))
        .collect()
}

fn u32_at(bytes: &[u8], at: usize) -> u32 {
    u32::from_le_bytes([bytes[at], bytes[at + 1], bytes[at + 2], bytes[at + 3]])
}

struct ReadTile {
    header: [u32; 6],
    feature_table: serde_json::Value,
    body: Vec<u8>,
    batch_table: Vec<u8>,
}

fn read_tile(tile: &[u8]) -> Result<ReadTile, String> {
    if tile.len() < 28 || &tile[0..4] != b"pnts" {
        return Err("not a tile".to_string());
    }
    let mut header = [0u32; 6];
    for (index, field) in header.iter_mut().enumerate() {
        *field = u32_at(tile, 4 + 4 * index);
    }
    let json_end = 28 + header[2] as usize;
    let body_end = json_end + header[3] as usize;
    let batch_end = body_end + header[4] as usize;
    let feature_table: serde_json::Value =
        serde_json::from_slice(&tile[28..json_end]).map_err(|e| e.to_string())?;
    Ok(ReadTile {
        header,
        feature_table,
        body: tile[json_end..body_end].to_vec(),
        batch_table: tile[body_end..batch_end].to_vec(),
    })
}

fn read_points(tile: &ReadTile, count: usize) -> Result<Vec<PntsDefaultPoint>, String> {
    let offset_of = |name: &str| -> Result<usize, String> {
        tile.feature_table
            .get(name)
            .and_then(|entry| entry.get("byteOffset"))
            .and_then(|offset| offset.as_u64())
            .map(|offset| offset as usize)
            .ok_or(format!("no {}", name))
    };
    let positions = offset_of("POSITION")?;
    let colors = offset_of("RGB")?;
    let normals = offset_of("NORMAL")?;
    let mut points = Vec::new();
    for index in 0..count {
        let position = positions + 12 * index;
        let color = colors + 3 * index;
        let normal = normals + 12 * index;
        points.push(PntsDefaultPoint {
            position: floats_from_bytes(&tile.body[position..position + 12]),
            color: [tile.body[color], tile.body[color + 1], tile.body[color + 2]],
            normal: floats_from_bytes(&tile.body[normal..normal + 12]),
        });
    }
    Ok(points)
}

#[test]
fn test_write_pnts_default_layout() {
    let test_data = vec![
        PntsDefaultPoint {
            position: [1.0, 2.0, 3.0],
            color: [10, 20, 30],
            normal: [0.1, 0.2, 0.3],
        },
        PntsDefaultPoint {
            position: [2.0, 4.0, 6.0],
            color: [20, 40, 60],
            normal: [0.2, 0.4, 0.6],
        },
    ];
    let test_point_buffer = buffer_of(test_data.as_slice());

    let tile = {
        let mut writer =
            PntsWriter::from_write_and_layout(Vec::<u8>::new(), default_point_layout());
        writer
            .write(&test_point_buffer)
            .expect("Error while writing points to PntsWriter");
        assert_eq!(
            attributes_of(writer.get_default_point_layout()),
            attributes_of(test_point_buffer.point_layout())
        );
        writer.flush().unwrap().unwrap()
    };

    // Read back in, data read should equal data written
    {
        let reader = read_tile(&tile).expect("Error while creating PntsReader");
        let read = read_points(&reader, test_point_buffer.len())
            .expect("Error while reading points from PntsReader");

        assert_eq!(
            reader.feature_table.get("POINTS_LENGTH").and_then(|n| n.as_u64()),
            Some(test_point_buffer.len() as u64)
        );
        assert_eq!(read.len(), test_point_buffer.len());

        for point_idx in 0..test_point_buffer.len() {
            let expected_point = test_data[point_idx];
            let actual_point = read[point_idx];
            assert_eq!(expected_point, actual_point);
        }
    }
}

#[test]
fn tile_of_two_positions_reads_back() {
    let layout = PointLayout::from_attributes(&[PointAttributeDefinition::custom(
        "Position3D",
        PointAttributeDataType::Vec3f32,
    )])
    .unwrap();
    let mut buffer = PerAttributeVecPointStorage::new(layout.clone());
    buffer.resize(2).unwrap();
    buffer
        .set_raw_attribute_range(
            0..2,
            &PointAttributeDefinition::custom("Position3D", PointAttributeDataType::Vec3f32),
            &floats_to_bytes(&[[1.0, 2.0, 3.0], [4.0, 5.0, 6.0]]),
        )
        .unwrap();
    let mut writer = PntsWriter::from_write_and_layout((), layout);
    writer.write(&buffer).unwrap();
    assert!(writer.requires_flush());
    assert!(writer.tile_fits());
    let tile = writer.flush().unwrap().unwrap();
    assert_eq!(writer.write_cached_points(), Ok(tile.clone()));
    assert!(writer.requires_flush());
    writer.record_flush(true);
    assert!(!writer.requires_flush());
    assert_eq!(writer.flush(), Ok(None));
    assert_eq!(writer.cached_len(), 2);

    let read = read_tile(&tile).unwrap();
    assert_eq!(read.header[0], 1);
    assert_eq!(read.header[1] as usize, tile.len());
    assert_eq!(read.header[3], 24);
    assert_eq!(read.header[5], 0);
    assert_eq!(read.batch_table, b"{}".to_vec());
    assert_eq!(
        read.feature_table.get("POINTS_LENGTH").and_then(|n| n.as_u64()),
        Some(2)
    );
    let offset = read.feature_table["POSITION"]["byteOffset"].as_u64().unwrap() as usize;
    assert_eq!(offset, 0);
    assert_eq!(floats_from_bytes(&read.body[offset..offset + 12]), [1.0, 2.0, 3.0]);
    assert_eq!(floats_from_bytes(&read.body[offset + 12..offset + 24]), [4.0, 5.0, 6.0]);
}

#[test]
fn body_regions_are_padded_to_eight_bytes() {
    let test_data = vec![PntsDefaultPoint {
        position: [1.0, 2.0, 3.0],
        color: [7, 8, 9],
        normal: [0.5, 0.25, 0.125],
    }];
    let buffer = buffer_of(&test_data);
    let mut writer = PntsWriter::from_write_and_layout((), default_point_layout());
    writer.write(&buffer).unwrap();
    assert_eq!(writer.calc_feature_table_body_length(), Ok(16 + 8 + 16));
    let mut body = Vec::new();
    writer.write_feature_table_body(&mut body);
    assert_eq!(body.len(), 40);
    assert_eq!(&body[12..16], &[0, 0, 0, 0]);
    assert_eq!(&body[16..24], &[7, 8, 9, 0, 0, 0, 0, 0]);
    assert_eq!(&body[36..40], &[0, 0, 0, 0]);
    let table = writer.create_feature_table().unwrap();
    assert_eq!(table.len(), 4);
    let offsets: Vec<usize> = table
        .iter()
        .filter_map(|(_, value)| match value {
            FeatureTableValue::DataReference(reference) => Some(reference.byte_offset),
            FeatureTableValue::SingleValue(_) => None,
        })
        .collect();
    assert_eq!(offsets, vec![0, 16, 24]);
    assert_eq!(table[3].0, "POINTS_LENGTH");
    assert!(writer.create_batch_table().is_empty());
}

#[test]
fn writer_tells_points_of_another_layout_apart() {
    let other = PointLayout::from_attributes(&[PointAttributeDefinition::custom(
        "Position3D",
        PointAttributeDataType::Vec3f32,
    )])
    .unwrap();
    let buffer = PerAttributeVecPointStorage::new(other);
    let writer = PntsWriter::from_write_and_layout((), default_point_layout());
    assert!(!buffer.point_layout().equals(writer.expected_layout()));
    let fitting = buffer_of(&[]);
    assert!(fitting.point_layout().equals(writer.expected_layout()));
    assert_eq!(
        attributes_of(writer.expected_layout()),
        attributes_of(&default_point_layout())
    );
}

#[test]
fn writer_requires_a_flush_until_the_sink_took_the_tile() {
    let buffer = buffer_of(&[PntsDefaultPoint {
        position: [1.0, 2.0, 3.0],
        color: [7, 8, 9],
        normal: [0.5, 0.25, 0.125],
    }]);
    let mut writer = PntsWriter::from_write_and_layout((), default_point_layout());
    assert!(writer.requires_flush());
    let empty = writer.flush().unwrap().unwrap();
    assert_eq!(read_tile(&empty).unwrap().header[3], 0);
    assert!(writer.requires_flush());
    writer.write(&buffer).unwrap();
    assert!(writer.requires_flush());
    let first = writer.flush().unwrap().unwrap();
    assert_eq!(read_tile(&first).unwrap().header[3], 16 + 8 + 16);
    writer.record_flush(false);
    assert!(writer.requires_flush());
    assert_eq!(writer.flush(), Ok(Some(first.clone())));
    writer.record_flush(true);
    assert!(!writer.requires_flush());
    assert_eq!(writer.flush(), Ok(None));
    writer.record_flush(false);
    assert!(!writer.requires_flush());
    writer.write(&buffer).unwrap();
    assert_eq!(writer.cached_len(), 2);
    assert!(!writer.requires_flush());
    assert_eq!(writer.flush(), Ok(None));
    assert_eq!(read_tile(&writer.write_cached_points().unwrap()).unwrap().header[3], 24 + 8 + 24);
}

#[test]
fn writer_keeps_only_known_semantics_and_converts_colors() {
    let layout = PointLayout::from_attributes(&[
        PointAttributeDefinition::custom("Intensity", PointAttributeDataType::U16),
        PointAttributeDefinition::custom("ColorRGB", PointAttributeDataType::Vec3u16),
        PointAttributeDefinition::custom("Position3D", PointAttributeDataType::Vec3f32),
    ])
    .unwrap();
    let (compatible, converters) = PntsWriter::<()>::make_compatible_layout(&layout);
    assert_eq!(compatible.len(), 2);
    assert_eq!(converters.len(), 2);
    assert_eq!(compatible.attribute_at(0).name(), "Position3D");
    assert_eq!(compatible.attribute_at(1).name(), "ColorRGB");
    assert_eq!(compatible.attribute_at(1).datatype(), PointAttributeDataType::Vec3u8);

    let mut buffer = PerAttributeVecPointStorage::new(layout.clone());
    buffer.resize(1).unwrap();
    let mut colors = Vec::new();
    for component in [17u16, 34, 51] {
        colors.extend_from_slice(&component.to_ne_bytes());
    }
    buffer
        .set_raw_attribute_range(
            0..1,
            &PointAttributeDefinition::custom("ColorRGB", PointAttributeDataType::Vec3u16),
            &colors,
        )
        .unwrap();
    let mut writer = PntsWriter::from_write_and_layout((), layout);
    writer.write(&buffer).unwrap();
    let mut body = Vec::new();
    writer.write_feature_table_body(&mut body);
    assert_eq!(body.len(), 16 + 8);
    assert_eq!(&body[16..19], &[17, 34, 51]);
}

#[test]
fn semantic_names() {
    let name = |attribute: &str| {
        pnts_semantics_name_from_point_attribute(&PointAttributeDefinition::custom(
            attribute,
            PointAttributeDataType::Vec3f32,
        ))
    };
    assert_eq!(name("Position3D"), Some("POSITION".to_string()));
    assert_eq!(name("ColorRGB"), Some("RGB".to_string()));
    assert_eq!(name("Normal"), Some("NORMAL".to_string()));
    assert_eq!(name("Intensity"), None);
}

#[test]
fn header_is_twenty_eight_bytes_lowest_byte_first() {
    let header = PntsHeader::new(1, 0x0102_0304, 5, 6, 7, 0);
    let bytes = header.to_bytes().unwrap();
    assert_eq!(bytes.len(), PntsHeader::BYTE_LENGTH);
    assert_eq!(&bytes[0..4], b"pnts");
    assert_eq!(&bytes[4..8], &[1, 0, 0, 0]);
    assert_eq!(&bytes[8..12], &[4, 3, 2, 1]);
    assert_eq!(&bytes[12..16], &[5, 0, 0, 0]);
    assert_eq!(&bytes[16..20], &[6, 0, 0, 0]);
    assert_eq!(&bytes[20..24], &[7, 0, 0, 0]);
    assert_eq!(&bytes[24..28], &[0, 0, 0, 0]);
}

#[test]
fn feature_table_header_is_a_json_object() {
    let header = vec![
        (
            "POSITION".to_string(),
            FeatureTableValue::DataReference(FeatureTableDataReference {
                byte_offset: 8,
                component_type: Some("FLOAT".to_string()),
            }),
        ),
        ("POINTS_LENGTH".to_string(), FeatureTableValue::SingleValue(3)),
    ];
    let text = ser_feature_table_header(&header).unwrap();
    let parsed: serde_json::Value = serde_json::from_slice(&text).unwrap();
    assert_eq!(parsed["POINTS_LENGTH"].as_u64(), Some(3));
    assert_eq!(parsed["POSITION"]["byteOffset"].as_u64(), Some(8));
    assert_eq!(parsed["POSITION"]["componentType"].as_str(), Some("FLOAT"));
    assert_eq!(parsed.as_object().map(|object| object.len()), Some(2));
}

#[test]
fn double_precision_positions_are_stored_in_single_precision() {
    let layout = PointLayout::from_attributes(&[
        PointAttributeDefinition::custom("Position3D", PointAttributeDataType::Vec3f64),
        PointAttributeDefinition::custom("ColorRGB", PointAttributeDataType::Vec3u16),
        PointAttributeDefinition::custom("GpsTime", PointAttributeDataType::F64),
    ])
    .unwrap();
    let mut buffer = PerAttributeVecPointStorage::new(layout.clone());
    buffer.resize(2).unwrap();
    let mut positions = Vec::new();
    for component in [1.0f64, 2.0, 3.0, 4.0, 5.0, 0.1] {
        positions.extend_from_slice(&component.to_ne_bytes());
    }
    buffer
        .set_raw_attribute_range(
            0..2,
            &PointAttributeDefinition::custom("Position3D", PointAttributeDataType::Vec3f64),
            &positions,
        )
        .unwrap();
    let mut writer = PntsWriter::from_write_and_layout((), layout);
    assert_eq!(
        attributes_of(writer.get_default_point_layout()),
        vec![
            ("Position3D".to_string(), PointAttributeDataType::Vec3f32),
            ("ColorRGB".to_string(), PointAttributeDataType::Vec3u8),
        ]
    );
    writer.write(&buffer).unwrap();
    let read = read_tile(&writer.flush().unwrap().unwrap()).unwrap();
    let offset = read.feature_table["POSITION"]["byteOffset"].as_u64().unwrap() as usize;
    assert_eq!(floats_from_bytes(&read.body[offset..offset + 12]), [1.0, 2.0, 3.0]);
    assert_eq!(floats_from_bytes(&read.body[offset + 12..offset + 24]), [4.0, 5.0, 0.1]);
    assert_eq!(read.feature_table["RGB"]["byteOffset"].as_u64(), Some(24));
}

#[test]
fn writer_refuses_more_points_than_it_can_count() {
    let mut points = PerAttributeVecPointStorage::new(PointLayout::new());
    points.resize(usize::MAX).unwrap();
    let mut writer = PntsWriter::from_write_and_layout((), PointLayout::new());
    assert_eq!(writer.write(&points), Ok(()));
    assert_eq!(writer.cached_len(), usize::MAX);
    assert_eq!(writer.write(&points), Err(PntsError::CapacityOverflow));
    assert_eq!(writer.cached_len(), usize::MAX);
    assert_eq!(writer.calc_feature_table_body_length(), Ok(0));
}

#[test]
fn header_lengths_must_fit_in_thirty_two_bits() {
    let buffer = buffer_of(&[PntsDefaultPoint {
        position: [1.0, 2.0, 3.0],
        color: [7, 8, 9],
        normal: [0.5, 0.25, 0.125],
    }]);
    let mut writer = PntsWriter::from_write_and_layout((), default_point_layout());
    writer.write(&buffer).unwrap();
    let header = writer.header_for(100, 2).unwrap();
    assert_eq!(header.version, 1);
    assert_eq!(header.byte_length, 28 + 100 + 40 + 2);
    assert_eq!(header.feature_table_json_byte_length, 100);
    assert_eq!(header.feature_table_binary_byte_length, 40);
    assert_eq!(header.batch_table_json_byte_length, 2);
    assert_eq!(header.batch_table_binary_byte_length, 0);
    let most = u32::MAX as usize - 28 - 40 - 2;
    assert_eq!(writer.header_for(most, 2).map(|header| header.byte_length), Ok(u32::MAX));
    assert_eq!(writer.header_for(most + 1, 2).err(), Some(PntsError::CapacityOverflow));
    assert_eq!(writer.header_for(2, most + 1).err(), Some(PntsError::CapacityOverflow));
    assert_eq!(writer.header_for(usize::MAX, usize::MAX).err(), Some(PntsError::CapacityOverflow));
}
