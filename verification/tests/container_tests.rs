use pointcloud_engine::containers::{
    BufferError, InterleavedVecPointStorage, PerAttributeVecPointStorage, PointBuffer,
    PointBufferWriteable,
};
use pointcloud_engine::endian::ByteOrder;
use pointcloud_engine::layout::{PointAttributeDataType, PointAttributeDefinition, PointLayout};
use pointcloud_engine::transfer::push_converted;

fn position() -> PointAttributeDefinition {
    PointAttributeDefinition::custom("Position3D", PointAttributeDataType::Vec3f32)
}

fn color() -> PointAttributeDefinition {
    PointAttributeDefinition::custom("ColorRGB", PointAttributeDataType::Vec3u8)
}

fn temperature() -> PointAttributeDefinition {
    PointAttributeDefinition::custom("Temperature", PointAttributeDataType::I16)
}

fn intensity() -> PointAttributeDefinition {
    PointAttributeDefinition::custom("Intensity", PointAttributeDataType::U16)
}

fn position_bytes(points: &[[f32; 3]]) -> Vec<u8> {
    let mut bytes = Vec::new();
    for point in points {
        for component in point {
            bytes.extend_from_slice(&component.to_ne_bytes());
        }
    }
    bytes
}

fn fill<B: PointBufferWriteable>(buffer: &mut B) {
    buffer.resize(3).unwrap();
    buffer
        .set_raw_attribute_range(
            0..3,
            &position(),
            &position_bytes(&[[1.0, 2.0, 3.0], [4.0, 5.0, 6.0], [7.0, 8.0, 9.0]]),
        )
        .unwrap();
    buffer
        .set_raw_attribute_range(0..3, &color(), &[1, 2, 3, 4, 5, 6, 7, 8, 9])
        .unwrap();
    buffer
        .set_raw_attribute_range(0..3, &intensity(), &[10, 0, 20, 0, 30, 0])
        .unwrap();
}

fn test_layout() -> PointLayout {
    PointLayout::from_attributes(&[color(), position(), intensity()]).unwrap()
}

fn read<B: PointBuffer>(
    buffer: &B,
    range: std::ops::Range<usize>,
    attribute: &PointAttributeDefinition,
) -> Vec<u8> {
    let mut bytes = vec![0u8; range.len() * attribute.size() as usize];
    buffer.get_raw_attribute_range(range, attribute, &mut bytes).unwrap();
    bytes
}

#[test]
fn both_storages_give_identical_bytes_for_every_attribute() {
    let mut columnar = PerAttributeVecPointStorage::new(test_layout());
    let mut interleaved = InterleavedVecPointStorage::new(test_layout()).unwrap();
    fill(&mut columnar);
    fill(&mut interleaved);
    assert_eq!(columnar.len(), 3);
    assert_eq!(interleaved.len(), 3);
    for attribute in [position(), color(), intensity()] {
        assert_eq!(read(&columnar, 0..3, &attribute), read(&interleaved, 0..3, &attribute));
    }
    assert_eq!(read(&interleaved, 1..3, &color()), vec![4, 5, 6, 7, 8, 9]);
    assert_eq!(read(&columnar, 1..2, &intensity()), vec![20, 0]);
}

#[test]
fn interleaved_records_follow_the_layout() {
    let mut interleaved = InterleavedVecPointStorage::new(test_layout()).unwrap();
    fill(&mut interleaved);
    let stride = test_layout().size_of_point_entry() as usize;
    assert_eq!(stride, 20);
    let records = interleaved.records();
    assert_eq!(interleaved.interleaved_records(), Some(records));
    assert_eq!(PerAttributeVecPointStorage::new(test_layout()).interleaved_records(), None);
    assert_eq!(records.len(), 3 * stride);
    assert_eq!(&records[0..3], &[1, 2, 3]);
    assert_eq!(records[3], 0);
    assert_eq!(&records[4..8], &1.0f32.to_ne_bytes());
    assert_eq!(&records[stride + 16..stride + 18], &[20, 0]);
}

#[test]
fn columnar_regions_hold_one_attribute_each() {
    let mut columnar = PerAttributeVecPointStorage::new(test_layout());
    fill(&mut columnar);
    assert_eq!(columnar.attribute_region(0), &[1, 2, 3, 4, 5, 6, 7, 8, 9]);
    assert_eq!(columnar.attribute_region(2), &[10, 0, 20, 0, 30, 0]);
}

#[test]
fn reading_is_refused_exactly_when_it_cannot_be_served() {
    let mut columnar = PerAttributeVecPointStorage::new(test_layout());
    fill(&mut columnar);
    let mut bytes = vec![9u8; 6];
    assert_eq!(
        columnar.get_raw_attribute_range(0..3, &temperature(), &mut bytes),
        Err(BufferError::MissingAttribute)
    );
    assert_eq!(
        columnar.get_raw_attribute_range(
            0..3,
            &PointAttributeDefinition::custom("Intensity", PointAttributeDataType::I16),
            &mut bytes
        ),
        Err(BufferError::TypeMismatch)
    );
    assert_eq!(
        columnar.get_raw_attribute_range(2..4, &intensity(), &mut bytes),
        Err(BufferError::OutOfBounds)
    );
    assert_eq!(
        columnar.get_raw_attribute_range(0..2, &intensity(), &mut bytes),
        Err(BufferError::SizeMismatch)
    );
    assert_eq!(bytes, vec![9u8; 6]);
    let mut interleaved = InterleavedVecPointStorage::new(test_layout()).unwrap();
    fill(&mut interleaved);
    assert_eq!(
        interleaved.set_raw_attribute_range(1..5, &color(), &[0; 12]),
        Err(BufferError::OutOfBounds)
    );
    assert_eq!(
        interleaved.set_raw_attribute_range(1..2, &color(), &[0; 4]),
        Err(BufferError::SizeMismatch)
    );
    assert_eq!(read(&interleaved, 0..3, &color()), vec![1, 2, 3, 4, 5, 6, 7, 8, 9]);
}

#[test]
fn resize_truncates_and_fills_with_zeros() {
    let mut columnar = PerAttributeVecPointStorage::new(test_layout());
    let mut interleaved = InterleavedVecPointStorage::new(test_layout()).unwrap();
    fill(&mut columnar);
    fill(&mut interleaved);
    columnar.resize(1).unwrap();
    interleaved.resize(1).unwrap();
    columnar.resize(2).unwrap();
    interleaved.resize(2).unwrap();
    assert_eq!(read(&columnar, 0..2, &color()), vec![1, 2, 3, 0, 0, 0]);
    assert_eq!(read(&interleaved, 0..2, &color()), vec![1, 2, 3, 0, 0, 0]);
    assert_eq!(read(&interleaved, 0..2, &intensity()), vec![10, 0, 0, 0]);
}

#[test]
fn push_appends_points_of_the_same_layout() {
    let mut columnar = PerAttributeVecPointStorage::new(test_layout());
    let mut interleaved = InterleavedVecPointStorage::new(test_layout()).unwrap();
    fill(&mut columnar);
    fill(&mut interleaved);
    let mut target = PerAttributeVecPointStorage::new(test_layout());
    target.push(&interleaved).unwrap();
    target.push(&columnar).unwrap();
    assert_eq!(target.len(), 6);
    assert_eq!(
        read(&target, 0..6, &intensity()),
        vec![10, 0, 20, 0, 30, 0, 10, 0, 20, 0, 30, 0]
    );
    let mut rows = InterleavedVecPointStorage::new(test_layout()).unwrap();
    rows.push(&columnar).unwrap();
    rows.push(&interleaved).unwrap();
    assert_eq!(rows.len(), 6);
    assert_eq!(read(&rows, 2..4, &color()), vec![7, 8, 9, 1, 2, 3]);
    assert_eq!(read(&rows, 0..6, &position()), read(&target, 0..6, &position()));
}

#[test]
fn push_refuses_another_layout() {
    let other = PointLayout::from_attributes(&[position(), color()]).unwrap();
    let source = PerAttributeVecPointStorage::new(other);
    let mut columnar = PerAttributeVecPointStorage::new(test_layout());
    let mut interleaved = InterleavedVecPointStorage::new(test_layout()).unwrap();
    assert_eq!(columnar.push(&source), Err(BufferError::LayoutMismatch));
    assert_eq!(interleaved.push(&source), Err(BufferError::LayoutMismatch));
}

#[test]
fn cross_layout_push_keeps_shared_attributes_and_drops_the_rest() {
    let source_layout =
        PointLayout::from_attributes(&[position(), color(), temperature()]).unwrap();
    let mut source = InterleavedVecPointStorage::new(source_layout).unwrap();
    source.resize(2).unwrap();
    let positions = position_bytes(&[[1.0, 2.0, 3.0], [4.0, 5.0, 6.0]]);
    source.set_raw_attribute_range(0..2, &position(), &positions).unwrap();
    source.set_raw_attribute_range(0..2, &color(), &[1, 2, 3, 4, 5, 6]).unwrap();
    source
        .set_raw_attribute_range(0..2, &temperature(), &[0xfb, 0xff, 0x10, 0x00])
        .unwrap();

    let target_layout = PointLayout::from_attributes(&[position(), color()]).unwrap();
    let mut target = PerAttributeVecPointStorage::new(target_layout);
    assert_eq!(push_converted(&mut target, &source, ByteOrder::LittleEndian), Ok(vec![]));
    assert_eq!(target.len(), 2);
    assert_eq!(target.point_layout().len(), 2);
    assert_eq!(read(&target, 0..2, &position()), positions);
    assert_eq!(read(&target, 0..2, &color()), vec![1, 2, 3, 4, 5, 6]);
}

#[test]
fn cross_layout_push_converts_and_zero_fills() {
    let source_layout = PointLayout::from_attributes(&[
        PointAttributeDefinition::custom("ColorRGB", PointAttributeDataType::Vec3u16),
        PointAttributeDefinition::custom("Intensity", PointAttributeDataType::U8),
        PointAttributeDefinition::custom("GpsTime", PointAttributeDataType::I64),
        PointAttributeDefinition::custom("Position3D", PointAttributeDataType::Vec3f64),
    ])
    .unwrap();
    let mut source = PerAttributeVecPointStorage::new(source_layout);
    source.resize(1).unwrap();
    source
        .set_raw_attribute_range(
            0..1,
            &PointAttributeDefinition::custom("ColorRGB", PointAttributeDataType::Vec3u16),
            &[0x11, 0x01, 0x22, 0x02, 0x33, 0x03],
        )
        .unwrap();
    source
        .set_raw_attribute_range(
            0..1,
            &PointAttributeDefinition::custom("Intensity", PointAttributeDataType::U8),
            &[200],
        )
        .unwrap();
    let mut places = Vec::new();
    for component in [1.5f64, -2.0, 0.1] {
        places.extend_from_slice(&component.to_le_bytes());
    }
    source
        .set_raw_attribute_range(
            0..1,
            &PointAttributeDefinition::custom("Position3D", PointAttributeDataType::Vec3f64),
            &places,
        )
        .unwrap();
    let target_layout = PointLayout::from_attributes(&[
        color(),
        intensity(),
        PointAttributeDefinition::custom("GpsTime", PointAttributeDataType::F32),
        position(),
        PointAttributeDefinition::custom("Normal", PointAttributeDataType::Vec3f32),
    ])
    .unwrap();
    let mut target = InterleavedVecPointStorage::new(target_layout).unwrap();
    let dropped = push_converted(&mut target, &source, ByteOrder::LittleEndian).unwrap();
    assert_eq!(dropped, vec![2]);
    assert_eq!(read(&target, 0..1, &color()), vec![0x11, 0x22, 0x33]);
    assert_eq!(read(&target, 0..1, &intensity()), vec![200, 0]);
    assert_eq!(
        read(
            &target,
            0..1,
            &PointAttributeDefinition::custom("GpsTime", PointAttributeDataType::F32)
        ),
        vec![0, 0, 0, 0]
    );
    let mut narrowed = Vec::new();
    for component in [1.5f32, -2.0, 0.1] {
        narrowed.extend_from_slice(&component.to_le_bytes());
    }
    assert_eq!(read(&target, 0..1, &position()), narrowed);
    assert_eq!(
        read(
            &target,
            0..1,
            &PointAttributeDefinition::custom("Normal", PointAttributeDataType::Vec3f32)
        ),
        vec![0; 12]
    );
}

#[test]
fn sizes_beyond_the_address_space_are_refused() {
    let mut columnar = PerAttributeVecPointStorage::new(test_layout());
    let mut interleaved = InterleavedVecPointStorage::new(test_layout()).unwrap();
    fill(&mut columnar);
    fill(&mut interleaved);
    assert_eq!(columnar.resize(usize::MAX), Err(BufferError::CapacityOverflow));
    assert_eq!(interleaved.resize(usize::MAX / 2), Err(BufferError::CapacityOverflow));
    assert_eq!(columnar.len(), 3);
    assert_eq!(interleaved.len(), 3);
    assert_eq!(read(&interleaved, 0..3, &color()), vec![1, 2, 3, 4, 5, 6, 7, 8, 9]);
    let empty = PointLayout::new();
    let mut points = PerAttributeVecPointStorage::new(empty.clone());
    assert_eq!(points.resize(usize::MAX), Ok(()));
    let mut more = InterleavedVecPointStorage::new(empty).unwrap();
    more.resize(1).unwrap();
    assert_eq!(points.push(&more), Err(BufferError::CapacityOverflow));
    assert_eq!(points.len(), usize::MAX);
}
