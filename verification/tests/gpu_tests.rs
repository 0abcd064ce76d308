use pointcloud_engine::containers::{
    BufferError, PerAttributeVecPointStorage, PointBufferWriteable,
};
use pointcloud_engine::endian::{native_byte_order, ByteOrder};
use pointcloud_engine::gpu::{
    realign, realign_supported, shader_entry_point, supported_on_gpu, BindGroupEntry, BufferCopy,
    BufferInfo, Device, DeviceBackend, DeviceOptions, DevicePower, DeviceState, GpuError,
};
use pointcloud_engine::layout::{PointAttributeDataType, PointAttributeDefinition, PointLayout};

fn words(bytes: &[u8]) -> Vec<u32> {
    bytes
        .chunks_exact(4)
        .map(|chunk| u32::from_ne_bytes([chunk[0], chunk[1], chunk[2], chunk[3]]))
        .collect()
}

#[test]
fn vector_of_bytes_realigns_to_four_words() {
    let device = Device::new(DeviceOptions::default());
    let aligned = device.align_slice(&[1, 2, 3], PointAttributeDataType::Vec3u8);
    assert_eq!(words(&aligned), vec![1, 2, 3, 1]);
}

#[test]
fn signed_scalar_is_sign_extended() {
    let device = Device::new(DeviceOptions::default());
    let aligned = device.align_slice(&(-5i16).to_ne_bytes(), PointAttributeDataType::I16);
    assert_eq!(aligned.len(), 4);
    assert_eq!(i32::from_ne_bytes([aligned[0], aligned[1], aligned[2], aligned[3]]), -5);
    let aligned = device.align_slice(&[0x80, 0x7f], PointAttributeDataType::I8);
    assert_eq!(words(&aligned), vec![(-128i32) as u32, 127]);
}

#[test]
fn sixty_four_bit_integers_are_refused() {
    let device = Device::new(DeviceOptions::default());
    assert!(!supported_on_gpu(PointAttributeDataType::U64));
    assert!(!supported_on_gpu(PointAttributeDataType::I64));
    assert_eq!(
        realign(&1u64.to_ne_bytes(), PointAttributeDataType::U64, device.byte_order()),
        Err(GpuError::UnsupportedGpuType)
    );
    assert_eq!(
        realign(&[0; 8], PointAttributeDataType::I64, device.byte_order()),
        Err(GpuError::UnsupportedGpuType)
    );
    assert_eq!(
        realign(&[], PointAttributeDataType::U64, ByteOrder::BigEndian),
        Err(GpuError::UnsupportedGpuType)
    );
}

#[test]
fn every_other_type_is_taken() {
    let device = Device::new(DeviceOptions::default());
    let taken = [
        (PointAttributeDataType::U8, 4),
        (PointAttributeDataType::I8, 4),
        (PointAttributeDataType::U16, 4),
        (PointAttributeDataType::I16, 4),
        (PointAttributeDataType::U32, 4),
        (PointAttributeDataType::I32, 4),
        (PointAttributeDataType::F32, 4),
        (PointAttributeDataType::F64, 8),
        (PointAttributeDataType::Bool, 4),
        (PointAttributeDataType::Vec3u8, 16),
        (PointAttributeDataType::Vec3u16, 16),
        (PointAttributeDataType::Vec3f32, 16),
        (PointAttributeDataType::Vec3f64, 32),
    ];
    for (datatype, aligned_size) in taken {
        assert!(supported_on_gpu(datatype));
        let size = device.bytes_per_element(datatype) as usize;
        let input: Vec<u8> = (0..2 * size).map(|i| i as u8).collect();
        let aligned = device.align_slice(&input, datatype);
        assert_eq!(aligned.len(), 2 * aligned_size);
        assert_eq!(realign(&input, datatype, device.byte_order()), Ok(aligned.clone()));
        assert_eq!(realign_supported(&input, datatype, device.byte_order()), aligned);
        assert_eq!(device.align_slice(&[], datatype), Vec::<u8>::new());
    }
}

#[test]
fn realignment_in_both_byte_orders() {
    assert_eq!(
        realign(&[0xfe, 0x01], PointAttributeDataType::I8, ByteOrder::LittleEndian),
        Ok(vec![0xfe, 0xff, 0xff, 0xff, 0x01, 0, 0, 0])
    );
    assert_eq!(
        realign(&[0xfe, 0x01], PointAttributeDataType::I8, ByteOrder::BigEndian),
        Ok(vec![0xff, 0xff, 0xff, 0xfe, 0, 0, 0, 0x01])
    );
    assert_eq!(
        realign(&[0x34, 0x12, 0xff], PointAttributeDataType::U16, ByteOrder::LittleEndian),
        Ok(vec![0x34, 0x12, 0, 0])
    );
    assert_eq!(
        realign(&[0x12, 0x34], PointAttributeDataType::I16, ByteOrder::BigEndian),
        Ok(vec![0, 0, 0x12, 0x34])
    );
    assert_eq!(
        realign(&[1, 0], PointAttributeDataType::Bool, ByteOrder::LittleEndian),
        Ok(vec![1, 0, 0, 0, 0, 0, 0, 0])
    );
    assert_eq!(
        realign(&[1, 2, 3, 4, 5], PointAttributeDataType::U32, ByteOrder::LittleEndian),
        Ok(vec![1, 2, 3, 4, 5])
    );
    assert_eq!(
        realign(&[1, 0, 2, 0, 3, 0], PointAttributeDataType::Vec3u16, ByteOrder::LittleEndian),
        Ok(vec![1, 0, 0, 0, 2, 0, 0, 0, 3, 0, 0, 0, 1, 0, 0, 0])
    );
}

#[test]
fn float_vectors_get_a_fourth_component_of_one() {
    let mut input = Vec::new();
    for component in [0.5f32, 0.25, 2.0] {
        input.extend_from_slice(&component.to_ne_bytes());
    }
    let aligned = realign(&input, PointAttributeDataType::Vec3f32, native_byte_order()).unwrap();
    let floats: Vec<f32> = aligned
        .chunks_exact(4)
        .map(|chunk| f32::from_ne_bytes([chunk[0], chunk[1], chunk[2], chunk[3]]))
        .collect();
    assert_eq!(floats, vec![0.5, 0.25, 2.0, 1.0]);

    let mut input = Vec::new();
    for component in [0.5f64, 0.25, 2.0] {
        input.extend_from_slice(&component.to_ne_bytes());
    }
    let aligned = realign(&input, PointAttributeDataType::Vec3f64, native_byte_order()).unwrap();
    let floats: Vec<f64> = aligned
        .chunks_exact(8)
        .map(|chunk| {
            f64::from_ne_bytes([
                chunk[0], chunk[1], chunk[2], chunk[3], chunk[4], chunk[5], chunk[6], chunk[7],
            ])
        })
        .collect();
    assert_eq!(floats, vec![0.5, 0.25, 2.0, 1.0]);
}

#[test]
fn bytes_per_element_is_the_size_of_the_type() {
    let device = Device::default();
    assert_eq!(device.bytes_per_element(PointAttributeDataType::Bool), 1);
    assert_eq!(device.bytes_per_element(PointAttributeDataType::I16), 2);
    assert_eq!(device.bytes_per_element(PointAttributeDataType::Vec3u16), 6);
    assert_eq!(device.bytes_per_element(PointAttributeDataType::Vec3f64), 24);
}

#[test]
fn default_options() {
    let options = DeviceOptions::default();
    assert_eq!(options.device_power, DevicePower::Low);
    assert_eq!(options.device_backend, DeviceBackend::Primary);
    assert!(!options.use_adapter_features);
    assert!(!options.use_adapter_limits);
    assert_eq!(DevicePower::default(), DevicePower::Low);
    assert_eq!(DeviceBackend::default(), DeviceBackend::Primary);
    assert_eq!(Device::default().options(), options);
    assert_eq!(options.select_features(0xffu64, 0x01), 0x01);
    assert_eq!(options.select_limits("adapter", "default"), "default");
    let eager = DeviceOptions { use_adapter_features: true, use_adapter_limits: true, ..options };
    assert_eq!(eager.select_features(0xffu64, 0x01), 0xff);
    assert_eq!(eager.select_limits("adapter", "default"), "adapter");
    assert_eq!(shader_entry_point(), "main");
}

fn sample_buffer() -> PerAttributeVecPointStorage {
    let layout = PointLayout::from_attributes(&[
        PointAttributeDefinition::custom("Classification", PointAttributeDataType::U8),
        PointAttributeDefinition::custom("ScanAngle", PointAttributeDataType::I16),
        PointAttributeDefinition::custom("PointID", PointAttributeDataType::U64),
    ])
    .unwrap();
    let mut buffer = PerAttributeVecPointStorage::new(layout);
    buffer.resize(2).unwrap();
    buffer
        .set_raw_attribute_range(
            0..2,
            &PointAttributeDefinition::custom("Classification", PointAttributeDataType::U8),
            &[3, 4],
        )
        .unwrap();
    let mut angles = Vec::new();
    angles.extend_from_slice(&(-1i16).to_ne_bytes());
    angles.extend_from_slice(&(-2i16).to_ne_bytes());
    buffer
        .set_raw_attribute_range(
            0..2,
            &PointAttributeDefinition::custom("ScanAngle", PointAttributeDataType::I16),
            &angles,
        )
        .unwrap();
    buffer
}

#[test]
fn session_runs_from_configuration_to_download() {
    let classification =
        PointAttributeDefinition::custom("Classification", PointAttributeDataType::U8);
    let scan_angle = PointAttributeDefinition::custom("ScanAngle", PointAttributeDataType::I16);
    let buffer = sample_buffer();
    let mut device = Device::new(DeviceOptions {
        device_power: DevicePower::High,
        device_backend: DeviceBackend::Vulkan,
        use_adapter_features: true,
        use_adapter_limits: true,
    });
    assert_eq!(device.state(), DeviceState::Uninitialized);
    let infos = vec![BufferInfo { attribute: &classification, binding: 4 }];
    assert_eq!(device.upload(&buffer, infos), Err(GpuError::InvalidState));
    assert_eq!(device.device_acquired(true), Ok(()));
    assert_eq!(device.state(), DeviceState::Configured);
    assert_eq!(device.device_acquired(true), Err(GpuError::InvalidState));
    assert_eq!(device.compute(1, 1, 1).err(), Some(GpuError::InvalidState));

    let infos = vec![
        BufferInfo { attribute: &classification, binding: 4 },
        BufferInfo { attribute: &scan_angle, binding: 6 },
    ];
    assert_eq!(device.upload(&buffer, infos), Ok(()));
    assert_eq!(device.state(), DeviceState::Bound);
    assert_eq!(device.buffer_count(), 2);
    assert_eq!(words(device.upload_contents(0)), vec![3, 4]);
    assert_eq!(words(device.upload_contents(1)), vec![(-1i32) as u32, (-2i32) as u32]);
    assert_eq!(device.buffer_size(0), 8);
    assert_eq!(device.buffer_binding(1), 6);
    assert_eq!(device.compute(1, 1, 1).err(), Some(GpuError::InvalidState));

    assert_eq!(device.set_compute_shader(false), Err(GpuError::ShaderCompilationFailure));
    let entries = device.set_compute_shader(true).unwrap();
    assert_eq!(
        entries,
        vec![
            BindGroupEntry { binding: 4, buffer: 0, read_only: false },
            BindGroupEntry { binding: 6, buffer: 1, read_only: false },
        ]
    );
    assert_eq!(device.create_compute_pipeline(), entries);

    let batch = device.compute(2, 3, 1).unwrap();
    assert_eq!(batch.work_groups, (2, 3, 1));
    assert_eq!(batch.bind_group, entries);
    assert_eq!(
        batch.copies,
        vec![BufferCopy { buffer: 0, size: 8 }, BufferCopy { buffer: 1, size: 8 }]
    );
    assert_eq!(device.state(), DeviceState::Dispatched);

    assert_eq!(device.download(vec![None]).err(), Some(GpuError::InvalidState));
    let results = device.download(vec![Some(vec![1, 2, 3, 4, 5, 6, 7, 8]), None]).unwrap();
    assert_eq!(results, vec![Some(vec![1, 2, 3, 4, 5, 6, 7, 8]), None]);
    assert_eq!(device.state(), DeviceState::Downloaded);
    assert_eq!(device.download(vec![None, None]).err(), Some(GpuError::InvalidState));
}

#[test]
fn upload_stops_at_the_first_refusal_and_leaves_the_session() {
    let classification =
        PointAttributeDefinition::custom("Classification", PointAttributeDataType::U8);
    let point_id = PointAttributeDefinition::custom("PointID", PointAttributeDataType::U64);
    let missing = PointAttributeDefinition::custom("Intensity", PointAttributeDataType::U16);
    let wrong = PointAttributeDefinition::custom("ScanAngle", PointAttributeDataType::U16);
    let buffer = sample_buffer();
    let mut device = Device::default();
    assert_eq!(device.device_acquired(false), Err(GpuError::DeviceAcquisitionFailure));
    assert_eq!(device.state(), DeviceState::Uninitialized);
    device.device_acquired(true).unwrap();
    let infos = vec![
        BufferInfo { attribute: &classification, binding: 0 },
        BufferInfo { attribute: &point_id, binding: 1 },
    ];
    assert!(!device.takes_requests(&infos));
    assert!(device.takes_requests(&Vec::new()));
    let infos = vec![
        BufferInfo { attribute: &classification, binding: 0 },
        BufferInfo { attribute: &missing, binding: 1 },
    ];
    assert!(device.takes_requests(&infos));
    assert_eq!(
        device.upload(&buffer, infos),
        Err(GpuError::Buffer(BufferError::MissingAttribute))
    );
    assert_eq!(device.buffer_count(), 0);
    assert_eq!(device.state(), DeviceState::Configured);
    let infos = vec![BufferInfo { attribute: &wrong, binding: 0 }];
    assert_eq!(
        device.upload(&buffer, infos),
        Err(GpuError::Buffer(BufferError::TypeMismatch))
    );
}

#[test]
fn upload_refuses_bytes_beyond_the_address_space() {
    let mut buffer = PerAttributeVecPointStorage::new(PointLayout::new());
    buffer.resize(usize::MAX).unwrap();
    let intensity = PointAttributeDefinition::custom("Intensity", PointAttributeDataType::U16);
    let mut device = Device::default();
    device.device_acquired(true).unwrap();
    let infos = vec![BufferInfo { attribute: &intensity, binding: 0 }];
    assert_eq!(
        device.upload(&buffer, infos),
        Err(GpuError::Buffer(BufferError::CapacityOverflow))
    );
    assert_eq!(device.buffer_count(), 0);
}
