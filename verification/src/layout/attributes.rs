//! The well-known attributes, each with its reserved name and default type.

use crate::layout::{PointAttributeDataType, PointAttributeDefinition};
use vstd::prelude::*;

verus! {

/// Position of the point in space: three 64-bit floats.
pub fn position_3d() -> (attribute: PointAttributeDefinition)
    ensures
        attribute.spec_name() == "Position3D"@,
        attribute.spec_datatype() == PointAttributeDataType::Vec3f64,
{
    PointAttributeDefinition::custom("Position3D", PointAttributeDataType::Vec3f64)
}

/// Strength of the returned pulse.
pub fn intensity() -> (attribute: PointAttributeDefinition)
    ensures
        attribute.spec_name() == "Intensity"@,
        attribute.spec_datatype() == PointAttributeDataType::U16,
{
    PointAttributeDefinition::custom("Intensity", PointAttributeDataType::U16)
}

/// Class of the surface that the point lies on.
pub fn classification() -> (attribute: PointAttributeDefinition)
    ensures
        attribute.spec_name() == "Classification"@,
        attribute.spec_datatype() == PointAttributeDataType::U8,
{
    PointAttributeDefinition::custom("Classification", PointAttributeDataType::U8)
}

/// Angle of the scanner's beam.
pub fn scan_angle() -> (attribute: PointAttributeDefinition)
    ensures
        attribute.spec_name() == "ScanAngle"@,
        attribute.spec_datatype() == PointAttributeDataType::I16,
{
    PointAttributeDefinition::custom("ScanAngle", PointAttributeDataType::I16)
}

/// Direction in which the scanner's mirror moved.
pub fn scan_direction_flag() -> (attribute: PointAttributeDefinition)
    ensures
        attribute.spec_name() == "ScanDirectionFlag"@,
        attribute.spec_datatype() == PointAttributeDataType::Bool,
{
    PointAttributeDefinition::custom("ScanDirectionFlag", PointAttributeDataType::Bool)
}

/// Red, green and blue, 16 bits each.
pub fn color_rgb() -> (attribute: PointAttributeDefinition)
    ensures
        attribute.spec_name() == "ColorRGB"@,
        attribute.spec_datatype() == PointAttributeDataType::Vec3u16,
{
    PointAttributeDefinition::custom("ColorRGB", PointAttributeDataType::Vec3u16)
}

/// Time at which the point was taken.
pub fn gps_time() -> (attribute: PointAttributeDefinition)
    ensures
        attribute.spec_name() == "GpsTime"@,
        attribute.spec_datatype() == PointAttributeDataType::F64,
{
    PointAttributeDefinition::custom("GpsTime", PointAttributeDataType::F64)
}

/// Size of the waveform packet in bytes.
pub fn waveform_packet_size() -> (attribute: PointAttributeDefinition)
    ensures
        attribute.spec_name() == "WaveformPacketSize"@,
        attribute.spec_datatype() == PointAttributeDataType::U32,
{
    PointAttributeDefinition::custom("WaveformPacketSize", PointAttributeDataType::U32)
}

/// Place of the return within the waveform.
pub fn return_point_waveform_location() -> (attribute: PointAttributeDefinition)
    ensures
        attribute.spec_name() == "ReturnPointWaveformLocation"@,
        attribute.spec_datatype() == PointAttributeDataType::F32,
{
    PointAttributeDefinition::custom("ReturnPointWaveformLocation", PointAttributeDataType::F32)
}

/// Surface normal at the point: three 32-bit floats.
pub fn normal() -> (attribute: PointAttributeDefinition)
    ensures
        attribute.spec_name() == "Normal"@,
        attribute.spec_datatype() == PointAttributeDataType::Vec3f32,
{
    PointAttributeDefinition::custom("Normal", PointAttributeDataType::Vec3f32)
}

} // verus!
