//! Records of the LIDAR exchange format.

pub mod extra_bytes;
