//! A schema-driven point-cloud data engine: typed attribute layouts, point
//! buffers in columnar and row-major form, conversions between attribute
//! types, GPU buffer marshalling and binary record codecs, with every
//! function's behaviour stated and proved.
//!
//! - [`layout`]: attributes, data types, and the layout of one point record.
//! - [`containers`]: point buffers kept attribute by attribute or record by
//!   record, behind one contract.
//! - [`conversion`] and [`transfer`]: conversions between data types, and
//!   moving points between buffers of different layouts.
//! - [`gpu`]: the byte layout that a compute shader expects, and the session
//!   with a compute device.
//! - [`las`] and [`tiles3d`]: the records of extra bytes, and the writer of
//!   point-cloud tiles.
//! - [`endian`], [`ieee`] and [`chunks`]: numbers as bytes, floating-point
//!   numbers as bit patterns, and runs of bytes cut into chunks.

pub mod chunks;
pub mod containers;
pub mod conversion;
pub mod endian;
pub mod gpu;
pub mod ieee;
pub mod las;
pub mod layout;
pub mod tiles3d;
pub mod transfer;
