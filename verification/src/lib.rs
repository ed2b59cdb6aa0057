//! A FAT32 driver for 512-byte-sector block devices.
//!
//! Every operation is stated over the bytes of the medium: a device is viewed
//! as a `Seq<u8>`, and each function says what it returns, or how it changes
//! the medium, in terms of that sequence.

pub mod base;
pub mod bpb;
pub mod dir;
pub mod directory_item;
pub mod error;
pub mod fat;
pub mod file;
pub mod scan;
pub mod tool;
pub mod volume;
