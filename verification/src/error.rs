//! What can go wrong, by the part of the driver that notices it.

use vstd::prelude::*;

verus! {

/// A volume that cannot be mounted.
#[derive(Debug, Clone, Copy, PartialEq, Eq, Structural)]
pub enum MountError {
    /// The file-system tag of the boot sector is not `FAT32`.
    NotFat32,
    /// The boot sector announces sectors of another size than 512 bytes.
    UnsupportedSectorSize,
}

/// An allocation that the file allocation table cannot serve.
#[derive(Debug, Clone, Copy, PartialEq, Eq, Structural)]
pub enum FatError {
    /// No entry of the table is free, or the directory has no blank slot.
    NoSpace,
}

/// A name that does not lead to what was asked for.
#[derive(Debug, Clone, Copy, PartialEq, Eq, Structural)]
pub enum DirError {
    /// No entry of the directory carries the name.
    NotFound,
    /// The directory holds no subdirectory of that name.
    NotFoundDir,
    /// The entry of that name is not a regular file.
    NotFoundFile,
    /// The name holds a forbidden character, or cannot be stored as a short name.
    IllegalName,
}

/// A read that cannot be served.
#[derive(Debug, Clone, Copy, PartialEq, Eq, Structural)]
pub enum FileError {
    /// The buffer is shorter than the file.
    BufTooSmall,
}

/// Any failure of the driver; `E` is the device's own error.
#[derive(Debug, PartialEq, Eq)]
pub enum Error<E> {
    Mount(MountError),
    Fat(FatError),
    Dir(DirError),
    File(FileError),
    /// The device failed; the driver hands its error on.
    Io(E),
}

} // verus!
