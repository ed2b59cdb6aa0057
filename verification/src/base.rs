//! The block device that the driver runs on, and one that lives in memory.

use vstd::prelude::*;

verus! {

/// `disk` with the bytes from `address` on replaced by `data`.
pub open spec fn overwrite(disk: Seq<u8>, address: int, data: Seq<u8>) -> Seq<u8> {
    Seq::new(
        disk.len(),
        |k: int|
            if address <= k < address + data.len() {
                data[k - address]
            } else {
                disk[k]
            },
    )
}

/// A device that moves whole 512-byte sectors.
///
/// The view is the content of the medium. A transfer may fail at any time;
/// when it succeeds, it moved exactly the bytes asked for. The driver owns the
/// device: nothing else changes the medium while a handle is in use.
///
/// What is proved of the driver holds on a device that keeps to the two
/// contracts below. `RamDisk` is proved to; of a device written elsewhere its
/// author promises it.
pub trait BasicOperation {
    type Error;

    /// The content of the medium. A device that is not itself verified has
    /// no way to say what its medium holds, and leaves this as it is.
    open spec fn view(&self) -> Seq<u8> {
        arbitrary()
    }

    /// Fills `buf` with `number_of_blocks` sectors that start at byte `address`.
    fn read(&self, buf: &mut [u8], address: u64, number_of_blocks: usize) -> (r: Result<
        (),
        Self::Error,
    >)
        requires
            old(buf)@.len() == number_of_blocks * 512,
            address % 512 == 0,
        ensures
            final(buf)@.len() == old(buf)@.len(),
            r is Ok ==> address + old(buf)@.len() <= self@.len(),
            r is Ok ==> final(buf)@ == self@.subrange(
                address as int,
                address + old(buf)@.len(),
            ),
    ;

    /// Stores the `number_of_blocks` sectors of `buf` at byte `address`.
    fn write(&mut self, buf: &[u8], address: u64, number_of_blocks: usize) -> (r: Result<
        (),
        Self::Error,
    >)
        requires
            buf@.len() == number_of_blocks * 512,
            address % 512 == 0,
        ensures
            final(self)@.len() == old(self)@.len(),
            r is Ok ==> address + buf@.len() <= old(self)@.len(),
            r is Ok ==> final(self)@ == overwrite(old(self)@, address as int, buf@),
    ;
}

/// Reads the sector at byte `address`.
pub fn read_sector<D: BasicOperation>(dev: &D, address: u64) -> (r: Result<[u8; 512], D::Error>)
    requires
        address % 512 == 0,
    ensures
        r matches Ok(sector) ==> address + 512 <= dev@.len() && sector@ == dev@.subrange(
            address as int,
            address + 512,
        ),
{
    let mut sector: [u8; 512] = [0u8; 512];
    match dev.read(&mut sector, address, 1) {
        Ok(()) => Ok(sector),
        Err(e) => Err(e),
    }
}

/// Stores `sector` at byte `address`.
pub fn write_sector<D: BasicOperation>(dev: &mut D, sector: &[u8; 512], address: u64) -> (r:
    Result<(), D::Error>)
    requires
        address % 512 == 0,
    ensures
        final(dev)@.len() == old(dev)@.len(),
        r is Ok ==> address + 512 <= old(dev)@.len(),
        r is Ok ==> final(dev)@ == overwrite(old(dev)@, address as int, sector@),
{
    dev.write(sector, address, 1)
}

/// Why a transfer on a `RamDisk` failed.
#[derive(Debug, Clone, Copy, PartialEq, Eq)]
pub enum RamDiskError {
    /// The sectors asked for do not all lie on the disk.
    OutOfRange,
}

/// A disk image held in memory.
pub struct RamDisk {
    pub data: Vec<u8>,
}

impl RamDisk {
    pub fn new(data: Vec<u8>) -> (r: RamDisk)
        ensures
            r.data@ == data@,
    {
        RamDisk { data }
    }

    /// Whether `len` bytes from `address` on lie on a disk of `size` bytes.
    fn in_range(size: usize, address: u64, len: usize) -> (r: bool)
        ensures
            r == (address + len <= size),
    {
        let size64: u64 = size as u64;
        address <= size64 && len as u64 <= size64 - address
    }
}

impl BasicOperation for RamDisk {
    type Error = RamDiskError;

    open spec fn view(&self) -> Seq<u8> {
        self.data@
    }

    fn read(&self, buf: &mut [u8], address: u64, number_of_blocks: usize) -> (r: Result<
        (),
        RamDiskError,
    >)
        ensures
            r is Ok <==> address + number_of_blocks * 512 <= self@.len(),
            r is Err ==> final(buf)@ == old(buf)@,
    {
        let len: usize = buf.len();
        if !RamDisk::in_range(self.data.len(), address, len) {
            return Err(RamDiskError::OutOfRange);
        }
        let start: usize = address as usize;
        let mut i: usize = 0;
        while i < len
            invariant
                i <= len,
                len == buf@.len(),
                start == address,
                start + len <= self.data.len(),
                forall|k: int| 0 <= k < i ==> buf@[k] == self.data@[start + k],
            decreases len - i,
        {
            buf[i] = self.data[start + i];
            i += 1;
        }
        assert(buf@ =~= self@.subrange(address as int, address + len));
        Ok(())
    }

    fn write(&mut self, buf: &[u8], address: u64, number_of_blocks: usize) -> (r: Result<
        (),
        RamDiskError,
    >)
        ensures
            r is Ok <==> address + number_of_blocks * 512 <= old(self)@.len(),
            r is Err ==> final(self)@ == old(self)@,
    {
        let len: usize = buf.len();
        if !RamDisk::in_range(self.data.len(), address, len) {
            return Err(RamDiskError::OutOfRange);
        }
        let start: usize = address as usize;
        let mut i: usize = 0;
        while i < len
            invariant
                i <= len,
                len == buf@.len(),
                start == address,
                self.data@.len() == old(self).data@.len(),
                start + len <= self.data.len(),
                forall|k: int| 0 <= k < i ==> self.data@[start + k] == buf@[k],
                forall|k: int|
                    0 <= k < self.data@.len() && !(start <= k < start + i) ==> self.data@[k] == old(self).data@[k],
            decreases len - i,
        {
            self.data[start + i] = buf[i];
            i += 1;
        }
        assert(self@ =~= overwrite(old(self)@, address as int, buf@));
        Ok(())
    }
}

} // verus!
