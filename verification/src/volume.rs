//! A mounted volume: a device and the geometry read from its first sector.

use vstd::prelude::*;
use vstd::string::StringSliceAdditionalSpecFns;
use crate::base::{read_sector, BasicOperation};
use crate::bpb::{fat32_sector, BIOSParameterBlock};
use crate::dir::Dir;
use crate::error::{Error, MountError};
use crate::tool::{fat32_tag, le_u16_at};

verus! {

/// A FAT32 volume on the device `D`.
pub struct Volume<D: BasicOperation> {
    pub device: D,
    pub bpb: BIOSParameterBlock,
}

/// The text that `bytes` spell: what `core::str::from_utf8` gives. It is
/// there exactly when the bytes are UTF-8, and then has these bytes.
#[verifier::external_body]
fn utf8_text<'a>(bytes: &'a [u8]) -> (r: Option<&'a str>)
    ensures
        r is Some <==> vstd::utf8::valid_utf8(bytes@),
        r matches Some(text) ==> text.spec_bytes() == bytes@,
{
    core::str::from_utf8(bytes).ok()
}

impl<D: BasicOperation> Volume<D> {
    /// The first sector of the medium.
    pub open spec fn boot_sector(disk: Seq<u8>) -> Seq<u8> {
        disk.subrange(0, 512)
    }

    /// Mounts the volume on `device`: reads the first sector and takes the
    /// geometry from it.
    pub fn new(device: D) -> (r: Result<Volume<D>, Error<D::Error>>)
        ensures
            match r {
                Ok(volume) => {
                    &&& volume.device == device
                    &&& 512 <= device@.len()
                    &&& fat32_sector(Self::boot_sector(device@))
                    &&& volume.bpb.stored_in(Self::boot_sector(device@))
                    &&& volume.bpb.byte_per_sector == 512
                    &&& fat32_tag(volume.bpb.file_system@)
                },
                Err(Error::Mount(MountError::NotFat32)) => 512 <= device@.len() && !fat32_sector(
                    Self::boot_sector(device@),
                ),
                Err(Error::Mount(MountError::UnsupportedSectorSize)) => {
                    &&& 512 <= device@.len()
                    &&& fat32_sector(Self::boot_sector(device@))
                    &&& le_u16_at(Self::boot_sector(device@), 0x0B) != 512
                },
                Err(Error::Io(_)) => true,
                Err(_) => false,
            },
    {
        let sector: [u8; 512] = match read_sector(&device, 0) {
            Ok(sector) => sector,
            Err(e) => {
                return Err(Error::Io(e));
            },
        };
        match BIOSParameterBlock::parse(&sector) {
            Ok(bpb) => Ok(Volume { device, bpb }),
            Err(e) => Err(Error::Mount(e)),
        }
    }

    /// The label of the volume, where its eleven bytes are UTF-8.
    pub fn volume_label(&self) -> (r: Option<&str>)
        ensures
            r is Some <==> vstd::utf8::valid_utf8(self.bpb.volume_label@),
            r matches Some(text) ==> text.spec_bytes() == self.bpb.volume_label@,
    {
        utf8_text(self.bpb.volume_label.as_slice())
    }

    /// The root directory.
    pub fn root_dir(&self) -> (r: Dir)
        ensures
            r.bpb == self.bpb,
            r.dir_cluster == self.bpb.root_cluster,
            r.length == 0,
            r.create_ms == 0,
            r.dir_name@ == Seq::new(11, |i: int| 0u8),
            r.create_time@ == seq![0u8, 0u8],
            r.create_date@ == seq![0u8, 0u8],
            r.visit_date@ == seq![0u8, 0u8],
            r.edit_time@ == seq![0u8, 0u8],
            r.edit_date@ == seq![0u8, 0u8],
    {
        let r = Dir {
            bpb: self.bpb,
            dir_name: [0u8; 11],
            create_ms: 0,
            create_time: [0u8; 2],
            create_date: [0u8; 2],
            visit_date: [0u8; 2],
            edit_time: [0u8; 2],
            edit_date: [0u8; 2],
            dir_cluster: self.bpb.root_cluster,
            length: 0,
        };
        assert(r.dir_name@ =~= Seq::new(11, |i: int| 0u8));
        assert(r.create_time@ =~= seq![0u8, 0u8]);
        assert(r.create_date@ =~= seq![0u8, 0u8]);
        assert(r.visit_date@ =~= seq![0u8, 0u8]);
        assert(r.edit_time@ =~= seq![0u8, 0u8]);
        assert(r.edit_date@ =~= seq![0u8, 0u8]);
        r
    }
}

} // verus!
