//! The BIOS parameter block: the geometry of a volume.

use vstd::prelude::*;
use crate::error::MountError;
use crate::tool::{fat32_tag, is_fat32, le_u16_at, le_u32_at, read_le_u16, read_le_u32};

verus! {

/// Bytes of a boot sector that the parameter block reads.
pub const BPB_LEN: usize = 0x5A;

/// The one past the largest cluster number that can head or continue a chain.
pub const CLUSTER_LIMIT: u32 = 0x0FFF_FFF7;

/// The parameter block of a FAT32 volume, as stored in its first sector.
#[derive(Debug, Clone, Copy)]
pub struct BIOSParameterBlock {
    pub byte_per_sector: u16,
    pub sector_per_cluster: u8,
    pub reserved_sector: u16,
    pub num_fat: u8,
    pub total_sector: u32,
    pub sector_per_fat: u32,
    pub root_cluster: u32,
    pub id: u32,
    pub volume_label: [u8; 11],
    pub file_system: [u8; 8],
}

/// Whether `s` is long enough for a parameter block and carries the tag `FAT32`.
pub open spec fn fat32_sector(s: Seq<u8>) -> bool {
    s.len() >= BPB_LEN && fat32_tag(s.subrange(0x52, 0x5A))
}

impl BIOSParameterBlock {
    /// Whether each field holds what `s` stores at the field's place.
    pub open spec fn stored_in(&self, s: Seq<u8>) -> bool {
        &&& self.byte_per_sector == le_u16_at(s, 0x0B)
        &&& self.sector_per_cluster == s[0x0D]
        &&& self.reserved_sector == le_u16_at(s, 0x0E)
        &&& self.num_fat == s[0x10]
        &&& self.total_sector == le_u32_at(s, 0x20)
        &&& self.sector_per_fat == le_u32_at(s, 0x24)
        &&& self.root_cluster == le_u32_at(s, 0x2C)
        &&& self.id == le_u32_at(s, 0x43)
        &&& self.volume_label@ == s.subrange(0x47, 0x52)
        &&& self.file_system@ == s.subrange(0x52, 0x5A)
    }

    /// Byte at which the first file allocation table starts.
    pub open spec fn spec_fat1(&self) -> int {
        self.reserved_sector * 512
    }

    /// Bytes in one cluster.
    pub open spec fn spec_cluster_size(&self) -> int {
        self.sector_per_cluster * 512
    }

    /// Sectors that precede cluster `cluster`.
    pub open spec fn spec_sector_of(&self, cluster: int) -> int {
        self.reserved_sector + self.num_fat * self.sector_per_fat + (cluster - 2)
            * self.sector_per_cluster
    }

    /// Byte at which cluster `cluster` starts.
    pub open spec fn spec_offset(&self, cluster: int) -> int {
        self.spec_sector_of(cluster) * 512
    }

    /// Number of entries of the first table that stand for a cluster number.
    pub open spec fn spec_entry_count(&self) -> int {
        if self.sector_per_fat * 128 < CLUSTER_LIMIT {
            self.sector_per_fat * 128
        } else {
            CLUSTER_LIMIT as int
        }
    }

    /// Whether `cluster` is the number of a cluster with an entry in the table.
    pub open spec fn spec_in_table(&self, cluster: u32) -> bool {
        2 <= cluster < self.spec_entry_count()
    }

    /// Reads the parameter block of a boot sector.
    ///
    /// A sector without the tag `FAT32` at byte `0x52` is refused first, then
    /// one whose sector size is not 512.
    pub fn parse(sector: &[u8]) -> (r: Result<BIOSParameterBlock, MountError>)
        ensures
            match r {
                Ok(bpb) => {
                    &&& fat32_sector(sector@)
                    &&& bpb.stored_in(sector@)
                    &&& bpb.byte_per_sector == 512
                    &&& fat32_tag(bpb.file_system@)
                },
                Err(MountError::NotFat32) => !fat32_sector(sector@),
                Err(MountError::UnsupportedSectorSize) => fat32_sector(sector@) && le_u16_at(
                    sector@,
                    0x0B,
                ) != 512,
            },
    {
        if sector.len() < BPB_LEN {
            return Err(MountError::NotFat32);
        }
        let ghost s = sector@;
        let mut file_system: [u8; 8] = [0u8; 8];
        let mut i: usize = 0;
        while i < 8
            invariant
                i <= 8,
                sector@ == s,
                s.len() >= BPB_LEN,
                forall|k: int| 0 <= k < i ==> file_system@[k] == s[0x52 + k],
            decreases 8 - i,
        {
            file_system[i] = sector[0x52 + i];
            i += 1;
        }
        assert(file_system@ =~= s.subrange(0x52, 0x5A));
        if !is_fat32(&file_system) {
            return Err(MountError::NotFat32);
        }
        let mut volume_label: [u8; 11] = [0u8; 11];
        let mut j: usize = 0;
        while j < 11
            invariant
                j <= 11,
                sector@ == s,
                s.len() >= BPB_LEN,
                forall|k: int| 0 <= k < j ==> volume_label@[k] == s[0x47 + k],
            decreases 11 - j,
        {
            volume_label[j] = sector[0x47 + j];
            j += 1;
        }
        assert(volume_label@ =~= s.subrange(0x47, 0x52));
        let byte_per_sector: u16 = field_u16(sector, 0x0B);
        if byte_per_sector != 512 {
            return Err(MountError::UnsupportedSectorSize);
        }
        Ok(
            BIOSParameterBlock {
                byte_per_sector,
                sector_per_cluster: sector[0x0D],
                reserved_sector: field_u16(sector, 0x0E),
                num_fat: sector[0x10],
                total_sector: field_u32(sector, 0x20),
                sector_per_fat: field_u32(sector, 0x24),
                root_cluster: field_u32(sector, 0x2C),
                id: field_u32(sector, 0x43),
                volume_label,
                file_system,
            },
        )
    }

    /// Byte at which the first file allocation table starts.
    pub fn fat1(&self) -> (r: u64)
        ensures
            r == self.spec_fat1(),
            r % 512 == 0,
    {
        (self.reserved_sector as u64) * 512
    }

    /// Bytes in one cluster.
    pub fn cluster_size(&self) -> (r: usize)
        ensures
            r == self.spec_cluster_size(),
    {
        (self.sector_per_cluster as usize) * 512
    }

    pub fn sector_per_cluster_usize(&self) -> (r: usize)
        ensures
            r == self.sector_per_cluster,
    {
        self.sector_per_cluster as usize
    }

    /// Byte at which cluster `cluster` starts: a multiple of 512.
    pub fn offset(&self, cluster: u32) -> (r: u64)
        requires
            cluster >= 2,
        ensures
            r == self.spec_offset(cluster as int),
            r % 512 == 0,
    {
        proof {
            self.lemma_offset_bounds(cluster as int);
        }
        let tables: u64 = (self.num_fat as u64) * (self.sector_per_fat as u64);
        let before: u64 = ((cluster - 2) as u64) * (self.sector_per_cluster as u64);
        let sectors: u64 = self.reserved_sector as u64 + tables + before;
        sectors * 512
    }

    /// Number of entries of the first table that stand for a cluster number.
    pub fn entry_count(&self) -> (r: u32)
        ensures
            r == self.spec_entry_count(),
            r <= CLUSTER_LIMIT,
    {
        let entries: u64 = (self.sector_per_fat as u64) * 128;
        if entries < CLUSTER_LIMIT as u64 {
            entries as u32
        } else {
            CLUSTER_LIMIT
        }
    }

    /// Every cluster from the second on starts at a multiple of 512 that fits
    /// in 51 bits.
    pub proof fn lemma_offset_bounds(&self, cluster: int)
        requires
            2 <= cluster <= u32::MAX,
        ensures
            self.spec_offset(cluster) % 512 == 0,
            0 <= self.num_fat * self.sector_per_fat <= 255 * 0xFFFF_FFFF,
            0 <= (cluster - 2) * self.sector_per_cluster <= 255 * 0xFFFF_FFFF,
            0 <= self.spec_sector_of(cluster) < 0x200_0000_0000,
            0 <= self.spec_offset(cluster) < 0x4_0000_0000_0000,
    {
        let f = self.num_fat as int;
        let s = self.sector_per_fat as int;
        let c = cluster - 2;
        let p = self.sector_per_cluster as int;
        assert(0 <= f * s <= 255 * 0xFFFF_FFFF) by (nonlinear_arith)
            requires
                0 <= f <= 255,
                0 <= s <= 0xFFFF_FFFF,
        ;
        assert(0 <= c * p <= 255 * 0xFFFF_FFFF) by (nonlinear_arith)
            requires
                0 <= p <= 255,
                0 <= c <= 0xFFFF_FFFF,
        ;
    }
}

/// The 16-bit field of `sector` at byte `at`.
fn field_u16(sector: &[u8], at: usize) -> (r: u16)
    requires
        at + 2 <= sector@.len(),
    ensures
        r == le_u16_at(sector@, at as int),
{
    let pair: [u8; 2] = [sector[at], sector[at + 1]];
    read_le_u16(&pair)
}

/// The 32-bit field of `sector` at byte `at`.
fn field_u32(sector: &[u8], at: usize) -> (r: u32)
    requires
        at + 4 <= sector@.len(),
    ensures
        r == le_u32_at(sector@, at as int),
{
    let quad: [u8; 4] = [sector[at], sector[at + 1], sector[at + 2], sector[at + 3]];
    read_le_u32(&quad)
}

} // verus!
