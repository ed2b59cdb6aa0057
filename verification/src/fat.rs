//! The first file allocation table: chains of clusters and free entries.

use vstd::prelude::*;
use crate::base::{overwrite, read_sector, write_sector, BasicOperation};
use crate::bpb::BIOSParameterBlock;
use crate::error::{Error, FatError};
use crate::tool::{le_u32_at, lemma_le_u32_zero, read_le_u32, u32_le_bytes, write_le_u32};

verus! {

/// The value that marks the last cluster of a chain.
pub const END_OF_CHAIN: u32 = 0x0FFF_FFFF;

/// Byte at which the table stores the entry of cluster `cluster`.
pub open spec fn entry_addr(bpb: BIOSParameterBlock, cluster: int) -> int {
    bpb.spec_fat1() + 4 * cluster
}

/// The entry of cluster `cluster`, all 32 bits of it.
pub open spec fn spec_entry(disk: Seq<u8>, bpb: BIOSParameterBlock, cluster: int) -> u32 {
    le_u32_at(disk, entry_addr(bpb, cluster))
}

/// The cluster that an entry names: its low 28 bits, where they are neither
/// free, reserved, bad nor an end mark.
pub open spec fn successor(entry: u32) -> Option<u32> {
    let low = (entry % 0x1000_0000) as u32;
    if 2 <= low <= 0x0FFF_FFF6 {
        Some(low)
    } else {
        None
    }
}

/// What an entry holds after `value` is stored in it: the reserved top four
/// bits stay, the low 28 bits are those of `value`.
pub open spec fn merged(entry: u32, value: u32) -> u32 {
    (entry / 0x1000_0000 * 0x1000_0000 + value % 0x1000_0000) as u32
}

/// The cluster that follows `cluster`, if the table has an entry for
/// `cluster` and that entry names one.
pub open spec fn spec_next(disk: Seq<u8>, bpb: BIOSParameterBlock, cluster: u32) -> Option<u32> {
    if bpb.spec_in_table(cluster) {
        successor(spec_entry(disk, bpb, cluster as int))
    } else {
        None
    }
}

/// The clusters reached from `start` in at most `fuel` steps.
pub open spec fn chain_from(disk: Seq<u8>, bpb: BIOSParameterBlock, start: u32, fuel: nat) -> Seq<
    u32,
>
    decreases fuel,
{
    if fuel == 0 || !bpb.spec_in_table(start) {
        Seq::empty()
    } else {
        match successor(spec_entry(disk, bpb, start as int)) {
            Some(next) => seq![start] + chain_from(disk, bpb, next, (fuel - 1) as nat),
            None => seq![start],
        }
    }
}

/// The chain that starts at `start`, cut after as many clusters as the table
/// has entries: a chain that runs in a circle ends there.
pub open spec fn spec_chain(disk: Seq<u8>, bpb: BIOSParameterBlock, start: u32) -> Seq<u32> {
    chain_from(disk, bpb, start, bpb.spec_entry_count() as nat)
}

/// The first free cluster at or after `cluster`.
pub open spec fn first_free_from(disk: Seq<u8>, bpb: BIOSParameterBlock, cluster: int) -> Option<
    u32,
>
    decreases bpb.spec_entry_count() - cluster,
{
    if cluster < 2 || cluster >= bpb.spec_entry_count() {
        None
    } else if spec_entry(disk, bpb, cluster) == 0 {
        Some(cluster as u32)
    } else {
        first_free_from(disk, bpb, cluster + 1)
    }
}

/// The first free cluster of the volume.
pub open spec fn spec_find_free(disk: Seq<u8>, bpb: BIOSParameterBlock) -> Option<u32> {
    first_free_from(disk, bpb, 2)
}

/// `disk` after `value` is stored in the entry of cluster `cluster`.
pub open spec fn spec_edit(disk: Seq<u8>, bpb: BIOSParameterBlock, cluster: u32, value: u32) -> Seq<
    u8,
> {
    overwrite(
        disk,
        entry_addr(bpb, cluster as int),
        u32_le_bytes(merged(spec_entry(disk, bpb, cluster as int), value)),
    )
}

/// A walk never visits more clusters than it has fuel, and only clusters that
/// have an entry in the table.
pub proof fn lemma_chain_bounded(disk: Seq<u8>, bpb: BIOSParameterBlock, start: u32, fuel: nat)
    ensures
        chain_from(disk, bpb, start, fuel).len() <= fuel,
        forall|k: int|
            0 <= k < chain_from(disk, bpb, start, fuel).len() ==> bpb.spec_in_table(
                #[trigger] chain_from(disk, bpb, start, fuel)[k],
            ),
    decreases fuel,
{
    if fuel == 0 || !bpb.spec_in_table(start) {
    } else {
        match successor(spec_entry(disk, bpb, start as int)) {
            Some(next) => {
                lemma_chain_bounded(disk, bpb, next, (fuel - 1) as nat);
            },
            None => {},
        }
    }
}

/// Every chain is finite: it has at most as many clusters as the table has
/// entries.
pub proof fn lemma_chain_finite(disk: Seq<u8>, bpb: BIOSParameterBlock, start: u32)
    ensures
        spec_chain(disk, bpb, start).len() <= bpb.spec_entry_count(),
        forall|k: int|
            0 <= k < spec_chain(disk, bpb, start).len() ==> bpb.spec_in_table(
                #[trigger] spec_chain(disk, bpb, start)[k],
            ),
{
    lemma_chain_bounded(disk, bpb, start, bpb.spec_entry_count() as nat);
}

/// What the search from `cluster` on finds is free, and no cluster between
/// `cluster` and it is; it finds nothing only where nothing is free.
pub proof fn lemma_first_free_from(disk: Seq<u8>, bpb: BIOSParameterBlock, cluster: int)
    requires
        2 <= cluster,
    ensures
        match first_free_from(disk, bpb, cluster) {
            Some(c) => {
                &&& cluster <= c < bpb.spec_entry_count()
                &&& spec_entry(disk, bpb, c as int) == 0
                &&& forall|i: int| cluster <= i < c ==> spec_entry(disk, bpb, i) != 0
            },
            None => forall|i: int|
                cluster <= i < bpb.spec_entry_count() ==> spec_entry(disk, bpb, i) != 0,
        },
    decreases bpb.spec_entry_count() - cluster,
{
    if cluster < bpb.spec_entry_count() && spec_entry(disk, bpb, cluster) != 0 {
        lemma_first_free_from(disk, bpb, cluster + 1);
    }
}

/// The free cluster that the search finds is the one with the smallest
/// number, from 2 on, whose entry is zero.
pub proof fn lemma_find_free_minimal(disk: Seq<u8>, bpb: BIOSParameterBlock)
    ensures
        match spec_find_free(disk, bpb) {
            Some(c) => {
                &&& bpb.spec_in_table(c)
                &&& spec_entry(disk, bpb, c as int) == 0
                &&& forall|i: int| 2 <= i < c ==> spec_entry(disk, bpb, i) != 0
            },
            None => forall|i: int|
                2 <= i < bpb.spec_entry_count() ==> spec_entry(disk, bpb, i) != 0,
        },
{
    lemma_first_free_from(disk, bpb, 2);
}

/// The entry of cluster `cluster`, read from the table.
pub fn read_entry<D: BasicOperation>(dev: &D, bpb: &BIOSParameterBlock, cluster: u32) -> (r:
    Result<u32, Error<D::Error>>)
    ensures
        match r {
            Ok(entry) => entry == spec_entry(dev@, *bpb, cluster as int) && entry_addr(
                *bpb,
                cluster as int,
            ) + 4 <= dev@.len(),
            Err(Error::Io(_)) => true,
            Err(_) => false,
        },
{
    let place: u64 = (cluster as u64) * 4;
    let within: usize = (place % 512) as usize;
    let address: u64 = bpb.fat1() + (place - place % 512);
    match read_sector(dev, address) {
        Ok(sector) => {
            let quad: [u8; 4] = [
                sector[within],
                sector[within + 1],
                sector[within + 2],
                sector[within + 3],
            ];
            Ok(read_le_u32(&quad))
        },
        Err(e) => Err(Error::Io(e)),
    }
}

/// The cluster that an entry names, if it names one.
pub fn entry_successor(entry: u32) -> (r: Option<u32>)
    ensures
        r == successor(entry),
{
    let low: u32 = entry & 0x0FFF_FFFF;
    assert(entry & 0x0FFF_FFFF == entry % 0x1000_0000) by (bit_vector);
    if 2 <= low && low <= 0x0FFF_FFF6 {
        Some(low)
    } else {
        None
    }
}

/// The cluster that follows `cluster` in its chain; `None` at the end of the
/// chain, at a bad cluster, and for a number without an entry in the table.
pub fn next<D: BasicOperation>(dev: &D, bpb: &BIOSParameterBlock, cluster: u32) -> (r: Result<
    Option<u32>,
    Error<D::Error>,
>)
    ensures
        match r {
            Ok(following) => following == spec_next(dev@, *bpb, cluster),
            Err(Error::Io(_)) => bpb.spec_in_table(cluster),
            Err(_) => false,
        },
{
    if cluster < 2 || cluster >= bpb.entry_count() {
        return Ok(None);
    }
    match read_entry(dev, bpb, cluster) {
        Ok(entry) => Ok(entry_successor(entry)),
        Err(e) => Err(e),
    }
}

/// The free cluster with the smallest number.
pub fn find_free<D: BasicOperation>(dev: &D, bpb: &BIOSParameterBlock) -> (r: Result<
    u32,
    Error<D::Error>,
>)
    ensures
        match r {
            Ok(c) => {
                &&& spec_find_free(dev@, *bpb) == Some(c)
                &&& bpb.spec_in_table(c)
                &&& spec_entry(dev@, *bpb, c as int) == 0
                &&& forall|i: int| 2 <= i < c ==> spec_entry(dev@, *bpb, i) != 0
            },
            Err(Error::Fat(FatError::NoSpace)) => {
                &&& spec_find_free(dev@, *bpb) is None
                &&& forall|i: int|
                    2 <= i < bpb.spec_entry_count() ==> spec_entry(dev@, *bpb, i) != 0
            },
            Err(Error::Io(_)) => true,
            Err(_) => false,
        },
{
    let count: u32 = bpb.entry_count();
    let fat1: u64 = bpb.fat1();
    let mut cluster: u32 = 2;
    while cluster < count
        invariant
            2 <= cluster,
            count == bpb.spec_entry_count(),
            fat1 == bpb.spec_fat1(),
            spec_find_free(dev@, *bpb) == first_free_from(dev@, *bpb, cluster as int),
        decreases count - cluster,
    {
        let index: u32 = cluster / 128;
        let address: u64 = fat1 + (index as u64) * 512;
        let sector = match read_sector(dev, address) {
            Ok(sector) => sector,
            Err(e) => {
                return Err(Error::Io(e));
            },
        };
        let mut within: usize = (cluster % 128) as usize;
        let ghost entered = cluster;
        while within < 128 && cluster < count
            invariant
                2 <= cluster,
                within <= 128,
                entered < count,
                cluster <= count,
                cluster - within == entered - entered % 128,
                cluster == index * 128 + within,
                count == bpb.spec_entry_count(),
                fat1 == bpb.spec_fat1(),
                address == fat1 + index * 512,
                address + 512 <= dev@.len(),
                sector@ == dev@.subrange(address as int, address + 512),
                spec_find_free(dev@, *bpb) == first_free_from(dev@, *bpb, cluster as int),
            decreases 128 - within,
        {
            let at: usize = within * 4;
            proof {
                lemma_le_u32_zero(dev@, entry_addr(*bpb, cluster as int));
                assert(entry_addr(*bpb, cluster as int) == address + at);
                assert(sector@[at as int] == dev@[address + at]);
                assert(sector@[at + 1] == dev@[address + at + 1]);
                assert(sector@[at + 2] == dev@[address + at + 2]);
                assert(sector@[at + 3] == dev@[address + at + 3]);
            }
            if sector[at] == 0 && sector[at + 1] == 0 && sector[at + 2] == 0 && sector[at + 3]
                == 0 {
                proof {
                    lemma_find_free_minimal(dev@, *bpb);
                }
                return Ok(cluster);
            }
            cluster += 1;
            within += 1;
        }
    }
    proof {
        lemma_find_free_minimal(dev@, *bpb);
    }
    Err(Error::Fat(FatError::NoSpace))
}

/// Stores `value` in the entry of cluster `cluster`, keeping the entry's
/// reserved top four bits.
pub fn edit<D: BasicOperation>(
    dev: &mut D,
    bpb: &BIOSParameterBlock,
    cluster: u32,
    value: u32,
) -> (r: Result<(), Error<D::Error>>)
    ensures
        final(dev)@.len() == old(dev)@.len(),
        match r {
            Ok(()) => {
                &&& entry_addr(*bpb, cluster as int) + 4 <= old(dev)@.len()
                &&& final(dev)@ == spec_edit(old(dev)@, *bpb, cluster, value)
            },
            Err(Error::Io(_)) => true,
            Err(_) => false,
        },
{
    let place: u64 = (cluster as u64) * 4;
    let within: usize = (place % 512) as usize;
    let address: u64 = bpb.fat1() + (place - place % 512);
    let mut sector = match read_sector(dev, address) {
        Ok(sector) => sector,
        Err(e) => {
            return Err(Error::Io(e));
        },
    };
    let quad: [u8; 4] = [
        sector[within],
        sector[within + 1],
        sector[within + 2],
        sector[within + 3],
    ];
    let entry: u32 = read_le_u32(&quad);
    let stored: u32 = (entry & 0xF000_0000) | (value & 0x0FFF_FFFF);
    assert(stored == merged(entry, value)) by {
        assert((entry & 0xF000_0000) | (value & 0x0FFF_FFFF) == (entry / 0x1000_0000)
            * 0x1000_0000 + value % 0x1000_0000) by (bit_vector);
    }
    let bytes: [u8; 4] = write_le_u32(stored);
    let ghost before = sector@;
    sector[within] = bytes[0];
    sector[within + 1] = bytes[1];
    sector[within + 2] = bytes[2];
    sector[within + 3] = bytes[3];
    assert(entry == spec_entry(old(dev)@, *bpb, cluster as int));
    match write_sector(dev, &sector, address) {
        Ok(()) => {
            assert(dev@ =~= spec_edit(old(dev)@, *bpb, cluster, value));
            Ok(())
        },
        Err(e) => Err(Error::Io(e)),
    }
}

/// A walk along one chain, one cluster at a time.
#[derive(Debug, Clone, Copy)]
pub struct FAT {
    pub bpb: BIOSParameterBlock,
    pub start_cluster: u32,
    /// The cluster that the walk gives next, if it has an entry in the table.
    pub current_cluster: u32,
    /// Clusters that the walk may still give.
    pub left: u32,
}

impl FAT {
    /// The clusters that the walk has yet to give.
    pub open spec fn remaining(&self, disk: Seq<u8>) -> Seq<u32> {
        chain_from(disk, self.bpb, self.current_cluster, self.left as nat)
    }

    /// A walk about to give `start`.
    pub fn new(bpb: &BIOSParameterBlock, start: u32) -> (r: FAT)
        ensures
            r.bpb == *bpb,
            r.start_cluster == start,
            r.current_cluster == start,
            r.left == bpb.spec_entry_count(),
            forall|disk: Seq<u8>| #[trigger] r.remaining(disk) == spec_chain(disk, *bpb, start),
    {
        FAT { bpb: *bpb, start_cluster: start, current_cluster: start, left: bpb.entry_count() }
    }

    /// Puts the walk back to its first cluster.
    pub fn restart(&mut self)
        ensures
            final(self).bpb == old(self).bpb,
            final(self).start_cluster == old(self).start_cluster,
            final(self).current_cluster == old(self).start_cluster,
            final(self).left == old(self).bpb.spec_entry_count(),
            forall|disk: Seq<u8>| #[trigger]
                final(self).remaining(disk) == spec_chain(
                    disk,
                    old(self).bpb,
                    old(self).start_cluster,
                ),
    {
        self.current_cluster = self.start_cluster;
        self.left = self.bpb.entry_count();
    }

    /// Gives the next cluster of the chain and steps past it; `None` once the
    /// chain has ended. A walk that the device fails stays where it was.
    pub fn next_cluster<D: BasicOperation>(&mut self, dev: &D) -> (r: Result<
        Option<u32>,
        Error<D::Error>,
    >)
        ensures
            final(self).bpb == old(self).bpb,
            final(self).start_cluster == old(self).start_cluster,
            match r {
                Ok(Some(cluster)) => {
                    &&& old(self).remaining(dev@).len() > 0
                    &&& cluster == old(self).remaining(dev@)[0]
                    &&& final(self).remaining(dev@) == old(self).remaining(dev@).drop_first()
                    &&& old(self).bpb.spec_in_table(cluster)
                },
                Ok(None) => old(self).remaining(dev@).len() == 0 && *final(self) == *old(self),
                Err(Error::Io(_)) => *final(self) == *old(self),
                Err(_) => false,
            },
    {
        let cluster: u32 = self.current_cluster;
        if self.left == 0 || cluster < 2 || cluster >= self.bpb.entry_count() {
            return Ok(None);
        }
        match read_entry(dev, &self.bpb, cluster) {
            Ok(entry) => {
                let ghost rest = match successor(entry) {
                    Some(n) => chain_from(dev@, self.bpb, n, (self.left - 1) as nat),
                    None => Seq::empty(),
                };
                assert(self.remaining(dev@) =~= seq![cluster] + rest);
                assert((seq![cluster] + rest).drop_first() =~= rest);
                self.current_cluster =
                match entry_successor(entry) {
                    Some(n) => n,
                    None => 0,
                };
                self.left = self.left - 1;
                assert(self.remaining(dev@) =~= rest);
                Ok(Some(cluster))
            },
            Err(e) => Err(e),
        }
    }
}

/// Byte at which sector `j` of the chain from `start` lies on the medium:
/// the sectors of the chain's clusters are counted in chain order.
pub open spec fn chain_sector_addr(disk: Seq<u8>, bpb: BIOSParameterBlock, start: u32, j: int) -> int {
    let chain = spec_chain(disk, bpb, start);
    let per = bpb.sector_per_cluster as int;
    bpb.spec_offset(chain[j / per] as int) + (j % per) * 512
}

/// The content of the chain from `start`: the bytes of its clusters, in chain
/// order.
pub open spec fn chain_image(disk: Seq<u8>, bpb: BIOSParameterBlock, start: u32) -> Seq<u8> {
    Seq::new(
        (spec_chain(disk, bpb, start).len() * bpb.spec_cluster_size()) as nat,
        |k: int| disk[chain_sector_addr(disk, bpb, start, k / 512) + k % 512],
    )
}

/// Where sector `sector` of cluster `n` of a chain stands among the sectors
/// of the chain.
proof fn lemma_sector_position(clusters: int, per: int, n: int, sector: int, j: int)
    requires
        0 <= n < clusters <= 0x0FFF_FFF7,
        0 <= sector < per <= 255,
        j == n * per + sector,
    ensures
        0 <= j,
        j / per == n,
        j % per == sector,
        j + 1 <= clusters * per,
        j < 0x0FFF_FFF7 * 255,
        512 * (j + 1) <= clusters * (per * 512),
        sector + 1 == per ==> j + 1 == (n + 1) * per,
{
    vstd::arithmetic::div_mod::lemma_fundamental_div_mod_converse(j, per, n, sector);
    assert(0 <= n * per) by (nonlinear_arith)
        requires
            0 <= n,
            0 <= per,
    ;
    assert(n * per + per <= clusters * per) by (nonlinear_arith)
        requires
            0 <= n < clusters,
            0 <= per,
    ;
    assert(clusters * per <= 0x0FFF_FFF7 * 255) by (nonlinear_arith)
        requires
            0 <= clusters <= 0x0FFF_FFF7,
            0 <= per <= 255,
    ;
    assert(512 * (clusters * per) == clusters * (per * 512)) by (nonlinear_arith);
    assert((n + 1) * per == n * per + per) by (nonlinear_arith);
}

/// Sector `j` of a chain's content is the sector of the medium at the byte
/// that the chain gives for it.
proof fn lemma_image_sector(disk: Seq<u8>, bpb: BIOSParameterBlock, start: u32, j: int, address: int)
    requires
        0 <= j,
        512 * (j + 1) <= chain_image(disk, bpb, start).len(),
        address == chain_sector_addr(disk, bpb, start, j),
        0 <= address,
        address + 512 <= disk.len(),
    ensures
        chain_image(disk, bpb, start).subrange(512 * j, 512 * j + 512) == disk.subrange(
            address,
            address + 512,
        ),
{
    let image = chain_image(disk, bpb, start);
    let part = image.subrange(512 * j, 512 * j + 512);
    let sector = disk.subrange(address, address + 512);
    assert forall|b: int| 0 <= b < 512 implies #[trigger] part[b] == sector[b] by {
        assert((512 * j + b) / 512 == j);
        assert((512 * j + b) % 512 == b);
        assert(part[b] == image[512 * j + b]);
        assert(sector[b] == disk[address + b]);
    }
    assert(part =~= sector);
}

/// Two media whose tables name the same successors hold the same chains.
pub proof fn lemma_chain_same(
    d1: Seq<u8>,
    d2: Seq<u8>,
    bpb: BIOSParameterBlock,
    start: u32,
    fuel: nat,
)
    requires
        forall|x: u32|
            bpb.spec_in_table(x) ==> successor(#[trigger] spec_entry(d1, bpb, x as int))
                == successor(spec_entry(d2, bpb, x as int)),
    ensures
        chain_from(d1, bpb, start, fuel) == chain_from(d2, bpb, start, fuel),
    decreases fuel,
{
    if fuel == 0 || !bpb.spec_in_table(start) {
    } else {
        assert(successor(spec_entry(d1, bpb, start as int)) == successor(
            spec_entry(d2, bpb, start as int),
        ));
        match successor(spec_entry(d1, bpb, start as int)) {
            Some(next) => {
                lemma_chain_same(d1, d2, bpb, next, (fuel - 1) as nat);
            },
            None => {},
        }
    }
}

/// Storing a value in one entry changes that entry and no other.
pub proof fn lemma_edit_entry(
    disk: Seq<u8>,
    bpb: BIOSParameterBlock,
    cluster: u32,
    value: u32,
    other: int,
)
    requires
        0 <= other,
        entry_addr(bpb, cluster as int) + 4 <= disk.len(),
        entry_addr(bpb, other) + 4 <= disk.len(),
    ensures
        spec_entry(spec_edit(disk, bpb, cluster, value), bpb, other) == if other == cluster {
            merged(spec_entry(disk, bpb, cluster as int), value)
        } else {
            spec_entry(disk, bpb, other)
        },
{
    let stored = merged(spec_entry(disk, bpb, cluster as int), value);
    let bytes = u32_le_bytes(stored);
    let after = spec_edit(disk, bpb, cluster, value);
    let a = entry_addr(bpb, cluster as int);
    let b = entry_addr(bpb, other);
    if other == cluster {
        assert(after[a] == bytes[0]);
        assert(after[a + 1] == bytes[1]);
        assert(after[a + 2] == bytes[2]);
        assert(after[a + 3] == bytes[3]);
        crate::tool::lemma_le_u32_round_trip(stored);
    } else {
        assert(after[b] == disk[b]);
        assert(after[b + 1] == disk[b + 1]);
        assert(after[b + 2] == disk[b + 2]);
        assert(after[b + 3] == disk[b + 3]);
    }
}

/// The sectors of a chain's content lie behind the first table, where the
/// volume has a table at all.
pub proof fn lemma_sector_in_data(disk: Seq<u8>, bpb: BIOSParameterBlock, start: u32, j: int)
    requires
        0 <= j,
        512 * (j + 1) <= chain_image(disk, bpb, start).len(),
        bpb.num_fat >= 1,
    ensures
        chain_sector_addr(disk, bpb, start, j) % 512 == 0,
        chain_sector_addr(disk, bpb, start, j) >= bpb.spec_fat1() + bpb.sector_per_fat * 512,
        bpb.spec_fat1() + 4 * bpb.spec_entry_count() <= bpb.spec_fat1() + bpb.sector_per_fat
            * 512,
{
    let chain = spec_chain(disk, bpb, start);
    let per = bpb.sector_per_cluster as int;
    let len = chain.len() as int;
    lemma_chain_finite(disk, bpb, start);
    assert(per > 0 && j < per * len) by (nonlinear_arith)
        requires
            0 <= j,
            512 * (j + 1) <= len * (per * 512),
            0 <= per,
            0 <= len,
    ;
    vstd::arithmetic::div_mod::lemma_multiply_divide_lt(j, per, len);
    vstd::arithmetic::div_mod::lemma_div_pos_is_pos(j, per);
    vstd::arithmetic::div_mod::lemma_mod_pos_bound(j, per);
    let n = j / per;
    let c = chain[n] as int;
    assert(bpb.spec_in_table(chain[n]));
    let tables = bpb.num_fat as int;
    let each = bpb.sector_per_fat as int;
    assert(tables * each >= each) by (nonlinear_arith)
        requires
            tables >= 1,
            each >= 0,
    ;
    assert((c - 2) * per >= 0) by (nonlinear_arith)
        requires
            c >= 2,
            per >= 0,
    ;
}

/// A walk over the sectors of one chain, in order.
#[derive(Debug, Clone, Copy)]
pub struct SectorWalk {
    pub walk: FAT,
    /// Byte at which the cluster under the walk starts.
    pub base: u64,
    /// Sectors of that cluster that the walk has given; zero between clusters.
    pub sector: usize,
    /// Clusters that the walk has entered.
    pub taken: u32,
    /// Sectors that the walk has given in all.
    pub index: u64,
}

impl SectorWalk {
    /// Clusters that the walk has left behind.
    pub open spec fn passed(&self) -> int {
        if self.sector > 0 {
            self.taken - 1
        } else {
            self.taken as int
        }
    }

    /// Whether the walk stands where its counters say, on the medium `disk`.
    pub open spec fn wf(&self, disk: Seq<u8>) -> bool {
        let bpb = self.walk.bpb;
        let chain = spec_chain(disk, bpb, self.walk.start_cluster);
        &&& bpb.sector_per_cluster == 0 ==> self.index == 0
        &&& bpb.sector_per_cluster > 0 ==> {
            &&& self.sector < bpb.sector_per_cluster
            &&& self.taken <= chain.len()
            &&& self.walk.remaining(disk) == chain.skip(self.taken as int)
            &&& self.index == self.passed() * bpb.sector_per_cluster + self.sector
            &&& self.sector > 0 ==> self.taken >= 1 && self.base == bpb.spec_offset(
                chain[self.taken - 1] as int,
            )
        }
    }

    /// The content that the walk runs over.
    pub open spec fn image(&self, disk: Seq<u8>) -> Seq<u8> {
        chain_image(disk, self.walk.bpb, self.walk.start_cluster)
    }

    /// A walk about to give the first sector of the chain from `start`.
    pub fn new(bpb: &BIOSParameterBlock, start: u32) -> (r: SectorWalk)
        ensures
            r.walk.bpb == *bpb,
            r.walk.start_cluster == start,
            r.index == 0,
            forall|disk: Seq<u8>| #[trigger] r.wf(disk),
    {
        let r = SectorWalk { walk: FAT::new(bpb, start), base: 0, sector: 0, taken: 0, index: 0 };
        assert forall|disk: Seq<u8>| #[trigger] r.wf(disk) by {
            assert(r.walk.remaining(disk) == spec_chain(disk, *bpb, start));
            assert(spec_chain(disk, *bpb, start).skip(0) =~= spec_chain(disk, *bpb, start));
            assert(r.passed() == 0);
            assert(r.passed() * bpb.sector_per_cluster == 0);
        }
        r
    }

    /// Gives the next sector of the chain, with the byte at which it lies on
    /// the medium; `None` after the last sector of the last cluster.
    pub fn next_sector<D: BasicOperation>(&mut self, dev: &D) -> (r: Result<
        Option<([u8; 512], u64)>,
        Error<D::Error>,
    >)
        requires
            old(self).wf(dev@),
        ensures
            final(self).walk.bpb == old(self).walk.bpb,
            final(self).walk.start_cluster == old(self).walk.start_cluster,
            final(self).wf(dev@),
            match r {
                Ok(Some((sector, address))) => {
                    &&& final(self).index == old(self).index + 1
                    &&& old(self).index < 0x0FFF_FFF7 * 255
                    &&& 512 * (old(self).index + 1) <= old(self).image(dev@).len()
                    &&& sector@ == old(self).image(dev@).subrange(
                        512 * old(self).index,
                        512 * old(self).index + 512,
                    )
                    &&& address == chain_sector_addr(
                        dev@,
                        old(self).walk.bpb,
                        old(self).walk.start_cluster,
                        old(self).index as int,
                    )
                    &&& address % 512 == 0
                    &&& address + 512 <= dev@.len()
                    &&& sector@ == dev@.subrange(address as int, address + 512)
                },
                Ok(None) => 512 * old(self).index == old(self).image(dev@).len() && *final(self)
                    == *old(self),
                Err(Error::Io(_)) => *final(self) == *old(self),
                Err(_) => false,
            },
    {
        let per: usize = self.walk.bpb.sector_per_cluster as usize;
        let ghost bpb = self.walk.bpb;
        let ghost chain = spec_chain(dev@, bpb, self.walk.start_cluster);
        proof {
            lemma_chain_finite(dev@, bpb, self.walk.start_cluster);
        }
        if per == 0 {
            assert(self.image(dev@).len() == 0);
            return Ok(None);
        }
        let mut walk: FAT = self.walk;
        let mut base: u64 = self.base;
        let mut taken: u32 = self.taken;
        if self.sector == 0 {
            match walk.next_cluster(dev) {
                Ok(Some(cluster)) => {
                    assert(chain.skip(taken as int)[0] == chain[taken as int]);
                    assert(chain.skip(taken as int).drop_first() =~= chain.skip(taken + 1));
                    base = walk.bpb.offset(cluster);
                    taken = taken + 1;
                },
                Ok(None) => {
                    assert(self.taken == chain.len());
                    assert(self.index * 512 == chain.len() * (per * 512)) by (nonlinear_arith)
                        requires
                            self.index == chain.len() * per,
                    ;
                    return Ok(None);
                },
                Err(e) => {
                    return Err(e);
                },
            }
        }
        let ghost n = taken - 1;
        let ghost j = self.index as int;
        let ghost before = self.sector as int;
        proof {
            bpb.lemma_offset_bounds(chain[n] as int);
            lemma_sector_position(chain.len() as int, per as int, n, before, j);
        }
        let address: u64 = base + (self.sector as u64) * 512;
        let sector = match read_sector(dev, address) {
            Ok(sector) => sector,
            Err(e) => {
                return Err(Error::Io(e));
            },
        };
        proof {
            lemma_image_sector(dev@, bpb, self.walk.start_cluster, j, address as int);
        }
        self.walk = walk;
        self.base = base;
        self.taken = taken;
        self.index = self.index + 1;
        self.sector = if self.sector + 1 == per {
            0
        } else {
            self.sector + 1
        };
        Ok(Some((sector, address)))
    }
}

} // verus!
