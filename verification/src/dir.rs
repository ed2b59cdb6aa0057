//! Directories: looking names up and making new entries.

use vstd::prelude::*;
use vstd::string::StringSliceAdditionalSpecFns;
use crate::base::{overwrite, read_sector, write_sector, BasicOperation};
use crate::bpb::BIOSParameterBlock;
use crate::directory_item::{
    copy_name_part, encode_short_name, entry_cluster, entry_length, eq_ignore_case, has_forbidden,
    has_illegal_char, lemma_new_entry_fields, lemma_short_name_round_trip, new_entry,
    short_name_valid, spec_cluster, spec_encode_short_name, spec_length, spec_new_entry,
    spec_short_name, upper_seq, ATTR_ARCHIVE, ATTR_DIRECTORY, END_MARK,
};
use crate::error::{DirError, Error, FatError};
use crate::file::File;
use crate::fat::{
    chain_image, chain_sector_addr, edit, entry_addr, find_free, lemma_chain_same,
    lemma_edit_entry, lemma_find_free_minimal, lemma_sector_in_data, merged, spec_chain,
    spec_edit, spec_entry, spec_find_free, successor, SectorWalk, END_OF_CHAIN,
};
use crate::scan::{
    arrival, blank_from, fresh, lemma_arrival_same, lemma_arrival_scan, lemma_blank_from,
    lemma_found_at, scan_from, slot, spec_first_blank, spec_resolve, start, step, ScanState,
    Verdict,
};

verus! {

/// What a new entry is to describe.
#[derive(Debug, Clone, Copy, PartialEq, Eq, Structural)]
pub enum CreateType {
    Dir,
    File,
}

/// Where an entry of a directory lies.
#[derive(Debug, Clone, Copy, PartialEq, Eq, Structural)]
pub struct Place {
    /// Number of the entry in its directory.
    pub slot: u64,
    /// Byte at which the sector that holds the entry starts on the medium.
    pub sector: u64,
    /// Number of the entry in that sector.
    pub within: usize,
}

/// A directory of a volume: where its content starts, and what its own entry
/// says of it.
#[derive(Debug, Clone, Copy)]
pub struct Dir {
    pub bpb: BIOSParameterBlock,
    pub dir_name: [u8; 11],
    pub create_ms: u8,
    pub create_time: [u8; 2],
    pub create_date: [u8; 2],
    pub visit_date: [u8; 2],
    pub edit_time: [u8; 2],
    pub edit_date: [u8; 2],
    pub dir_cluster: u32,
    pub length: u32,
}

/// The attribute byte of a new entry.
pub open spec fn attribute_of(create_type: CreateType) -> u8 {
    match create_type {
        CreateType::Dir => ATTR_DIRECTORY,
        CreateType::File => ATTR_ARCHIVE,
    }
}

/// Whether the entry `e` describes a directory.
pub open spec fn is_directory(e: Seq<u8>) -> bool {
    e[0x0B] & ATTR_DIRECTORY != 0
}

/// Whether the entry `e` describes a regular file: neither a directory nor
/// a volume label.
pub open spec fn is_regular_file(e: Seq<u8>) -> bool {
    e[0x0B] & 0x18 == 0
}

/// Byte at which entry `k` of the directory from `start` lies on the medium.
pub open spec fn slot_addr(disk: Seq<u8>, bpb: BIOSParameterBlock, start: u32, k: int) -> int {
    chain_sector_addr(disk, bpb, start, k / 16) + (k % 16) * 32
}

/// The medium after an entry for `name` is made in the directory from
/// `start`: the first free cluster is marked as the end of a chain, and the
/// first blank entry of the directory becomes the new entry, which names that
/// cluster.
pub open spec fn spec_create(
    disk: Seq<u8>,
    bpb: BIOSParameterBlock,
    start: u32,
    name: Seq<u8>,
    attribute: u8,
) -> Seq<u8> {
    let k = spec_first_blank(chain_image(disk, bpb, start)).unwrap();
    let c = spec_find_free(disk, bpb).unwrap();
    overwrite(
        spec_edit(disk, bpb, c, END_OF_CHAIN),
        slot_addr(disk, bpb, start, k),
        spec_new_entry(spec_encode_short_name(name), attribute, c),
    )
}

/// Whether the entries 0 to `k` of the directory from `start` lie on the
/// medium.
pub open spec fn on_medium(disk: Seq<u8>, bpb: BIOSParameterBlock, start: u32, k: int) -> bool {
    forall|m: int| 0 <= m <= k ==> #[trigger] slot_addr(disk, bpb, start, m) + 32 <= disk.len()
}

/// Byte `t` of entry `m` of a directory is the byte of the medium at the
/// entry's place.
pub proof fn lemma_image_slot(disk: Seq<u8>, bpb: BIOSParameterBlock, start: u32, m: int, t: int)
    requires
        0 <= m,
        32 * m + 32 <= chain_image(disk, bpb, start).len(),
        0 <= t < 32,
    ensures
        slot(chain_image(disk, bpb, start), m)[t] == disk[slot_addr(disk, bpb, start, m) + t],
{
    assert((32 * m + t) / 512 == m / 16);
    assert((32 * m + t) % 512 == 32 * (m % 16) + t);
}

/// The sector that holds an entry of a directory lies in the directory as a
/// whole.
proof fn lemma_slot_sector(disk: Seq<u8>, bpb: BIOSParameterBlock, start: u32, m: int)
    requires
        0 <= m,
        32 * m + 32 <= chain_image(disk, bpb, start).len(),
    ensures
        512 * (m / 16 + 1) <= chain_image(disk, bpb, start).len(),
{
    let len = spec_chain(disk, bpb, start).len() as int;
    let per = bpb.sector_per_cluster as int;
    assert(len * (per * 512) == (len * per) * 512) by (nonlinear_arith);
}

/// What making an entry does to a directory: the entries before the first
/// blank one stay, and the first blank one becomes the new entry.
proof fn lemma_created_directory(
    disk: Seq<u8>,
    bpb: BIOSParameterBlock,
    start: u32,
    c: u32,
    k: int,
    e: Seq<u8>,
)
    requires
        bpb.num_fat >= 1,
        spec_find_free(disk, bpb) == Some(c),
        spec_first_blank(chain_image(disk, bpb, start)) == Some(k),
        on_medium(disk, bpb, start, k),
        e.len() == 32,
    ensures
        ({
            let after = overwrite(
                spec_edit(disk, bpb, c, END_OF_CHAIN),
                slot_addr(disk, bpb, start, k),
                e,
            );
            let before = chain_image(disk, bpb, start);
            let image = chain_image(after, bpb, start);
            &&& image.len() == before.len()
            &&& forall|m: int| 0 <= m < k ==> #[trigger] slot(image, m) == slot(before, m)
            &&& slot(image, k) == e
        }),
{
    let before = chain_image(disk, bpb, start);
    let place = slot_addr(disk, bpb, start, k);
    let marked = spec_edit(disk, bpb, c, END_OF_CHAIN);
    let after = overwrite(marked, place, e);
    let image = chain_image(after, bpb, start);
    let table_end = bpb.spec_fat1() + bpb.sector_per_fat * 512;
    lemma_blank_from(before, 0);
    lemma_find_free_minimal(disk, bpb);
    lemma_slot_sector(disk, bpb, start, k);
    lemma_sector_in_data(disk, bpb, start, k / 16);
    assert(place + 32 <= disk.len());
    assert(table_end <= place);
    assert(place % 32 == 0);
    assert(entry_addr(bpb, c as int) + 4 <= table_end);
    assert forall|x: u32| bpb.spec_in_table(x) implies successor(
        #[trigger] spec_entry(after, bpb, x as int),
    ) == successor(spec_entry(disk, bpb, x as int)) by {
        let b = entry_addr(bpb, x as int);
        assert(b + 4 <= table_end);
        assert(after[b] == marked[b]);
        assert(after[b + 1] == marked[b + 1]);
        assert(after[b + 2] == marked[b + 2]);
        assert(after[b + 3] == marked[b + 3]);
        lemma_edit_entry(disk, bpb, c, END_OF_CHAIN, x as int);
        if x == c {
            assert(merged(0, END_OF_CHAIN) == 0x0FFF_FFFF);
        }
    }
    lemma_chain_same(after, disk, bpb, start, bpb.spec_entry_count() as nat);
    assert(spec_chain(after, bpb, start) == spec_chain(disk, bpb, start));
    assert(image.len() == before.len());
    lemma_image_slot(disk, bpb, start, k, 0);
    assert forall|m: int| 0 <= m < k implies #[trigger] slot(image, m) == slot(before, m) by {
        let here = slot_addr(disk, bpb, start, m);
        lemma_slot_sector(disk, bpb, start, m);
        lemma_sector_in_data(disk, bpb, start, m / 16);
        assert(here + 32 <= disk.len());
        assert(here % 32 == 0);
        assert(table_end <= here);
        lemma_image_slot(disk, bpb, start, m, 0);
        assert(slot(before, m)[0] != END_MARK);
        assert(here != place);
        assert(here + 32 <= place || place + 32 <= here);
        assert forall|t: int| 0 <= t < 32 implies slot(image, m)[t] == slot(before, m)[t] by {
            lemma_image_slot(after, bpb, start, m, t);
            lemma_image_slot(disk, bpb, start, m, t);
            assert(slot_addr(after, bpb, start, m) == here);
            assert(after[here + t] == marked[here + t]);
            assert(marked[here + t] == disk[here + t]);
        }
        assert(slot(image, m) =~= slot(before, m));
    }
    assert forall|t: int| 0 <= t < 32 implies slot(image, k)[t] == e[t] by {
        lemma_image_slot(after, bpb, start, k, t);
        assert(slot_addr(after, bpb, start, k) == place);
        assert(after[place + t] == e[t]);
    }
    assert(slot(image, k) =~= e);
}

/// A new entry is found under its name.
///
/// Take a name that can be stored as a short name and does not start with a
/// zero byte, and a volume whose tables lie before its data. Let the lookup
/// of the name come to the first blank entry of the directory with no entry
/// left to skip: the name is not yet there, and no long name is cut short by
/// the end of the directory. After an entry is made for the name, the name
/// leads to that entry, and the entry names the cluster that was the first
/// free one before, has length zero, and is of the kind asked for.
pub proof fn lemma_create_then_open(
    disk: Seq<u8>,
    dir: Dir,
    name: Seq<u8>,
    create_type: CreateType,
)
    requires
        short_name_valid(name),
        name.len() > 0 ==> name[0] != 0,
        dir.bpb.num_fat >= 1,
        spec_find_free(disk, dir.bpb) is Some,
        spec_first_blank(dir.image(disk)) is Some,
        on_medium(disk, dir.bpb, dir.dir_cluster, spec_first_blank(dir.image(disk)).unwrap()),
        arrival(
            dir.image(disk),
            name,
            0,
            fresh(name.len() as int),
            spec_first_blank(dir.image(disk)).unwrap(),
        ) matches Some(st) && st.skip == 0,
    ensures
        ({
            let after = spec_create(
                disk,
                dir.bpb,
                dir.dir_cluster,
                name,
                attribute_of(create_type),
            );
            let k = spec_first_blank(dir.image(disk)).unwrap();
            let found = slot(dir.image(after), k);
            &&& spec_resolve(dir.image(after), name) == Some(k)
            &&& found == spec_new_entry(
                spec_encode_short_name(name),
                attribute_of(create_type),
                spec_find_free(disk, dir.bpb).unwrap(),
            )
            &&& spec_cluster(found) == spec_find_free(disk, dir.bpb).unwrap()
            &&& spec_length(found) == 0
            &&& create_type == CreateType::File ==> is_regular_file(found)
            &&& create_type == CreateType::Dir ==> is_directory(found)
        }),
{
    let bpb = dir.bpb;
    let start = dir.dir_cluster;
    let before = dir.image(disk);
    let k = spec_first_blank(before).unwrap();
    let c = spec_find_free(disk, bpb).unwrap();
    let attribute = attribute_of(create_type);
    let stored = spec_encode_short_name(name);
    let e = spec_new_entry(stored, attribute, c);
    let after = spec_create(disk, bpb, start, name, attribute);
    let image = dir.image(after);
    let first = fresh(name.len() as int);
    lemma_new_entry_fields(stored, attribute, c);
    lemma_created_directory(disk, bpb, start, c, k, e);
    lemma_blank_from(before, 0);
    lemma_arrival_same(image, before, name, 0, first, k);
    lemma_arrival_scan(image, name, 0, first, k);
    let st = arrival(image, name, 0, first, k).unwrap();
    lemma_short_name_round_trip(name, e);
    assert(eq_ignore_case(name, upper_seq(name)));
    assert(e[0] == stored[0]);
    assert(e[0] != END_MARK && e[0] != 0xE5) by {
        if name.len() > 0 {
            assert(name[0] < 0x80);
        }
    }
    lemma_found_at(image, name, k, st);
    assert(0x20u8 & 0x18 == 0) by (bit_vector);
    assert(0x10u8 & 0x10 != 0) by (bit_vector);
}

/// Entry `t` of a sector.
fn copy_entry(sector: &[u8; 512], t: usize) -> (r: [u8; 32])
    requires
        t < 16,
    ensures
        r@ == sector@.subrange(32 * t, 32 * t + 32),
{
    let mut entry: [u8; 32] = [0u8; 32];
    let mut i: usize = 0;
    while i < 32
        invariant
            i <= 32,
            t < 16,
            forall|k: int| 0 <= k < i ==> entry@[k] == sector@[32 * t + k],
        decreases 32 - i,
    {
        entry[i] = sector[32 * t + i];
        i += 1;
    }
    assert(entry@ =~= sector@.subrange(32 * t, 32 * t + 32));
    entry
}

impl Dir {
    /// The content of the directory on the medium `disk`.
    pub open spec fn image(&self, disk: Seq<u8>) -> Seq<u8> {
        chain_image(disk, self.bpb, self.dir_cluster)
    }

    /// Whether the fields are those of the entry `e`.
    pub open spec fn stored_in(&self, e: Seq<u8>) -> bool {
        &&& self.dir_name@ == e.subrange(0, 11)
        &&& self.create_ms == e[0x0D]
        &&& self.create_time@ == seq![e[0x0F], e[0x0E]]
        &&& self.create_date@ == seq![e[0x11], e[0x10]]
        &&& self.visit_date@ == seq![e[0x13], e[0x12]]
        &&& self.edit_time@ == seq![e[0x17], e[0x16]]
        &&& self.edit_date@ == seq![e[0x19], e[0x18]]
        &&& self.dir_cluster == spec_cluster(e)
        &&& self.length == spec_length(e)
    }

    /// The directory that the entry `buf` of this directory describes.
    pub fn get_dir(&self, buf: &[u8]) -> (r: Dir)
        requires
            buf@.len() >= 32,
        ensures
            r.bpb == self.bpb,
            r.stored_in(buf@),
    {
        let mut dir_name: [u8; 11] = [0u8; 11];
        let mut i: usize = 0;
        while i < 11
            invariant
                i <= 11,
                buf@.len() >= 32,
                forall|k: int| 0 <= k < i ==> dir_name@[k] == buf@[k],
            decreases 11 - i,
        {
            dir_name[i] = buf[i];
            i += 1;
        }
        let r = Dir {
            bpb: self.bpb,
            dir_name,
            create_ms: buf[0x0D],
            create_time: [buf[0x0F], buf[0x0E]],
            create_date: [buf[0x11], buf[0x10]],
            visit_date: [buf[0x13], buf[0x12]],
            edit_time: [buf[0x17], buf[0x16]],
            edit_date: [buf[0x19], buf[0x18]],
            dir_cluster: entry_cluster(buf),
            length: entry_length(buf),
        };
        assert(r.dir_name@ =~= buf@.subrange(0, 11));
        assert(r.create_time@ =~= seq![buf@[0x0F], buf@[0x0E]]);
        assert(r.create_date@ =~= seq![buf@[0x11], buf@[0x10]]);
        assert(r.visit_date@ =~= seq![buf@[0x13], buf@[0x12]]);
        assert(r.edit_time@ =~= seq![buf@[0x17], buf@[0x16]]);
        assert(r.edit_date@ =~= seq![buf@[0x19], buf@[0x18]]);
        r
    }

    /// Looks `name` up: gives the entry it leads to and the byte at which
    /// that entry lies in the directory. The medium is only read.
    pub fn exist<D: BasicOperation>(&self, dev: &D, name: &[u8]) -> (r: Result<
        ([u8; 32], u64),
        Error<D::Error>,
    >)
        ensures
            match r {
                Ok((entry, offset)) => {
                    &&& !has_forbidden(name@)
                    &&& offset % 32 == 0
                    &&& spec_resolve(self.image(dev@), name@) == Some(offset as int / 32)
                    &&& entry@ == slot(self.image(dev@), offset as int / 32)
                },
                Err(Error::Dir(DirError::NotFound)) => !has_forbidden(name@) && spec_resolve(
                    self.image(dev@),
                    name@,
                ) is None,
                Err(Error::Dir(DirError::IllegalName)) => has_forbidden(name@),
                Err(Error::Io(_)) => !has_forbidden(name@),
                Err(_) => false,
            },
    {
        if has_illegal_char(name) {
            return Err(Error::Dir(DirError::IllegalName));
        }
        let mut sectors: SectorWalk = SectorWalk::new(&self.bpb, self.dir_cluster);
        let mut st: ScanState = start(name);
        let ghost image = self.image(dev@);
        loop
            invariant
                sectors.wf(dev@),
                sectors.walk.bpb == self.bpb,
                sectors.walk.start_cluster == self.dir_cluster,
                image == self.image(dev@),
                st.rest <= name@.len(),
                !has_forbidden(name@),
                512 * sectors.index <= image.len(),
                spec_resolve(image, name@) == scan_from(image, name@, 16 * sectors.index, st),
            decreases image.len() - 512 * sectors.index,
        {
            let ghost j = sectors.index as int;
            let (sector, _address) = match sectors.next_sector(dev) {
                Ok(Some(found)) => found,
                Ok(None) => {
                    return Err(Error::Dir(DirError::NotFound));
                },
                Err(e) => {
                    return Err(e);
                },
            };
            let first: u64 = (sectors.index - 1) * 16;
            let mut t: usize = 0;
            while t < 16
                invariant
                    t <= 16,
                    0 <= j < 0x0FFF_FFF7 * 255,
                    first == 16 * j,
                    512 * j + 512 <= image.len(),
                    sector@ == image.subrange(512 * j, 512 * j + 512),
                    st.rest <= name@.len(),
                    !has_forbidden(name@),
                    image == self.image(dev@),
                    spec_resolve(image, name@) == scan_from(image, name@, first + t, st),
                decreases 16 - t,
            {
                let entry: [u8; 32] = copy_entry(&sector, t);
                assert(entry@ =~= slot(image, first + t));
                let (verdict, after) = step(name, st, &entry);
                match verdict {
                    Verdict::End => {
                        return Err(Error::Dir(DirError::NotFound));
                    },
                    Verdict::Found => {
                        return Ok((entry, (first + t as u64) * 32));
                    },
                    Verdict::Continue => {
                        st = after;
                    },
                }
                t += 1;
            }
        }
    }

    /// Finds the first entry of the directory that starts with an end mark.
    pub fn get_blank_place<D: BasicOperation>(&self, dev: &D) -> (r: Result<
        Place,
        Error<D::Error>,
    >)
        ensures
            match r {
                Ok(place) => {
                    &&& spec_first_blank(self.image(dev@)) == Some(place.slot as int)
                    &&& place.sector == chain_sector_addr(
                        dev@,
                        self.bpb,
                        self.dir_cluster,
                        place.slot as int / 16,
                    )
                    &&& place.within == place.slot % 16
                    &&& place.sector % 512 == 0
                    &&& place.sector + 512 <= dev@.len()
                    &&& 32 * place.slot + 32 <= self.image(dev@).len()
                    &&& on_medium(dev@, self.bpb, self.dir_cluster, place.slot as int)
                },
                Err(Error::Fat(FatError::NoSpace)) => spec_first_blank(self.image(dev@)) is None,
                Err(Error::Io(_)) => true,
                Err(_) => false,
            },
    {
        let mut sectors: SectorWalk = SectorWalk::new(&self.bpb, self.dir_cluster);
        let ghost image = self.image(dev@);
        loop
            invariant
                sectors.wf(dev@),
                sectors.walk.bpb == self.bpb,
                sectors.walk.start_cluster == self.dir_cluster,
                image == self.image(dev@),
                512 * sectors.index <= image.len(),
                spec_first_blank(image) == blank_from(image, 16 * sectors.index),
                forall|m: int|
                    0 <= m < 16 * sectors.index ==> #[trigger] slot_addr(
                        dev@,
                        self.bpb,
                        self.dir_cluster,
                        m,
                    ) + 32 <= dev@.len(),
            decreases image.len() - 512 * sectors.index,
        {
            let ghost j = sectors.index as int;
            let (sector, address) = match sectors.next_sector(dev) {
                Ok(Some(found)) => found,
                Ok(None) => {
                    return Err(Error::Fat(FatError::NoSpace));
                },
                Err(e) => {
                    return Err(e);
                },
            };
            let first: u64 = (sectors.index - 1) * 16;
            let mut t: usize = 0;
            assert forall|m: int| 0 <= m < 16 * j + 16 implies #[trigger] slot_addr(
                dev@,
                self.bpb,
                self.dir_cluster,
                m,
            ) + 32 <= dev@.len() by {
                if m >= 16 * j {
                    assert(m / 16 == j);
                }
            }
            while t < 16
                invariant
                    t <= 16,
                    0 <= j < 0x0FFF_FFF7 * 255,
                    first == 16 * j,
                    512 * j + 512 <= image.len(),
                    sector@ == image.subrange(512 * j, 512 * j + 512),
                    image == self.image(dev@),
                    address == chain_sector_addr(dev@, self.bpb, self.dir_cluster, j),
                    address % 512 == 0,
                    address + 512 <= dev@.len(),
                    spec_first_blank(image) == blank_from(image, first + t),
                    forall|m: int|
                        0 <= m < 16 * j + 16 ==> #[trigger] slot_addr(
                            dev@,
                            self.bpb,
                            self.dir_cluster,
                            m,
                        ) + 32 <= dev@.len(),
                decreases 16 - t,
            {
                assert(sector@[32 * t] == image[32 * (first + t)]);
                if sector[32 * t] == END_MARK {
                    return Ok(Place { slot: first + t as u64, sector: address, within: t });
                }
                t += 1;
            }
        }
    }

    /// Makes an entry for a new, empty file or directory called `name`.
    ///
    /// The first free cluster becomes the object's only cluster, and the first
    /// blank entry of this directory becomes its entry. The table is written
    /// before the directory.
    pub fn create<D: BasicOperation>(&self, dev: &mut D, name: &[u8], create_type: CreateType) -> (r:
        Result<(), Error<D::Error>>)
        ensures
            final(dev)@.len() == old(dev)@.len(),
            match r {
                Ok(()) => {
                    &&& short_name_valid(name@)
                    &&& spec_first_blank(self.image(old(dev)@)) is Some
                    &&& spec_find_free(old(dev)@, self.bpb) is Some
                    &&& on_medium(
                        old(dev)@,
                        self.bpb,
                        self.dir_cluster,
                        spec_first_blank(self.image(old(dev)@)).unwrap(),
                    )
                    &&& final(dev)@ == spec_create(
                        old(dev)@,
                        self.bpb,
                        self.dir_cluster,
                        name@,
                        attribute_of(create_type),
                    )
                },
                Err(Error::Dir(DirError::IllegalName)) => !short_name_valid(name@) && final(dev)@
                    == old(dev)@,
                Err(Error::Fat(FatError::NoSpace)) => {
                    &&& short_name_valid(name@)
                    &&& spec_first_blank(self.image(old(dev)@)) is None || spec_find_free(
                        old(dev)@,
                        self.bpb,
                    ) is None
                    &&& final(dev)@ == old(dev)@
                },
                Err(Error::Io(_)) => short_name_valid(name@),
                Err(_) => false,
            },
    {
        let name_bytes: [u8; 11] = match encode_short_name(name) {
            Ok(bytes) => bytes,
            Err(e) => {
                return Err(Error::Dir(e));
            },
        };
        let place: Place = match self.get_blank_place(dev) {
            Ok(place) => place,
            Err(e) => {
                return Err(e);
            },
        };
        let cluster: u32 = match find_free(dev, &self.bpb) {
            Ok(cluster) => cluster,
            Err(e) => {
                return Err(e);
            },
        };
        let attribute: u8 = match create_type {
            CreateType::Dir => ATTR_DIRECTORY,
            CreateType::File => ATTR_ARCHIVE,
        };
        let entry: [u8; 32] = new_entry(&name_bytes, attribute, cluster);
        match edit(dev, &self.bpb, cluster, END_OF_CHAIN) {
            Ok(()) => {},
            Err(e) => {
                return Err(e);
            },
        }
        let ghost marked = dev@;
        let mut sector: [u8; 512] = match read_sector(dev, place.sector) {
            Ok(sector) => sector,
            Err(e) => {
                return Err(Error::Io(e));
            },
        };
        let at: usize = place.within * 32;
        let mut i: usize = 0;
        while i < 32
            invariant
                i <= 32,
                at + 32 <= 512,
                forall|k: int| 0 <= k < i ==> sector@[at + k] == entry@[k],
                forall|k: int|
                    0 <= k < 512 && !(at <= k < at + i) ==> sector@[k] == marked[place.sector + k],
            decreases 32 - i,
        {
            sector[at + i] = entry[i];
            i += 1;
        }
        match write_sector(dev, &sector, place.sector) {
            Ok(()) => {
                assert(dev@ =~= overwrite(marked, place.sector + at, entry@));
                Ok(())
            },
            Err(e) => Err(Error::Io(e)),
        }
    }

    /// Makes an empty directory called `dir` in this directory.
    pub fn create_dir<D: BasicOperation>(&self, dev: &mut D, dir: &str) -> (r: Result<
        (),
        Error<D::Error>,
    >)
        ensures
            final(dev)@.len() == old(dev)@.len(),
            match r {
                Ok(()) => {
                    &&& short_name_valid(dir.spec_bytes())
                    &&& spec_first_blank(self.image(old(dev)@)) is Some
                    &&& spec_find_free(old(dev)@, self.bpb) is Some
                    &&& on_medium(
                        old(dev)@,
                        self.bpb,
                        self.dir_cluster,
                        spec_first_blank(self.image(old(dev)@)).unwrap(),
                    )
                    &&& final(dev)@ == spec_create(
                        old(dev)@,
                        self.bpb,
                        self.dir_cluster,
                        dir.spec_bytes(),
                        ATTR_DIRECTORY,
                    )
                },
                Err(Error::Dir(DirError::IllegalName)) => !short_name_valid(dir.spec_bytes())
                    && final(dev)@ == old(dev)@,
                Err(Error::Fat(FatError::NoSpace)) => {
                    &&& short_name_valid(dir.spec_bytes())
                    &&& spec_first_blank(self.image(old(dev)@)) is None || spec_find_free(
                        old(dev)@,
                        self.bpb,
                    ) is None
                    &&& final(dev)@ == old(dev)@
                },
                Err(Error::Io(_)) => short_name_valid(dir.spec_bytes()),
                Err(_) => false,
            },
    {
        self.create(dev, dir.as_bytes(), CreateType::Dir)
    }

    /// Makes an empty file called `file` in this directory.
    pub fn create_file<D: BasicOperation>(&self, dev: &mut D, file: &str) -> (r: Result<
        (),
        Error<D::Error>,
    >)
        ensures
            final(dev)@.len() == old(dev)@.len(),
            match r {
                Ok(()) => {
                    &&& short_name_valid(file.spec_bytes())
                    &&& spec_first_blank(self.image(old(dev)@)) is Some
                    &&& spec_find_free(old(dev)@, self.bpb) is Some
                    &&& on_medium(
                        old(dev)@,
                        self.bpb,
                        self.dir_cluster,
                        spec_first_blank(self.image(old(dev)@)).unwrap(),
                    )
                    &&& final(dev)@ == spec_create(
                        old(dev)@,
                        self.bpb,
                        self.dir_cluster,
                        file.spec_bytes(),
                        ATTR_ARCHIVE,
                    )
                },
                Err(Error::Dir(DirError::IllegalName)) => !short_name_valid(file.spec_bytes())
                    && final(dev)@ == old(dev)@,
                Err(Error::Fat(FatError::NoSpace)) => {
                    &&& short_name_valid(file.spec_bytes())
                    &&& spec_first_blank(self.image(old(dev)@)) is None || spec_find_free(
                        old(dev)@,
                        self.bpb,
                    ) is None
                    &&& final(dev)@ == old(dev)@
                },
                Err(Error::Io(_)) => short_name_valid(file.spec_bytes()),
                Err(_) => false,
            },
    {
        self.create(dev, file.as_bytes(), CreateType::File)
    }

    /// Opens the subdirectory called `dir`.
    ///
    /// A name that leads to nothing, or to something that is no directory,
    /// gives `NotFoundDir`.
    pub fn into_dir<D: BasicOperation>(&self, dev: &D, dir: &str) -> (r: Result<
        Dir,
        Error<D::Error>,
    >)
        ensures
            match r {
                Ok(found) => {
                    &&& !has_forbidden(dir.spec_bytes())
                    &&& spec_resolve(self.image(dev@), dir.spec_bytes()) matches Some(k)
                        && is_directory(slot(self.image(dev@), k)) && found.stored_in(
                        slot(self.image(dev@), k),
                    )
                    &&& found.bpb == self.bpb
                },
                Err(Error::Dir(DirError::NotFoundDir)) => {
                    &&& !has_forbidden(dir.spec_bytes())
                    &&& spec_resolve(self.image(dev@), dir.spec_bytes()) matches Some(k)
                        ==> !is_directory(slot(self.image(dev@), k))
                },
                Err(Error::Dir(DirError::IllegalName)) => has_forbidden(dir.spec_bytes()),
                Err(Error::Io(_)) => !has_forbidden(dir.spec_bytes()),
                Err(_) => false,
            },
    {
        match self.exist(dev, dir.as_bytes()) {
            Ok((entry, _)) => {
                if entry[0x0B] & ATTR_DIRECTORY != 0 {
                    Ok(self.get_dir(&entry))
                } else {
                    Err(Error::Dir(DirError::NotFoundDir))
                }
            },
            Err(Error::Dir(DirError::NotFound)) => Err(Error::Dir(DirError::NotFoundDir)),
            Err(e) => Err(e),
        }
    }

    /// The file that the entry `buf` describes, which lies at byte `offset`
    /// of this directory.
    pub fn get_file(&self, buf: &[u8], offset: u64) -> (r: File)
        requires
            buf@.len() >= 32,
        ensures
            r.bpb == self.bpb,
            r.dir_cluster == self.dir_cluster,
            r.offset == offset,
            r.stored_in(buf@),
    {
        let r = File {
            bpb: self.bpb,
            dir_cluster: self.dir_cluster,
            offset,
            file_name: copy_name_part::<8>(buf, 0),
            extension_name: copy_name_part::<3>(buf, 8),
            create_ms: buf[0x0D],
            create_time: [buf[0x0F], buf[0x0E]],
            create_date: [buf[0x11], buf[0x10]],
            visit_date: [buf[0x13], buf[0x12]],
            edit_time: [buf[0x17], buf[0x16]],
            edit_date: [buf[0x19], buf[0x18]],
            file_cluster: entry_cluster(buf),
            length: entry_length(buf),
        };
        assert(r.create_time@ =~= seq![buf@[0x0F], buf@[0x0E]]);
        assert(r.create_date@ =~= seq![buf@[0x11], buf@[0x10]]);
        assert(r.visit_date@ =~= seq![buf@[0x13], buf@[0x12]]);
        assert(r.edit_time@ =~= seq![buf@[0x17], buf@[0x16]]);
        assert(r.edit_date@ =~= seq![buf@[0x19], buf@[0x18]]);
        r
    }

    /// Opens the file called `file`.
    ///
    /// A name that leads to nothing gives `NotFound`; one that leads to a
    /// directory or to a volume label gives `NotFoundFile`.
    pub fn file<D: BasicOperation>(&self, dev: &D, file: &str) -> (r: Result<
        File,
        Error<D::Error>,
    >)
        ensures
            match r {
                Ok(found) => {
                    &&& !has_forbidden(file.spec_bytes())
                    &&& spec_resolve(self.image(dev@), file.spec_bytes()) matches Some(k)
                        && is_regular_file(slot(self.image(dev@), k)) && found.stored_in(
                        slot(self.image(dev@), k),
                    ) && found.offset == 32 * k
                    &&& found.bpb == self.bpb
                    &&& found.dir_cluster == self.dir_cluster
                },
                Err(Error::Dir(DirError::NotFound)) => {
                    &&& !has_forbidden(file.spec_bytes())
                    &&& spec_resolve(self.image(dev@), file.spec_bytes()) is None
                },
                Err(Error::Dir(DirError::NotFoundFile)) => {
                    &&& !has_forbidden(file.spec_bytes())
                    &&& spec_resolve(self.image(dev@), file.spec_bytes()) matches Some(k)
                        && !is_regular_file(slot(self.image(dev@), k))
                },
                Err(Error::Dir(DirError::IllegalName)) => has_forbidden(file.spec_bytes()),
                Err(Error::Io(_)) => !has_forbidden(file.spec_bytes()),
                Err(_) => false,
            },
    {
        match self.exist(dev, file.as_bytes()) {
            Ok((entry, offset)) => {
                if entry[0x0B] & 0x18 == 0 {
                    Ok(self.get_file(&entry, offset))
                } else {
                    Err(Error::Dir(DirError::NotFoundFile))
                }
            },
            Err(e) => Err(e),
        }
    }
}

} // verus!
