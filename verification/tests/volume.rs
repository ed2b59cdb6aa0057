use std::cell::Cell;

use fat32::base::{BasicOperation, RamDisk, RamDiskError};
use fat32::bpb::BIOSParameterBlock;
use fat32::dir::{CreateType, Dir, Place};
use fat32::error::{DirError, Error, FatError, FileError, MountError};
use fat32::fat::{edit, entry_successor, find_free, next, read_entry, SectorWalk, FAT};
use fat32::volume::Volume;

/// A small volume: `clusters` data clusters behind the tables.
#[derive(Clone, Copy)]
struct Layout {
    per_cluster: u8,
    reserved: u16,
    tables: u8,
    per_table: u32,
    clusters: u32,
}

const SMALL: Layout = Layout { per_cluster: 1, reserved: 2, tables: 2, per_table: 1, clusters: 16 };
const WIDE: Layout = Layout { per_cluster: 2, reserved: 4, tables: 1, per_table: 1, clusters: 12 };

impl Layout {
    fn data_start(&self) -> usize {
        (self.reserved as usize + self.tables as usize * self.per_table as usize) * 512
    }

    fn cluster_size(&self) -> usize {
        self.per_cluster as usize * 512
    }

    fn cluster_at(&self, cluster: u32) -> usize {
        self.data_start() + (cluster as usize - 2) * self.cluster_size()
    }

    fn size(&self) -> usize {
        self.data_start() + self.clusters as usize * self.cluster_size()
    }

    fn entry_at(&self, cluster: u32) -> usize {
        self.reserved as usize * 512 + 4 * cluster as usize
    }

    /// A fresh volume: an empty root directory in cluster 2.
    fn format(&self) -> Vec<u8> {
        let mut image = vec![0u8; self.size()];
        image[0x0B..0x0D].copy_from_slice(&512u16.to_le_bytes());
        image[0x0D] = self.per_cluster;
        image[0x0E..0x10].copy_from_slice(&self.reserved.to_le_bytes());
        image[0x10] = self.tables;
        image[0x20..0x24].copy_from_slice(&((self.size() / 512) as u32).to_le_bytes());
        image[0x24..0x28].copy_from_slice(&self.per_table.to_le_bytes());
        image[0x2C..0x30].copy_from_slice(&2u32.to_le_bytes());
        image[0x43..0x47].copy_from_slice(&0x1234_5678u32.to_le_bytes());
        image[0x47..0x52].copy_from_slice(b"NO NAME    ");
        image[0x52..0x5A].copy_from_slice(b"FAT32   ");
        self.set_entry(&mut image, 0, 0x0FFF_FFF8);
        self.set_entry(&mut image, 1, 0x0FFF_FFFF);
        self.set_entry(&mut image, 2, 0x0FFF_FFFF);
        image
    }

    fn set_entry(&self, image: &mut [u8], cluster: u32, value: u32) {
        let at = self.entry_at(cluster);
        image[at..at + 4].copy_from_slice(&value.to_le_bytes());
    }

    fn entry(&self, image: &[u8], cluster: u32) -> u32 {
        let at = self.entry_at(cluster);
        u32::from_le_bytes([image[at], image[at + 1], image[at + 2], image[at + 3]])
    }

    /// Puts `entry` into slot `slot` of the directory in cluster `cluster`.
    fn set_slot(&self, image: &mut [u8], cluster: u32, slot: usize, entry: &[u8; 32]) {
        let at = self.cluster_at(cluster) + 32 * slot;
        image[at..at + 32].copy_from_slice(entry);
    }

    fn set_content(&self, image: &mut [u8], cluster: u32, content: &[u8]) {
        let at = self.cluster_at(cluster);
        image[at..at + content.len()].copy_from_slice(content);
    }
}

fn short_entry(name: &[u8; 11], attribute: u8, cluster: u32, length: u32) -> [u8; 32] {
    let mut e = [0u8; 32];
    e[0..11].copy_from_slice(name);
    e[0x0B] = attribute;
    e[0x0D] = 7;
    e[0x0E..0x10].copy_from_slice(&0x1122u16.to_le_bytes());
    e[0x10..0x12].copy_from_slice(&0x3344u16.to_le_bytes());
    e[0x12..0x14].copy_from_slice(&0x5566u16.to_le_bytes());
    e[0x14..0x16].copy_from_slice(&((cluster >> 16) as u16).to_le_bytes());
    e[0x16..0x18].copy_from_slice(&0x7788u16.to_le_bytes());
    e[0x18..0x1A].copy_from_slice(&0x99AAu16.to_le_bytes());
    e[0x1A..0x1C].copy_from_slice(&(cluster as u16).to_le_bytes());
    e[0x1C..0x20].copy_from_slice(&length.to_le_bytes());
    e
}

fn long_entry(ordinal: u8, text: &str) -> [u8; 32] {
    let units: Vec<u16> = text.encode_utf16().collect();
    assert!(units.len() <= 13);
    let mut all = [0xFFFFu16; 13];
    for (i, u) in units.iter().enumerate() {
        all[i] = *u;
    }
    if units.len() < 13 {
        all[units.len()] = 0;
    }
    let places = [1usize, 3, 5, 7, 9, 14, 16, 18, 20, 22, 24, 28, 30];
    let mut e = [0u8; 32];
    e[0] = ordinal;
    e[0x0B] = 0x0F;
    for (i, at) in places.iter().enumerate() {
        e[*at..*at + 2].copy_from_slice(&all[i].to_le_bytes());
    }
    e
}

fn mount(image: Vec<u8>) -> Volume<RamDisk> {
    Volume::new(RamDisk::new(image)).unwrap()
}

fn bpb_of(image: &[u8]) -> BIOSParameterBlock {
    BIOSParameterBlock::parse(&image[..512]).unwrap()
}

fn dir_at(image: &[u8], cluster: u32) -> Dir {
    let mut dir = mount(image.to_vec()).root_dir();
    dir.dir_cluster = cluster;
    dir
}

/// A device that counts its transfers and can be told to fail.
struct Watched {
    disk: RamDisk,
    reads: Cell<usize>,
    blocks: Cell<usize>,
    writes: usize,
    reads_allowed: usize,
    writes_allowed: usize,
}

impl Watched {
    fn new(image: Vec<u8>) -> Watched {
        Watched {
            disk: RamDisk::new(image),
            reads: Cell::new(0),
            blocks: Cell::new(0),
            writes: 0,
            reads_allowed: usize::MAX,
            writes_allowed: usize::MAX,
        }
    }
}

#[derive(Debug, PartialEq, Eq)]
enum Fault {
    Refused,
    Disk(RamDiskError),
}

impl BasicOperation for Watched {
    type Error = Fault;

    fn read(&self, buf: &mut [u8], address: u64, number_of_blocks: usize) -> Result<(), Fault> {
        if self.reads.get() >= self.reads_allowed {
            return Err(Fault::Refused);
        }
        self.reads.set(self.reads.get() + 1);
        self.blocks.set(self.blocks.get() + number_of_blocks);
        self.disk.read(buf, address, number_of_blocks).map_err(Fault::Disk)
    }

    fn write(&mut self, buf: &[u8], address: u64, number_of_blocks: usize) -> Result<(), Fault> {
        if self.writes >= self.writes_allowed {
            return Err(Fault::Refused);
        }
        self.writes += 1;
        self.disk.write(buf, address, number_of_blocks).map_err(Fault::Disk)
    }
}

/// A volume with the file `abcd.txt` in cluster 3.
fn with_abcd(content: &[u8]) -> Vec<u8> {
    let mut image = SMALL.format();
    SMALL.set_slot(&mut image, 2, 0, &short_entry(b"ABCD    TXT", 0x20, 3, content.len() as u32));
    SMALL.set_entry(&mut image, 3, 0x0FFF_FFFF);
    SMALL.set_content(&mut image, 3, content);
    image
}

#[test]
fn test_all() {
    let volume = mount(with_abcd("12345，Rust牛逼".as_bytes()));
    let root = volume.root_dir();

    let file = root.file(&volume.device, "abcd.txt");
    assert!(file.is_ok());
    let file = file.unwrap();
    let mut buf = [0; 512];
    let len = file.read(&volume.device, &mut buf).unwrap();
    assert_eq!("12345，Rust牛逼", std::str::from_utf8(&buf[0..len]).unwrap());
}

#[test]
fn ram_disk_moves_whole_sectors() {
    let mut disk = RamDisk::new((0..2048u32).map(|i| (i % 251) as u8).collect());
    let mut buf = [0u8; 1024];
    assert_eq!(disk.read(&mut buf, 512, 2), Ok(()));
    assert_eq!(buf.to_vec(), (512..1536u32).map(|i| (i % 251) as u8).collect::<Vec<u8>>());
    assert_eq!(disk.write(&[0xAB; 512], 1536, 1), Ok(()));
    assert_eq!(disk.data[1535], (1535 % 251) as u8);
    assert!(disk.data[1536..].iter().all(|b| *b == 0xAB));
    assert_eq!(disk.data.len(), 2048);
    // Past the end nothing moves.
    let mut sector = [7u8; 512];
    assert_eq!(disk.read(&mut sector, 2048, 1), Err(RamDiskError::OutOfRange));
    assert_eq!(sector, [7u8; 512]);
    assert_eq!(disk.write(&[1u8; 1024], 1536, 2), Err(RamDiskError::OutOfRange));
    assert!(disk.data[1536..].iter().all(|b| *b == 0xAB));
    assert_eq!(disk.read(&mut [], u64::MAX - 511, 0), Err(RamDiskError::OutOfRange));
}

#[test]
fn mount_reads_the_geometry() {
    let volume = mount(WIDE.format());
    assert_eq!(volume.bpb.byte_per_sector, 512);
    assert_eq!(&volume.bpb.file_system[..5], b"FAT32");
    assert_eq!(volume.bpb.sector_per_cluster, 2);
    assert_eq!(volume.bpb.reserved_sector, 4);
    assert_eq!(volume.bpb.num_fat, 1);
    assert_eq!(volume.bpb.sector_per_fat, 1);
    assert_eq!(volume.bpb.root_cluster, 2);
    assert_eq!(volume.bpb.total_sector, 29);
    assert_eq!(volume.bpb.id, 0x1234_5678);
    assert_eq!(volume.device.data, WIDE.format());
}

#[test]
fn mount_non_fat32() {
    let mut image = SMALL.format();
    image[0x52..0x5A].copy_from_slice(b"NTFS    ");
    let r = Volume::new(RamDisk::new(image));
    assert_eq!(r.err(), Some(Error::Mount(MountError::NotFat32)));
}

#[test]
fn mount_other_sector_size() {
    let mut image = SMALL.format();
    image[0x0B..0x0D].copy_from_slice(&1024u16.to_le_bytes());
    let r = Volume::new(RamDisk::new(image));
    assert_eq!(r.err(), Some(Error::Mount(MountError::UnsupportedSectorSize)));
}

#[test]
fn mount_hands_on_device_errors() {
    let r = Volume::new(RamDisk::new(vec![0u8; 511]));
    assert_eq!(r.err(), Some(Error::Io(RamDiskError::OutOfRange)));
    let mut watched = Watched::new(SMALL.format());
    watched.reads_allowed = 0;
    assert_eq!(Volume::new(watched).err(), Some(Error::Io(Fault::Refused)));
}

#[test]
fn volume_label_is_text() {
    let volume = mount(SMALL.format());
    assert_eq!(volume.volume_label(), Some("NO NAME    "));
    let mut image = SMALL.format();
    image[0x47..0x52].copy_from_slice("牛逼 disk".as_bytes());
    assert_eq!(mount(image).volume_label(), Some("牛逼 disk"));
    let mut image = SMALL.format();
    image[0x47] = 0xFF;
    assert_eq!(mount(image).volume_label(), None);
}

#[test]
fn root_dir_is_blank_but_for_its_cluster() {
    let mut image = SMALL.format();
    image[0x2C..0x30].copy_from_slice(&5u32.to_le_bytes());
    let volume = mount(image);
    let root = volume.root_dir();
    assert_eq!(root.dir_cluster, 5);
    assert_eq!(root.dir_name, [0u8; 11]);
    assert_eq!(root.create_ms, 0);
    assert_eq!(root.create_time, [0, 0]);
    assert_eq!(root.create_date, [0, 0]);
    assert_eq!(root.visit_date, [0, 0]);
    assert_eq!(root.edit_time, [0, 0]);
    assert_eq!(root.edit_date, [0, 0]);
    assert_eq!(root.length, 0);
    assert_eq!(root.bpb.sector_per_fat, 1);
}

#[test]
fn read_small_ascii_file() {
    let volume = mount(with_abcd(b"12345,Rust-lang-ok!!"));
    let root = volume.root_dir();
    let file = root.file(&volume.device, "abcd.txt").unwrap();
    assert_eq!(file.length, 20);
    assert_eq!(file.file_cluster, 3);
    let mut buf = [0xEEu8; 64];
    assert_eq!(file.read(&volume.device, &mut buf), Ok(20));
    assert_eq!(&buf[0..20], b"12345,Rust-lang-ok!!");
    assert!(buf[20..].iter().all(|b| *b == 0xEE));
}

#[test]
fn file_handle_holds_the_entry() {
    let volume = mount(with_abcd(b"12345,Rust-lang-ok!!"));
    let file = volume.root_dir().file(&volume.device, "ABCD.TXT").unwrap();
    assert_eq!(file.file_name, *b"ABCD\0\0\0\0");
    assert_eq!(file.extension_name, *b"TXT");
    assert_eq!(file.offset, 0);
    assert_eq!(file.dir_cluster, 2);
    assert_eq!(file.create_ms, 7);
    assert_eq!(file.create_time, [0x11, 0x22]);
    assert_eq!(file.create_date, [0x33, 0x44]);
    assert_eq!(file.visit_date, [0x55, 0x66]);
    assert_eq!(file.edit_time, [0x77, 0x88]);
    assert_eq!(file.edit_date, [0x99, 0xAA]);
}

#[test]
fn read_into_exact_and_short_buffers() {
    let volume = mount(with_abcd(b"12345,Rust-lang-ok!!"));
    let file = volume.root_dir().file(&volume.device, "abcd.txt").unwrap();
    let mut exact = [0u8; 20];
    assert_eq!(file.read(&volume.device, &mut exact), Ok(20));
    assert_eq!(&exact, b"12345,Rust-lang-ok!!");
    let mut short = [0xEEu8; 19];
    assert_eq!(
        file.read(&volume.device, &mut short),
        Err(Error::File(FileError::BufTooSmall))
    );
    assert_eq!(short, [0xEEu8; 19]);
}

#[test]
fn read_file_with_multibyte_name() {
    let mut image = SMALL.format();
    SMALL.set_slot(&mut image, 2, 0, &long_entry(0x41, "Rust牛逼.txt"));
    SMALL.set_slot(&mut image, 2, 1, &short_entry(b"RUST~1  TXT", 0x20, 4, 3));
    SMALL.set_entry(&mut image, 4, 0x0FFF_FFFF);
    SMALL.set_content(&mut image, 4, b"moo");
    let volume = mount(image);
    let root = volume.root_dir();
    let file = root.file(&volume.device, "Rust牛逼.txt").unwrap();
    assert_eq!(file.offset, 32);
    assert_eq!(file.file_cluster, 4);
    let mut buf = [0u8; 8];
    assert_eq!(file.read(&volume.device, &mut buf), Ok(3));
    assert_eq!(&buf[..3], b"moo");
    assert_eq!(
        root.file(&volume.device, "rust牛逼.txt").err(),
        Some(Error::Dir(DirError::NotFound))
    );
    assert_eq!(
        root.file(&volume.device, "Rust牛逼.tx").err(),
        Some(Error::Dir(DirError::NotFound))
    );
    assert_eq!(
        root.file(&volume.device, "ust牛逼.txt").err(),
        Some(Error::Dir(DirError::NotFound))
    );
    // The short name of a file with a long name does not lead to it.
    assert_eq!(
        root.file(&volume.device, "rust~1.txt").err(),
        Some(Error::Dir(DirError::NotFound))
    );
}

#[test]
fn long_name_in_two_pieces() {
    let mut image = SMALL.format();
    SMALL.set_slot(&mut image, 2, 0, &short_entry(b"FIRST      ", 0x20, 3, 0));
    SMALL.set_slot(&mut image, 2, 1, &long_entry(0x42, "dat"));
    SMALL.set_slot(&mut image, 2, 2, &long_entry(0x01, "longfilename."));
    SMALL.set_slot(&mut image, 2, 3, &short_entry(b"LONGFI~1DAT", 0x20, 5, 0));
    SMALL.set_slot(&mut image, 2, 4, &long_entry(0x42, "txt"));
    SMALL.set_slot(&mut image, 2, 5, &long_entry(0x01, "longfilename."));
    SMALL.set_slot(&mut image, 2, 6, &short_entry(b"LONGFI~2TXT", 0x20, 6, 0));
    SMALL.set_slot(&mut image, 2, 7, &short_entry(b"LAST       ", 0x20, 7, 0));
    let volume = mount(image);
    let root = volume.root_dir();
    let file = root.file(&volume.device, "longfilename.txt").unwrap();
    assert_eq!((file.offset, file.file_cluster), (6 * 32, 6));
    let file = root.file(&volume.device, "longfilename.dat").unwrap();
    assert_eq!((file.offset, file.file_cluster), (3 * 32, 5));
    let file = root.file(&volume.device, "last").unwrap();
    assert_eq!((file.offset, file.file_cluster), (7 * 32, 7));
    assert_eq!(
        root.file(&volume.device, "longfilename.doc").err(),
        Some(Error::Dir(DirError::NotFound))
    );
    assert_eq!(
        root.file(&volume.device, "filename.txt").err(),
        Some(Error::Dir(DirError::NotFound))
    );
}

#[test]
fn illegal_name_on_create() {
    let mut volume = mount(SMALL.format());
    let root = volume.root_dir();
    let before = volume.device.data.clone();
    assert_eq!(
        root.create_file(&mut volume.device, "a/b"),
        Err(Error::Dir(DirError::IllegalName))
    );
    for name in ["a b", "too_long_", "é", "a*", "Rust牛逼.txt"] {
        assert_eq!(
            root.create_file(&mut volume.device, name),
            Err(Error::Dir(DirError::IllegalName)),
            "{}",
            name
        );
        assert_eq!(
            root.create_dir(&mut volume.device, name),
            Err(Error::Dir(DirError::IllegalName)),
            "{}",
            name
        );
    }
    assert_eq!(volume.device.data, before);
}

#[test]
fn illegal_name_on_lookup() {
    let volume = mount(with_abcd(b"x"));
    let root = volume.root_dir();
    assert_eq!(
        root.file(&volume.device, "ab?d.txt").err(),
        Some(Error::Dir(DirError::IllegalName))
    );
    assert_eq!(
        root.into_dir(&volume.device, "a/b").err(),
        Some(Error::Dir(DirError::IllegalName))
    );
    assert_eq!(
        root.exist(&volume.device, b"a|b").err(),
        Some(Error::Dir(DirError::IllegalName))
    );
}

#[test]
fn no_match_on_empty_root() {
    let volume = mount(SMALL.format());
    let root = volume.root_dir();
    assert_eq!(
        root.into_dir(&volume.device, "absent").err(),
        Some(Error::Dir(DirError::NotFoundDir))
    );
    assert_eq!(
        root.file(&volume.device, "absent").err(),
        Some(Error::Dir(DirError::NotFound))
    );
    assert_eq!(
        root.exist(&volume.device, b"absent").err(),
        Some(Error::Dir(DirError::NotFound))
    );
}

#[test]
fn create_then_open() {
    let mut volume = mount(SMALL.format());
    let root = volume.root_dir();
    assert_eq!(root.create_file(&mut volume.device, "HELLO"), Ok(()));
    let file = root.file(&volume.device, "hello").unwrap();
    assert_eq!(file.length, 0);
    assert_eq!(file.file_cluster, 3);
    assert_eq!(file.offset, 0);
    assert_eq!(file.file_name, *b"HELLO\0\0\0");
    let mut buf = [0u8; 4];
    assert_eq!(file.read(&volume.device, &mut buf), Ok(0));
}

#[test]
fn create_writes_one_entry_and_one_table_entry() {
    let mut volume = mount(with_abcd(b"12345"));
    let root = volume.root_dir();
    let before = volume.device.data.clone();
    let free = find_free(&volume.device, &volume.bpb).unwrap();
    assert_eq!(free, 4);
    assert_eq!(root.create_file(&mut volume.device, "new.txt"), Ok(()));
    let mut expected = before.clone();
    SMALL.set_entry(&mut expected, 4, 0x0FFF_FFFF);
    let mut entry = [0u8; 32];
    entry[0..11].copy_from_slice(b"NEW.TXT    ");
    entry[0x0B] = 0x20;
    entry[0x0C] = 0x18;
    entry[0x1A] = 4;
    SMALL.set_slot(&mut expected, 2, 1, &entry);
    assert_eq!(volume.device.data, expected);
    let file = root.file(&volume.device, "NEW.TXT").unwrap();
    assert_eq!((file.file_cluster, file.length, file.offset), (free, 0, 32));
    // The second table is left alone.
    assert_eq!(&volume.device.data[3 * 512..4 * 512], &before[3 * 512..4 * 512]);
}

#[test]
fn create_dir_then_enter() {
    let mut volume = mount(SMALL.format());
    let root = volume.root_dir();
    assert_eq!(root.create_dir(&mut volume.device, "sub"), Ok(()));
    let at = SMALL.cluster_at(2);
    assert_eq!(&volume.device.data[at..at + 11], b"SUB        ");
    assert_eq!(volume.device.data[at + 0x0B], 0x10);
    let sub = root.into_dir(&volume.device, "Sub").unwrap();
    assert_eq!(sub.dir_cluster, 3);
    assert_eq!(sub.dir_name, *b"SUB        ");
    assert_eq!(sub.length, 0);
    assert_eq!(
        sub.into_dir(&volume.device, "deeper").err(),
        Some(Error::Dir(DirError::NotFoundDir))
    );
    assert_eq!(sub.create_file(&mut volume.device, "inner"), Ok(()));
    let inner = sub.file(&volume.device, "INNER").unwrap();
    assert_eq!((inner.file_cluster, inner.dir_cluster, inner.offset), (4, 3, 0));
    assert_eq!(
        root.file(&volume.device, "inner").err(),
        Some(Error::Dir(DirError::NotFound))
    );
}

#[test]
fn directory_and_file_are_told_apart() {
    let mut image = with_abcd(b"12345");
    SMALL.set_slot(&mut image, 2, 1, &short_entry(b"SUB        ", 0x10, 5, 0));
    SMALL.set_slot(&mut image, 2, 2, &short_entry(b"LABEL      ", 0x08, 0, 0));
    SMALL.set_slot(&mut image, 2, 3, &short_entry(b"PLAIN      ", 0x00, 6, 1));
    SMALL.set_slot(&mut image, 2, 4, &short_entry(b"LOCKED     ", 0x21, 7, 1));
    let volume = mount(image);
    let root = volume.root_dir();
    assert_eq!(
        root.into_dir(&volume.device, "abcd.txt").err(),
        Some(Error::Dir(DirError::NotFoundDir))
    );
    assert_eq!(
        root.file(&volume.device, "sub").err(),
        Some(Error::Dir(DirError::NotFoundFile))
    );
    assert_eq!(
        root.file(&volume.device, "label").err(),
        Some(Error::Dir(DirError::NotFoundFile))
    );
    assert_eq!(
        root.into_dir(&volume.device, "label").err(),
        Some(Error::Dir(DirError::NotFoundDir))
    );
    let sub = root.into_dir(&volume.device, "sub").unwrap();
    assert_eq!(sub.dir_cluster, 5);
    assert_eq!(sub.create_ms, 7);
    assert_eq!(sub.create_time, [0x11, 0x22]);
    assert_eq!(sub.create_date, [0x33, 0x44]);
    assert_eq!(sub.visit_date, [0x55, 0x66]);
    assert_eq!(sub.edit_time, [0x77, 0x88]);
    assert_eq!(sub.edit_date, [0x99, 0xAA]);
    assert_eq!(root.file(&volume.device, "plain").unwrap().file_cluster, 6);
    assert_eq!(root.file(&volume.device, "locked").unwrap().file_cluster, 7);
}

#[test]
fn scan_stops_at_end_mark() {
    let mut image = SMALL.format();
    // Slot 0 is an end mark; what lies behind it is never looked at.
    SMALL.set_slot(&mut image, 2, 1, &short_entry(b"ABCD    TXT", 0x20, 3, 1));
    let mut watched = Watched::new(image);
    watched.reads_allowed = 3;
    let volume = Volume::new(watched).unwrap();
    let root = volume.root_dir();
    assert_eq!(
        root.exist(&volume.device, b"abcd.txt").err(),
        Some(Error::Dir(DirError::NotFound))
    );
    // The boot sector, one sector of the table, one sector of the directory.
    assert_eq!(volume.device.reads.get(), 3);
}

#[test]
fn scan_skips_deleted_slots() {
    let mut image = SMALL.format();
    let mut gone = short_entry(b"ABCD    TXT", 0x20, 9, 1);
    gone[0] = 0xE5;
    let mut gone_piece = long_entry(0x45, "abcd.txt");
    gone_piece[0] = 0xE5;
    SMALL.set_slot(&mut image, 2, 0, &gone);
    SMALL.set_slot(&mut image, 2, 1, &gone_piece);
    SMALL.set_slot(&mut image, 2, 2, &short_entry(b"ABCD    TXT", 0x20, 3, 1));
    // A deleted entry between a long name and its short entry.
    SMALL.set_slot(&mut image, 2, 3, &long_entry(0x41, "Rust牛逼.txt"));
    SMALL.set_slot(&mut image, 2, 4, &gone);
    SMALL.set_slot(&mut image, 2, 5, &short_entry(b"RUST~1  TXT", 0x20, 4, 1));
    let volume = mount(image);
    let root = volume.root_dir();
    let (entry, offset) = root.exist(&volume.device, b"abcd.txt").unwrap();
    assert_eq!(offset, 64);
    assert_eq!(entry, short_entry(b"ABCD    TXT", 0x20, 3, 1));
    let (entry, offset) = root.exist(&volume.device, "Rust牛逼.txt".as_bytes()).unwrap();
    assert_eq!(offset, 5 * 32);
    assert_eq!(entry, short_entry(b"RUST~1  TXT", 0x20, 4, 1));
}

#[test]
fn scan_follows_the_chain_of_the_directory() {
    let mut image = WIDE.format();
    WIDE.set_entry(&mut image, 2, 7);
    WIDE.set_entry(&mut image, 7, 4);
    WIDE.set_entry(&mut image, 4, 0x0FFF_FFF8);
    let filler = short_entry(b"FILLER     ", 0x20, 0, 0);
    for cluster in [2u32, 7, 4] {
        for slot in 0..32 {
            WIDE.set_slot(&mut image, cluster, slot, &filler);
        }
    }
    WIDE.set_slot(&mut image, 7, 17, &short_entry(b"MIDDLE     ", 0x20, 9, 1));
    WIDE.set_slot(&mut image, 4, 31, &short_entry(b"LAST       ", 0x20, 10, 1));
    let mut volume = mount(image);
    let root = volume.root_dir();
    let (_, offset) = root.exist(&volume.device, b"middle").unwrap();
    assert_eq!(offset, (32 + 17) * 32);
    let (entry, offset) = root.exist(&volume.device, b"last").unwrap();
    assert_eq!(offset, (64 + 31) * 32);
    assert_eq!(entry, short_entry(b"LAST       ", 0x20, 10, 1));
    assert_eq!(
        root.exist(&volume.device, b"absent").err(),
        Some(Error::Dir(DirError::NotFound))
    );
    // The directory is full: there is no blank slot for a new entry.
    let before = volume.device.data.clone();
    assert_eq!(
        root.get_blank_place(&volume.device).err(),
        Some(Error::Fat(FatError::NoSpace))
    );
    assert_eq!(
        root.create_file(&mut volume.device, "more"),
        Err(Error::Fat(FatError::NoSpace))
    );
    assert_eq!(volume.device.data, before);
}

#[test]
fn blank_place_in_a_later_cluster() {
    let mut image = WIDE.format();
    WIDE.set_entry(&mut image, 2, 7);
    WIDE.set_entry(&mut image, 7, 0x0FFF_FFFF);
    let filler = short_entry(b"FILLER     ", 0x20, 0, 0);
    for slot in 0..32 {
        WIDE.set_slot(&mut image, 2, slot, &filler);
    }
    for slot in 0..19 {
        WIDE.set_slot(&mut image, 7, slot, &filler);
    }
    let mut volume = mount(image);
    let root = volume.root_dir();
    let place = root.get_blank_place(&volume.device).unwrap();
    assert_eq!(
        place,
        Place { slot: 51, sector: (WIDE.cluster_at(7) + 512) as u64, within: 3 }
    );
    assert_eq!(root.create(&mut volume.device, b"late", CreateType::File), Ok(()));
    let at = WIDE.cluster_at(7) + 19 * 32;
    assert_eq!(&volume.device.data[at..at + 11], b"LATE       ");
    let file = root.file(&volume.device, "late").unwrap();
    assert_eq!((file.offset, file.file_cluster), (51 * 32, 3));
}

#[test]
fn find_free_takes_the_lowest_free_entry() {
    let mut image = SMALL.format();
    for cluster in 3..40 {
        SMALL.set_entry(&mut image, cluster, 0x0FFF_FFFF);
    }
    SMALL.set_entry(&mut image, 17, 0);
    SMALL.set_entry(&mut image, 29, 0);
    let bpb = bpb_of(&image);
    let disk = RamDisk::new(image.clone());
    assert_eq!(find_free(&disk, &bpb), Ok(17));
    SMALL.set_entry(&mut image, 17, 0xF000_0000);
    assert_eq!(find_free(&RamDisk::new(image.clone()), &bpb), Ok(29));
    SMALL.set_entry(&mut image, 29, 1);
    assert_eq!(find_free(&RamDisk::new(image.clone()), &bpb), Ok(40));
    // Entries 0 and 1 stand for no cluster, free or not.
    SMALL.set_entry(&mut image, 0, 0);
    SMALL.set_entry(&mut image, 1, 0);
    assert_eq!(find_free(&RamDisk::new(image), &bpb), Ok(40));
}

#[test]
fn find_free_in_a_later_sector_of_the_table() {
    let layout = Layout { per_cluster: 1, reserved: 1, tables: 1, per_table: 3, clusters: 4 };
    let mut image = layout.format();
    for cluster in 3..300 {
        layout.set_entry(&mut image, cluster, cluster + 1);
    }
    let bpb = bpb_of(&image);
    assert_eq!(find_free(&RamDisk::new(image.clone()), &bpb), Ok(300));
    for cluster in 300..384 {
        layout.set_entry(&mut image, cluster, 0x0FFF_FFF7);
    }
    assert_eq!(
        find_free(&RamDisk::new(image.clone()), &bpb),
        Err(Error::Fat(FatError::NoSpace))
    );
    layout.set_entry(&mut image, 383, 0);
    assert_eq!(find_free(&RamDisk::new(image), &bpb), Ok(383));
}

#[test]
fn create_without_a_free_cluster() {
    let mut image = SMALL.format();
    for cluster in 3..128 {
        SMALL.set_entry(&mut image, cluster, 0x0FFF_FFFF);
    }
    let mut volume = mount(image.clone());
    let root = volume.root_dir();
    assert_eq!(
        root.create_file(&mut volume.device, "hello"),
        Err(Error::Fat(FatError::NoSpace))
    );
    assert_eq!(volume.device.data, image);
}

#[test]
fn next_names_the_following_cluster() {
    let mut image = SMALL.format();
    SMALL.set_entry(&mut image, 3, 9);
    SMALL.set_entry(&mut image, 4, 0xF000_0005);
    SMALL.set_entry(&mut image, 5, 0x0FFF_FFF6);
    SMALL.set_entry(&mut image, 6, 0x0FFF_FFF7);
    SMALL.set_entry(&mut image, 7, 0x0FFF_FFF8);
    SMALL.set_entry(&mut image, 8, 1);
    let bpb = bpb_of(&image);
    let disk = RamDisk::new(image);
    assert_eq!(next(&disk, &bpb, 3), Ok(Some(9)));
    assert_eq!(next(&disk, &bpb, 4), Ok(Some(5)));
    assert_eq!(next(&disk, &bpb, 5), Ok(Some(0x0FFF_FFF6)));
    assert_eq!(next(&disk, &bpb, 6), Ok(None));
    assert_eq!(next(&disk, &bpb, 7), Ok(None));
    assert_eq!(next(&disk, &bpb, 8), Ok(None));
    assert_eq!(next(&disk, &bpb, 2), Ok(None));
    assert_eq!(next(&disk, &bpb, 10), Ok(None));
    // Numbers without an entry in the table.
    assert_eq!(next(&disk, &bpb, 0), Ok(None));
    assert_eq!(next(&disk, &bpb, 1), Ok(None));
    assert_eq!(next(&disk, &bpb, 128), Ok(None));
    assert_eq!(next(&disk, &bpb, u32::MAX), Ok(None));
    assert_eq!(read_entry(&disk, &bpb, 4), Ok(0xF000_0005));
    assert_eq!(read_entry(&disk, &bpb, 0), Ok(0x0FFF_FFF8));
}

#[test]
fn entry_successor_bounds() {
    assert_eq!(entry_successor(0), None);
    assert_eq!(entry_successor(1), None);
    assert_eq!(entry_successor(2), Some(2));
    assert_eq!(entry_successor(0x0FFF_FFF6), Some(0x0FFF_FFF6));
    assert_eq!(entry_successor(0x0FFF_FFF7), None);
    assert_eq!(entry_successor(0x0FFF_FFFF), None);
    assert_eq!(entry_successor(0x1000_0000), None);
    assert_eq!(entry_successor(0xF000_0002), Some(2));
    assert_eq!(entry_successor(0xFFFF_FFFF), None);
}

#[test]
fn edit_keeps_the_reserved_bits() {
    let mut image = SMALL.format();
    SMALL.set_entry(&mut image, 3, 0xA000_0000);
    SMALL.set_entry(&mut image, 100, 0x0000_0009);
    let bpb = bpb_of(&image);
    let mut disk = RamDisk::new(image.clone());
    assert_eq!(edit(&mut disk, &bpb, 3, 0x1234_5678), Ok(()));
    assert_eq!(SMALL.entry(&disk.data, 3), 0xA234_5678);
    assert_eq!(edit(&mut disk, &bpb, 100, 0xFFFF_FFFF), Ok(()));
    assert_eq!(SMALL.entry(&disk.data, 100), 0x0FFF_FFFF);
    let mut expected = image;
    SMALL.set_entry(&mut expected, 3, 0xA234_5678);
    SMALL.set_entry(&mut expected, 100, 0x0FFF_FFFF);
    assert_eq!(disk.data, expected);
}

#[test]
fn walk_gives_the_chain_and_restarts() {
    let mut image = SMALL.format();
    SMALL.set_entry(&mut image, 5, 9);
    SMALL.set_entry(&mut image, 9, 3);
    SMALL.set_entry(&mut image, 3, 0x0FFF_FFFF);
    let bpb = bpb_of(&image);
    let disk = RamDisk::new(image);
    let mut walk = FAT::new(&bpb, 5);
    let mut seen = Vec::new();
    while let Some(cluster) = walk.next_cluster(&disk).unwrap() {
        seen.push(cluster);
    }
    assert_eq!(seen, vec![5, 9, 3]);
    assert_eq!(walk.next_cluster(&disk), Ok(None));
    walk.restart();
    assert_eq!(walk.next_cluster(&disk), Ok(Some(5)));
    assert_eq!(walk.next_cluster(&disk), Ok(Some(9)));
    // A chain that starts at a free cluster has that one cluster.
    let mut walk = FAT::new(&bpb, 12);
    assert_eq!(walk.next_cluster(&disk), Ok(Some(12)));
    assert_eq!(walk.next_cluster(&disk), Ok(None));
    // One that starts outside the table has none.
    for start in [0u32, 1, 128, 0x0FFF_FFF8] {
        assert_eq!(FAT::new(&bpb, start).next_cluster(&disk), Ok(None));
    }
}

#[test]
fn walk_of_a_circular_chain_ends() {
    let mut image = SMALL.format();
    SMALL.set_entry(&mut image, 3, 4);
    SMALL.set_entry(&mut image, 4, 5);
    SMALL.set_entry(&mut image, 5, 3);
    let bpb = bpb_of(&image);
    let disk = RamDisk::new(image.clone());
    let mut walk = FAT::new(&bpb, 3);
    let mut seen = Vec::new();
    while let Some(cluster) = walk.next_cluster(&disk).unwrap() {
        seen.push(cluster);
    }
    // As many clusters as the table has entries, and no more.
    assert_eq!(seen.len(), 128);
    assert_eq!(&seen[..7], &[3, 4, 5, 3, 4, 5, 3]);
    // A lookup in a directory that runs in a circle ends too.
    let filler = short_entry(b"FILLER     ", 0x20, 0, 0);
    for cluster in [3u32, 4, 5] {
        for slot in 0..16 {
            SMALL.set_slot(&mut image, cluster, slot, &filler);
        }
    }
    let dir = dir_at(&image, 3);
    assert_eq!(
        dir.exist(&RamDisk::new(image), b"absent").err(),
        Some(Error::Dir(DirError::NotFound))
    );
}

#[test]
fn sector_walk_gives_sectors_in_chain_order() {
    let mut image = WIDE.format();
    WIDE.set_entry(&mut image, 6, 3);
    WIDE.set_entry(&mut image, 3, 0x0FFF_FFFF);
    for cluster in [6u32, 3] {
        let fill: Vec<u8> = (0..1024).map(|i| (cluster as usize * 16 + i / 512) as u8).collect();
        WIDE.set_content(&mut image, cluster, &fill);
    }
    let bpb = bpb_of(&image);
    let disk = RamDisk::new(image);
    let mut walk = SectorWalk::new(&bpb, 6);
    let mut seen = Vec::new();
    while let Some((sector, address)) = walk.next_sector(&disk).unwrap() {
        assert!(sector.iter().all(|b| *b == sector[0]));
        seen.push((sector[0], address));
    }
    let six = WIDE.cluster_at(6) as u64;
    let three = WIDE.cluster_at(3) as u64;
    assert_eq!(seen, vec![(96, six), (97, six + 512), (48, three), (49, three + 512)]);
    assert_eq!(walk.index, 4);
}

#[test]
fn read_file_of_several_clusters() {
    let mut image = WIDE.format();
    let content: Vec<u8> = (0..2600u32).map(|i| (i * 7 % 253) as u8).collect();
    WIDE.set_slot(&mut image, 2, 0, &short_entry(b"BIG     BIN", 0x20, 9, 2600));
    WIDE.set_entry(&mut image, 9, 4);
    WIDE.set_entry(&mut image, 4, 11);
    WIDE.set_entry(&mut image, 11, 0x0FFF_FFF8);
    WIDE.set_content(&mut image, 9, &content[..1024]);
    WIDE.set_content(&mut image, 4, &content[1024..2048]);
    WIDE.set_content(&mut image, 11, &content[2048..]);
    let volume = Volume::new(Watched::new(image)).unwrap();
    let file = volume.root_dir().file(&volume.device, "big.bin").unwrap();
    let before = (volume.device.reads.get(), volume.device.blocks.get());
    let mut buf = vec![0xEEu8; 3000];
    assert_eq!(file.read(&volume.device, &mut buf), Ok(2600));
    assert_eq!(&buf[..2600], &content[..]);
    assert!(buf[2600..].iter().all(|b| *b == 0xEE));
    // Three looks at the table, two whole clusters, and two sectors of the
    // third cluster, of which the file fills 552 bytes.
    assert_eq!(volume.device.reads.get() - before.0, 3 + 2 + 2);
    assert_eq!(volume.device.blocks.get() - before.1, 3 + 4 + 2);
}

#[test]
fn read_ends_inside_the_first_sector_of_a_cluster() {
    let mut image = WIDE.format();
    let content: Vec<u8> = (0..1025u32).map(|i| (i * 3 % 251) as u8).collect();
    WIDE.set_slot(&mut image, 2, 0, &short_entry(b"ODD     BIN", 0x20, 3, 1025));
    WIDE.set_entry(&mut image, 3, 8);
    WIDE.set_entry(&mut image, 8, 0x0FFF_FFFF);
    WIDE.set_content(&mut image, 3, &content[..1024]);
    WIDE.set_content(&mut image, 8, &[content[1024], 0x77, 0x77]);
    let volume = mount(image);
    let file = volume.root_dir().file(&volume.device, "odd.bin").unwrap();
    let mut buf = vec![0xEEu8; 1025];
    assert_eq!(file.read(&volume.device, &mut buf), Ok(1025));
    assert_eq!(buf, content);
}

#[test]
fn read_file_of_exactly_one_cluster() {
    let mut image = WIDE.format();
    let content: Vec<u8> = (0..1024u32).map(|i| (i % 199) as u8).collect();
    WIDE.set_slot(&mut image, 2, 0, &short_entry(b"ONE     BIN", 0x20, 5, 1024));
    // The chain goes on, but the file does not.
    WIDE.set_entry(&mut image, 5, 6);
    WIDE.set_entry(&mut image, 6, 0x0FFF_FFFF);
    WIDE.set_content(&mut image, 5, &content);
    WIDE.set_content(&mut image, 6, &[0x55; 1024]);
    let volume = Volume::new(Watched::new(image)).unwrap();
    let file = volume.root_dir().file(&volume.device, "one.bin").unwrap();
    let before = (volume.device.reads.get(), volume.device.blocks.get());
    let mut buf = vec![0xEEu8; 1030];
    assert_eq!(file.read(&volume.device, &mut buf), Ok(1024));
    assert_eq!(&buf[..1024], &content[..]);
    assert_eq!(&buf[1024..], &[0xEE; 6]);
    // One look at the table for the cluster, and the cluster in one transfer.
    assert_eq!(volume.device.reads.get() - before.0, 2);
    assert_eq!(volume.device.blocks.get() - before.1, 3);
}

#[test]
fn read_file_of_length_zero() {
    let mut image = SMALL.format();
    SMALL.set_slot(&mut image, 2, 0, &short_entry(b"EMPTY      ", 0x20, 3, 0));
    SMALL.set_entry(&mut image, 3, 0x0FFF_FFFF);
    let volume = Volume::new(Watched::new(image)).unwrap();
    let file = volume.root_dir().file(&volume.device, "empty").unwrap();
    let before = volume.device.reads.get();
    let mut buf = [0xEEu8; 16];
    assert_eq!(file.read(&volume.device, &mut buf), Ok(0));
    assert_eq!(buf, [0xEEu8; 16]);
    let mut none: [u8; 0] = [];
    assert_eq!(file.read(&volume.device, &mut none), Ok(0));
    assert_eq!(volume.device.reads.get(), before);
}

#[test]
fn read_stops_where_the_chain_ends() {
    let mut image = SMALL.format();
    SMALL.set_slot(&mut image, 2, 0, &short_entry(b"CUT     BIN", 0x20, 3, 2000));
    SMALL.set_entry(&mut image, 3, 4);
    SMALL.set_entry(&mut image, 4, 0x0FFF_FFFF);
    SMALL.set_content(&mut image, 3, &[1u8; 512]);
    SMALL.set_content(&mut image, 4, &[2u8; 512]);
    let volume = mount(image);
    let file = volume.root_dir().file(&volume.device, "cut.bin").unwrap();
    let mut buf = vec![0xEEu8; 2000];
    assert_eq!(file.read(&volume.device, &mut buf), Ok(1024));
    assert!(buf[..512].iter().all(|b| *b == 1));
    assert!(buf[512..1024].iter().all(|b| *b == 2));
    assert!(buf[1024..].iter().all(|b| *b == 0xEE));
}

#[test]
fn device_errors_are_handed_on() {
    let image = with_abcd(b"12345,Rust-lang-ok!!");
    let mut watched = Watched::new(image.clone());
    watched.reads_allowed = 1;
    let volume = Volume::new(watched).unwrap();
    let root = volume.root_dir();
    assert_eq!(root.file(&volume.device, "abcd.txt").err(), Some(Error::Io(Fault::Refused)));
    assert_eq!(root.into_dir(&volume.device, "abcd").err(), Some(Error::Io(Fault::Refused)));
    assert_eq!(root.get_blank_place(&volume.device).err(), Some(Error::Io(Fault::Refused)));
    assert_eq!(find_free(&volume.device, &volume.bpb), Err(Error::Io(Fault::Refused)));
    assert_eq!(next(&volume.device, &volume.bpb, 3), Err(Error::Io(Fault::Refused)));

    // A file whose cluster lies behind the end of the device.
    let mut image = image;
    SMALL.set_slot(&mut image, 2, 0, &short_entry(b"ABCD    TXT", 0x20, 100, 20));
    let volume = mount(image);
    let file = volume.root_dir().file(&volume.device, "abcd.txt").unwrap();
    let mut buf = [0xEEu8; 32];
    assert_eq!(
        file.read(&volume.device, &mut buf),
        Err(Error::Io(RamDiskError::OutOfRange))
    );
    assert_eq!(&buf[20..], &[0xEEu8; 12]);
}

#[test]
fn create_hands_on_write_errors() {
    let mut watched = Watched::new(SMALL.format());
    watched.writes_allowed = 0;
    let mut volume = Volume::new(watched).unwrap();
    let root = volume.root_dir();
    assert_eq!(
        root.create_file(&mut volume.device, "hello"),
        Err(Error::Io(Fault::Refused))
    );
    assert_eq!(volume.device.disk.data, SMALL.format());
    // The table is written first: a failure of the second write leaves a
    // cluster that no entry names, and no entry without a cluster.
    volume.device.writes_allowed = 1;
    assert_eq!(
        root.create_file(&mut volume.device, "hello"),
        Err(Error::Io(Fault::Refused))
    );
    let mut expected = SMALL.format();
    SMALL.set_entry(&mut expected, 3, 0x0FFF_FFFF);
    assert_eq!(volume.device.disk.data, expected);
}

#[test]
fn second_create_takes_the_next_slot_and_cluster() {
    let mut volume = mount(SMALL.format());
    let root = volume.root_dir();
    for (i, name) in ["one", "two", "three"].iter().enumerate() {
        let free = find_free(&volume.device, &volume.bpb).unwrap();
        assert_eq!(free, 3 + i as u32);
        assert_eq!(root.create_file(&mut volume.device, name), Ok(()));
        let file = root.file(&volume.device, name).unwrap();
        assert_eq!((file.file_cluster, file.offset, file.length), (free, 32 * i as u64, 0));
    }
    // A second entry of the same name is made, and the first one is found.
    assert_eq!(root.create_file(&mut volume.device, "TWO"), Ok(()));
    assert_eq!(root.file(&volume.device, "two").unwrap().file_cluster, 4);
}
