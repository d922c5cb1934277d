//! Repair against a corpus of damaged volumes.
//!
//! Every case is a torn update: a FAT sector or a directory entry that was only half written when the power went. For
//! every case, repairing the damaged image must produce the expected image byte for byte, outside the ranges the case
//! declares it does not care about.

use fat_repair::boot::FatType;
use fat_repair::error::Error;
use fat_repair::fs::{FileSystem, FsStatusFlags};
use fat_repair::mode::RepairMode;
use fat_repair::scratch::{scratch_size_for_depth, RepairScratch};
use fat_repair::stats::RepairStats;
use fat_repair::storage::{MemDisk, Storage};

use std::ops::Range;

const DEPTH: usize = 8;

const FAT_FREE: u32 = 0;
const FAT_EOC: u32 = 0x0FFF_FFFF;
const ATTR_VOLUME: u8 = 0x08;
const ATTR_DIR: u8 = 0x10;
const ATTR_ARCHIVE: u8 = 0x20;
const ATTR_LFN: u8 = 0x0F;

const BYTES_PER_SECTOR: u32 = 512;
const RESERVED: u32 = 32;
const NUM_FATS: u32 = 2;
const CLUSTERS: u32 = 65_600;
const SECTORS_PER_FAT: u32 = ((CLUSTERS + 2) * 4 + 511) / 512;
const FS_INFO: u32 = 1;
const LONG_NAME_SFN: &str = "SENSOR~1.TXT";

const FILES: [(&str, usize); 5] = [
    ("BOOT.BIN", 1536),
    ("LOG.TXT", 512),
    ("EMPTY.TXT", 0),
    ("DATA/READINGS.CSV", 1000),
    ("DATA/sensor readings.txt", 200),
];

// -- a byte-level view of an image ---------------------------------------------

#[derive(Clone)]
struct Image {
    data: Vec<u8>,
}

fn pad_sfn(name: &str) -> [u8; 11] {
    let mut out = [b' '; 11];
    if name == "." || name == ".." {
        out[..name.len()].copy_from_slice(name.as_bytes());
        return out;
    }
    let (base, ext) = match name.rsplit_once('.') {
        Some((base, ext)) => (base, ext),
        None => (name, ""),
    };
    out[..base.len()].copy_from_slice(base.as_bytes());
    out[8..8 + ext.len()].copy_from_slice(ext.as_bytes());
    out
}

fn checksum(name: &[u8; 11]) -> u8 {
    name.iter().fold(0_u8, |sum, &b| sum.rotate_right(1).wrapping_add(b))
}

fn entry(name: &[u8; 11], attrs: u8, cluster: u32, size: u32) -> [u8; 32] {
    let mut e = [0_u8; 32];
    e[..11].copy_from_slice(name);
    e[11] = attrs;
    e[20..22].copy_from_slice(&((cluster >> 16) as u16).to_le_bytes());
    e[26..28].copy_from_slice(&(cluster as u16).to_le_bytes());
    e[28..32].copy_from_slice(&size.to_le_bytes());
    e
}

/// The entries of a long name, in the order they are stored.
fn lfn_entries(name: &str, sum: u8) -> Vec<[u8; 32]> {
    let utf16: Vec<u16> = name.encode_utf16().chain(core::iter::once(0)).collect();
    let n = utf16.len().div_ceil(13);
    let mut out = Vec::new();
    for i in (0..n).rev() {
        let mut e = [0xFF_u8; 32];
        e[0] = (i as u8 + 1) | if i + 1 == n { 0x40 } else { 0 };
        e[11] = ATTR_LFN;
        e[12] = 0;
        e[13] = sum;
        e[26] = 0;
        e[27] = 0;
        let places = [1_usize, 3, 5, 7, 9, 14, 16, 18, 20, 22, 24, 28, 30];
        for (j, &dst) in places.iter().enumerate() {
            let ch = utf16.get(i * 13 + j).copied().unwrap_or(0xFFFF);
            e[dst..dst + 2].copy_from_slice(&ch.to_le_bytes());
        }
        out.push(e);
    }
    out
}

fn file_content(path: &str, len: usize) -> Vec<u8> {
    let mut state = path.bytes().fold(0x811C_9DC5_u32, |h, b| (h ^ u32::from(b)).wrapping_mul(0x0100_0193));
    (0..len)
        .map(|_| {
            state = state.wrapping_mul(1_664_525).wrapping_add(1_013_904_223);
            (state >> 24) as u8
        })
        .collect()
}

impl Image {
    fn read(&self, at: u64, len: usize) -> &[u8] {
        &self.data[at as usize..at as usize + len]
    }

    fn write(&mut self, at: u64, bytes: &[u8]) {
        self.data[at as usize..at as usize + bytes.len()].copy_from_slice(bytes);
    }

    fn read_u32(&self, at: u64) -> u32 {
        let b = self.read(at, 4);
        u32::from_le_bytes([b[0], b[1], b[2], b[3]])
    }

    fn write_u32(&mut self, at: u64, x: u32) {
        self.write(at, &x.to_le_bytes());
    }

    fn fat_offset(&self, fat: u32) -> u64 {
        u64::from((RESERVED + fat * SECTORS_PER_FAT) * BYTES_PER_SECTOR)
    }

    fn fat_entry_offset(&self, fat: u32, cluster: u32) -> u64 {
        self.fat_offset(fat) + u64::from(cluster) * 4
    }

    fn data_offset(&self) -> u64 {
        self.fat_offset(NUM_FATS)
    }

    fn cluster_offset(&self, cluster: u32) -> u64 {
        self.data_offset() + u64::from(cluster - 2) * u64::from(self.bytes_per_cluster())
    }

    fn bytes_per_cluster(&self) -> u32 {
        BYTES_PER_SECTOR
    }

    fn max_valid_cluster(&self) -> u32 {
        CLUSTERS + 1
    }

    fn root_cluster(&self) -> u32 {
        2
    }

    fn fs_info_offset(&self) -> u64 {
        u64::from(FS_INFO * BYTES_PER_SECTOR)
    }

    fn fsinfo_range(&self) -> Range<u64> {
        self.fs_info_offset()..self.fs_info_offset() + 512
    }

    fn fat_get(&self, fat: u32, cluster: u32) -> u32 {
        self.read_u32(self.fat_entry_offset(fat, cluster)) & 0x0FFF_FFFF
    }

    fn fat_set(&mut self, fat: u32, cluster: u32, value: u32) {
        let at = self.fat_entry_offset(fat, cluster);
        let raw = self.read_u32(at);
        self.write_u32(at, (raw & 0xF000_0000) | value);
    }

    fn fat_set_all(&mut self, cluster: u32, value: u32) {
        for fat in 0..NUM_FATS {
            self.fat_set(fat, cluster, value);
        }
    }

    fn chain(&self, first: u32) -> Vec<u32> {
        let mut out = Vec::new();
        let mut c = first;
        while c >= 2 && c <= self.max_valid_cluster() && out.len() <= CLUSTERS as usize {
            out.push(c);
            let next = self.fat_get(0, c);
            if next < 2 || next >= 0x0FFF_FFF7 {
                break;
            }
            c = next;
        }
        out
    }

    /// The device offset of every slot of a directory.
    fn slots(&self, dir: u32) -> Vec<u64> {
        self.chain(dir)
            .into_iter()
            .flat_map(|c| {
                let at = self.cluster_offset(c);
                (0..u64::from(self.bytes_per_cluster()) / 32).map(move |i| at + i * 32)
            })
            .collect()
    }

    fn first_unused_slot(&self, dir: u32) -> u64 {
        *self.slots(dir).iter().find(|&&at| self.read(at, 1)[0] == 0).expect("no unused slot")
    }

    fn find_sfn(&self, dir: u32, name: &str) -> Option<u64> {
        let want = pad_sfn(name);
        self.slots(dir)
            .into_iter()
            .take_while(|&at| self.read(at, 1)[0] != 0)
            .find(|&at| self.read(at, 11) == want && self.read(at + 11, 1)[0] & ATTR_LFN != ATTR_LFN)
    }

    fn sfn(&self, dir: u32, name: &str) -> u64 {
        self.find_sfn(dir, name).unwrap_or_else(|| panic!("no {} in {}", name, dir))
    }

    /// The long-name entries in front of a short-name one.
    fn lfn_run(&self, dir: u32, sfn: u64) -> Vec<u64> {
        let slots = self.slots(dir);
        let at = slots.iter().position(|&s| s == sfn).expect("not a slot");
        let mut out = Vec::new();
        for &s in slots[..at].iter().rev() {
            let e = self.read(s, 32);
            if e[0] == 0xE5 || e[11] & ATTR_LFN != ATTR_LFN {
                break;
            }
            out.push(s);
        }
        out.reverse();
        out
    }

    fn entry_first_cluster(&self, at: u64) -> u32 {
        let e = self.read(at, 32);
        u32::from(u16::from_le_bytes([e[26], e[27]])) | u32::from(u16::from_le_bytes([e[20], e[21]])) << 16
    }

    fn set_entry_first_cluster(&mut self, at: u64, c: u32) {
        self.write(at + 20, &((c >> 16) as u16).to_le_bytes());
        self.write(at + 26, &(c as u16).to_le_bytes());
    }

    fn entry_size(&self, at: u64) -> u32 {
        self.read_u32(at + 28)
    }

    fn set_entry_size(&mut self, at: u64, size: u32) {
        self.write_u32(at + 28, size);
    }

    fn delete_entry(&mut self, at: u64) {
        self.write(at, &[0xE5]);
    }

    fn dir_cluster(&self, path: &str) -> u32 {
        let mut c = self.root_cluster();
        for part in path.split('/').filter(|p| !p.is_empty()) {
            c = self.entry_first_cluster(self.sfn(c, part));
        }
        c
    }

    fn free_clusters(&self, from: u32, n: usize) -> Vec<u32> {
        (from..=self.max_valid_cluster()).filter(|&c| self.fat_get(0, c) == 0).take(n).collect()
    }

    fn count_free_clusters(&self) -> u32 {
        (2..=self.max_valid_cluster()).filter(|&c| self.fat_get(0, c) == 0).count() as u32
    }

    fn fsinfo_free_count(&self) -> u32 {
        self.read_u32(self.fs_info_offset() + 488)
    }

    fn set_fsinfo_free_count(&mut self, n: u32) {
        let at = self.fs_info_offset() + 488;
        self.write_u32(at, n);
    }

    fn fsinfo_next_free(&self) -> u32 {
        self.read_u32(self.fs_info_offset() + 492)
    }

    fn set_fsinfo_next_free(&mut self, c: u32) {
        let at = self.fs_info_offset() + 492;
        self.write_u32(at, c);
    }
}

/// The boot sector of a volume with `spf` sectors per FAT and `total` sectors in all.
fn boot_sector(spf: u32, total: u32) -> [u8; 512] {
    let mut b = [0_u8; 512];
    b[..3].copy_from_slice(&[0xEB, 0x58, 0x90]);
    b[3..11].copy_from_slice(b"MSWIN4.1");
    b[11..13].copy_from_slice(&512_u16.to_le_bytes());
    b[13] = 1;
    b[14..16].copy_from_slice(&(RESERVED as u16).to_le_bytes());
    b[16] = NUM_FATS as u8;
    b[21] = 0xF8;
    b[32..36].copy_from_slice(&total.to_le_bytes());
    b[36..40].copy_from_slice(&spf.to_le_bytes());
    b[44..48].copy_from_slice(&2_u32.to_le_bytes());
    b[48..50].copy_from_slice(&(FS_INFO as u16).to_le_bytes());
    b[50..52].copy_from_slice(&6_u16.to_le_bytes());
    b[66] = 0x29;
    b[71..82].copy_from_slice(b"CORPUS     ");
    b[82..90].copy_from_slice(b"FAT32   ");
    b[510] = 0x55;
    b[511] = 0xAA;
    b
}

/// Allocate the lowest `n` free clusters as one chain.
fn allocate(img: &mut Image, n: usize) -> u32 {
    let free = img.free_clusters(2, n);
    for (i, &c) in free.iter().enumerate() {
        let next = if i + 1 == n { FAT_EOC } else { free[i + 1] };
        img.fat_set_all(c, next);
    }
    free[0]
}

/// Put a file's content on a fresh chain.
fn store(img: &mut Image, path: &str, len: usize) -> u32 {
    if len == 0 {
        return 0;
    }
    let first = allocate(img, len.div_ceil(512));
    let content = file_content(path, len);
    for (i, c) in img.chain(first).into_iter().enumerate() {
        let part = &content[i * 512..len.min(i * 512 + 512)];
        let at = img.cluster_offset(c);
        img.write(at, part);
    }
    first
}

fn add_entry(img: &mut Image, dir: u32, e: &[u8; 32]) {
    let at = img.first_unused_slot(dir);
    img.write(at, e);
}

/// A sound volume: three directories and five files, one of them with a long name.
fn build() -> Image {
    let total = RESERVED + NUM_FATS * SECTORS_PER_FAT + CLUSTERS;
    let mut img = Image { data: vec![0_u8; (total * BYTES_PER_SECTOR) as usize] };
    let boot = boot_sector(SECTORS_PER_FAT, total);
    img.write(0, &boot);
    img.write(6 * 512, &boot);
    let info = img.fs_info_offset();
    img.write_u32(info, 0x4161_5252);
    img.write_u32(info + 484, 0x6141_7272);
    img.write_u32(info + 508, 0xAA55_0000);
    for fat in 0..NUM_FATS {
        let at = img.fat_entry_offset(fat, 0);
        img.write_u32(at, 0x0FFF_FFF8);
        img.write_u32(at + 4, 0xFFFF_FFFF);
    }
    let root = allocate(&mut img, 1);
    add_entry(&mut img, root, &entry(b"CORPUS     ", ATTR_VOLUME, 0, 0));
    for (path, len) in [FILES[0], FILES[1], FILES[2]] {
        let first = store(&mut img, path, len);
        add_entry(&mut img, root, &entry(&pad_sfn(path), ATTR_ARCHIVE, first, len as u32));
    }
    let data = allocate(&mut img, 1);
    add_entry(&mut img, root, &entry(&pad_sfn("DATA"), ATTR_DIR, data, 0));
    add_entry(&mut img, data, &entry(&pad_sfn("."), ATTR_DIR, data, 0));
    add_entry(&mut img, data, &entry(&pad_sfn(".."), ATTR_DIR, 0, 0));
    let first = store(&mut img, FILES[3].0, FILES[3].1);
    add_entry(&mut img, data, &entry(&pad_sfn("READINGS.CSV"), ATTR_ARCHIVE, first, FILES[3].1 as u32));
    let short = pad_sfn(LONG_NAME_SFN);
    for e in lfn_entries("sensor readings.txt", checksum(&short)) {
        add_entry(&mut img, data, &e);
    }
    let first = store(&mut img, FILES[4].0, FILES[4].1);
    add_entry(&mut img, data, &entry(&short, ATTR_ARCHIVE, first, FILES[4].1 as u32));
    let sub = allocate(&mut img, 1);
    add_entry(&mut img, data, &entry(&pad_sfn("SUB"), ATTR_DIR, sub, 0));
    add_entry(&mut img, sub, &entry(&pad_sfn("."), ATTR_DIR, sub, 0));
    add_entry(&mut img, sub, &entry(&pad_sfn(".."), ATTR_DIR, data, 0));
    let free = img.count_free_clusters();
    img.set_fsinfo_free_count(free);
    let next = img.free_clusters(2, 1)[0];
    img.set_fsinfo_next_free(next);
    img
}

// -- a reference consistency check -----------------------------------------------

#[derive(Debug, PartialEq)]
enum Problem {
    ReservedEntries,
    Mirror { cluster: u32 },
    Chain { path: String },
    Size { path: String },
    CrossLinked { cluster: u32 },
    BadEntry { path: String },
    Dots { path: String },
    LongName { path: String },
    LostCluster { cluster: u32 },
    FsInfoFreeCount,
}

struct Checker<'a> {
    img: &'a Image,
    owner: Vec<bool>,
    problems: Vec<Problem>,
}

impl Checker<'_> {
    /// Claim the chain from `first`, and say how many clusters it has.
    fn claim(&mut self, first: u32, path: &str) -> usize {
        let max = self.img.max_valid_cluster();
        let mut c = first;
        let mut n = 0;
        loop {
            if c < 2 || c > max || self.img.fat_get(0, c) == 0 {
                self.problems.push(Problem::Chain { path: path.to_string() });
                return n;
            }
            if self.owner[c as usize] {
                self.problems.push(Problem::CrossLinked { cluster: c });
                return n;
            }
            self.owner[c as usize] = true;
            n += 1;
            let next = self.img.fat_get(0, c);
            if next >= 0x0FFF_FFF8 {
                return n;
            }
            c = next;
        }
    }

    fn walk(&mut self, dir: u32, parent: u32, path: &str) {
        let root = dir == self.img.root_cluster();
        let mut run: Vec<u64> = Vec::new();
        for at in self.img.slots(dir) {
            let e = self.img.read(at, 32).to_vec();
            if e[0] == 0 {
                break;
            }
            if e[0] == 0xE5 {
                if !run.is_empty() {
                    self.problems.push(Problem::LongName { path: path.to_string() });
                    run.clear();
                }
                continue;
            }
            if e[11] & ATTR_LFN == ATTR_LFN {
                run.push(at);
                continue;
            }
            let mut name = [0_u8; 11];
            name.copy_from_slice(&e[..11]);
            for &r in &run {
                if self.img.read(r + 13, 1)[0] != checksum(&name) {
                    self.problems.push(Problem::LongName { path: path.to_string() });
                    break;
                }
            }
            run.clear();
            let full = format!("{}/{}", path, String::from_utf8_lossy(&name));
            let first = self.img.entry_first_cluster(at);
            let size = self.img.entry_size(at);
            if name == pad_sfn(".") || name == pad_sfn("..") {
                let want = if name == pad_sfn(".") { dir } else { parent };
                if first != want {
                    self.problems.push(Problem::Dots { path: full });
                }
                continue;
            }
            if name.iter().enumerate().any(|(i, &b)| b < 0x20 && !(i == 0 && b == 5)) {
                self.problems.push(Problem::BadEntry { path: full.clone() });
            }
            if e[11] & ATTR_VOLUME != 0 {
                if e[11] & ATTR_DIR != 0 || !root {
                    self.problems.push(Problem::BadEntry { path: full });
                }
                continue;
            }
            if e[11] & ATTR_DIR != 0 {
                self.claim(first, &full);
                self.walk(first, if root { 0 } else { dir }, &full);
                continue;
            }
            if first == 0 {
                if size != 0 {
                    self.problems.push(Problem::Size { path: full });
                }
                continue;
            }
            if first > self.img.max_valid_cluster() {
                self.problems.push(Problem::BadEntry { path: full });
                continue;
            }
            let n = self.claim(first, &full);
            if n != (size as usize).div_ceil(512) {
                self.problems.push(Problem::Size { path: full });
            }
        }
        if !run.is_empty() {
            self.problems.push(Problem::LongName { path: path.to_string() });
        }
    }
}

fn check(img: &Image) -> Vec<Problem> {
    let max = img.max_valid_cluster();
    let mut checker = Checker { img, owner: vec![false; max as usize + 1], problems: Vec::new() };
    for fat in 0..NUM_FATS {
        if img.fat_get(fat, 0) != 0x0FFF_FFF8 || img.fat_get(fat, 1) | 0x0C00_0000 != 0x0FFF_FFFF {
            checker.problems.push(Problem::ReservedEntries);
        }
    }
    for cluster in 2..=max {
        if img.read_u32(img.fat_entry_offset(0, cluster)) != img.read_u32(img.fat_entry_offset(1, cluster)) {
            checker.problems.push(Problem::Mirror { cluster });
        }
    }
    checker.claim(img.root_cluster(), "");
    checker.walk(img.root_cluster(), 0, "");
    for cluster in 2..=max {
        if img.fat_get(0, cluster) != 0 && !checker.owner[cluster as usize] {
            checker.problems.push(Problem::LostCluster { cluster });
        }
    }
    if img.fsinfo_free_count() != img.count_free_clusters() {
        checker.problems.push(Problem::FsInfoFreeCount);
    }
    checker.problems
}

// -- the corpus --------------------------------------------------------------------

#[derive(Debug, Clone, Copy, PartialEq)]
enum Domain {
    Fat,
    Directory,
    FsInfo,
}

struct Case {
    name: &'static str,
    domain: Domain,
    corrupt: fn(&mut Image),
    expected: fn(&mut Image),
    dont_care: fn(&Image) -> Vec<Range<u64>>,
}

fn no_edit(_img: &mut Image) {}

fn nothing(_img: &Image) -> Vec<Range<u64>> {
    Vec::new()
}

fn fsinfo_is_a_hint(img: &Image) -> Vec<Range<u64>> {
    vec![img.fsinfo_range()]
}

fn torn_entry(img: &mut Image) -> u64 {
    let slot = img.first_unused_slot(img.root_cluster());
    let mut e = [0xFF_u8; 32];
    e[..11].copy_from_slice(&pad_sfn("NEWDATA.BIN"));
    e[11] = ATTR_ARCHIVE;
    img.write(slot, &e);
    slot
}

fn orphan_lfn(img: &mut Image) -> u64 {
    let slot = img.first_unused_slot(img.dir_cluster("DATA"));
    let sum = checksum(&pad_sfn("POWERW~1.TXT"));
    for (i, e) in lfn_entries("power was cut here.txt", sum).iter().enumerate() {
        img.write(slot + i as u64 * 32, e);
    }
    slot
}

fn spoil_long_name(img: &mut Image, delete: bool) {
    let data = img.dir_cluster("DATA");
    let sfn = img.sfn(data, LONG_NAME_SFN);
    for off in img.lfn_run(data, sfn) {
        let sum = img.read(off + 13, 1)[0];
        img.write(off + 13, &[sum.wrapping_add(1)]);
        if delete {
            img.delete_entry(off);
        }
    }
}

fn boot_chain(img: &Image) -> Vec<u32> {
    img.chain(img.entry_first_cluster(img.sfn(img.root_cluster(), "BOOT.BIN")))
}

fn log_cluster(img: &Image) -> u32 {
    img.entry_first_cluster(img.sfn(img.root_cluster(), "LOG.TXT"))
}

const CASES: &[Case] = &[
    Case {
        name: "fat_mirror_stale",
        domain: Domain::Fat,
        corrupt: |img| {
            for cluster in boot_chain(img) {
                img.fat_set(1, cluster, FAT_FREE);
            }
        },
        expected: no_edit,
        dont_care: nothing,
    },
    Case {
        name: "fat_chain_unterminated",
        domain: Domain::Fat,
        corrupt: |img| {
            let last = *boot_chain(img).last().unwrap();
            img.fat_set_all(last, FAT_FREE);
        },
        expected: |img| {
            let entry = img.sfn(img.root_cluster(), "BOOT.BIN");
            let chain = boot_chain(img);
            let (keep, gone) = chain.split_at(chain.len() - 1);
            img.fat_set_all(*keep.last().unwrap(), FAT_EOC);
            img.fat_set_all(gone[0], FAT_FREE);
            img.set_entry_size(entry, keep.len() as u32 * img.bytes_per_cluster());
            img.set_fsinfo_free_count(img.count_free_clusters());
        },
        dont_care: fsinfo_is_a_hint,
    },
    Case {
        name: "fat_entry_out_of_range",
        domain: Domain::Fat,
        corrupt: |img| {
            let past_end = img.max_valid_cluster() + 50;
            img.fat_set_all(log_cluster(img), past_end);
        },
        expected: no_edit,
        dont_care: nothing,
    },
    Case {
        name: "fat_entry_reserved_cluster",
        domain: Domain::Fat,
        corrupt: |img| img.fat_set_all(log_cluster(img), 1),
        expected: no_edit,
        dont_care: nothing,
    },
    Case {
        name: "fat_lost_chain",
        domain: Domain::Fat,
        corrupt: |img| {
            let free = img.free_clusters(2, 2);
            img.fat_set_all(free[0], free[1]);
            img.fat_set_all(free[1], FAT_EOC);
        },
        expected: no_edit,
        dont_care: fsinfo_is_a_hint,
    },
    Case {
        name: "fat_reserved_entries_clobbered",
        domain: Domain::Fat,
        corrupt: |img| img.write(img.fat_offset(0), &[0; 8]),
        expected: no_edit,
        dont_care: nothing,
    },
    Case {
        name: "fat_tail_beyond_size",
        domain: Domain::Fat,
        corrupt: |img| {
            let extra = img.free_clusters(2, 1)[0];
            img.fat_set_all(log_cluster(img), extra);
            img.fat_set_all(extra, FAT_EOC);
        },
        expected: no_edit,
        dont_care: fsinfo_is_a_hint,
    },
    Case {
        name: "fat_broken_midchain",
        domain: Domain::Fat,
        corrupt: |img| {
            let second = boot_chain(img)[1];
            img.fat_set_all(second, FAT_FREE);
        },
        expected: |img| {
            let entry = img.sfn(img.root_cluster(), "BOOT.BIN");
            let chain = boot_chain(img);
            for &cluster in &chain[1..] {
                img.fat_set_all(cluster, FAT_FREE);
            }
            img.fat_set_all(chain[0], FAT_EOC);
            img.set_entry_size(entry, img.bytes_per_cluster());
            img.set_fsinfo_free_count(img.count_free_clusters());
        },
        dont_care: fsinfo_is_a_hint,
    },
    Case {
        name: "dir_torn_entry",
        domain: Domain::Directory,
        corrupt: |img| {
            torn_entry(img);
        },
        expected: |img| {
            let slot = torn_entry(img);
            img.delete_entry(slot);
        },
        dont_care: nothing,
    },
    Case {
        name: "dir_size_without_cluster",
        domain: Domain::Directory,
        corrupt: |img| {
            let entry = img.sfn(img.root_cluster(), "EMPTY.TXT");
            img.set_entry_size(entry, 512);
        },
        expected: no_edit,
        dont_care: nothing,
    },
    Case {
        name: "dir_orphan_lfn",
        domain: Domain::Directory,
        corrupt: |img| {
            orphan_lfn(img);
        },
        expected: |img| {
            let slot = orphan_lfn(img);
            img.delete_entry(slot);
            img.delete_entry(slot + 32);
        },
        dont_care: nothing,
    },
    Case {
        name: "dir_lfn_checksum_mismatch",
        domain: Domain::Directory,
        corrupt: |img| spoil_long_name(img, false),
        expected: |img| spoil_long_name(img, true),
        dont_care: nothing,
    },
    Case {
        name: "dir_dotdot_wrong_cluster",
        domain: Domain::Directory,
        corrupt: |img| {
            let dotdot = img.sfn(img.dir_cluster("DATA/SUB"), "..");
            img.set_entry_first_cluster(dotdot, 0);
        },
        expected: no_edit,
        dont_care: nothing,
    },
    Case {
        name: "fsinfo_stale",
        domain: Domain::FsInfo,
        corrupt: |img| {
            let wrong = img.fsinfo_free_count() + 500;
            img.set_fsinfo_free_count(wrong);
            img.set_fsinfo_next_free(2);
        },
        expected: no_edit,
        dont_care: |img| {
            let base = img.fs_info_offset() + 492;
            vec![base..base + 4]
        },
    },
];

fn corrupted(pristine: &Image, case: &Case) -> Image {
    let mut img = pristine.clone();
    (case.corrupt)(&mut img);
    img
}

fn fixed(pristine: &Image, case: &Case) -> Image {
    let mut img = pristine.clone();
    (case.expected)(&mut img);
    img
}

/// The offsets where two images differ, outside the ignored ranges.
fn diffs(a: &Image, b: &Image, ignore: &[Range<u64>]) -> Vec<u64> {
    assert_eq!(a.data.len(), b.data.len());
    let mut out = Vec::new();
    for (i, (x, y)) in a.data.chunks(4096).zip(b.data.chunks(4096)).enumerate() {
        if x == y {
            continue;
        }
        for j in 0..x.len() {
            let at = (i * 4096 + j) as u64;
            if x[j] != y[j] && !ignore.iter().any(|r| r.contains(&at)) {
                out.push(at);
            }
        }
    }
    out
}

fn assert_images_eq(actual: &Image, expected: &Image, ignore: &[Range<u64>]) {
    let found = diffs(actual, expected, ignore);
    assert!(found.is_empty(), "images differ at {:x?}", &found[..found.len().min(16)]);
}

// -- running a repair ----------------------------------------------------------------

fn mount(img: &Image) -> FileSystem<MemDisk> {
    match FileSystem::new(MemDisk::from_bytes(img.data.clone())) {
        Ok(fs) => fs,
        Err(e) => panic!("mount: {:?}", e),
    }
}

fn repair_with(img: &Image, mode: RepairMode, depth: usize) -> (Image, RepairStats) {
    let mut fs = mount(img);
    let mut buf = vec![0_u8; scratch_size_for_depth(depth)];
    let stats = fs.repair(mode, &mut RepairScratch::new(&mut buf)).expect("repair failed");
    let disk = fs.unmount().expect("unmount");
    (Image { data: disk.into_bytes() }, stats)
}

fn repair(img: &Image) -> (Image, RepairStats) {
    repair_with(img, RepairMode::all(), DEPTH)
}

fn found_in(stats: &RepairStats) -> u32 {
    stats.chains_truncated
        + stats.sizes_corrected
        + stats.entries_removed
        + stats.entries_recovered
        + stats.dot_entries_fixed
        + stats.reserved_entries_restored
        + stats.mirror_entries_synced
        + stats.fsinfo_corrected
}

fn dry(mode: RepairMode) -> RepairMode {
    mode.union(RepairMode::dry_run())
}

// -- the corpus itself -----------------------------------------------------------------

#[test]
fn pristine_image_is_reproducible() {
    assert_images_eq(&build(), &build(), &[]);
}

#[test]
fn long_name_short_name_is_as_expected() {
    let img = build();
    let data = img.dir_cluster("DATA");
    let sfn = img.sfn(data, LONG_NAME_SFN);
    assert_eq!(img.lfn_run(data, sfn).len(), 2);
}

#[test]
fn corpus_cases_are_broken_and_their_fixes_are_sound() {
    let pristine = build();
    assert_eq!(check(&pristine), Vec::new());
    for case in CASES {
        assert!(!check(&corrupted(&pristine, case)).is_empty(), "case {:?} is not broken", case.name);
        assert_eq!(check(&fixed(&pristine, case)), Vec::new(), "case {:?}", case.name);
    }
}

#[test]
fn damage_stays_inside_the_declared_structure() {
    let pristine = build();
    for case in CASES {
        let found = diffs(&pristine, &corrupted(&pristine, case), &[]);
        assert!(!found.is_empty(), "case {:?} changes nothing", case.name);
        for at in found {
            let ok = match case.domain {
                Domain::Fat => at >= pristine.fat_offset(0) && at < pristine.data_offset(),
                Domain::Directory => at >= pristine.data_offset(),
                Domain::FsInfo => pristine.fsinfo_range().contains(&at),
            };
            assert!(ok, "case {:?} is declared {:?} but touches {:#x}", case.name, case.domain, at);
        }
    }
}

#[test]
fn directory_damage_stays_in_directories() {
    let pristine = build();
    let dir_bytes: Vec<Range<u64>> = ["", "DATA", "DATA/SUB"]
        .iter()
        .flat_map(|p| pristine.chain(pristine.dir_cluster(p)))
        .map(|c| pristine.cluster_offset(c)..pristine.cluster_offset(c) + 512)
        .collect();
    for case in CASES.iter().filter(|c| c.domain == Domain::Directory) {
        for at in diffs(&pristine, &corrupted(&pristine, case), &[]) {
            assert!(dir_bytes.iter().any(|d| d.contains(&at)), "case {:?} changes {:#x}", case.name, at);
        }
    }
}

#[test]
fn case_names_are_unique() {
    let mut names: Vec<&str> = CASES.iter().map(|c| c.name).collect();
    names.sort_unstable();
    let count = names.len();
    names.dedup();
    assert_eq!(names.len(), count, "duplicate case names");
}

#[test]
fn pristine_image_is_sound() {
    let img = build();
    let mut fs = mount(&img);
    assert_eq!(fs.vol.geom.cluster_size, 512);
    assert_eq!(fs.vol.geom.fats, 2);
    assert!(fs.vol.geom.total_clusters >= 65525, "not a real FAT32 volume");
    assert_eq!(fs.vol.geom.total_clusters, CLUSTERS);
    assert_eq!(check(&img), Vec::new());
    let flags = fs.read_status_flags().expect("status");
    assert_eq!(flags, FsStatusFlags { dirty: false, io_error: false });
    for (path, len) in FILES {
        let (dir, name) = path.rsplit_once('/').unwrap_or(("", path));
        let name = if name.contains(' ') { LONG_NAME_SFN } else { name };
        let at = img.sfn(img.dir_cluster(dir), name);
        assert_eq!(img.entry_size(at) as usize, len);
    }
}

// -- repair ----------------------------------------------------------------------------

#[test]
fn repairing_a_healthy_volume_changes_nothing() {
    let pristine = build();
    let (after, stats) = repair(&pristine);

    assert_images_eq(&after, &pristine, &[]);
    assert!(stats.dirs_scanned >= 3, "dirs_scanned {} < 3", stats.dirs_scanned);
    assert!(stats.files_examined >= 7, "files_examined {} < 7", stats.files_examined);
    assert_eq!(stats.modes_applied, RepairMode::all(), "a clean volume should be walked and left alone");
}

#[test]
fn every_case_repairs_to_the_expected_image() {
    let pristine = build();
    for case in CASES {
        let (after, stats) = repair(&corrupted(&pristine, case));
        let want = fixed(&pristine, case);
        let remaining = check(&after);
        assert!(
            remaining.is_empty(),
            "case {:?}: repair left the volume inconsistent: {:#?}\nstats: {:?}",
            case.name,
            remaining,
            stats
        );
        let ignore = (case.dont_care)(&want);
        let found = diffs(&after, &want, &ignore);
        assert!(found.is_empty(), "case {:?}: repair did not produce the expected image ({:?})", case.name, stats);
        assert_images_eq(&after, &want, &ignore);
    }
}

#[test]
fn repair_is_idempotent() {
    let pristine = build();
    for case in CASES {
        let (once, _) = repair(&corrupted(&pristine, case));
        let (twice, stats) = repair(&once);
        assert_images_eq(&twice, &once, &[]);
        assert_eq!(stats.clusters_freed, 0, "case {:?}: second pass freed clusters", case.name);
        assert_eq!(stats.entries_removed, 0, "case {:?}: second pass removed entries", case.name);
    }
}

#[test]
fn leftover_markers_from_an_interrupted_run_are_cleared() {
    let pristine = build();
    let mut interrupted = pristine.clone();
    for cluster in 2..=interrupted.max_valid_cluster() {
        let off = interrupted.fat_entry_offset(0, cluster);
        let raw = interrupted.read_u32(off);
        interrupted.write_u32(off, raw | 0x1000_0000);
    }
    let (after, _) = repair(&interrupted);
    assert!(check(&after).is_empty(), "leftover markers were not cleaned up");
    assert_images_eq(&after, &pristine, &[]);
}

#[test]
fn a_shallow_scratch_buffer_skips_subtrees_without_losing_them() {
    let pristine = build();

    let (after, stats) = repair_with(&pristine, RepairMode::all(), 1);
    assert_eq!(stats.dirs_scanned, 1);
    assert_eq!(stats.dirs_skipped, 1, "DATA should have been skipped");
    assert_eq!(stats.clusters_freed, 0, "a skipped subtree must not be freed");
    assert_images_eq(&after, &pristine, &[]);

    let (after, stats) = repair_with(&pristine, RepairMode::all(), 2);
    assert_eq!(stats.dirs_scanned, 2);
    assert_eq!(stats.dirs_skipped, 1, "DATA/SUB should have been skipped");
    assert_eq!(stats.clusters_freed, 0);
    assert_images_eq(&after, &pristine, &[]);
}

#[test]
fn a_scratch_buffer_with_no_room_is_rejected() {
    let pristine = build();
    let mut fs = mount(&pristine);
    let mut buf = [0_u8; 0];
    assert!(matches!(
        fs.repair(RepairMode::all(), &mut RepairScratch::new(&mut buf)),
        Err(Error::InvalidInput)
    ));

    // One byte short of a frame is still no room.
    let mut buf = vec![0_u8; scratch_size_for_depth(1) - 1];
    assert_eq!(RepairScratch::new(&mut buf).max_depth(), 0);
}

#[test]
fn repair_declines_non_fat32_volumes() {
    // 20000 clusters make a FAT16 volume.
    let spf = (20_002_u32 * 2).div_ceil(512);
    let total = 1 + 2 * spf + 32 + 20_000;
    let mut data = vec![0_u8; total as usize * 512];
    let mut b = boot_sector(0, 0);
    b[14..16].copy_from_slice(&1_u16.to_le_bytes());
    b[17..19].copy_from_slice(&512_u16.to_le_bytes());
    b[19..21].copy_from_slice(&(total as u16).to_le_bytes());
    b[22..24].copy_from_slice(&(spf as u16).to_le_bytes());
    data[..512].copy_from_slice(&b);

    let mut fs = match FileSystem::new(MemDisk::from_bytes(data)) {
        Ok(fs) => fs,
        Err(e) => panic!("mount: {:?}", e),
    };
    assert_eq!(fs.fat_type(), FatType::Fat16);
    let mut buf = [0_u8; 48];
    assert!(matches!(
        fs.repair(RepairMode::all(), &mut RepairScratch::new(&mut buf)),
        Err(Error::InvalidInput)
    ));
    assert!(matches!(fs.read_status_flags(), Err(Error::InvalidInput)));
}

// -- modes ---------------------------------------------------------------------------------

#[test]
fn a_dry_run_changes_nothing() {
    let pristine = build();
    for case in CASES {
        let corrupt = corrupted(&pristine, case);
        let (after, stats) = repair_with(&corrupt, dry(RepairMode::all()), DEPTH);
        assert_images_eq(&after, &corrupt, &[]);
        assert!(
            !stats.modes_applied.contains(RepairMode::orphan_clusters()),
            "case {:?}: orphan detection cannot run without writing markers",
            case.name
        );
        assert_eq!(stats.clusters_freed, 0, "case {:?}: a dry run freed clusters", case.name);
    }
}

#[test]
fn a_dry_run_still_reports_what_it_found() {
    let pristine = build();
    let invisible = ["fat_lost_chain", "fat_tail_beyond_size"];
    for case in CASES.iter().filter(|c| !invisible.contains(&c.name)) {
        let (_, stats) = repair_with(&corrupted(&pristine, case), dry(RepairMode::all()), DEPTH);
        assert!(found_in(&stats) > 0, "case {:?}: a dry run reported nothing wrong", case.name);
    }

    let (_, stats) = repair_with(&pristine, dry(RepairMode::all()), DEPTH);
    assert_eq!(found_in(&stats), 0, "dry run on healthy volume reported problems");
    assert!(
        stats.dirs_scanned >= 3 && stats.files_examined >= 7,
        "dry run should have scanned the corpus tree"
    );
}

#[test]
fn minimal_mode_fixes_everything_except_leaks() {
    let pristine = build();
    for case in CASES {
        let corrupt = corrupted(&pristine, case);
        let (minimal, stats) = repair_with(&corrupt, RepairMode::minimal(), DEPTH);
        let (full, _) = repair(&corrupt);
        assert_eq!(stats.clusters_freed, 0, "case {:?}: Minimal must not free clusters", case.name);

        let unexpected: Vec<Problem> = check(&minimal)
            .into_iter()
            .filter(|p| !matches!(p, Problem::LostCluster { .. } | Problem::FsInfoFreeCount))
            .collect();
        assert!(
            unexpected.is_empty(),
            "case {:?}: Minimal left something other than leaked clusters: {:#?}",
            case.name,
            unexpected
        );
        for cluster in 2..=minimal.max_valid_cluster() {
            if full.fat_get(0, cluster) != 0 {
                assert_eq!(
                    minimal.fat_get(0, cluster),
                    full.fat_get(0, cluster),
                    "case {:?}: Minimal and All disagree about cluster {}",
                    case.name,
                    cluster
                );
            }
        }
    }
}

#[test]
fn minimal_mode_is_unmoved_by_stale_markers() {
    let pristine = build();
    let mut interrupted = pristine.clone();
    for cluster in 2..=interrupted.max_valid_cluster() {
        for fat in 0..NUM_FATS {
            let off = interrupted.fat_entry_offset(fat, cluster);
            let raw = interrupted.read_u32(off);
            interrupted.write_u32(off, raw | 0x1000_0000);
        }
    }
    let (after, stats) = repair_with(&interrupted, RepairMode::minimal(), DEPTH);
    assert_eq!(stats.chains_truncated, 0, "stale markers made Minimal cut healthy chains short");
    assert_eq!(stats.sizes_corrected, 0, "stale markers made Minimal shrink a file");
    assert_images_eq(&after, &interrupted, &[]);
}

#[test]
fn a_cyclic_chain_does_not_hang() {
    let pristine = build();
    let mut looped = pristine.clone();
    let chain = boot_chain(&looped);
    looped.fat_set_all(*chain.last().unwrap(), chain[0]);

    for mode in [RepairMode::minimal(), RepairMode::all()] {
        let (after, stats) = repair_with(&looped, mode, DEPTH);
        assert!(stats.chains_truncated > 0, "{:?} did not report cutting the loop", mode);
        assert!(
            check(&after).iter().all(|p| !matches!(p, Problem::CrossLinked { .. })),
            "{:?} left the loop in place",
            mode
        );
    }
}

#[test]
fn flags_are_independent() {
    let pristine = build();
    let cases = [
        ("fat_reserved_entries_clobbered", RepairMode::fat_signatures()),
        ("fat_chain_unterminated", RepairMode::chains()),
        ("dir_size_without_cluster", RepairMode::entry_validity()),
        ("dir_dotdot_wrong_cluster", RepairMode::entry_validity()),
        ("dir_orphan_lfn", RepairMode::long_names()),
        ("fat_lost_chain", RepairMode::orphan_clusters()),
    ];
    for (name, flag) in cases {
        let case = CASES.iter().find(|c| c.name == name).expect("unknown case");
        let corrupt = corrupted(&pristine, case);

        // With the flag: fixed, bar the FSInfo count, which needs its own flag.
        let (done, _) = repair_with(&corrupt, flag.union(RepairMode::fs_info()), DEPTH);
        assert!(check(&done).is_empty(), "{:?} alone did not repair {:?}: {:#?}", flag, name, check(&done));

        // Without it: untouched.
        let others = RepairMode::all().difference(flag).difference(RepairMode::fs_info());
        let (untouched, _) = repair_with(&corrupt, others, DEPTH);
        assert_images_eq(&untouched, &corrupt, &[]);
    }
}

// -- containment ---------------------------------------------------------------------------

/// Fill `count` clusters with data that is never zero, chain them together, and return the first.
fn plant_file_data(img: &mut Image, first: u32, count: u32) -> u32 {
    let mut state = 0x1234_5678_u32;
    for cluster in first..first + count {
        let next = if cluster + 1 == first + count { FAT_EOC } else { cluster + 1 };
        img.fat_set_all(cluster, next);
        let bytes: Vec<u8> = (0..img.bytes_per_cluster())
            .map(|_| {
                state = state.wrapping_mul(1_664_525).wrapping_add(1_013_904_223);
                ((state >> 24) as u8).max(1)
            })
            .collect();
        let at = img.cluster_offset(cluster);
        img.write(at, &bytes);
    }
    first
}

fn cluster_bytes(img: &Image, first: u32, count: u32) -> Vec<u8> {
    (first..first + count).flat_map(|c| img.read(img.cluster_offset(c), 512).to_vec()).collect()
}

#[test]
fn an_entry_pointing_at_file_data_is_not_walked() {
    let mut img = build();
    let planted_at = 20_000;
    let planted = 300;
    plant_file_data(&mut img, planted_at, planted);
    let sub = img.sfn(img.dir_cluster("DATA"), "SUB");
    img.set_entry_first_cluster(sub, planted_at);
    let before = cluster_bytes(&img, planted_at, planted);

    for mode in [RepairMode::minimal(), RepairMode::all()] {
        let (after, stats) = repair_with(&img, mode, DEPTH);
        assert_eq!(
            cluster_bytes(&after, planted_at, planted),
            before,
            "{:?} rewrote data that was never a directory",
            mode
        );
        assert_eq!(stats.dirs_rejected, 1, "{:?} did not report rejecting it", mode);
        assert_eq!(stats.entries_recovered, 0, "{:?} renamed entries inside something that is not a directory", mode);
        assert_eq!(stats.entries_removed, 0, "{:?} deleted entries inside something that is not a directory", mode);
        for cluster in planted_at..planted_at + planted {
            assert_ne!(
                after.fat_get(0, cluster),
                0,
                "{:?} freed cluster {} of data it declined to walk",
                mode,
                cluster
            );
        }
    }
}

#[test]
fn a_directory_chain_is_capped_at_what_a_directory_can_hold() {
    let mut img = build();
    let sub = img.dir_cluster("DATA/SUB");
    let tail_at = 30_000;
    let tail = 5_000;
    plant_file_data(&mut img, tail_at, tail);
    img.fat_set_all(sub, tail_at);

    let max_dir_clusters = 65_536 * 32 / img.bytes_per_cluster();
    let (after, _) = repair_with(&img, RepairMode::minimal(), DEPTH);
    let walked = after.chain(sub).len() as u32;
    assert!(
        walked <= max_dir_clusters,
        "followed {} clusters of directory, cap is {}",
        walked,
        max_dir_clusters
    );
}

#[test]
fn repair_never_writes_to_file_data() {
    let pristine = build();
    let mut file_clusters: Vec<u32> = Vec::new();
    for (path, _) in FILES {
        let (dir, name) = path.rsplit_once('/').unwrap_or(("", path));
        let name = if name.contains(' ') { LONG_NAME_SFN } else { name };
        let first = pristine.entry_first_cluster(pristine.sfn(pristine.dir_cluster(dir), name));
        if first >= 2 {
            file_clusters.extend(pristine.chain(first));
        }
    }
    assert!(file_clusters.len() >= 5, "expected the corpus to have file data");

    for case in CASES {
        let corrupt = corrupted(&pristine, case);
        for mode in [RepairMode::minimal(), RepairMode::all()] {
            let (after, _) = repair_with(&corrupt, mode, DEPTH);
            for &cluster in &file_clusters {
                let offset = after.cluster_offset(cluster);
                assert_eq!(
                    after.read(offset, 512),
                    corrupt.read(offset, 512),
                    "case {:?} under {:?} rewrote file data in cluster {}",
                    case.name,
                    mode,
                    cluster
                );
            }
        }
    }
}

// -- the dirty flag --------------------------------------------------------------------------

/// Mark a volume unclean in both the places FAT records it, as an interrupted writer would.
fn mark_dirty(img: &mut Image) {
    img.write(0x41, &[0b01]);
    let off = img.fat_entry_offset(0, 1);
    let raw = img.read_u32(off);
    img.write_u32(off, raw & !(1 << 27));
}

fn status_of(img: &Image) -> FsStatusFlags {
    mount(img).read_status_flags().expect("status")
}

#[test]
fn a_completed_repair_clears_the_dirty_flag() {
    let pristine = build();
    for mode in [RepairMode::minimal(), RepairMode::all()] {
        let mut dirty = pristine.clone();
        mark_dirty(&mut dirty);
        assert!(status_of(&dirty).dirty, "the fixture is not dirty");
        let (after, _) = repair_with(&dirty, mode, DEPTH);
        assert!(
            !status_of(&after).dirty,
            "{:?} left the volume dirty, so the next boot will repair it again",
            mode
        );
    }
    for case in CASES {
        let mut corrupt = corrupted(&pristine, case);
        mark_dirty(&mut corrupt);
        let (after, _) = repair_with(&corrupt, RepairMode::minimal(), DEPTH);
        assert!(!status_of(&after).dirty, "case {:?} left the volume dirty", case.name);
    }
}

#[test]
fn both_dirty_indicators_are_cleared() {
    let mut dirty = build();
    mark_dirty(&mut dirty);
    let (after, _) = repair_with(&dirty, RepairMode::minimal(), DEPTH);
    assert_eq!(after.read(0x41, 1)[0] & 0b01, 0, "boot sector flag still set");
    let fat1 = after.read_u32(after.fat_entry_offset(0, 1));
    assert_ne!(fat1 & (1 << 27), 0, "FAT[1] clean-shutdown bit still clear");
}

#[test]
fn the_hard_error_flag_is_left_alone() {
    let mut dirty = build();
    mark_dirty(&mut dirty);
    dirty.write(0x41, &[0b11]);
    let off = dirty.fat_entry_offset(0, 1);
    let raw = dirty.read_u32(off);
    dirty.write_u32(off, raw & !(1 << 26));
    let (after, _) = repair_with(&dirty, RepairMode::minimal(), DEPTH);
    let status = status_of(&after);
    assert!(!status.dirty, "dirty flag should have been cleared");
    assert!(status.io_error, "hard-error flag should have been preserved");
}

#[test]
fn a_dry_run_leaves_the_dirty_flag_set() {
    let mut dirty = build();
    mark_dirty(&mut dirty);
    let (after, _) = repair_with(&dirty, dry(RepairMode::all()), DEPTH);
    assert_images_eq(&after, &dirty, &[]);
    assert!(status_of(&after).dirty, "a dry run marked the volume clean");
}

#[test]
fn an_incomplete_repair_leaves_the_dirty_flag_set() {
    let mut dirty = build();
    mark_dirty(&mut dirty);

    let (after, stats) = repair_with(&dirty, RepairMode::all(), 1);
    assert!(stats.dirs_skipped > 0, "expected the fixture to run out of depth");
    assert!(status_of(&after).dirty, "a run that skipped subtrees marked the volume clean");
    assert_eq!(
        after.read(0x41, 1)[0] & 0b01,
        0b01,
        "the boot-sector dirty flag was cleared by a run that did not earn it"
    );

    let (after, _) = repair_with(&dirty, RepairMode::chains(), DEPTH);
    assert!(status_of(&after).dirty, "a partial mode marked the volume clean");
}

// -- devices that fail -----------------------------------------------------------------------

#[derive(Debug, PartialEq)]
struct Broken;

/// A device that stops working after a number of writes.
struct Failing {
    data: Vec<u8>,
    writes_left: usize,
}

impl Storage for Failing {
    type Error = Broken;

    fn capacity(&mut self) -> Result<u64, Broken> {
        Ok(self.data.len() as u64)
    }

    fn read_exact(&mut self, offset: u64, buf: &mut [u8]) -> Result<(), Broken> {
        let at = offset as usize;
        buf.copy_from_slice(&self.data[at..at + buf.len()]);
        Ok(())
    }

    fn write_all(&mut self, offset: u64, data: &[u8]) -> Result<(), Broken> {
        if self.writes_left == 0 {
            return Err(Broken);
        }
        self.writes_left -= 1;
        let at = offset as usize;
        self.data[at..at + data.len()].copy_from_slice(data);
        Ok(())
    }

    fn flush(&mut self) -> Result<(), Broken> {
        Ok(())
    }
}

#[test]
fn an_interrupted_repair_can_be_run_again() {
    let pristine = build();
    for case in CASES {
        let corrupt = corrupted(&pristine, case);
        let (want, _) = repair(&corrupt);
        for writes_left in [0, 1, 3, 10, 25] {
            let disk = Failing { data: corrupt.data.clone(), writes_left };
            let mut fs = match FileSystem::new(disk) {
                Ok(fs) => fs,
                Err(_) => panic!("mount"),
            };
            let mut buf = vec![0_u8; scratch_size_for_depth(DEPTH)];
            let res = fs.repair(RepairMode::all(), &mut RepairScratch::new(&mut buf));
            match res {
                Err(Error::Io(Broken)) => {}
                Err(e) => panic!("case {:?}: {:?}", case.name, e),
                Ok(_) => assert!(writes_left > 0, "case {:?} wrote nothing", case.name),
            }
            let left = Image { data: fs.vol.disk.data };
            assert_eq!(left.read(0, 512), corrupt.read(0, 512), "case {:?} touched the boot sector", case.name);
            let (after, _) = repair(&left);
            assert_images_eq(&after, &want, &[]);
        }
    }
}

#[test]
fn a_scratch_buffer_can_be_used_again_after_a_failure() {
    let pristine = build();
    for case in CASES {
        let corrupt = corrupted(&pristine, case);
        for writes_left in [0, 1, 3, 10, 25] {
            let disk = Failing { data: corrupt.data.clone(), writes_left };
            let mut fs = match FileSystem::new(disk) {
                Ok(fs) => fs,
                Err(_) => panic!("mount"),
            };
            let mut buf = vec![0_u8; scratch_size_for_depth(DEPTH)];
            let mut scratch = RepairScratch::new(&mut buf);
            let _ = fs.repair(RepairMode::all(), &mut scratch);
            let left = fs.vol.disk.data;

            let working = Failing { data: left.clone(), writes_left: usize::MAX };
            let mut fs = match FileSystem::new(working) {
                Ok(fs) => fs,
                Err(_) => panic!("mount"),
            };
            let used = fs.repair(RepairMode::all(), &mut scratch).expect("repair");
            let after = Image { data: fs.vol.disk.data };

            let (want, fresh) = repair(&Image { data: left });
            assert_eq!(used, fresh, "case {:?}", case.name);
            assert_images_eq(&after, &want, &[]);
        }
    }
}
