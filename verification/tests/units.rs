//! The pieces of the library, one at a time.

use fat_repair::boot::{read_layout, FatType};
use fat_repair::bytes::{get_u16, get_u32, put_u32, u16_to_bytes, u32_to_bytes};
use fat_repair::chain::{scan_chain, ChainScan};
use fat_repair::dir::{advance, looks_like_directory, read_entry, seek, Cursor};
use fat_repair::dirent::{
    attrs_are_possible, is_dot_or_dotdot, is_dots, is_name_corrupted, lfn_checksum, recovery_name, DirEntryData,
};
use fat_repair::entry::{check_entry, delete_range, fix_dot_entry, EntrySite};
use fat_repair::error::Error;
use fat_repair::fat::{classify, is_visited, read_fat_copy, read_fat_raw, write_fat_raw, write_fat_value, FatEntry};
use fat_repair::fatcache::{CachedFatSlice, FatCache, SeekFrom, FAT_CACHE_SIZE};
use fat_repair::fs::FileSystem;
use fat_repair::geometry::Geometry;
use fat_repair::mode::RepairMode;
use fat_repair::passes::{
    clear_visited_flags, count_free_clusters, fix_reserved_entries, scan_fat_copies, sweep_orphans, FreeSpace,
};
use fat_repair::progress::{percent, Ticker, PROGRESS_ENTRY_INTERVAL, PROGRESS_REPORTS_PER_PHASE};
use fat_repair::scratch::{scratch_size_for_depth, DirFrame, RepairScratch, REPAIR_FRAME_SIZE};
use fat_repair::stats::RepairStats;
use fat_repair::storage::{MemDisk, NoError, Storage};
use fat_repair::volume::Volume;
use fat_repair::walk::{open_dir, scan_dir, scan_tree, DirStep};

const CLUSTERS: u32 = 65_600;
const SPF: u32 = 513;
const EOC: u32 = 0x0FFF_FFFF;

fn boot() -> [u8; 512] {
    let total = 32 + 2 * SPF + CLUSTERS;
    let mut b = [0_u8; 512];
    b[11..13].copy_from_slice(&512_u16.to_le_bytes());
    b[13] = 1;
    b[14..16].copy_from_slice(&32_u16.to_le_bytes());
    b[16] = 2;
    b[21] = 0xF8;
    b[32..36].copy_from_slice(&total.to_le_bytes());
    b[36..40].copy_from_slice(&SPF.to_le_bytes());
    b[44..48].copy_from_slice(&2_u32.to_le_bytes());
    b[48..50].copy_from_slice(&1_u16.to_le_bytes());
    b[71..82].copy_from_slice(b"UNITS      ");
    b[510] = 0x55;
    b[511] = 0xAA;
    b
}

/// A volume with an empty root directory in cluster 2.
fn image() -> Vec<u8> {
    let total = 32 + 2 * SPF + CLUSTERS;
    let mut data = vec![0_u8; total as usize * 512];
    data[..512].copy_from_slice(&boot());
    data[512..516].copy_from_slice(&0x4161_5252_u32.to_le_bytes());
    data[996..1000].copy_from_slice(&0x6141_7272_u32.to_le_bytes());
    data[1000..1004].copy_from_slice(&(CLUSTERS - 1).to_le_bytes());
    data[1004..1008].copy_from_slice(&3_u32.to_le_bytes());
    data[1020..1024].copy_from_slice(&0xAA55_0000_u32.to_le_bytes());
    for copy in 0..2 {
        let at = fat_at(copy, 0);
        data[at..at + 4].copy_from_slice(&0x0FFF_FFF8_u32.to_le_bytes());
        data[at + 4..at + 8].copy_from_slice(&0xFFFF_FFFF_u32.to_le_bytes());
        data[at + 8..at + 12].copy_from_slice(&EOC.to_le_bytes());
    }
    data
}

fn fat_at(copy: usize, cluster: u32) -> usize {
    (32 + copy * SPF as usize) * 512 + cluster as usize * 4
}

fn cluster_at(cluster: u32) -> usize {
    (32 + 2 * SPF as usize) * 512 + (cluster as usize - 2) * 512
}

fn set_fat(data: &mut [u8], cluster: u32, raw: u32) {
    for copy in 0..2 {
        let at = fat_at(copy, cluster);
        data[at..at + 4].copy_from_slice(&raw.to_le_bytes());
    }
}

fn get_fat(data: &[u8], copy: usize, cluster: u32) -> u32 {
    let at = fat_at(copy, cluster);
    u32::from_le_bytes([data[at], data[at + 1], data[at + 2], data[at + 3]])
}

fn mount(data: Vec<u8>) -> FileSystem<MemDisk> {
    match FileSystem::new(MemDisk::from_bytes(data)) {
        Ok(fs) => fs,
        Err(e) => panic!("mount: {:?}", e),
    }
}

fn volume(data: Vec<u8>) -> Volume<MemDisk> {
    mount(data).vol
}

fn entry(name: &[u8; 11], attrs: u8, cluster: u32, size: u32) -> [u8; 32] {
    let mut e = [0_u8; 32];
    e[..11].copy_from_slice(name);
    e[11] = attrs;
    e[20..22].copy_from_slice(&((cluster >> 16) as u16).to_le_bytes());
    e[26..28].copy_from_slice(&(cluster as u16).to_le_bytes());
    e[28..32].copy_from_slice(&size.to_le_bytes());
    e
}

fn put(data: &mut [u8], at: usize, e: &[u8]) {
    data[at..at + e.len()].copy_from_slice(e);
}

// -- bytes ------------------------------------------------------------------------------

#[test]
fn little_endian_fields() {
    let buf = [0x78, 0x56, 0x34, 0x12, 0xFF];
    assert_eq!(get_u16(&buf, 0), 0x5678);
    assert_eq!(get_u16(&buf, 3), 0xFF12);
    assert_eq!(get_u32(&buf, 0), 0x1234_5678);
    assert_eq!(get_u32(&buf, 1), 0xFF12_3456);
    assert_eq!(u16_to_bytes(0xABCD), [0xCD, 0xAB]);
    assert_eq!(u32_to_bytes(0x1234_5678), [0x78, 0x56, 0x34, 0x12]);
    let mut out = [0_u8; 6];
    put_u32(&mut out, 1, 0xDEAD_BEEF);
    assert_eq!(out, [0, 0xEF, 0xBE, 0xAD, 0xDE, 0]);
    assert_eq!(get_u32(&out, 1), 0xDEAD_BEEF);
}

// -- modes ------------------------------------------------------------------------------

#[test]
fn modes_have_their_bits() {
    assert_eq!(RepairMode::fat_signatures().bits, 0x0001);
    assert_eq!(RepairMode::chains().bits, 0x0002);
    assert_eq!(RepairMode::entry_validity().bits, 0x0004);
    assert_eq!(RepairMode::long_names().bits, 0x0008);
    assert_eq!(RepairMode::orphan_clusters().bits, 0x0010);
    assert_eq!(RepairMode::fs_info().bits, 0x0020);
    assert_eq!(RepairMode::fat_mirrors().bits, 0x0040);
    assert_eq!(RepairMode::dry_run().bits, 0x0080);
    assert_eq!(RepairMode::minimal().bits, 0x006F);
    assert_eq!(RepairMode::all().bits, 0x007F);
    assert_eq!(RepairMode::empty().bits, 0);
    assert_eq!(RepairMode::default(), RepairMode::minimal());
}

#[test]
fn modes_combine() {
    let dry = RepairMode::all().union(RepairMode::dry_run());
    assert!(RepairMode::all().writes());
    assert!(!dry.writes());
    assert!(RepairMode::all().marks());
    assert!(!RepairMode::minimal().marks());
    assert!(!dry.marks());
    assert!(dry.contains(RepairMode::chains()));
    assert!(!dry.applies(RepairMode::chains()));
    assert!(RepairMode::minimal().applies(RepairMode::chains()));
    assert!(!RepairMode::chains().contains(RepairMode::minimal()));
    assert_eq!(RepairMode::all().difference(RepairMode::orphan_clusters()), RepairMode::minimal());
    let mut mode = RepairMode::all();
    mode.remove(RepairMode::orphan_clusters());
    assert_eq!(mode, RepairMode::minimal());
}

#[test]
fn a_report_starts_at_nothing() {
    let stats = RepairStats::starting(RepairMode::chains());
    assert_eq!(stats.modes_applied, RepairMode::chains());
    assert_eq!(stats.dirs_scanned, 0);
    assert_eq!(stats.clusters_freed, 0);
    assert_eq!(RepairStats::default(), RepairStats::starting(RepairMode::minimal()));
}

// -- progress ----------------------------------------------------------------------------

#[test]
fn tickers_tick() {
    assert_eq!(PROGRESS_REPORTS_PER_PHASE, 10);
    assert_eq!(PROGRESS_ENTRY_INTERVAL, 256);
    let mut t = Ticker::new(100);
    assert_eq!((t.step, t.next), (10, 10));
    assert!(!t.tick(9));
    assert!(t.tick(10));
    assert_eq!(t.next, 20);
    assert!(!t.tick(19));
    assert!(t.tick(37));
    assert_eq!(t.next, 47);
    assert_eq!(Ticker::new(3).step, 1);
    let mut t = Ticker::every(u32::MAX);
    assert!(t.tick(u32::MAX));
    assert_eq!(t.next, u32::MAX);
}

#[test]
fn percentages_are_rounded() {
    assert_eq!(percent(0, 0), 100);
    assert_eq!(percent(0, 7), 0);
    assert_eq!(percent(1, 3), 33);
    assert_eq!(percent(2, 3), 67);
    assert_eq!(percent(1, 200), 1);
    assert_eq!(percent(9, 3), 100);
    assert_eq!(percent(u32::MAX, u32::MAX), 100);
}

// -- scratch ------------------------------------------------------------------------------

#[test]
fn the_scratch_stack_keeps_frames() {
    assert_eq!(REPAIR_FRAME_SIZE, 12);
    assert_eq!(scratch_size_for_depth(3), 36);
    let mut buf = [0xAA_u8; 31];
    let mut scratch = RepairScratch::new(&mut buf);
    assert_eq!(scratch.max_depth(), 2);
    assert!(scratch.is_empty());
    assert!(!scratch.is_full());
    let one = DirFrame { cluster: 0x0102_0304, parent: 5, resume: 64 };
    let two = DirFrame { cluster: 7, parent: 0x0102_0304, resume: 0 };
    scratch.push(one);
    assert_eq!(scratch.top(), one);
    scratch.push(two);
    assert!(scratch.is_full());
    scratch.set_top_resume(96);
    assert_eq!(scratch.top(), DirFrame { resume: 96, ..two });
    scratch.pop();
    assert_eq!(scratch.top(), one);
    scratch.pop();
    assert!(scratch.is_empty());
}

// -- storage ------------------------------------------------------------------------------

#[test]
fn a_memory_disk_keeps_what_is_written() {
    let mut disk = MemDisk::from_bytes(vec![1, 2, 3, 4, 5]);
    assert_eq!(disk.capacity(), Ok(5));
    assert_eq!(disk.write_all(1, &[9, 8]), Ok(()));
    assert_eq!(disk.flush(), Ok(()));
    let mut buf = [0_u8; 3];
    assert_eq!(disk.read_exact(0, &mut buf), Ok::<(), NoError>(()));
    assert_eq!(buf, [1, 9, 8]);
    assert_eq!(disk.as_bytes(), &[1, 9, 8, 4, 5]);
    assert_eq!(disk.into_bytes(), vec![1, 9, 8, 4, 5]);
}

// -- the boot sector -----------------------------------------------------------------------

#[test]
fn a_boot_sector_gives_the_layout() {
    let capacity = u64::from(32 + 2 * SPF + CLUSTERS) * 512;
    let (fat_type, g) = read_layout(&boot(), capacity).expect("layout");
    assert_eq!(fat_type, FatType::Fat32);
    assert_eq!(g.cluster_size, 512);
    assert_eq!(g.fat_start, 32 * 512);
    assert_eq!(g.fat_size, u64::from(SPF) * 512);
    assert_eq!((g.fats, g.first_mirror, g.mirrors), (2, 0, 2));
    assert_eq!(g.data_start, u64::from(32 + 2 * SPF) * 512);
    assert_eq!(g.total_clusters, CLUSTERS);
    assert_eq!(g.root_dir_first_cluster, 2);
    assert_eq!(g.fs_info_start, 512);
    assert_eq!(g.media, 0xF8);
    assert_eq!(&g.volume_label, b"UNITS      ");

    // With mirroring off only the active copy counts.
    let mut single = boot();
    single[40] = 0x81;
    let (_, g) = read_layout(&single, capacity).expect("layout");
    assert_eq!((g.fats, g.first_mirror, g.mirrors), (2, 1, 1));
}

#[test]
fn unsound_boot_sectors_are_rejected() {
    let capacity = u64::from(32 + 2 * SPF + CLUSTERS) * 512;
    let spoil: [(&str, fn(&mut [u8; 512])); 12] = [
        ("signature", |b| b[511] = 0),
        ("sector size", |b| b[12] = 3),
        ("cluster size", |b| b[13] = 3),
        ("no reserved sectors", |b| b[14] = 0),
        ("no FAT", |b| b[16] = 0),
        ("no FAT size", |b| b[36..40].copy_from_slice(&[0; 4])),
        ("FAT too small", |b| b[36..40].copy_from_slice(&512_u32.to_le_bytes())),
        ("no sectors", |b| b[32..36].copy_from_slice(&100_u32.to_le_bytes())),
        ("root", |b| b[44] = 1),
        ("FSInfo", |b| b[48] = 32),
        ("version", |b| b[42] = 1),
        ("active FAT", |b| b[40] = 0x82),
    ];
    for (what, f) in spoil {
        let mut b = boot();
        f(&mut b);
        assert!(read_layout(&b, capacity).is_none(), "{}", what);
    }
    assert!(read_layout(&boot(), capacity - 1).is_none(), "device too small");
}

#[test]
fn unsound_volumes_do_not_mount() {
    for data in [vec![0_u8; 100], vec![0_u8; 4096]] {
        assert!(matches!(FileSystem::new(MemDisk::from_bytes(data)), Err(Error::CorruptedFileSystem)));
    }
    let mut data = image();
    data[512] = 0;
    assert!(matches!(FileSystem::new(MemDisk::from_bytes(data)), Err(Error::CorruptedFileSystem)));
}

#[test]
fn hints_that_cannot_be_right_are_unknown() {
    let fs = mount(image());
    assert_eq!(fs.free_cluster_count_hint(), Some(CLUSTERS - 1));
    assert_eq!(fs.info.next_free_cluster, Some(3));

    let mut data = image();
    put(&mut data, 1000, &(CLUSTERS + 1).to_le_bytes());
    put(&mut data, 1004, &1_u32.to_le_bytes());
    let fs = mount(data);
    assert_eq!(fs.free_cluster_count_hint(), None);
    assert_eq!(fs.info.next_free_cluster, None);

    // The count of a volume that was not unmounted cleanly is not trusted.
    let mut data = image();
    data[0x41] = 1;
    assert_eq!(mount(data).free_cluster_count_hint(), None);
}

// -- geometry -------------------------------------------------------------------------------

fn geometry(cluster_size: u32) -> Geometry {
    Geometry { cluster_size, ..volume(image()).geom }
}

#[test]
fn sizes_of_chains() {
    let g = geometry(512);
    assert_eq!(g.fat_entry_count(), CLUSTERS + 2);
    assert!(!g.is_valid_cluster(1));
    assert!(g.is_valid_cluster(2));
    assert!(g.is_valid_cluster(CLUSTERS + 1));
    assert!(!g.is_valid_cluster(CLUSTERS + 2));
    assert_eq!(g.max_dir_clusters(), 4096);
    assert_eq!(geometry(0x8_0000).max_dir_clusters(), 4);
    assert_eq!(g.clusters_from_bytes(0), 0);
    assert_eq!(g.clusters_from_bytes(1), 1);
    assert_eq!(g.clusters_from_bytes(512), 1);
    assert_eq!(g.clusters_from_bytes(513), 2);
    assert_eq!(g.clusters_from_bytes(u32::MAX), 0x80_0000);
}

// -- FAT entries ----------------------------------------------------------------------------

#[test]
fn raw_entries_are_classified() {
    assert_eq!(classify(0), FatEntry::Free);
    assert_eq!(classify(0xF000_0000), FatEntry::Free);
    assert_eq!(classify(0x0FFF_FFF7), FatEntry::Bad);
    assert_eq!(classify(0x0FFF_FFF8), FatEntry::EndOfChain);
    assert_eq!(classify(0xFFFF_FFFF), FatEntry::EndOfChain);
    assert_eq!(classify(0x1000_0005), FatEntry::Data(5));
    assert_eq!(classify(0x0FFF_FFF6), FatEntry::Data(0x0FFF_FFF6));
    assert!(is_visited(0x1000_0000));
    assert!(!is_visited(0xEFFF_FFFF));
}

#[test]
fn fat_writes_reach_every_copy() {
    let mut vol = volume(image());
    write_fat_raw(&mut vol, 9, 0x1234_5678).expect("write");
    assert_eq!(read_fat_raw(&mut vol, 9).expect("read"), 0x1234_5678);
    assert_eq!(read_fat_copy(&mut vol, 0, 9).expect("read"), 0x1234_5678);
    assert_eq!(read_fat_copy(&mut vol, 1, 9).expect("read"), 0x1234_5678);
    write_fat_value(&mut vol, 9, EOC).expect("write");
    assert_eq!(read_fat_raw(&mut vol, 9).expect("read"), 0x1FFF_FFFF);
    assert_eq!(read_fat_raw(&mut vol, 8).expect("read"), 0);
    assert_eq!(read_fat_raw(&mut vol, 10).expect("read"), 0);
}

// -- passes over the FAT -----------------------------------------------------------------------

#[test]
fn markers_are_cleared_and_a_second_time_changes_nothing() {
    let mut data = image();
    set_fat(&mut data, 5, 0x1000_0006);
    set_fat(&mut data, 6, 0xFFFF_FFFF);
    let mut vol = volume(data.clone());
    clear_visited_flags(&mut vol).expect("clear");
    set_fat(&mut data, 5, 6);
    set_fat(&mut data, 6, 0xEFFF_FFFF);
    assert_eq!(vol.disk.as_bytes(), &data[..]);
    clear_visited_flags(&mut vol).expect("clear");
    assert_eq!(vol.disk.as_bytes(), &data[..]);
}

#[test]
fn reserved_entries_are_restored() {
    let mut data = image();
    set_fat(&mut data, 0, 0x0FFF_FFF0);
    set_fat(&mut data, 1, 0x0300_0000);
    let mut vol = volume(data);
    let mut stats = RepairStats::default();
    fix_reserved_entries(&mut vol, RepairMode::chains(), &mut stats).expect("fix");
    assert_eq!(stats.reserved_entries_restored, 2);
    assert_eq!(read_fat_raw(&mut vol, 0).expect("read"), 0x0FFF_FFF0);
    fix_reserved_entries(&mut vol, RepairMode::fat_signatures(), &mut stats).expect("fix");
    assert_eq!(stats.reserved_entries_restored, 4);
    assert_eq!(vol.disk.as_bytes(), &image()[..]);
    fix_reserved_entries(&mut vol, RepairMode::fat_signatures(), &mut stats).expect("fix");
    assert_eq!(stats.reserved_entries_restored, 4);
}

#[test]
fn status_bits_are_no_damage() {
    let mut data = image();
    set_fat(&mut data, 1, 0x03FF_FFFF);
    let mut vol = volume(data.clone());
    let mut stats = RepairStats::default();
    fix_reserved_entries(&mut vol, RepairMode::all(), &mut stats).expect("fix");
    assert_eq!(stats.reserved_entries_restored, 0);
    assert_eq!(vol.disk.as_bytes(), &data[..]);
}

#[test]
fn mirrors_follow_the_first_copy() {
    let mut data = image();
    let at = fat_at(1, 7);
    put(&mut data, at, &99_u32.to_le_bytes());
    let mut vol = volume(data);
    let mut stats = RepairStats::default();
    let free = scan_fat_copies(&mut vol, RepairMode::fat_mirrors(), &mut stats).expect("scan");
    assert_eq!(free, FreeSpace { count: CLUSTERS - 1, first: Some(3) });
    assert_eq!(stats.mirror_entries_synced, 1);
    assert_eq!(vol.disk.as_bytes(), &image()[..]);
    scan_fat_copies(&mut vol, RepairMode::fat_mirrors(), &mut stats).expect("scan");
    assert_eq!(stats.mirror_entries_synced, 1);
    assert_eq!(count_free_clusters(&mut vol).expect("count"), CLUSTERS - 1);

    // The reserved entries take part.
    let mut data = image();
    let at = fat_at(1, 0);
    put(&mut data, at, &0_u32.to_le_bytes());
    let (after, stats) = repaired(data, RepairMode::fat_mirrors());
    assert_eq!(stats.mirror_entries_synced, 1);
    assert_eq!(get_fat(&after, 1, 0), get_fat(&after, 0, 0));
}

#[test]
fn a_copy_that_is_not_kept_in_step_is_not_compared() {
    let mut data = image();
    // Mirroring off, and the second copy in use.
    put(&mut data, 40, &0x0081_u16.to_le_bytes());
    let at = fat_at(0, 7);
    put(&mut data, at, &99_u32.to_le_bytes());
    let (after, stats) = repaired(data.clone(), RepairMode::fat_mirrors());
    assert_eq!(stats.mirror_entries_synced, 0);
    assert_eq!(get_fat(&after, 0, 7), 99);
}

#[test]
fn free_space_is_noted() {
    let mut free = FreeSpace { count: 0, first: None };
    free.note(9);
    free.note(11);
    assert_eq!(free, FreeSpace { count: 2, first: Some(9) });
}

#[test]
fn the_sweep_frees_chains_of_orphans() {
    let mut data = image();
    set_fat(&mut data, 2, 0x1FFF_FFFF);
    set_fat(&mut data, 4, 5);
    set_fat(&mut data, 5, EOC);
    set_fat(&mut data, 6, 0x0FFF_FFF7);
    set_fat(&mut data, 7, EOC);

    let mut vol = volume(data.clone());
    let mut stats = RepairStats::default();
    let free = sweep_orphans(&mut vol, &mut stats, false).expect("sweep");
    assert_eq!(free, FreeSpace { count: CLUSTERS - 5, first: Some(3) });
    assert_eq!((stats.orphans_freed, stats.clusters_freed), (0, 0));
    assert_eq!(get_fat(vol.disk.as_bytes(), 0, 2), EOC);
    assert_eq!(get_fat(vol.disk.as_bytes(), 0, 4), 5);

    let mut vol = volume(data);
    let free = sweep_orphans(&mut vol, &mut stats, true).expect("sweep");
    assert_eq!(free, FreeSpace { count: CLUSTERS - 2, first: Some(3) });
    assert_eq!((stats.orphans_freed, stats.clusters_freed), (2, 3));
    for copy in 0..2 {
        assert_eq!(get_fat(vol.disk.as_bytes(), copy, 4), 0);
        assert_eq!(get_fat(vol.disk.as_bytes(), copy, 5), 0);
        assert_eq!(get_fat(vol.disk.as_bytes(), copy, 6), 0x0FFF_FFF7);
        assert_eq!(get_fat(vol.disk.as_bytes(), copy, 7), 0);
    }

    // Neighbours are not one chain, and a chain need not go up.
    let mut data = image();
    set_fat(&mut data, 2, 0x1FFF_FFFF);
    set_fat(&mut data, 10, EOC);
    set_fat(&mut data, 11, EOC);
    set_fat(&mut data, 20, 12);
    set_fat(&mut data, 12, EOC);
    let mut vol = volume(data);
    let mut stats = RepairStats::default();
    sweep_orphans(&mut vol, &mut stats, true).expect("sweep");
    assert_eq!((stats.orphans_freed, stats.clusters_freed), (3, 4));
}

#[test]
fn a_ring_of_orphans_counts_once() {
    // Two rings, one of them of a single cluster, and a chain that leads into the other.
    let mut data = image();
    set_fat(&mut data, 2, 0x1FFF_FFFF);
    set_fat(&mut data, 10, 12);
    set_fat(&mut data, 12, 11);
    set_fat(&mut data, 11, 10);
    set_fat(&mut data, 20, 20);
    set_fat(&mut data, 30, 12);
    // A circle that runs into what the walk has reached is a chain with an end.
    set_fat(&mut data, 40, 41);
    set_fat(&mut data, 41, 2);
    let mut vol = volume(data);
    let mut stats = RepairStats::default();
    sweep_orphans(&mut vol, &mut stats, true).expect("sweep");
    assert_eq!((stats.orphans_freed, stats.clusters_freed), (3, 7));
}

// -- chains ------------------------------------------------------------------------------------

fn scan(data: Vec<u8>, start: u32, limit: Option<u32>, mode: RepairMode) -> (Vec<u8>, ChainScan, RepairStats) {
    let mut vol = volume(data);
    let mut stats = RepairStats::default();
    let found = scan_chain(&mut vol, start, limit, mode, &mut stats).expect("scan");
    (vol.disk.into_bytes(), found, stats)
}

#[test]
fn a_sound_chain_is_counted() {
    let mut data = image();
    set_fat(&mut data, 10, 11);
    set_fat(&mut data, 11, 12);
    set_fat(&mut data, 12, EOC);
    let (after, found, stats) = scan(data.clone(), 10, None, RepairMode::minimal());
    assert_eq!(found, ChainScan { clusters: 3, truncated: false, cross_linked: false });
    assert_eq!(stats, RepairStats::default());
    assert_eq!(after, data);

    // Marking shows in the FAT, and nowhere else.
    let (after, found, _) = scan(data.clone(), 10, None, RepairMode::all());
    assert_eq!(found.clusters, 3);
    set_fat(&mut data, 10, 0x1000_000B);
    set_fat(&mut data, 11, 0x1000_000C);
    set_fat(&mut data, 12, 0x1FFF_FFFF);
    assert_eq!(after, data);
}

#[test]
fn chains_are_cut_where_they_stop_making_sense() {
    let mut data = image();
    set_fat(&mut data, 10, 11);
    for (last, what) in [(1, "reserved"), (CLUSTERS + 2, "out of range"), (12, "free"), (13, "bad")] {
        let mut data = data.clone();
        set_fat(&mut data, 13, 0x0FFF_FFF7);
        set_fat(&mut data, 11, last);
        let (after, found, stats) = scan(data, 10, None, RepairMode::chains());
        assert_eq!(found, ChainScan { clusters: 2, truncated: true, cross_linked: false }, "{}", what);
        assert_eq!(stats.chains_truncated, 1);
        assert_eq!(get_fat(&after, 0, 10), 11);
        assert_eq!(get_fat(&after, 0, 11), EOC);
    }
    // Past the limit, the rest is not part of the chain.
    set_fat(&mut data, 11, 12);
    set_fat(&mut data, 12, EOC);
    let (after, found, _) = scan(data.clone(), 10, Some(2), RepairMode::chains());
    assert_eq!(found, ChainScan { clusters: 2, truncated: true, cross_linked: false });
    assert_eq!(get_fat(&after, 1, 11), EOC);
    // No cluster is taken where the limit is none.
    let (after, found, stats) = scan(data.clone(), 10, Some(0), RepairMode::all());
    assert_eq!(found, ChainScan { clusters: 0, truncated: true, cross_linked: false });
    assert_eq!(stats.chains_truncated, 1);
    assert_eq!(after, data);
    // Without leave to cut, it is only counted.
    let (after, _, stats) = scan(data.clone(), 10, Some(2), RepairMode::fs_info());
    assert_eq!(stats.chains_truncated, 1);
    assert_eq!(after, data);
    // A start outside the volume is no chain at all.
    let (after, found, stats) = scan(data.clone(), 1, None, RepairMode::all());
    assert_eq!(found, ChainScan { clusters: 0, truncated: true, cross_linked: false });
    assert_eq!(stats.chains_truncated, 0);
    assert_eq!(after, data);
}

#[test]
fn claimed_clusters_are_left_to_their_owner() {
    let mut data = image();
    set_fat(&mut data, 10, 11);
    set_fat(&mut data, 11, 0x1FFF_FFFF);
    let (after, found, stats) = scan(data.clone(), 10, None, RepairMode::all());
    assert_eq!(found, ChainScan { clusters: 1, truncated: true, cross_linked: true });
    assert_eq!((stats.chains_truncated, stats.cross_links_resolved), (1, 1));
    assert_eq!(get_fat(&after, 0, 10), 0x1FFF_FFFF);
    // A run that does not mark takes no notice of markers.
    let (after, found, _) = scan(data.clone(), 10, None, RepairMode::minimal());
    assert_eq!(found, ChainScan { clusters: 2, truncated: false, cross_linked: false });
    assert_eq!(after, data);
}

#[test]
fn a_circle_ends() {
    let mut data = image();
    set_fat(&mut data, 10, 11);
    set_fat(&mut data, 11, 10);
    for limit in [None, Some(10)] {
        let (after, found, stats) = scan(data.clone(), 10, limit, RepairMode::chains());
        assert_eq!(found, ChainScan { clusters: 2, truncated: true, cross_linked: false });
        assert_eq!((stats.chains_truncated, stats.cross_links_resolved), (1, 0));
        assert_eq!((get_fat(&after, 0, 10), get_fat(&after, 0, 11)), (11, EOC));
        let (after, found, stats) = scan(data.clone(), 10, limit, RepairMode::all());
        assert_eq!(found, ChainScan { clusters: 2, truncated: true, cross_linked: false });
        assert_eq!((stats.chains_truncated, stats.cross_links_resolved), (1, 0));
        assert_eq!((get_fat(&after, 0, 10), get_fat(&after, 0, 11)), (0x1000_000B, 0x1FFF_FFFF));
    }
    // A circle is left alone where the file ends in front of it.
    let (after, found, _) = scan(data.clone(), 10, Some(1), RepairMode::fs_info());
    assert_eq!(found, ChainScan { clusters: 1, truncated: true, cross_linked: false });
    assert_eq!(after, data);
    // A tail that leads into a circle.
    set_fat(&mut data, 11, 12);
    set_fat(&mut data, 12, 11);
    let (after, found, _) = scan(data, 10, Some(50), RepairMode::chains());
    assert_eq!(found, ChainScan { clusters: 3, truncated: true, cross_linked: false });
    assert_eq!(get_fat(&after, 1, 12), EOC);
}

#[test]
fn a_cross_link_is_cut_whenever_orphans_are_looked_for() {
    let mut data = image();
    set_fat(&mut data, 5, 6);
    set_fat(&mut data, 6, 0x1000_0007);
    let (after, found, stats) = scan(data, 5, None, RepairMode::orphan_clusters());
    assert_eq!(found, ChainScan { clusters: 1, truncated: true, cross_linked: true });
    assert_eq!((stats.chains_truncated, stats.cross_links_resolved), (1, 1));
    assert_eq!(get_fat(&after, 0, 5), 0x1FFF_FFFF);
    assert_eq!(get_fat(&after, 0, 6), 0x1000_0007);
}

// -- directory entries ---------------------------------------------------------------------------

#[test]
fn entries_are_read_and_edited() {
    let mut data = DirEntryData { raw: entry(b"LOG     TXT", 0x20, 0x0003_0004, 700) };
    assert!(!data.is_end() && !data.is_deleted() && !data.is_lfn() && !data.is_volume() && !data.is_dir());
    assert_eq!(&data.name(), b"LOG     TXT");
    assert_eq!(data.first_cluster(), Some(0x0003_0004));
    assert_eq!(data.size(), 700);
    data.set_first_cluster(0);
    assert_eq!(data.first_cluster(), None);
    data.set_first_cluster(0x0102_0304);
    data.set_size(5);
    assert_eq!(data.raw, entry(b"LOG     TXT", 0x20, 0x0102_0304, 5));
    let dir = DirEntryData { raw: entry(b"DATA       ", 0x10, 9, 700) };
    assert!(dir.is_dir());
    assert_eq!(dir.size(), 0);
    let mut lfn = DirEntryData { raw: [0x41; 32] };
    lfn.raw[11] = 0x0F;
    lfn.raw[13] = 0x77;
    assert!(lfn.is_lfn());
    assert_eq!(lfn.checksum(), 0x77);
    assert!(DirEntryData { raw: [0; 32] }.is_end());
    assert!(DirEntryData { raw: [0xE5; 32] }.is_deleted());
    assert!(attrs_are_possible(&dir));
    assert!(!attrs_are_possible(&DirEntryData { raw: entry(b"X          ", 0x18, 0, 0) }));
}

#[test]
fn names_are_judged() {
    assert!(is_dot_or_dotdot(b".          "));
    assert!(is_dot_or_dotdot(b"..         "));
    assert!(!is_dot_or_dotdot(b".X         "));
    assert!(!is_dot_or_dotdot(b"A          "));
    assert!(!is_name_corrupted(b"LOG     TXT"));
    assert!(is_name_corrupted(b"LO\x1FG    TXT"));
    assert!(!is_name_corrupted(b"\x05OG     TXT"));
    assert!(is_name_corrupted(b"L\x05G     TXT"));
    assert!(is_name_corrupted(b"LOG     TX\x00"));
    assert!(is_dots(&DirEntryData { raw: entry(b".          ", 0x10, 0, 0) }, 1));
    assert!(!is_dots(&DirEntryData { raw: entry(b".          ", 0x20, 0, 0) }, 1));
    assert!(!is_dots(&DirEntryData { raw: entry(b"..         ", 0x10, 0, 0) }, 1));
    assert!(is_dots(&DirEntryData { raw: entry(b"..         ", 0x10, 0, 0) }, 2));
}

#[test]
fn checksums_and_recovery_names() {
    assert_eq!(lfn_checksum(b"SENSOR~1TXT"), 0xb5);
    assert_eq!(lfn_checksum(b"FOO     BAR"), 0x53);
    assert_eq!(lfn_checksum(&[0; 11]), 0);
    assert_eq!(&recovery_name(0), b"FSCK0000REC");
    assert_eq!(&recovery_name(0x2AF), b"FSCK02AFREC");
    assert_eq!(&recovery_name(0xABCD), b"FSCKABCDREC");
    assert_eq!(&recovery_name(0x1_0000), b"FSCK0000REC");
}

#[test]
fn recovered_names_differ() {
    let mut seen = std::collections::HashSet::new();
    for i in 0..0x1_0000 {
        assert!(seen.insert(recovery_name(i)), "{} twice", i);
    }
}

// -- directories ----------------------------------------------------------------------------------

/// A root directory of two clusters, 2 and 9.
fn two_cluster_root() -> Vec<u8> {
    let mut data = image();
    set_fat(&mut data, 2, 9);
    set_fat(&mut data, 9, EOC);
    for i in 0..32 {
        let at = if i < 16 { cluster_at(2) + i * 32 } else { cluster_at(9) + (i - 16) * 32 };
        let mut name = *b"FILE    TXT";
        name[4] = b'A' + (i / 10) as u8;
        name[5] = b'0' + (i % 10) as u8;
        put(&mut data, at, &entry(&name, 0x20, 0, 0));
    }
    data
}

#[test]
fn cursors_follow_the_chain() {
    let mut vol = volume(two_cluster_root());
    assert_eq!(seek(&mut vol, 2, 480).expect("seek"), Some(Cursor { pos: 480, cluster: 2 }));
    assert_eq!(seek(&mut vol, 2, 512).expect("seek"), Some(Cursor { pos: 512, cluster: 9 }));
    assert_eq!(seek(&mut vol, 2, 1024).expect("seek"), None);
    let next = advance(&mut vol, Cursor { pos: 480, cluster: 2 }).expect("advance");
    assert_eq!(next, Some(Cursor { pos: 512, cluster: 9 }));
    assert_eq!(advance(&mut vol, Cursor { pos: 992, cluster: 9 }).expect("advance"), None);
    let data = read_entry(&mut vol, cluster_at(9) as u64).expect("read");
    assert_eq!(&data.name(), b"FILEB6  TXT");
    assert_eq!(open_dir(&vol, 0), 2);
    assert_eq!(open_dir(&vol, 9), 9);

    // A link to a reserved number is an error; one out of the volume ends the directory.
    let mut data = two_cluster_root();
    set_fat(&mut data, 2, 1);
    assert!(matches!(seek(&mut volume(data.clone()), 2, 512), Err(Error::CorruptedFileSystem)));
    set_fat(&mut data, 2, CLUSTERS + 9);
    assert_eq!(seek(&mut volume(data), 2, 512).expect("seek"), None);
}

#[test]
fn runs_of_entries_are_deleted_across_clusters() {
    let data = two_cluster_root();
    let mut vol = volume(data.clone());
    let mut stats = RepairStats::default();
    delete_range(&mut vol, 2, 448, 576, RepairMode::minimal(), RepairMode::long_names(), &mut stats).expect("delete");
    assert_eq!(stats.entries_removed, 1);
    let mut want = data;
    for at in [cluster_at(2) + 448, cluster_at(2) + 480, cluster_at(9), cluster_at(9) + 32] {
        want[at] = 0xE5;
    }
    assert_eq!(vol.disk.as_bytes(), &want[..]);

    // Only counted without leave.
    delete_range(&mut vol, 2, 0, 32, RepairMode::chains(), RepairMode::long_names(), &mut stats).expect("delete");
    assert_eq!(stats.entries_removed, 2);
    assert_eq!(vol.disk.as_bytes(), &want[..]);

    // A run that is longer than the directory.
    let res = delete_range(&mut vol, 2, 992, 1088, RepairMode::all(), RepairMode::long_names(), &mut stats);
    assert!(matches!(res, Err(Error::UnexpectedEof)));
    assert_eq!(vol.disk.as_bytes()[cluster_at(9) + 480], 0xE5);
}

#[test]
fn dot_entries_point_home() {
    let mut data = image();
    set_fat(&mut data, 20, EOC);
    let at = cluster_at(20);
    put(&mut data, at, &entry(b"..         ", 0x10, 77, 0));
    let frame = DirFrame { cluster: 20, parent: 0x0001_0002, resume: 0 };
    let mut vol = volume(data);
    let mut stats = RepairStats::default();
    let e = read_entry(&mut vol, at as u64).expect("read");
    fix_dot_entry(&mut vol, &e, at as u64, frame, RepairMode::entry_validity(), &mut stats).expect("fix");
    assert_eq!(stats.dot_entries_fixed, 1);
    assert_eq!(&vol.disk.as_bytes()[at..at + 32], &entry(b"..         ", 0x10, 0x0001_0002, 0));
}

#[test]
fn a_directory_starts_with_its_dots() {
    let mut data = image();
    set_fat(&mut data, 20, EOC);
    let at = cluster_at(20);
    put(&mut data, at, &entry(b".          ", 0x10, 20, 0));
    assert!(!looks_like_directory(&mut volume(data.clone()), 20).expect("look"));
    put(&mut data, at + 32, &entry(b"..         ", 0x10, 12345, 0));
    assert!(looks_like_directory(&mut volume(data.clone()), 20).expect("look"));
    data[at + 11] = 0x20;
    assert!(!looks_like_directory(&mut volume(data), 20).expect("look"));
}

/// Put `e` in the first slot of the root, check it, and return what became of the volume.
fn check_one(mut data: Vec<u8>, e: &[u8; 32], mode: RepairMode) -> (Vec<u8>, Option<u32>, RepairStats) {
    let at = cluster_at(2);
    put(&mut data, at, e);
    let mut vol = volume(data);
    let mut stats = RepairStats::default();
    let site = EntrySite { pos: 0, run_start: 0, abs_pos: at as u64 };
    let found = check_entry(&mut vol, 2, &DirEntryData { raw: *e }, site, mode, &mut stats).expect("check");
    (vol.disk.into_bytes(), found, stats)
}

#[test]
fn entries_are_checked() {
    let mut data = image();
    set_fat(&mut data, 30, 31);
    set_fat(&mut data, 31, EOC);
    let slot = |data: &[u8]| data[cluster_at(2)..cluster_at(2) + 32].to_vec();

    // Sound.
    let e = entry(b"LOG     TXT", 0x20, 30, 1024);
    let (after, found, stats) = check_one(data.clone(), &e, RepairMode::minimal());
    assert_eq!((slot(&after), found, stats), (e.to_vec(), None, RepairStats::default()));

    // Longer than its chain.
    let (after, _, stats) = check_one(data.clone(), &entry(b"LOG     TXT", 0x20, 30, 4000), RepairMode::minimal());
    assert_eq!(slot(&after), e.to_vec());
    assert_eq!(stats.sizes_corrected, 1);

    // No chain at all.
    let (after, _, stats) = check_one(data.clone(), &entry(b"LOG     TXT", 0x20, 40, 4000), RepairMode::minimal());
    assert_eq!(slot(&after), entry(b"LOG     TXT", 0x20, 0, 0).to_vec());
    assert_eq!((stats.sizes_corrected, stats.chains_truncated), (1, 1));

    // A size without a cluster.
    let (after, _, stats) = check_one(data.clone(), &entry(b"LOG     TXT", 0x20, 0, 9), RepairMode::minimal());
    assert_eq!(slot(&after), entry(b"LOG     TXT", 0x20, 0, 0).to_vec());
    assert_eq!(stats.sizes_corrected, 1);

    // Impossible attributes, and a cluster outside the volume.
    for e in [entry(b"LOG     TXT", 0x18, 30, 9), entry(b"LOG     TXT", 0x20, CLUSTERS + 2, 9)] {
        let (after, _, stats) = check_one(data.clone(), &e, RepairMode::minimal());
        assert_eq!(slot(&after)[0], 0xE5);
        assert_eq!(&slot(&after)[1..], &e[1..]);
        assert_eq!(stats.entries_removed, 1);
    }

    // An illegal name: renamed if there is data, removed if not. The other fields keep their values.
    let (after, _, stats) = check_one(data.clone(), &entry(b"L\x01G     TXT", 0x20, 30, 4000), RepairMode::minimal());
    assert_eq!(slot(&after), entry(b"FSCK0000REC", 0x20, 30, 1024).to_vec());
    assert_eq!((stats.entries_recovered, stats.sizes_corrected), (1, 1));
    let (after, _, _) = check_one(data.clone(), &entry(b"L\x01G     TXT", 0x20, 0, 0), RepairMode::minimal());
    assert_eq!(slot(&after)[0], 0xE5);

    // What claims to be a directory and is none is left alone.
    let e = entry(b"DIR        ", 0x10, 30, 0);
    let (after, found, stats) = check_one(data.clone(), &e, RepairMode::minimal());
    assert_eq!((slot(&after), found, stats.dirs_rejected), (e.to_vec(), None, 1));

    // A directory is descended into.
    put(&mut data, cluster_at(30), &entry(b".          ", 0x10, 30, 0));
    put(&mut data, cluster_at(30) + 32, &entry(b"..         ", 0x10, 0, 0));
    let (_, found, stats) = check_one(data, &e, RepairMode::minimal());
    assert_eq!((found, stats.dirs_rejected), (Some(30), 0));
}

#[test]
fn a_damaged_volume_label_comes_from_the_boot_sector() {
    let mut data = image();
    put(&mut data, cluster_at(2), &entry(b"UN\x02TS      ", 0x08, 0, 0));
    let mut vol = volume(data);
    let mut stats = RepairStats::default();
    let frame = DirFrame { cluster: 0, parent: 0, resume: 0 };
    let step = scan_dir(&mut vol, frame, RepairMode::minimal(), &mut stats).expect("scan");
    assert!(matches!(step, DirStep::Done));
    assert_eq!(stats.entries_recovered, 1);
    assert_eq!(&vol.disk.as_bytes()[cluster_at(2)..cluster_at(2) + 11], b"UNITS      ");
}

#[test]
fn a_scan_stops_for_subdirectories_and_resumes() {
    let mut data = image();
    set_fat(&mut data, 30, EOC);
    put(&mut data, cluster_at(2), &entry(b"DIR        ", 0x10, 30, 0));
    put(&mut data, cluster_at(2) + 32, &entry(b"EMPTY   TXT", 0x20, 0, 7));
    put(&mut data, cluster_at(30), &entry(b".          ", 0x10, 30, 0));
    put(&mut data, cluster_at(30) + 32, &entry(b"..         ", 0x10, 5, 0));
    let mut vol = volume(data.clone());
    let mut stats = RepairStats::default();
    let frame = DirFrame { cluster: 0, parent: 0, resume: 0 };
    let step = scan_dir(&mut vol, frame, RepairMode::minimal(), &mut stats).expect("scan");
    assert!(matches!(step, DirStep::Descend { cluster: 30, resume: 32 }));
    assert_eq!((stats.files_examined, stats.sizes_corrected), (1, 0));
    let step = scan_dir(&mut vol, DirFrame { resume: 32, ..frame }, RepairMode::minimal(), &mut stats).expect("scan");
    assert!(matches!(step, DirStep::Done));
    assert_eq!((stats.files_examined, stats.sizes_corrected), (2, 1));

    let mut vol = volume(data);
    let mut stats = RepairStats::default();
    let mut buf = [0_u8; 24];
    scan_tree(&mut vol, RepairMode::minimal(), &mut RepairScratch::new(&mut buf), &mut stats).expect("walk");
    assert_eq!((stats.dirs_scanned, stats.dirs_skipped, stats.dot_entries_fixed), (2, 0, 1));
}

#[test]
fn a_link_below_two_in_a_directory_is_an_error() {
    let mut data = two_cluster_root();
    set_fat(&mut data, 2, 1);
    let mut fs = mount(data.clone());
    let mut buf = [0_u8; 96];
    let mode = RepairMode::entry_validity();
    assert!(matches!(fs.repair(mode, &mut RepairScratch::new(&mut buf)), Err(Error::CorruptedFileSystem)));
    // Unless the chain may be cut.
    let (after, stats) = repaired(data, RepairMode::minimal());
    assert_eq!(stats.chains_truncated, 1);
    assert_eq!(get_fat(&after, 0, 2), EOC);
}

#[test]
fn the_chain_of_the_root_is_cut_by_a_run_that_does_not_mark() {
    let mut data = two_cluster_root();
    let next = get_fat(&data, 0, 2);
    set_fat(&mut data, next, 0);
    for b in &mut data[cluster_at(next)..cluster_at(next) + 512] {
        *b = 0;
    }
    let (after, stats) = repaired(data, RepairMode::minimal());
    assert_eq!(stats.chains_truncated, 1);
    assert_eq!(get_fat(&after, 0, 2) & EOC, EOC);
    // A circle ends too.
    let mut data = two_cluster_root();
    set_fat(&mut data, next, 2);
    let (after, stats) = repaired(data, RepairMode::minimal());
    assert_eq!((stats.chains_truncated, stats.dirs_scanned), (1, 1));
    assert_eq!(get_fat(&after, 0, next), EOC);
}

#[test]
fn a_label_with_impossible_attributes_is_removed() {
    let mut data = image();
    let e = entry(b"LABEL      ", 0x18, 0, 0);
    put(&mut data, cluster_at(2), &e);
    let (after, stats) = repaired(data, RepairMode::minimal());
    assert_eq!(stats.entries_removed, 1);
    assert_eq!(after[cluster_at(2)], 0xE5);
    assert_eq!(&after[cluster_at(2) + 1..cluster_at(2) + 32], &e[1..]);
}

#[test]
fn a_long_name_without_a_short_one_is_removed() {
    // In front of a deleted entry.
    let mut data = image();
    put(&mut data, cluster_at(2), &long_name(7));
    put(&mut data, cluster_at(2) + 32, &entry(b"\xE5OG     TXT", 0x20, 0, 0));
    let (after, stats) = repaired(data, RepairMode::minimal());
    assert_eq!(stats.entries_removed, 1);
    assert_eq!(after[cluster_at(2)], 0xE5);
    // At the end of a directory that fills its cluster.
    let mut data = image();
    for i in 0..16 {
        put(&mut data, cluster_at(2) + 32 * i, &entry(b"\xE5OG     TXT", 0x20, 0, 0));
    }
    put(&mut data, cluster_at(2) + 32 * 14, &long_name(7));
    put(&mut data, cluster_at(2) + 32 * 15, &long_name(7));
    let (after, stats) = repaired(data.clone(), RepairMode::minimal());
    assert_eq!(stats.entries_removed, 1);
    assert_eq!((after[cluster_at(2) + 32 * 14], after[cluster_at(2) + 32 * 15]), (0xE5, 0xE5));
    let (same, stats) = repaired(data.clone(), RepairMode::fs_info());
    assert_eq!(stats.entries_removed, 1);
    assert_eq!(same[cluster_at(2) + 32 * 14], data[cluster_at(2) + 32 * 14]);
}

#[test]
fn a_rejected_directory_is_not_touched() {
    let mut data = image();
    set_fat(&mut data, 20, EOC);
    let one = entry(b"ONE     TXT", 0x20, 20, 100);
    let dir = entry(b"D\x01R        ", 0x10, 20, 0);
    put(&mut data, cluster_at(2), &one);
    put(&mut data, cluster_at(2) + 32, &dir);
    // Its first cluster is the file's, or free.
    for cluster in [20_u32, 21] {
        let mut data = data.clone();
        put(&mut data, cluster_at(2) + 32 + 26, &(cluster as u16).to_le_bytes());
        let before = data[cluster_at(2)..cluster_at(2) + 64].to_vec();
        for _ in 0..2 {
            let (after, stats) = repaired(data.clone(), RepairMode::all());
            assert_eq!((stats.dirs_rejected, stats.entries_removed, stats.entries_recovered), (1, 0, 0));
            assert_eq!((stats.chains_truncated, stats.cross_links_resolved), (0, 0));
            assert_eq!(&after[cluster_at(2)..cluster_at(2) + 64], &before[..]);
            assert_eq!(get_fat(&after, 0, 20), EOC);
            data = after;
        }
    }
}

#[test]
fn an_empty_file_has_no_clusters() {
    let mut data = image();
    set_fat(&mut data, 5, EOC);
    put(&mut data, cluster_at(2), &entry(b"EMPTY   TXT", 0x20, 5, 0));
    let (after, stats) = repaired(data, RepairMode::all());
    assert_eq!(&after[cluster_at(2)..cluster_at(2) + 32], &entry(b"EMPTY   TXT", 0x20, 0, 0)[..]);
    assert_eq!(get_fat(&after, 0, 5), 0);
    assert_eq!((stats.orphans_freed, stats.clusters_freed, stats.sizes_corrected), (1, 1, 0));
}

// -- the FAT cache -----------------------------------------------------------------------------------

#[test]
fn a_new_cache_is_empty() {
    let cache = FatCache::new();
    assert_eq!(FAT_CACHE_SIZE, 512);
    assert!(cache.window.is_none());
    assert!(!cache.dirty);
    assert_eq!(cache.buf, [0_u8; 512]);
}

#[test]
fn the_cache_gives_back_what_was_written() {
    let mut fs = mount(image());
    let size = fs.vol.geom.fat_size;
    {
        let mut slice = CachedFatSlice::new(&mut fs, size);
        assert_eq!(slice.seek(SeekFrom::Start(508)), 508);
        // One access does not cross the end of a window.
        assert_eq!(slice.write(&[1, 2, 3, 4, 5, 6, 7, 8]).expect("write"), 4);
        assert_eq!(slice.offset, 512);
        assert_eq!(slice.write(&[5, 6, 7, 8]).expect("write"), 4);
        assert_eq!(slice.seek(SeekFrom::Current(-8)), 508);
        let mut buf = [0_u8; 8];
        assert_eq!(slice.read(&mut buf).expect("read"), 4);
        assert_eq!(buf, [1, 2, 3, 4, 0, 0, 0, 0]);
        assert_eq!(slice.read(&mut buf).expect("read"), 8);
        assert_eq!(buf, [5, 6, 7, 8, 0, 0, 0, 0]);
    }
    // The first window was stored when the second was asked for, in every copy; the second one is still held back.
    for copy in 0..2 {
        let at = fat_at(copy, 127);
        assert_eq!(&fs.vol.disk.as_bytes()[at..at + 4], &[1, 2, 3, 4]);
    }
    assert_eq!(fs.cache.window, Some(1));
    assert!(!fs.cache.dirty);
    {
        let mut slice = CachedFatSlice::new(&mut fs, size);
        slice.seek(SeekFrom::Start(516));
        slice.write(&[9]).expect("write");
        slice.flush().expect("flush");
    }
    for copy in 0..2 {
        let at = fat_at(copy, 128);
        assert_eq!(&fs.vol.disk.as_bytes()[at..at + 5], &[5, 6, 7, 8, 9]);
    }
    assert!(!fs.cache.dirty);
}

#[test]
fn the_cache_ends_with_the_slice() {
    let mut fs = mount(image());
    let mut slice = CachedFatSlice::new(&mut fs, 600);
    assert_eq!(slice.seek(SeekFrom::End(-2)), 598);
    let mut buf = [7_u8; 4];
    assert_eq!(slice.read(&mut buf).expect("read"), 2);
    assert_eq!(buf, [0, 0, 7, 7]);
    assert_eq!(slice.read(&mut buf).expect("read"), 0);
    assert_eq!(slice.write(&[1]).expect("write"), 0);
    assert_eq!(slice.seek(SeekFrom::Current(-700)), u64::MAX - 99);
    assert_eq!(slice.read(&mut buf).expect("read"), 0);
    slice.ensure_window(1).expect("load");
    assert_eq!(slice.fs.cache.window, Some(1));
}

#[test]
fn a_repair_starts_from_what_the_cache_held_back() {
    let mut fs = mount(image());
    {
        let size = fs.vol.geom.fat_size;
        let mut slice = CachedFatSlice::new(&mut fs, size);
        // An orphan, not on the device yet.
        slice.seek(SeekFrom::Start(40));
        slice.write(&EOC.to_le_bytes()).expect("write");
    }
    assert_eq!(get_fat(fs.vol.disk.as_bytes(), 0, 10), 0);
    let mut buf = [0_u8; 96];
    let stats = fs.repair(RepairMode::all(), &mut RepairScratch::new(&mut buf)).expect("repair");
    assert_eq!(stats.clusters_freed, 1);
    assert_eq!(fs.unmount().expect("unmount").into_bytes(), image());
}

// -- the mounted file system ---------------------------------------------------------------------------

#[test]
fn hints_are_stored_when_the_file_system_is_flushed() {
    let mut fs = mount(image());
    fs.set_verified_free_cluster_count(1234);
    fs.set_next_free_cluster_hint(77);
    assert_eq!(fs.free_cluster_count_hint(), Some(1234));
    let data = fs.unmount().expect("unmount").into_bytes();
    assert_eq!(get_u32(&data, 1000), 1234);
    assert_eq!(get_u32(&data, 1004), 77);
}

#[test]
fn a_verified_count_lets_a_flush_clear_the_dirty_flag() {
    let mut data = image();
    data[0x41] = 0b11;
    let mut fs = mount(data.clone());
    fs.flush().expect("flush");
    assert_eq!(fs.vol.disk.as_bytes()[0x41], 0b11);
    fs.set_verified_free_cluster_count(5);
    fs.flush().expect("flush");
    assert_eq!(fs.vol.disk.as_bytes()[0x41], 0b10);

    let mut fs = mount(data);
    fs.set_verified_free_cluster_count(5);
    fs.withhold_clean_flag();
    fs.flush().expect("flush");
    assert_eq!(fs.vol.disk.as_bytes()[0x41], 0b11);
}

#[test]
fn marking_clean_goes_through_the_cache() {
    let mut data = image();
    data[0x41] = 0b11;
    set_fat(&mut data, 1, 0x03FF_FFFF);
    let mut fs = mount(data);
    fs.mark_clean().expect("mark");
    assert_eq!(fs.vol.disk.as_bytes()[0x41], 0b10);
    assert_eq!(get_fat(fs.vol.disk.as_bytes(), 0, 1), 0x03FF_FFFF);
    let flags = fs.read_status_flags().expect("flags");
    assert!(!flags.dirty && flags.io_error);
    fs.flush_state().expect("flush");
    assert_eq!(get_fat(fs.vol.disk.as_bytes(), 0, 1), 0x0BFF_FFFF);
    assert_eq!(get_fat(fs.vol.disk.as_bytes(), 1, 1), 0x0BFF_FFFF);
    assert_eq!(get_fat(fs.vol.disk.as_bytes(), 0, 0), 0x0FFF_FFF8);
    fs.drop_fat_cache().expect("drop");
    assert!(fs.cache.window.is_none());
}

#[test]
fn a_repair_without_counting_passes_counts_for_itself() {
    let mut data = image();
    put(&mut data, 1000, &7_u32.to_le_bytes());
    let mut fs = mount(data);
    let mut buf = [0_u8; 96];
    let stats = fs.repair(RepairMode::fs_info(), &mut RepairScratch::new(&mut buf)).expect("repair");
    assert_eq!(stats.fsinfo_corrected, 1);
    // No pass over the FAT found the first free cluster, so the hint keeps what it had.
    assert_eq!(fs.unmount().expect("unmount").into_bytes(), image());
}

// -- one repair after another --------------------------------------------------------------------------

fn repaired(data: Vec<u8>, mode: RepairMode) -> (Vec<u8>, RepairStats) {
    let mut fs = mount(data);
    let mut buf = [0_u8; 96];
    let stats = fs.repair(mode, &mut RepairScratch::new(&mut buf)).expect("repair");
    (fs.unmount().expect("unmount").into_bytes(), stats)
}

/// A long-name entry for a short name with the given checksum.
fn long_name(sum: u8) -> [u8; 32] {
    let mut e = entry(b"\x41a\0b\0c\0d\0e\0", 0x0F, 0, 0xFFFF_FFFF);
    e[13] = sum;
    e
}

#[test]
fn a_renamed_entry_loses_its_long_name_in_the_next_run() {
    let mut data = image();
    let name = b"BA\x01D    TXT";
    set_fat(&mut data, 20, EOC);
    put(&mut data, cluster_at(2), &long_name(lfn_checksum(name)));
    put(&mut data, cluster_at(2) + 32, &entry(name, 0x20, 20, 100));

    let (once, first) = repaired(data, RepairMode::all());
    assert_eq!((first.entries_recovered, first.entries_removed), (1, 0));
    assert_eq!(once[cluster_at(2)], 0x41);
    assert_eq!(&once[cluster_at(2) + 32..cluster_at(2) + 43], b"FSCK0000REC");

    let (twice, second) = repaired(once.clone(), RepairMode::all());
    assert_eq!((second.entries_recovered, second.entries_removed), (0, 1));
    assert_eq!((second.chains_truncated, second.sizes_corrected, second.clusters_freed), (0, 0, 0));
    let mut expected = once;
    expected[cluster_at(2)] = 0xE5;
    assert_eq!(twice, expected);

    let (thrice, third) = repaired(twice.clone(), RepairMode::all());
    assert_eq!((third.entries_recovered, third.entries_removed), (0, 0));
    assert_eq!(thrice, twice);
}

#[test]
fn a_cross_link_is_found_once() {
    let mut data = image();
    set_fat(&mut data, 20, 21);
    set_fat(&mut data, 21, EOC);
    set_fat(&mut data, 30, 21);
    put(&mut data, cluster_at(2), &entry(b"ONE     TXT", 0x20, 20, 1000));
    put(&mut data, cluster_at(2) + 32, &entry(b"TWO     TXT", 0x20, 30, 1000));

    let (once, first) = repaired(data, RepairMode::all());
    assert_eq!((first.chains_truncated, first.cross_links_resolved, first.sizes_corrected), (1, 1, 1));
    assert_eq!(get_fat(&once, 0, 30), EOC);
    assert_eq!(get_u32(&once, cluster_at(2) + 32 + 28), 512);

    let (twice, second) = repaired(once.clone(), RepairMode::all());
    assert_eq!((second.chains_truncated, second.cross_links_resolved, second.sizes_corrected), (0, 0, 0));
    assert_eq!(twice, once);
}

#[test]
fn an_unallocated_root_is_reported_by_every_run() {
    let mut data = image();
    set_fat(&mut data, 2, 0);
    let (once, first) = repaired(data, RepairMode::all());
    assert_eq!(first.chains_truncated, 1);
    let (_, second) = repaired(once, RepairMode::all());
    assert_eq!(second.chains_truncated, 1);
}

#[test]
fn what_was_put_in_order_in_the_fat_stays_in_order() {
    let mut data = image();
    let at = fat_at(0, 0);
    put(&mut data, at, &0x0FFF_FF00_u32.to_le_bytes());
    put(&mut data, at + 4, &0x0000_0001_u32.to_le_bytes());
    let at = fat_at(1, 40);
    put(&mut data, at, &EOC.to_le_bytes());
    put(&mut data, 1000, &7_u32.to_le_bytes());

    let (once, first) = repaired(data, RepairMode::all());
    assert_eq!((first.reserved_entries_restored, first.mirror_entries_synced, first.fsinfo_corrected), (2, 1, 1));
    for mode in [RepairMode::all(), RepairMode::minimal()] {
        let (twice, second) = repaired(once.clone(), mode);
        assert_eq!((second.reserved_entries_restored, second.mirror_entries_synced, second.fsinfo_corrected), (0, 0, 0));
        assert_eq!(twice, once);
    }
}

#[test]
fn a_dry_run_counts_the_damage_to_the_fat() {
    let mut data = image();
    let at = fat_at(0, 0);
    put(&mut data, at, &0x0FFF_FF00_u32.to_le_bytes());
    let at = fat_at(1, 40);
    put(&mut data, at, &EOC.to_le_bytes());
    let (same, told) = repaired(data.clone(), RepairMode::all().union(RepairMode::dry_run()));
    assert_eq!(same, data);
    let (_, done) = repaired(data, RepairMode::minimal());
    assert_eq!((told.reserved_entries_restored, told.mirror_entries_synced), (1, 1));
    assert_eq!((done.reserved_entries_restored, done.mirror_entries_synced), (1, 1));
}

#[test]
fn a_dry_run_that_finds_nothing_is_right() {
    let mut data = image();
    set_fat(&mut data, 20, EOC);
    put(&mut data, cluster_at(2), &entry(b"ONE     TXT", 0x20, 20, 100));
    put(&mut data, 1000, &(CLUSTERS - 2).to_le_bytes());
    let (_, mut told) = repaired(data.clone(), RepairMode::all().union(RepairMode::dry_run()));
    let (after, done) = repaired(data.clone(), RepairMode::minimal());
    assert_eq!(done.modes_applied, RepairMode::minimal());
    assert_eq!(told.modes_applied, RepairMode::minimal().union(RepairMode::dry_run()));
    told.modes_applied = RepairMode::minimal();
    assert_eq!(told, done);
    assert_eq!(after, data);
}

#[test]
fn markers_are_left_alone_by_a_run_that_does_not_mark() {
    let mut data = image();
    set_fat(&mut data, 20, EOC | 0x1000_0000);
    set_fat(&mut data, 50, 0x1000_0000);
    put(&mut data, cluster_at(2), &entry(b"ONE     TXT", 0x20, 20, 100));
    let (after, _) = repaired(data, RepairMode::minimal());
    assert_eq!(get_fat(&after, 0, 20), EOC | 0x1000_0000);
    assert_eq!(get_fat(&after, 0, 50), 0x1000_0000);
    assert_eq!(get_fat(&after, 0, 2), EOC);
}

// -- durability ------------------------------------------------------------------------------------------

/// A device that keeps what was written apart until it is flushed.
struct Cached {
    stored: Vec<u8>,
    current: Vec<u8>,
}

impl Storage for Cached {
    type Error = NoError;

    fn capacity(&mut self) -> Result<u64, NoError> {
        Ok(self.current.len() as u64)
    }

    fn read_exact(&mut self, offset: u64, buf: &mut [u8]) -> Result<(), NoError> {
        let at = offset as usize;
        buf.copy_from_slice(&self.current[at..at + buf.len()]);
        Ok(())
    }

    fn write_all(&mut self, offset: u64, data: &[u8]) -> Result<(), NoError> {
        let at = offset as usize;
        self.current[at..at + data.len()].copy_from_slice(data);
        Ok(())
    }

    fn flush(&mut self) -> Result<(), NoError> {
        self.stored.copy_from_slice(&self.current);
        Ok(())
    }
}

#[test]
fn what_was_written_is_made_durable() {
    let mut data = image();
    data[0x41] = 1;
    set_fat(&mut data, 20, EOC);
    put(&mut data, cluster_at(2), &entry(b"BA\x01D    TXT", 0x20, 20, 5000));

    let mut vol = Volume {
        disk: Cached { stored: data.clone(), current: data.clone() },
        geom: mount(data.clone()).vol.geom,
    };
    vol.write_at(cluster_at(3) as u64, &[7; 4]).expect("write");
    assert_eq!(vol.disk.stored, data);
    vol.sync().expect("sync");
    assert_eq!(vol.disk.stored[cluster_at(3)], 7);
    assert_eq!(vol.disk.stored, vol.disk.current);

    let disk = Cached { stored: data.clone(), current: data.clone() };
    let mut fs = FileSystem::new(disk).expect("mount");
    let mut buf = [0_u8; 96];
    let stats = fs.repair(RepairMode::all(), &mut RepairScratch::new(&mut buf)).expect("repair");
    assert_eq!((stats.entries_recovered, stats.sizes_corrected), (1, 1));
    assert_ne!(fs.vol.disk.stored, data);
    assert_eq!(fs.vol.disk.stored, fs.vol.disk.current);
    let disk = fs.unmount().expect("unmount");
    assert_eq!(disk.stored, disk.current);
}

// -- devices that fail --------------------------------------------------------------------------------

/// The error of a device that has failed.
#[derive(Debug, PartialEq)]
struct Gone;

/// A device that fails once it was accessed a number of times.
struct Fading {
    data: Vec<u8>,
    accesses_left: usize,
}

impl Fading {
    fn access(&mut self) -> Result<(), Gone> {
        if self.accesses_left == 0 {
            return Err(Gone);
        }
        self.accesses_left -= 1;
        Ok(())
    }
}

impl Storage for Fading {
    type Error = Gone;

    fn capacity(&mut self) -> Result<u64, Gone> {
        Ok(self.data.len() as u64)
    }

    fn read_exact(&mut self, offset: u64, buf: &mut [u8]) -> Result<(), Gone> {
        self.access()?;
        let at = offset as usize;
        buf.copy_from_slice(&self.data[at..at + buf.len()]);
        Ok(())
    }

    fn write_all(&mut self, offset: u64, data: &[u8]) -> Result<(), Gone> {
        self.access()?;
        let at = offset as usize;
        self.data[at..at + data.len()].copy_from_slice(data);
        Ok(())
    }

    fn flush(&mut self) -> Result<(), Gone> {
        Ok(())
    }
}

fn fading(data: Vec<u8>) -> FileSystem<Fading> {
    match FileSystem::new(Fading { data, accesses_left: usize::MAX }) {
        Ok(fs) => fs,
        Err(e) => panic!("mount: {:?}", e),
    }
}

#[test]
fn what_the_cache_holds_needs_no_device() {
    let mut fs = fading(image());
    let size = fs.vol.geom.fat_size;
    let mut slice = CachedFatSlice::new(&mut fs, size);
    slice.ensure_window(0).expect("load");
    slice.fs.vol.disk.accesses_left = 0;
    slice.ensure_window(0).expect("loaded already");
    slice.flush().expect("nothing to store");
    let mut buf = [0_u8; 4];
    assert_eq!(slice.read(&mut buf).expect("read"), 4);
    assert_eq!(u32::from_le_bytes(buf), 0x0FFF_FFF8);
    assert_eq!(slice.write(&[1, 2, 3, 4]).expect("write"), 4);
    assert_eq!(slice.seek(SeekFrom::Start(size)), size);
    assert_eq!(slice.read(&mut buf).expect("at the end"), 0);
    assert_eq!(slice.write(&[1]).expect("at the end"), 0);
    // Anything else does.
    assert!(matches!(slice.ensure_window(1), Err(Error::Io(Gone))));
    assert!(matches!(slice.flush(), Err(Error::Io(Gone))));
    assert_eq!(slice.fs.cache.window, Some(0));
    assert!(slice.fs.cache.dirty);
    slice.fs.vol.disk.accesses_left = usize::MAX;
    slice.flush().expect("flush");
    slice.fs.vol.disk.accesses_left = 0;
    assert!(slice.ensure_window(1).is_err());
    assert_eq!(slice.fs.cache.window, None);
}

#[test]
fn an_interrupted_run_frees_nothing_before_it_has_seen_the_tree() {
    let mut data = image();
    set_fat(&mut data, 20, 21);
    set_fat(&mut data, 21, 22);
    set_fat(&mut data, 22, EOC);
    set_fat(&mut data, 30, EOC);
    set_fat(&mut data, 40, 0x0FFF_FFF7);
    set_fat(&mut data, 50, EOC);
    put(&mut data, cluster_at(2), &entry(b"ONE     TXT", 0x20, 20, 600));
    put(&mut data, cluster_at(2) + 32, &entry(b"TWO     TXT", 0x20, 30, 9));
    // Clearing the markers and comparing the mirrors comes first, then the walk, then the sweep.
    let passes = 2 + CLUSTERS as usize * 3;
    for accesses in [0, 1, 100, passes - 50, passes, passes + 5, passes + 15, passes + 25, passes + 40, passes + 80] {
        let mut fs = fading(data.clone());
        fs.vol.disk.accesses_left = accesses;
        let mut buf = [0_u8; 96];
        let res = fs.repair(RepairMode::all(), &mut RepairScratch::new(&mut buf));
        assert!(matches!(res, Err(Error::Io(Gone))), "{}", accesses);
        for c in 2..CLUSTERS + 2 {
            let was = get_fat(&data, 0, c);
            let now = get_fat(&fs.vol.disk.data, 0, c) & EOC;
            let cut = now == EOC && was != 0 && was != 0x0FFF_FFF7;
            assert!(now == was || cut, "{}: {} went from {:x} to {:x}", accesses, c, was, now);
        }
        for c in [20, 21, 22, 30] {
            let at = cluster_at(c);
            assert_eq!(&fs.vol.disk.data[at..at + 512], &data[at..at + 512]);
        }
    }
}

#[test]
fn what_is_behind_the_last_cluster_is_not_touched() {
    let mut data = image();
    data.extend_from_slice(&[0xA5_u8; 700]);
    set_fat(&mut data, 20, EOC);
    put(&mut data, cluster_at(2), &entry(b"ONE     TXT", 0x20, 20, 6000));
    let (after, stats) = repaired(data.clone(), RepairMode::all());
    assert_eq!(stats.sizes_corrected, 1);
    assert_eq!(&after[after.len() - 700..], &[0xA5_u8; 700][..]);
}

#[test]
fn repairing_twice_under_one_mount_changes_no_byte() {
    let mut data = image();
    // A copy of the FAT that is behind, a damaged signature, an orphan, a dirty volume and a wrong count.
    let at = fat_at(1, 7);
    put(&mut data, at, &99_u32.to_le_bytes());
    let at = fat_at(0, 0);
    put(&mut data, at, &0_u32.to_le_bytes());
    set_fat(&mut data, 50, EOC);
    data[0x41] = 1;
    put(&mut data, 1000, &7_u32.to_le_bytes());
    let mut fs = mount(data);
    let mut buf = [0_u8; 96];
    let first = fs.repair(RepairMode::all(), &mut RepairScratch::new(&mut buf)).expect("repair");
    assert_eq!((first.clusters_freed, first.mirror_entries_synced, first.reserved_entries_restored), (1, 1, 1));
    let once = fs.vol.disk.as_bytes().to_vec();
    let second = fs.repair(RepairMode::all(), &mut RepairScratch::new(&mut buf)).expect("repair");
    assert_eq!((second.clusters_freed, second.mirror_entries_synced, second.fsinfo_corrected), (0, 0, 0));
    assert_eq!(fs.vol.disk.as_bytes(), &once[..]);
    let disk = fs.unmount().expect("unmount");
    assert_eq!(disk.as_bytes(), &once[..]);
}

#[test]
fn minimal_keeps_what_all_keeps() {
    let mut data = image();
    set_fat(&mut data, 20, 21);
    set_fat(&mut data, 21, 1);
    set_fat(&mut data, 30, 31);
    set_fat(&mut data, 31, EOC);
    // A directory that is none, pointing into the file in front of it.
    put(&mut data, cluster_at(2), &entry(b"ONE     TXT", 0x20, 20, 5000));
    put(&mut data, cluster_at(2) + 32, &entry(b"DIR        ", 0x10, 21, 0));
    let (all, a) = repaired(data.clone(), RepairMode::all());
    let (minimal, m) = repaired(data, RepairMode::minimal());
    assert_eq!((a.cross_links_resolved, a.clusters_freed, m.clusters_freed), (0, 2, 0));
    for c in 2..CLUSTERS + 2 {
        let kept = get_fat(&all, 0, c);
        assert!(kept == 0 || get_fat(&minimal, 0, c) == kept, "cluster {}", c);
    }
    assert_eq!(get_fat(&minimal, 0, 30), 31);
    assert_eq!(&all[cluster_at(2)..], &minimal[cluster_at(2)..]);
}

#[test]
fn a_dry_run_counts_the_damage_to_the_tree() {
    let mut data = image();
    set_fat(&mut data, 20, 21);
    set_fat(&mut data, 21, 1);
    set_fat(&mut data, 25, EOC);
    put(&mut data, cluster_at(2), &entry(b"ONE     TXT", 0x20, 20, 5000));
    put(&mut data, cluster_at(2) + 32, &entry(b"SUB        ", 0x10, 25, 0));
    put(&mut data, cluster_at(2) + 64, &entry(b"GONE    TXT", 0x20, CLUSTERS + 9, 10));
    put(&mut data, cluster_at(25), &entry(b".          ", 0x10, 25, 0));
    put(&mut data, cluster_at(25) + 32, &entry(b"..         ", 0x10, 40, 0));
    put(&mut data, cluster_at(25) + 64, &entry(b"TWO     TXT", 0x20, 0, 7));
    let (same, told) = repaired(data.clone(), RepairMode::all().union(RepairMode::dry_run()));
    assert!(same == data);
    let (after, done) = repaired(data, RepairMode::all());
    assert_eq!((done.cross_links_resolved, done.dirs_rejected), (0, 0));
    assert_eq!(told.dirs_scanned, done.dirs_scanned);
    assert_eq!(told.files_examined, done.files_examined);
    assert_eq!((told.chains_truncated, done.chains_truncated), (1, 1));
    assert_eq!((told.dot_entries_fixed, done.dot_entries_fixed), (1, 1));
    assert_eq!((told.entries_removed, done.entries_removed), (1, 1));
    assert_eq!(told.entries_recovered, done.entries_recovered);
    assert_eq!(told.sizes_corrected, done.sizes_corrected);
    assert_eq!((told.dirs_skipped, done.dirs_skipped), (0, 0));
    // What the repair leaves of the two directories is sound.
    assert_eq!(get_fat(&after, 0, 21), EOC);
    assert_eq!(after[cluster_at(2) + 64], 0xE5);
    assert_eq!(u16::from_le_bytes([after[cluster_at(25) + 32 + 26], after[cluster_at(25) + 32 + 27]]), 0);
    assert_eq!(&after[cluster_at(25) + 64 + 28..cluster_at(25) + 96], &[0, 0, 0, 0]);
}
