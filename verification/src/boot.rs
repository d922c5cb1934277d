//! The boot sector: what it says about the layout of a volume.

use vstd::prelude::*;

use crate::bytes::{get_u16, get_u32, le_u16, le_u32};
use crate::geometry::{Geometry, MAX_CLUSTERS, RESERVED_FAT_ENTRIES};

verus! {

/// The size of the boot sector.
pub const BOOT_SECTOR_SIZE: usize = 512;

/// Where the boot sector of a FAT32 volume keeps its status flags.
pub const STATUS_OFFSET: u64 = 0x41;

/// The status flag that says the volume was not unmounted cleanly.
pub const STATUS_DIRTY: u8 = 0x01;

/// The status flag that says the device returned an error once.
pub const STATUS_IO_ERROR: u8 = 0x02;

/// The width of the FAT, which follows from the number of clusters.
#[derive(Clone, Copy, Debug, PartialEq, Eq, Structural)]
pub enum FatType {
    Fat12,
    Fat16,
    Fat32,
}

/// The width of the FAT of a volume with `clusters` clusters.
pub open spec fn fat_type_for(clusters: int) -> FatType {
    if clusters < 4085 {
        FatType::Fat12
    } else if clusters < 65525 {
        FatType::Fat16
    } else {
        FatType::Fat32
    }
}

pub open spec fn bytes_per_sector(b: Seq<u8>) -> int {
    le_u16(b, 11) as int
}

pub open spec fn cluster_bytes(b: Seq<u8>) -> int {
    bytes_per_sector(b) * b[13]
}

/// Where the FAT starts: behind the reserved sectors.
pub open spec fn fat_offset(b: Seq<u8>) -> int {
    bytes_per_sector(b) * le_u16(b, 14)
}

/// Whether the boot sector is laid out for FAT32: the 16-bit FAT size is not used.
pub open spec fn fat32_layout(b: Seq<u8>) -> bool {
    le_u16(b, 22) == 0
}

pub open spec fn sectors_per_fat(b: Seq<u8>) -> int {
    if fat32_layout(b) {
        le_u32(b, 36) as int
    } else {
        le_u16(b, 22) as int
    }
}

pub open spec fn fat_bytes(b: Seq<u8>) -> int {
    bytes_per_sector(b) * sectors_per_fat(b)
}

pub open spec fn total_sectors(b: Seq<u8>) -> int {
    if le_u16(b, 19) != 0 {
        le_u16(b, 19) as int
    } else {
        le_u32(b, 32) as int
    }
}

/// Sectors of the fixed root directory, which a FAT32 volume does not have.
pub open spec fn root_dir_sectors(b: Seq<u8>) -> int {
    (le_u16(b, 17) * 32 + bytes_per_sector(b) - 1) / bytes_per_sector(b)
}

/// The sector where the clusters start.
pub open spec fn first_data_sector(b: Seq<u8>) -> int {
    le_u16(b, 14) + b[16] * sectors_per_fat(b) + root_dir_sectors(b)
}

/// How many whole clusters fit behind the FAT.
pub open spec fn cluster_count(b: Seq<u8>) -> int {
    (total_sectors(b) - first_data_sector(b)) / (b[13] as int)
}

/// Where the `FSInfo` sector of a FAT32 volume is.
pub open spec fn fs_info_offset(b: Seq<u8>) -> int {
    le_u16(b, 48) * bytes_per_sector(b)
}

/// Whether only one copy of the FAT is in use, instead of all of them being kept in step.
pub open spec fn mirroring_off(b: Seq<u8>) -> bool {
    fat32_layout(b) && b[40] & 0x80u8 != 0
}

/// The copy of the FAT that is in use when the copies are not kept in step.
pub open spec fn active_fat(b: Seq<u8>) -> u8 {
    b[40] & 0x0Fu8
}

/// The label: behind the fields of its layout.
pub open spec fn boot_label(b: Seq<u8>) -> Seq<u8> {
    if fat32_layout(b) {
        b.subrange(71, 82)
    } else {
        b.subrange(43, 54)
    }
}

/// Whether the sector and cluster sizes are ones that exist.
pub open spec fn sizes_valid(b: Seq<u8>) -> bool {
    &&& {
        ||| bytes_per_sector(b) == 512
        ||| bytes_per_sector(b) == 1024
        ||| bytes_per_sector(b) == 2048
        ||| bytes_per_sector(b) == 4096
    }
    &&& {
        ||| b[13] == 1
        ||| b[13] == 2
        ||| b[13] == 4
        ||| b[13] == 8
        ||| b[13] == 16
        ||| b[13] == 32
        ||| b[13] == 64
        ||| b[13] == 128
    }
}

/// Whether the fields that only a FAT32 volume has are sound.
pub open spec fn fat32_fields_valid(b: Seq<u8>) -> bool {
    &&& le_u16(b, 19) == 0
    &&& le_u16(b, 17) == 0
    &&& le_u16(b, 42) == 0
    &&& 1 <= le_u16(b, 48) < le_u16(b, 14)
    &&& RESERVED_FAT_ENTRIES <= le_u32(b, 44) < cluster_count(b) + RESERVED_FAT_ENTRIES
    &&& 4 * (cluster_count(b) + RESERVED_FAT_ENTRIES) <= fat_bytes(b)
    &&& mirroring_off(b) ==> active_fat(b) < b[16]
}

/// Whether `b` is the boot sector of a volume that fits on a device of `capacity` bytes.
pub open spec fn boot_valid(b: Seq<u8>, capacity: int) -> bool {
    &&& b[510] == 0x55
    &&& b[511] == 0xAA
    &&& sizes_valid(b)
    &&& le_u16(b, 14) >= 1
    &&& b[16] >= 1
    &&& sectors_per_fat(b) >= 1
    &&& first_data_sector(b) < total_sectors(b)
    &&& 1 <= cluster_count(b) <= MAX_CLUSTERS
    &&& fat32_layout(b) == (fat_type_for(cluster_count(b)) is Fat32)
    &&& fat32_layout(b) ==> fat32_fields_valid(b)
    &&& first_data_sector(b) * bytes_per_sector(b) + cluster_count(b) * cluster_bytes(b) <= capacity
}

/// Whether `g` is the layout that the boot sector `b` describes.
pub open spec fn describes(b: Seq<u8>, g: Geometry) -> bool {
    &&& g.cluster_size == cluster_bytes(b)
    &&& g.fat_start == fat_offset(b)
    &&& g.fat_size == fat_bytes(b)
    &&& g.fats == b[16]
    &&& g.first_mirror == if mirroring_off(b) {
        active_fat(b)
    } else {
        0
    }
    &&& g.mirrors == if mirroring_off(b) {
        1
    } else {
        b[16]
    }
    &&& g.data_start == first_data_sector(b) * bytes_per_sector(b)
    &&& g.total_clusters == cluster_count(b)
    &&& g.root_dir_first_cluster == if fat32_layout(b) {
        le_u32(b, 44)
    } else {
        0
    }
    &&& g.fs_info_start == if fat32_layout(b) {
        fs_info_offset(b)
    } else {
        0
    }
    &&& g.media == b[21]
    &&& g.volume_label@ == boot_label(b)
}

/// The FAT and, on a FAT32 volume, everything else is where a sound boot sector says.
pub proof fn lemma_layout(b: Seq<u8>, g: Geometry, capacity: nat)
    requires
        boot_valid(b, capacity as int),
        capacity <= u64::MAX,
        describes(b, g),
    ensures
        g.fat_wf(capacity),
        fat32_layout(b) ==> g.wf(capacity),
{
    let bps = bytes_per_sector(b);
    let spf = sectors_per_fat(b);
    let fats = b[16] as int;
    let reserved = le_u16(b, 14) as int;
    let root = root_dir_sectors(b);
    let first = first_data_sector(b);
    let n = cluster_count(b);
    let cb = cluster_bytes(b);
    assert(0 <= root);
    assert(0 <= n * cb) by (nonlinear_arith)
        requires
            0 <= n,
            0 <= cb,
    ;
    assert(bps * reserved + fats * (bps * spf) <= (reserved + fats * spf + root) * bps)
        by (nonlinear_arith)
        requires
            0 <= bps,
            0 <= root,
    ;
    assert(512 <= bps * reserved) by (nonlinear_arith)
        requires
            512 <= bps,
            1 <= reserved,
    ;
    let m = bps / 512;
    assert(bps == 512 * m);
    assert((bps * spf) % 512 == 0) by {
        assert(bps * spf == (m * spf) * 512) by (nonlinear_arith)
            requires
                bps == 512 * m,
        ;
        vstd::arithmetic::div_mod::lemma_mod_multiples_basic(m * spf, 512);
    }
    if fat32_layout(b) {
        let info = le_u16(b, 48) as int;
        assert(512 <= info * bps && info * bps + 512 <= bps * reserved) by (nonlinear_arith)
            requires
                512 <= bps,
                1 <= info < reserved,
        ;
        let spc = b[13] as int;
        assert(cb % 512 == 0) by {
            assert(bps * spc == (m * spc) * 512) by (nonlinear_arith)
                requires
                    bps == 512 * m,
            ;
            vstd::arithmetic::div_mod::lemma_mod_multiples_basic(m * spc, 512);
        }
        assert(512 <= bps * spc <= 4096 * 128) by (nonlinear_arith)
            requires
                512 <= bps <= 4096,
                1 <= spc <= 128,
        ;
    }
}

/// Read the label at `at` of the boot sector.
fn read_label(b: &[u8], at: usize) -> (label: [u8; 11])
    requires
        at + 11 <= b@.len(),
    ensures
        label@ == b@.subrange(at as int, at + 11),
{
    let size: usize = b.len();
    let mut label: [u8; 11] = [0; 11];
    let mut i: usize = 0;
    while i < 11
        invariant
            i <= 11,
            size == b@.len(),
            at + 11 <= size,
            forall|j: int| 0 <= j < i ==> #[trigger] label@[j] == b@[at + j],
        decreases 11 - i,
    {
        label[i] = b[at + i];
        i = i + 1;
    }
    assert(label@ =~= b@.subrange(at as int, at + 11));
    label
}

/// Whether the sector and cluster sizes are ones that exist.
fn check_sizes(b: &[u8]) -> (valid: bool)
    requires
        b@.len() == BOOT_SECTOR_SIZE,
    ensures
        valid == sizes_valid(b@),
{
    let bps: u16 = get_u16(b, 11);
    let spc: u8 = b[13];
    (bps == 512 || bps == 1024 || bps == 2048 || bps == 4096) && (spc == 1 || spc == 2 || spc == 4
        || spc == 8 || spc == 16 || spc == 32 || spc == 64 || spc == 128)
}

/// Whether the fields that only a FAT32 volume has are sound.
fn check_fat32_fields(b: &[u8], clusters: u64, fat_size: u64) -> (valid: bool)
    requires
        b@.len() == BOOT_SECTOR_SIZE,
        clusters == cluster_count(b@),
        clusters <= MAX_CLUSTERS,
        fat_size == fat_bytes(b@),
        fat32_layout(b@),
    ensures
        valid == fat32_fields_valid(b@),
{
    let info: u16 = get_u16(b, 48);
    let root: u32 = get_u32(b, 44);
    if get_u16(b, 19) != 0 || get_u16(b, 17) != 0 || get_u16(b, 42) != 0 {
        return false;
    }
    if info < 1 || info >= get_u16(b, 14) {
        return false;
    }
    if root < RESERVED_FAT_ENTRIES || root as u64 >= clusters + RESERVED_FAT_ENTRIES as u64 {
        return false;
    }
    if 4 * (clusters + RESERVED_FAT_ENTRIES as u64) > fat_size {
        return false;
    }
    b[40] & 0x80u8 == 0 || b[40] & 0x0Fu8 < b[16]
}

/// The sizes that follow from the fields of the boot sector fit in 64 bits.
proof fn lemma_sizes_fit(bps: int, spc: int, reserved: int, fats: int, spf: int, first: int, n: int)
    requires
        512 <= bps <= 4096,
        1 <= spc <= 128,
        0 <= reserved <= 0xFFFF,
        0 <= fats <= 255,
        0 <= spf <= 0xFFFF_FFFF,
        0 <= first <= 0xFFFF_FFFF,
        0 <= n <= MAX_CLUSTERS,
    ensures
        0 <= fats * spf <= 255 * 0xFFFF_FFFF,
        0 <= bps * spf <= 4096 * 0xFFFF_FFFF,
        0 <= first * bps <= 0xFFFF_FFFF * 4096,
        512 <= bps * spc <= 4096 * 128,
        0 <= n * (bps * spc) <= 0x0FFF_FFF4 * (4096 * 128),
        0 <= bps * reserved <= 4096 * 0xFFFF,
        0 <= reserved * bps <= 4096 * 0xFFFF,
{
    let cb = bps * spc;
    assert(0 <= fats * spf <= 255 * 0xFFFF_FFFF) by (nonlinear_arith)
        requires
            0 <= fats <= 255,
            0 <= spf <= 0xFFFF_FFFF,
    ;
    assert(0 <= bps * spf <= 4096 * 0xFFFF_FFFF) by (nonlinear_arith)
        requires
            0 <= bps <= 4096,
            0 <= spf <= 0xFFFF_FFFF,
    ;
    assert(0 <= first * bps <= 0xFFFF_FFFF * 4096) by (nonlinear_arith)
        requires
            0 <= bps <= 4096,
            0 <= first <= 0xFFFF_FFFF,
    ;
    assert(512 <= cb <= 4096 * 128) by (nonlinear_arith)
        requires
            512 <= bps <= 4096,
            1 <= spc <= 128,
            cb == bps * spc,
    ;
    assert(0 <= n * cb <= 0x0FFF_FFF4 * (4096 * 128)) by (nonlinear_arith)
        requires
            0 <= n <= 0x0FFF_FFF4,
            0 <= cb <= 4096 * 128,
    ;
    assert(0 <= bps * reserved <= 4096 * 0xFFFF) by (nonlinear_arith)
        requires
            0 <= bps <= 4096,
            0 <= reserved <= 0xFFFF,
    ;
    assert(reserved * bps == bps * reserved) by (nonlinear_arith);
}

/// Work out the layout of a volume from its boot sector. `None` if there is no sound volume of that layout on a device
/// of `capacity` bytes.
#[verifier::rlimit(30)]
pub fn read_layout(b: &[u8], capacity: u64) -> (res: Option<(FatType, Geometry)>)
    requires
        b@.len() == BOOT_SECTOR_SIZE,
    ensures
        res is Some <==> boot_valid(b@, capacity as int),
        res matches Some((fat_type, geom)) ==> {
            &&& fat_type == fat_type_for(cluster_count(b@))
            &&& describes(b@, geom)
            &&& geom.fat_wf(capacity as nat)
            &&& fat_type is Fat32 ==> geom.wf(capacity as nat)
        },
{
    if b[510] != 0x55 || b[511] != 0xAA || !check_sizes(b) {
        return None;
    }
    let bps: u64 = get_u16(b, 11) as u64;
    let spc: u64 = b[13] as u64;
    let reserved: u64 = get_u16(b, 14) as u64;
    let fats: u64 = b[16] as u64;
    let root_entries: u64 = get_u16(b, 17) as u64;
    let fat32: bool = get_u16(b, 22) == 0;
    let spf: u64 = if fat32 {
        get_u32(b, 36) as u64
    } else {
        get_u16(b, 22) as u64
    };
    if reserved == 0 || fats == 0 || spf == 0 {
        return None;
    }
    let total: u64 = if get_u16(b, 19) != 0 {
        get_u16(b, 19) as u64
    } else {
        get_u32(b, 32) as u64
    };
    proof {
        lemma_sizes_fit(bps as int, spc as int, reserved as int, fats as int, spf as int, 0, 0);
    }
    let first_data: u64 = reserved + fats * spf + (root_entries * 32 + bps - 1) / bps;
    if first_data >= total {
        return None;
    }
    let clusters: u64 = (total - first_data) / spc;
    if clusters < 1 || clusters > MAX_CLUSTERS as u64 {
        return None;
    }
    let fat_type: FatType = if clusters < 4085 {
        FatType::Fat12
    } else if clusters < 65525 {
        FatType::Fat16
    } else {
        FatType::Fat32
    };
    if fat32 != (fat_type == FatType::Fat32) {
        return None;
    }
    proof {
        lemma_sizes_fit(
            bps as int,
            spc as int,
            le_u16(b@, 48) as int,
            fats as int,
            spf as int,
            first_data as int,
            clusters as int,
        );
    }
    let cluster_size: u64 = bps * spc;
    let fat_size: u64 = bps * spf;
    let data_start: u64 = first_data * bps;
    if data_start + clusters * cluster_size > capacity {
        return None;
    }
    if fat32 && !check_fat32_fields(b, clusters, fat_size) {
        return None;
    }
    let single: bool = fat32 && b[40] & 0x80u8 != 0;
    let geom = Geometry {
        cluster_size: cluster_size as u32,
        fat_start: bps * reserved,
        fat_size,
        fats: b[16],
        first_mirror: if single {
            b[40] & 0x0Fu8
        } else {
            0
        },
        mirrors: if single {
            1
        } else {
            b[16]
        },
        data_start,
        total_clusters: clusters as u32,
        root_dir_first_cluster: if fat32 {
            get_u32(b, 44)
        } else {
            0
        },
        fs_info_start: if fat32 {
            get_u16(b, 48) as u64 * bps
        } else {
            0
        },
        media: b[21],
        volume_label: if fat32 {
            read_label(b, 71)
        } else {
            read_label(b, 43)
        },
    };
    proof {
        lemma_layout(b@, geom, capacity as nat);
    }
    Some((fat_type, geom))
}

} // verus!
