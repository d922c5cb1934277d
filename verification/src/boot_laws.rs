//! What the fields of the boot sector say about the layout of a volume.

use vstd::prelude::*;

use crate::boot::{
    boot_valid, cluster_count, describes, fat32_layout, fat_type_for, first_data_sector, root_dir_sectors,
    total_sectors,
};
use crate::fs::{fs_info_signed, layout_sound, mountable, no_info};
use crate::geometry::Geometry;
use crate::meaning::law_numbers;
use crate::progress::{next_report, percent_of, phase_step};
use crate::scratch::{scratch_size_for_depth, RepairScratch};
verus! {

/// The layout of a FAT32 volume, from the fields of its boot sector. The copies of the FAT are behind the reserved
/// sectors, the clusters behind the copies, and there are as many clusters as fit on the sectors of the volume.
pub proof fn law_layout(b: Seq<u8>, g: Geometry, capacity: int)
    requires
        b.len() == 512,
        boot_valid(b, capacity),
        describes(b, g),
        b[22] == 0,
        b[23] == 0,
    ensures
        ({
            let sector = b[11] + 256 * b[12];
            let reserved = b[14] + 256 * b[15];
            let per_fat = b[36] + 256 * b[37] + 65_536 * b[38] + 16_777_216 * b[39];
            let sectors = b[32] + 256 * b[33] + 65_536 * b[34] + 16_777_216 * b[35];
            &&& b[510] == 85 && b[511] == 170
            &&& sector == 512 || sector == 1024 || sector == 2048 || sector == 4096
            &&& g.cluster_size == sector * b[13]
            &&& g.fat_start == sector * reserved
            &&& g.fat_size == sector * per_fat
            &&& g.fats == b[16]
            &&& g.data_start == (reserved + b[16] * per_fat) * sector
            &&& (g.total_clusters * b[13] + reserved + b[16] * per_fat) <= sectors
            &&& sectors < ((g.total_clusters + 1) * b[13] + reserved + b[16] * per_fat)
            &&& g.total_clusters >= 65_525
            &&& g.root_dir_first_cluster == b[44] + 256 * b[45] + 65_536 * b[46] + 16_777_216 * b[47]
            &&& 2 <= g.root_dir_first_cluster < g.total_clusters + 2
            &&& g.fs_info_start == (b[48] + 256 * b[49]) * sector
            &&& g.media == b[21]
            &&& forall|i: int| 0 <= i < 11 ==> #[trigger] g.volume_label@[i] == b[71 + i]
            &&& b[40] / 128 == 0 ==> g.first_mirror == 0 && g.mirrors == b[16]
            &&& b[40] / 128 == 1 ==> g.first_mirror == b[40] % 16 && g.mirrors == 1
            &&& 4 * (g.total_clusters + 2) <= g.fat_size
            &&& g.data_start + g.total_clusters * g.cluster_size <= capacity
        }),
{
    let x = b[40];
    assert((x & 0x80u8 != 0) == (x / 128 == 1) && x & 0x0Fu8 == x % 16 && x / 128 <= 1) by (bit_vector);
    law_numbers(b, 11, 0, 0);
    law_numbers(b, 14, 0, 0);
    law_numbers(b, 17, 0, 0);
    law_numbers(b, 19, 0, 0);
    law_numbers(b, 22, 0, 0);
    law_numbers(b, 32, 0, 0);
    law_numbers(b, 36, 0, 0);
    law_numbers(b, 42, 0, 0);
    law_numbers(b, 44, 0, 0);
    law_numbers(b, 48, 0, 0);
    let spc = b[13] as int;
    let sector = b[11] + 256 * b[12];
    let free = total_sectors(b) - first_data_sector(b);
    let n = cluster_count(b);
    assert(root_dir_sectors(b) == 0) by {
        assert((sector - 1) / sector == 0) by (nonlinear_arith)
            requires
                sector >= 512,
        ;
    }
    assert(n * spc <= free < (n + 1) * spc) by (nonlinear_arith)
        requires
            spc > 0,
            n == free / spc,
    ;
    assert forall|i: int| 0 <= i < 11 implies #[trigger] g.volume_label@[i] == b[71 + i] by {
        assert(b.subrange(71, 82)[i] == b[71 + i]);
    }
}

/// Which FAT a volume has follows from how many clusters it has.
pub proof fn law_fat_types(clusters: int)
    ensures
        clusters < 4085 ==> fat_type_for(clusters) is Fat12,
        4085 <= clusters < 65_525 ==> fat_type_for(clusters) is Fat16,
        65_525 <= clusters ==> fat_type_for(clusters) is Fat32,
{
}

/// A buffer for `depth` levels of directories takes 12 bytes for each.
pub proof fn law_scratch_sizes(depth: usize)
    requires
        12 * depth <= usize::MAX,
    ensures
        scratch_size_for_depth(depth) == 12 * depth,
{
}

/// A percentage is the nearest whole number, with a half rounded up, and at most 100; of nothing, all is done.
pub proof fn law_percentages(done: u32, total: u32)
    ensures
        total == 0 ==> percent_of(done, total) == 100,
        done >= total ==> percent_of(done, total) == 100,
        done < total ==> {
            let p = percent_of(done, total);
            &&& 0 <= p <= 100
            &&& 2 * (100 * done - p * total) < total + 1
            &&& -(total as int) <= 2 * (100 * done - p * total)
        },
{
    if total > 0 {
        let d = done as int;
        let t = total as int;
        let r = (d * 100 + t / 2) / t;
        assert(r * t <= d * 100 + t / 2 && d * 100 + t / 2 < r * t + t) by (nonlinear_arith)
            requires
                t > 0,
                r == (d * 100 + t / 2) / t,
        ;
        if d >= t {
            assert(r >= 100) by (nonlinear_arith)
                requires
                    t > 0,
                    d >= t,
                    d * 100 + t / 2 < r * t + t,
                    t / 2 >= 0,
            ;
        } else {
            assert(r >= 0 && r <= 100) by (nonlinear_arith)
                requires
                    t > 0,
                    0 <= d < t,
                    r * t <= d * 100 + t / 2,
                    d * 100 + t / 2 < r * t + t,
                    0 <= t / 2 < t,
            ;
        }
    }
}

/// How many levels of directories a buffer holds: one for every 12 bytes.
pub proof fn law_room(scratch: &RepairScratch<'_>)
    ensures
        12 * scratch.room() <= scratch.size(),
        scratch.size() < 12 * scratch.room() + 12,
{
}

/// The three signatures of an `FSInfo` sector, and what its absence means for mounting: a FAT32 volume without them is
/// refused.
pub proof fn law_fs_info_signatures(img: Seq<u8>, b: Seq<u8>)
    requires
        b.len() == 512,
    ensures
        fs_info_signed(b) <==> {
            &&& b[0] == 82 && b[1] == 82 && b[2] == 97 && b[3] == 65
            &&& b[484] == 114 && b[485] == 114 && b[486] == 65 && b[487] == 97
            &&& b[508] == 0 && b[509] == 0 && b[510] == 85 && b[511] == 170
        },
        mountable(img) ==> img.len() >= 512 && layout_sound(img),
{
    law_numbers(b, 0, 0, 0);
    law_numbers(b, 484, 0, 0);
    law_numbers(b, 508, 0, 0);
}

/// A phase reports about ten times, but no more often than every step, and each report is a step behind the last one,
/// as far as that can be counted.
pub proof fn law_reports(total: u32, done: u32, step: u32)
    ensures
        phase_step(total) >= 1,
        total >= 10 ==> 10 * phase_step(total) <= total < 10 * phase_step(total) + 10,
        total < 10 ==> phase_step(total) == 1,
        done + step <= 0xFFFF_FFFF ==> next_report(done, step) == done + step,
        done + step > 0xFFFF_FFFF ==> next_report(done, step) == 0xFFFF_FFFF,
{
}

/// A boot sector whose fields go together is that of a FAT32 volume, whatever else it holds: the FAT has an entry for
/// every cluster, the root and the `FSInfo` sector are where they can be, and the clusters are on the device.
pub proof fn law_sound_boot_sectors(b: Seq<u8>, clusters: int, capacity: int)
    requires
        b.len() == 512,
        b[510] == 85,
        b[511] == 170,
        ({
            let sector = b[11] + 256 * b[12];
            let reserved = b[14] + 256 * b[15];
            let per_fat = b[36] + 256 * b[37] + 65_536 * b[38] + 16_777_216 * b[39];
            let sectors = b[32] + 256 * b[33] + 65_536 * b[34] + 16_777_216 * b[35];
            let info = b[48] + 256 * b[49];
            let root = b[44] + 256 * b[45] + 65_536 * b[46] + 16_777_216 * b[47];
            let front = reserved + b[16] * per_fat;
            &&& sector == 512 || sector == 1024 || sector == 2048 || sector == 4096
            &&& b[13] == 1 || b[13] == 2 || b[13] == 4 || b[13] == 8 || b[13] == 16 || b[13] == 32 || b[13]
                == 64 || b[13] == 128
            &&& reserved >= 1 && b[16] >= 1 && per_fat >= 1
            &&& b[17] == 0 && b[18] == 0 && b[19] == 0 && b[20] == 0 && b[22] == 0 && b[23] == 0
            &&& b[42] == 0 && b[43] == 0
            &&& clusters * b[13] + front <= sectors < (clusters + 1) * b[13] + front
            &&& 65_525 <= clusters <= 0x0FFF_FFF4
            &&& 1 <= info < reserved
            &&& 2 <= root < clusters + 2
            &&& 4 * (clusters + 2) <= sector * per_fat
            &&& b[40] / 128 == 1 ==> b[40] % 16 < b[16]
            &&& front * sector + clusters * (sector * b[13]) <= capacity
        }),
    ensures
        boot_valid(b, capacity),
        fat32_layout(b),
        cluster_count(b) == clusters,
{
    let x = b[40];
    assert((x & 0x80u8 != 0) == (x / 128 == 1) && x & 0x0Fu8 == x % 16 && x / 128 <= 1) by (bit_vector);
    law_numbers(b, 11, 0, 0);
    law_numbers(b, 14, 0, 0);
    law_numbers(b, 17, 0, 0);
    law_numbers(b, 19, 0, 0);
    law_numbers(b, 22, 0, 0);
    law_numbers(b, 32, 0, 0);
    law_numbers(b, 36, 0, 0);
    law_numbers(b, 42, 0, 0);
    law_numbers(b, 44, 0, 0);
    law_numbers(b, 48, 0, 0);
    let spc = b[13] as int;
    let sector = b[11] + 256 * b[12];
    assert(root_dir_sectors(b) == 0) by {
        assert((sector - 1) / sector == 0) by (nonlinear_arith)
            requires
                sector >= 512,
        ;
    }
    let free = total_sectors(b) - first_data_sector(b);
    assert(free / spc == clusters) by (nonlinear_arith)
        requires
            spc > 0,
            clusters * spc <= free < (clusters + 1) * spc,
    ;
    assert(clusters * spc >= 1) by (nonlinear_arith)
        requires
            clusters >= 1,
            spc >= 1,
    ;
}

/// A volume can be mounted just if its boot sector is sound for the device and, on a FAT32 volume, the `FSInfo` sector
/// carries its signatures. On any other volume nothing is known about free space.
pub proof fn law_mounting(img: Seq<u8>)
    ensures
        mountable(img) <==> {
            let b = img.subrange(0, 512);
            let at = (b[48] + 256 * b[49]) * (b[11] + 256 * b[12]);
            &&& img.len() >= 512
            &&& boot_valid(b, img.len() as int)
            &&& b[22] == 0 && b[23] == 0 ==> fs_info_signed(img.subrange(at, at + 512))
        },
        no_info().free_cluster_count is None,
        no_info().next_free_cluster is None,
        !no_info().dirty && !no_info().verified,
{
    let b = img.subrange(0, 512);
    if img.len() >= 512 {
        law_numbers(b, 11, 0, 0);
        law_numbers(b, 22, 0, 0);
        law_numbers(b, 48, 0, 0);
    }
}

/// The fixed root directory of a volume that is not FAT32 takes up as few sectors as hold its entries of 32 bytes, and
/// the clusters are behind it.
pub proof fn law_fixed_root(b: Seq<u8>)
    requires
        b.len() == 512,
        b[11] + 256 * b[12] >= 512,
    ensures
        ({
            let sector = b[11] + 256 * b[12];
            let entries = b[17] + 256 * b[18];
            let n = root_dir_sectors(b);
            let per_fat = if b[22] == 0 && b[23] == 0 {
                b[36] + 256 * b[37] + 65_536 * b[38] + 16_777_216 * b[39]
            } else {
                b[22] + 256 * b[23]
            };
            &&& n * sector >= 32 * entries
            &&& (n - 1) * sector < 32 * entries
            &&& first_data_sector(b) == b[14] + 256 * b[15] + b[16] * per_fat + n
        }),
{
    law_numbers(b, 11, 0, 0);
    law_numbers(b, 14, 0, 0);
    law_numbers(b, 17, 0, 0);
    law_numbers(b, 22, 0, 0);
    law_numbers(b, 36, 0, 0);
    let sector = b[11] + 256 * b[12];
    let size = 32 * (b[17] + 256 * b[18]);
    let n = root_dir_sectors(b);
    assert(n * sector >= size && (n - 1) * sector < size) by (nonlinear_arith)
        requires
            sector >= 512,
            size >= 0,
            n == (size + sector - 1) / sector,
    ;
}

} // verus!
