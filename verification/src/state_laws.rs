//! What the driver knows about a volume, and where on the volume that is kept.

use vstd::prelude::*;

use crate::bytes::{le_u32, splice, u32_bytes};
use crate::cache_laws::law_fat_seen;
use crate::fat::lemma_put_fat_outside;
use crate::fatcache::{
    cache_ok, coherent, fat_seen, lemma_coherent_front, lemma_slice_written, lemma_window_loaded, slice_read,
    window_loaded, written_back,
};
use crate::fs::{
    boot_dirty, boot_flag_cleared, flushed, fs_info_sector, info_field, info_on_mount, info_put, marked_clean,
    state_flushed, status_flags, FsInfo, FsState,
};
use crate::geometry::Geometry;
use crate::meaning::law_numbers;
verus! {

/// Clearing the dirty flag clears the lowest bit of byte 65 of the boot sector, and nothing else.
pub proof fn law_boot_flag(img: Seq<u8>, i: int)
    requires
        512 <= img.len(),
        0 <= i < img.len(),
    ensures
        ({
            let b = boot_flag_cleared(img);
            &&& boot_dirty(img) <==> img[65] % 2 == 1
            &&& b.len() == img.len()
            &&& b[65] % 2 == 0 && b[65] / 2 == img[65] / 2
            &&& i != 65 ==> b[i] == img[i]
        }),
{
    let x = img[65];
    assert((x & 1u8 != 0) == (x % 2 == 1) && (x & !1u8) % 2 == 0 && (x & !1u8) / 2 == x / 2) by (bit_vector);
}

/// What is known about free space is stored at bytes 488 and 492 of the `FSInfo` sector, all ones for what is not
/// known, and nowhere else.
pub proof fn law_info_stored(img: Seq<u8>, g: Geometry, info: FsInfo, i: int)
    requires
        g.fs_info_start + 512 <= img.len(),
        0 <= i < img.len(),
    ensures
        ({
            let b = info_put(img, g, info);
            let at = g.fs_info_start as int;
            &&& b.len() == img.len()
            &&& le_u32(b, at + 488) == match info.free_cluster_count {
                Some(n) => n,
                None => 0xFFFF_FFFF,
            }
            &&& le_u32(b, at + 492) == match info.next_free_cluster {
                Some(c) => c,
                None => 0xFFFF_FFFF,
            }
            &&& !(at + 488 <= i < at + 496) ==> b[i] == img[i]
        }),
{
    let b = info_put(img, g, info);
    let at = g.fs_info_start as int;
    let x = u32_bytes(info_field(info.free_cluster_count));
    let y = u32_bytes(info_field(info.next_free_cluster));
    law_numbers(img, at + 488, info_field(info.free_cluster_count), 0);
    law_numbers(img, at + 492, info_field(info.next_free_cluster), 0);
    assert((x + y).len() == 8);
    assert(b[at + 488] == x[0] && b[at + 489] == x[1] && b[at + 490] == x[2] && b[at + 491] == x[3]);
    assert(b[at + 492] == y[0] && b[at + 493] == y[1] && b[at + 494] == y[2] && b[at + 495] == y[3]);
}

/// What a driver knows about free space once it has mounted a volume: what the `FSInfo` sector says, as far as it can
/// be right. A count is only taken from a volume that was unmounted cleanly.
pub proof fn law_info_on_mount(img: Seq<u8>, g: Geometry)
    requires
        512 <= img.len(),
        g.fs_info_start + 512 <= img.len(),
    ensures
        ({
            let info = info_on_mount(img, g);
            let count = le_u32(img, g.fs_info_start + 488);
            let next = le_u32(img, g.fs_info_start + 492);
            &&& count <= g.total_clusters && img[65] % 2 == 0 ==> info.free_cluster_count == Some(count)
            &&& count > g.total_clusters || img[65] % 2 == 1 ==> info.free_cluster_count is None
            &&& 2 <= next < g.total_clusters + 2 ==> info.next_free_cluster == Some(next)
            &&& !(2 <= next < g.total_clusters + 2) ==> info.next_free_cluster is None
            &&& !info.dirty && !info.verified
        }),
{
    law_boot_flag(img, 0);
    let b = fs_info_sector(img, g);
    let at = g.fs_info_start as int;
    assert(b[488] == img[at + 488] && b[489] == img[at + 489] && b[490] == img[at + 490] && b[491]
        == img[at + 491]);
    assert(b[492] == img[at + 492] && b[493] == img[at + 493] && b[494] == img[at + 494] && b[495]
        == img[at + 495]);
}

/// Flushing stores what is known about free space, if the `FSInfo` sector is behind, and then the FAT cache. It clears
/// the dirty flag only where the free-cluster count was taken from the FAT, and nobody withheld that.
pub proof fn law_flush(s: FsState, g: Geometry)
    ensures
        ({
            let stored = FsState {
                img: if s.info.dirty {
                    info_put(s.img, g, s.info)
                } else {
                    s.img
                },
                info: FsInfo {
                    free_cluster_count: s.info.free_cluster_count,
                    next_free_cluster: s.info.next_free_cluster,
                    dirty: false,
                    verified: s.info.verified,
                },
                clean_withheld: s.clean_withheld,
                cache: s.cache,
            };
            let t = state_flushed(s, g);
            &&& t == written_back(stored, g)
            &&& s.info.verified && !s.clean_withheld ==> flushed(s, g) == (FsState {
                img: boot_flag_cleared(t.img),
                ..t
            })
            &&& !s.info.verified || s.clean_withheld ==> flushed(s, g) == t
        }),
{
}

/// Marking a volume clean clears the dirty flag of the boot sector, and sets bit 27 of FAT entry 1 as the driver sees
/// it. Nothing else of the FAT, and nothing else in front of it, changes.
pub proof fn law_marked_clean(s: FsState, g: Geometry, i: int)
    requires
        cache_ok(s, g),
        coherent(s, g),
        512 <= g.fat_size,
        0 <= i < g.fat_size,
    ensures
        ({
            let t = marked_clean(s, g);
            let was = le_u32(fat_seen(s, g), 4);
            let now = le_u32(fat_seen(t, g), 4);
            &&& now / 0x0800_0000 % 2 == 1
            &&& now % 0x0800_0000 == was % 0x0800_0000
            &&& now / 0x1000_0000 == was / 0x1000_0000
            &&& !(4 <= i < 8) ==> fat_seen(t, g)[i] == fat_seen(s, g)[i]
            &&& t.img[65] % 2 == 0 && t.img[65] / 2 == s.img[65] / 2
            &&& t.info == s.info && t.clean_withheld == s.clean_withheld
        }),
{
    g.lemma_copy_bounds(s.img.len(), g.first_mirror as int);
    let a = FsState { img: boot_flag_cleared(s.img), ..s };
    assert forall|j: int| 0 <= j < s.img.len() && j != 65 implies #[trigger] a.img[j] == s.img[j] by {
        law_boot_flag(s.img, j);
    }
    law_boot_flag(s.img, 0);
    lemma_coherent_front(s, a, g);
    assert(fat_seen(a, g) =~= fat_seen(s, g)) by {
        assert forall|j: int| 0 <= j < g.fat_size implies #[trigger] fat_seen(a, g)[j] == fat_seen(s, g)[j] by {
            law_fat_seen(s, g, j);
            law_fat_seen(a, g, j);
        }
        law_fat_seen(s, g, 0);
        law_fat_seen(a, g, 0);
    }
    let t = slice_read(a, g, 4, 4);
    lemma_window_loaded(a, g, 0);
    let raw = le_u32(t.cache.buf, 4);
    let seen = fat_seen(t, g);
    assert(t.cache.buf[4] == seen[4] && t.cache.buf[5] == seen[5] && t.cache.buf[6] == seen[6]
        && t.cache.buf[7] == seen[7]);
    assert(raw == le_u32(seen, 4));
    assert((raw | 0x0800_0000u32) / 0x0800_0000 % 2 == 1 && (raw | 0x0800_0000u32) % 0x0800_0000 == raw
        % 0x0800_0000 && (raw | 0x0800_0000u32) / 0x1000_0000 == raw / 0x1000_0000 && (raw
        & 0x0800_0000u32 != 0) == (raw / 0x0800_0000 % 2 == 1)) by (bit_vector);
    let data = u32_bytes(raw | 0x0800_0000u32);
    lemma_slice_written(t, g, 4, data);
    law_numbers(seen, 4, raw | 0x0800_0000u32, 0);
    law_fat_seen(t, g, i);
    let changed = splice(seen, 4, data);
    assert(changed[4] == data[0] && changed[5] == data[1] && changed[6] == data[2] && changed[7]
        == data[3]);
    lemma_front_untouched(a, g);
}

/// Loading the first window, and writing to it, leave what is in front of the FAT alone.
proof fn lemma_front_untouched(a: FsState, g: Geometry)
    requires
        cache_ok(a, g),
        512 <= g.fat_size,
    ensures
        window_loaded(a, g, 0).img[65] == a.img[65],
{
    g.lemma_copy_bounds(a.img.len(), 0);
    if a.cache.dirty {
        if let Some(w) = a.cache.window {
            assert forall|m: int| g.first_mirror <= m < g.first_mirror + g.mirrors implies !(
            #[trigger] g.copy_start(m) + w * 512 <= 65 < g.copy_start(m) + w * 512 + a.cache.buf.len()) by {
                g.lemma_copy_bounds(a.img.len(), m);
            }
            lemma_put_fat_outside(a.img, g, w * 512, a.cache.buf, g.mirrors as nat, 65);
        }
    }
}

/// A volume is dirty if the lowest bit of the boot sector byte is set, or bit 27 of FAT entry 1 is not. It has seen an
/// error if the next bit is set, or bit 26 is not.
pub proof fn law_status_flags_read(boot: u8, entry: u32)
    ensures
        status_flags(boot, entry).dirty <==> boot % 2 == 1 || entry / 0x0800_0000 % 2 == 0,
        status_flags(boot, entry).io_error <==> boot / 2 % 2 == 1 || entry / 0x0400_0000 % 2 == 0,
{
    assert((boot & 1u8 != 0) == (boot % 2 == 1) && (boot & 2u8 != 0) == (boot / 2 % 2 == 1) && (entry
        & 0x0800_0000u32 == 0) == (entry / 0x0800_0000 % 2 == 0) && (entry & 0x0400_0000u32 == 0) == (entry
        / 0x0400_0000 % 2 == 0)) by (bit_vector);
}

} // verus!
