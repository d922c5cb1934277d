//! When a repair may declare a volume clean.

use vstd::prelude::*;

use crate::fat::raw_entry;
use crate::fs::{flushed, FsState};
use crate::geometry::Geometry;
use crate::image_laws::law_unmount_after_repair;
use crate::laws::{before, law_status_flags, lemma_before, lemma_phases, ready, settled};
use crate::meaning::law_mode_bits;
use crate::mode::RepairMode;
use crate::passes::entry_1_damaged;
use crate::repair::{repaired, wrapped_up};

verus! {

/// Whether FAT entry 1 is beyond repair: its value, clean-shutdown flag and error flag aside, is not all ones.
pub open spec fn status_lost(img: Seq<u8>, g: Geometry) -> bool {
    raw_entry(img, g, 1) % 0x0400_0000 != 0x03FF_FFFF
}

/// What a status entry has to be, flags aside.
proof fn lemma_status_lost(img: Seq<u8>, g: Geometry)
    ensures
        entry_1_damaged(img, g) == status_lost(img, g),
{
    let raw = raw_entry(img, g, 1);
    assert(((raw & 0x0FFF_FFFFu32) | 0x0C00_0000u32 != 0x0FFF_FFFFu32) == (raw % 0x0400_0000
        != 0x03FF_FFFF)) by (bit_vector);
}

/// A run that skipped a directory, that was not asked for each of the six classes of structural damage, or that may not
/// write, leaves the dirty flag of the boot sector and FAT entry 1 as they were, and so does unmounting afterwards. FAT
/// entry 1 is restored all the same, to all ones, where there is nothing left of it.
pub proof fn law_dirty_flag_stays(g: Geometry, s: FsState, mode: RepairMode, room: nat)
    requires
        ready(g, s),
        repaired(g, s, mode, room).1 matches Ok(stats) ==> stats.dirs_skipped > 0 || mode.bits % 16
            != 15 || mode.bits / 32 % 4 != 3 || mode.bits / 128 % 2 == 1,
    ensures
        ({
            let (t, res) = repaired(g, s, mode, room);
            let restores = mode.bits % 2 == 1 && mode.bits / 128 % 2 == 0 && status_lost(
                before(g, s),
                g,
            );
            &&& t.img[65] == s.img[65]
            &&& restores ==> raw_entry(t.img, g, 1) == 0xFFFF_FFFF
            &&& !restores ==> raw_entry(t.img, g, 1) == raw_entry(before(g, s), g, 1)
            &&& res is Ok && mode.bits / 128 % 2 == 0 ==> t.clean_withheld && flushed(t, g).img[65]
                == s.img[65]
        }),
{
    law_mode_bits(mode);
    law_status_flags(g, s, mode, room);
    lemma_status_lost(before(g, s), g);
    if repaired(g, s, mode, room).1 is Ok && mode.writes() {
        lemma_before(g, s);
        lemma_phases(g, s, mode, room);
        law_unmount_after_repair(g, s, mode, room);
        let (mid, stats) = settled(g, s, mode, room);
        assert(repaired(g, s, mode, room).0 == wrapped_up(g, mid, stats, mode));
    }
}

/// A run that may write, was asked for each of the six classes of structural damage, and skipped no directory, clears
/// the dirty flag of the boot sector, and sets the clean-shutdown flag of FAT entry 1. The other flags stay, unless FAT
/// entry 1 had to be restored.
pub proof fn law_dirty_flag_goes(g: Geometry, s: FsState, mode: RepairMode, room: nat)
    requires
        ready(g, s),
        mode.bits % 16 == 15,
        mode.bits / 32 % 4 == 3,
        mode.bits / 128 % 2 == 0,
        repaired(g, s, mode, room).1 matches Ok(stats) && stats.dirs_skipped == 0,
    ensures
        ({
            let t = repaired(g, s, mode, room).0;
            let was = raw_entry(before(g, s), g, 1);
            let now = raw_entry(t.img, g, 1);
            &&& t.img[65] % 2 == 0
            &&& t.img[65] / 2 == s.img[65] / 2
            &&& now / 0x0800_0000 % 2 == 1
            &&& !status_lost(before(g, s), g) ==> now % 0x0800_0000 == was % 0x0800_0000 && now
                / 0x1000_0000 == was / 0x1000_0000
            &&& status_lost(before(g, s), g) ==> now == 0xFFFF_FFFF
        }),
{
    law_mode_bits(mode);
    law_status_flags(g, s, mode, room);
    lemma_status_lost(before(g, s), g);
    let boot = s.img[65];
    let raw = raw_entry(before(g, s), g, 1);
    assert((boot & !1u8) % 2 == 0 && (boot & !1u8) / 2 == boot / 2 && (raw | 0x0800_0000u32)
        / 0x0800_0000 % 2 == 1 && (raw | 0x0800_0000u32) % 0x0800_0000 == raw % 0x0800_0000 && (raw
        | 0x0800_0000u32) / 0x1000_0000 == raw / 0x1000_0000 && 0xFFFF_FFFFu32 | 0x0800_0000u32
        == 0xFFFF_FFFFu32 && 0xFFFF_FFFFu32 / 0x0800_0000 % 2 == 1) by (bit_vector);
}

} // verus!
