//! What a repair found and did.

use vstd::prelude::*;

use crate::mode::RepairMode;

verus! {

/// What a repair found and did.
///
/// In a dry run nothing is written, and every counter reports what would have been done. A counter that reaches its
/// largest value stays there.
#[derive(Clone, Copy, Debug, PartialEq, Eq, Structural)]
pub struct RepairStats {
    /// The modes that were actually carried out: the requested mode minus what could not be done.
    pub modes_applied: RepairMode,
    /// Directories scanned.
    pub dirs_scanned: u32,
    /// Directories left unscanned because the scratch buffer ran out of depth.
    pub dirs_skipped: u32,
    /// Entries that claimed to be directories but did not start one, and were therefore left untouched.
    pub dirs_rejected: u32,
    /// Directory entries examined.
    pub files_examined: u32,
    /// Entries whose short name was rewritten because it held illegal bytes.
    pub entries_recovered: u32,
    /// Entries marked deleted because nothing about them could be trusted.
    pub entries_removed: u32,
    /// Chains cut short because they ran into something that was not theirs.
    pub chains_truncated: u32,
    /// Chains cut short because another file had already claimed the cluster.
    pub cross_links_resolved: u32,
    /// Size fields brought into line with the cluster chain.
    pub sizes_corrected: u32,
    /// `.` or `..` entries pointed back at the right directory.
    pub dot_entries_fixed: u32,
    /// Reserved FAT entries (0 and 1) rewritten from their fixed values.
    pub reserved_entries_restored: u32,
    /// FAT entries copied from the first FAT over a mirror that disagreed.
    pub mirror_entries_synced: u32,
    /// Set when the `FSInfo` free-cluster count disagreed with the FAT.
    pub fsinfo_corrected: u32,
    /// Chains freed because no directory entry could reach them.
    pub orphans_freed: u32,
    /// Total clusters returned to the free pool.
    pub clusters_freed: u32,
}

/// A counter, one higher.
pub open spec fn bump(n: u32) -> u32 {
    if n < u32::MAX {
        (n + 1) as u32
    } else {
        n
    }
}

/// A counter, `by` higher.
pub open spec fn bump_by(n: u32, by: nat) -> u32 {
    if n + by <= u32::MAX {
        (n + by) as u32
    } else {
        u32::MAX
    }
}

/// Count one more.
pub fn count_one(n: &mut u32)
    ensures
        *final(n) == bump(*old(n)),
{
    *n = (*n).saturating_add(1);
}

impl RepairStats {
    /// A report on nothing yet, for a run in `mode`.
    pub fn starting(mode: RepairMode) -> (stats: RepairStats)
        ensures
            stats == starting_stats(mode),
    {
        RepairStats {
            modes_applied: mode,
            dirs_scanned: 0,
            dirs_skipped: 0,
            dirs_rejected: 0,
            files_examined: 0,
            entries_recovered: 0,
            entries_removed: 0,
            chains_truncated: 0,
            cross_links_resolved: 0,
            sizes_corrected: 0,
            dot_entries_fixed: 0,
            reserved_entries_restored: 0,
            mirror_entries_synced: 0,
            fsinfo_corrected: 0,
            orphans_freed: 0,
            clusters_freed: 0,
        }
    }
}

/// A report on nothing yet, for a run in `mode`.
pub open spec fn starting_stats(mode: RepairMode) -> RepairStats {
    RepairStats {
        modes_applied: mode,
        dirs_scanned: 0,
        dirs_skipped: 0,
        dirs_rejected: 0,
        files_examined: 0,
        entries_recovered: 0,
        entries_removed: 0,
        chains_truncated: 0,
        cross_links_resolved: 0,
        sizes_corrected: 0,
        dot_entries_fixed: 0,
        reserved_entries_restored: 0,
        mirror_entries_synced: 0,
        fsinfo_corrected: 0,
        orphans_freed: 0,
        clusters_freed: 0,
    }
}

impl Default for RepairStats {
    fn default() -> (stats: RepairStats)
        ensures
            stats == starting_stats(RepairMode::minimal()),
    {
        RepairStats::starting(RepairMode::minimal())
    }
}

} // verus!
