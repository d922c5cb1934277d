//! Which classes of damage a repair looks for.

use vstd::prelude::*;

verus! {

pub const FAT_SIGNATURES: u16 = 0x0001;

pub const CHAINS: u16 = 0x0002;

pub const ENTRY_VALIDITY: u16 = 0x0004;

pub const LONG_NAMES: u16 = 0x0008;

pub const ORPHAN_CLUSTERS: u16 = 0x0010;

pub const FS_INFO: u16 = 0x0020;

pub const FAT_MIRRORS: u16 = 0x0040;

pub const DRY_RUN: u16 = 0x0080;

pub const MINIMAL: u16 = 0x006f;

pub const ALL: u16 = 0x007f;

/// A set of repair classes, and whether to write at all.
///
/// The narrowest set that repairs every class of structural damage is [`RepairMode::minimal`], which is also the
/// default. [`RepairMode::all`] adds the reclaiming of unreachable clusters, which costs three passes over the FAT.
#[derive(Clone, Copy, Debug, PartialEq, Eq, Structural)]
pub struct RepairMode {
    pub bits: u16,
}

impl RepairMode {
    /// FAT entries 0 and 1, which hold fixed signature values.
    #[verifier::allow_in_spec]
    pub fn fat_signatures() -> RepairMode
        returns
            (RepairMode { bits: FAT_SIGNATURES }),
    {
        RepairMode { bits: FAT_SIGNATURES }
    }

    /// Cluster chains that run into a cluster that is not theirs, and file sizes that disagree with the chain. The
    /// chain is cut at the first invalid entry, and the size brought down to what is left.
    #[verifier::allow_in_spec]
    pub fn chains() -> RepairMode
        returns
            (RepairMode { bits: CHAINS }),
    {
        RepairMode { bits: CHAINS }
    }

    /// Directory entries that cannot describe a real file: impossible attributes, first clusters outside the volume,
    /// impossible sizes, wrong `.` and `..` targets, illegal short names, and a damaged volume label.
    #[verifier::allow_in_spec]
    pub fn entry_validity() -> RepairMode
        returns
            (RepairMode { bits: ENTRY_VALIDITY }),
    {
        RepairMode { bits: ENTRY_VALIDITY }
    }

    /// Long-name entries with no short name behind them, and long-name runs whose checksum no longer matches the entry
    /// they precede.
    #[verifier::allow_in_spec]
    pub fn long_names() -> RepairMode
        returns
            (RepairMode { bits: LONG_NAMES }),
    {
        RepairMode { bits: LONG_NAMES }
    }

    /// FAT copies that disagree with each other. The first copy wins.
    #[verifier::allow_in_spec]
    pub fn fat_mirrors() -> RepairMode
        returns
            (RepairMode { bits: FAT_MIRRORS }),
    {
        RepairMode { bits: FAT_MIRRORS }
    }

    /// Clusters marked in use that no directory entry can reach. Cross-linked chains are separated on the way.
    #[verifier::allow_in_spec]
    pub fn orphan_clusters() -> RepairMode
        returns
            (RepairMode { bits: ORPHAN_CLUSTERS }),
    {
        RepairMode { bits: ORPHAN_CLUSTERS }
    }

    /// The `FSInfo` free-cluster count, which an unclean shutdown almost always leaves stale.
    #[verifier::allow_in_spec]
    pub fn fs_info() -> RepairMode
        returns
            (RepairMode { bits: FS_INFO }),
    {
        RepairMode { bits: FS_INFO }
    }

    /// Report what is wrong without changing anything.
    #[verifier::allow_in_spec]
    pub fn dry_run() -> RepairMode
        returns
            (RepairMode { bits: DRY_RUN }),
    {
        RepairMode { bits: DRY_RUN }
    }

    /// Everything that can be repaired without multiple passes over the FAT.
    #[verifier::allow_in_spec]
    pub fn minimal() -> RepairMode
        returns
            (RepairMode { bits: MINIMAL }),
    {
        RepairMode { bits: MINIMAL }
    }

    /// Everything, including reclaiming unreachable clusters.
    #[verifier::allow_in_spec]
    pub fn all() -> RepairMode
        returns
            (RepairMode { bits: ALL }),
    {
        RepairMode { bits: ALL }
    }

    /// No class at all.
    #[verifier::allow_in_spec]
    pub fn empty() -> RepairMode
        returns
            (RepairMode { bits: 0 }),
    {
        RepairMode { bits: 0 }
    }

    /// Whether every class of `other` is in `self`.
    #[verifier::allow_in_spec]
    pub fn contains(self, other: RepairMode) -> bool
        returns
            self.bits & other.bits == other.bits,
    {
        self.bits & other.bits == other.bits
    }

    /// The classes of `self` together with those of `other`.
    #[verifier::allow_in_spec]
    pub fn union(self, other: RepairMode) -> RepairMode
        returns
            (RepairMode { bits: self.bits | other.bits }),
    {
        RepairMode { bits: self.bits | other.bits }
    }

    /// The classes of `self` that are not in `other`.
    #[verifier::allow_in_spec]
    pub fn difference(self, other: RepairMode) -> RepairMode
        returns
            (RepairMode { bits: self.bits & !other.bits }),
    {
        RepairMode { bits: self.bits & !other.bits }
    }

    /// Take the classes of `other` out of `self`.
    pub fn remove(&mut self, other: RepairMode)
        ensures
            *final(self) == old(self).difference(other),
    {
        self.bits = self.bits & !other.bits;
    }

    /// Whether anything at all may be written to the volume.
    #[verifier::allow_in_spec]
    pub fn writes(self) -> bool
        returns
            !self.contains(RepairMode::dry_run()),
    {
        !self.contains(RepairMode::dry_run())
    }

    /// Whether the repairs of `flag` are to be carried out, as opposed to merely counted.
    #[verifier::allow_in_spec]
    pub fn applies(self, flag: RepairMode) -> bool
        returns
            self.contains(flag) && self.writes(),
    {
        self.contains(flag) && self.writes()
    }

    /// Whether reachability markers are written into the FAT.
    #[verifier::allow_in_spec]
    pub fn marks(self) -> bool
        returns
            self.applies(RepairMode::orphan_clusters()),
    {
        self.applies(RepairMode::orphan_clusters())
    }
}

impl Default for RepairMode {
    /// The recommended mode: it catches most errors without scanning the FAT more than once.
    fn default() -> (mode: RepairMode)
        ensures
            mode == RepairMode::minimal(),
    {
        RepairMode::minimal()
    }
}

/// What the two composite modes consist of.
pub proof fn law_composite_modes()
    ensures
        RepairMode::minimal() == RepairMode::fat_signatures().union(RepairMode::chains()).union(
            RepairMode::entry_validity(),
        ).union(RepairMode::long_names()).union(RepairMode::fat_mirrors()).union(
            RepairMode::fs_info(),
        ),
        RepairMode::all() == RepairMode::minimal().union(RepairMode::orphan_clusters()),
        RepairMode::minimal().writes(),
        RepairMode::all().marks(),
        !RepairMode::minimal().marks(),
        !RepairMode::all().union(RepairMode::dry_run()).writes(),
{
    assert(0x0001u16 | 0x0002u16 | 0x0004u16 | 0x0008u16 | 0x0040u16 | 0x0020u16 == 0x006fu16
        && 0x006fu16 | 0x0010u16 == 0x007fu16 && 0x006fu16 & 0x0080u16 != 0x0080u16 && 0x007fu16
        & 0x0080u16 != 0x0080u16 && 0x007fu16 & 0x0010u16 == 0x0010u16 && 0x006fu16 & 0x0010u16
        != 0x0010u16 && (0x007fu16 | 0x0080u16) & 0x0080u16 == 0x0080u16) by (bit_vector);
}

} // verus!
