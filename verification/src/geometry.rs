//! Where things are on a FAT32 volume.

use vstd::prelude::*;

verus! {

/// FAT entries 0 and 1 are not clusters.
pub const RESERVED_FAT_ENTRIES: u32 = 2;

/// The largest number of clusters a FAT32 volume can have.
pub const MAX_CLUSTERS: u32 = 0x0FFF_FFF4;

/// The largest cluster, in bytes.
pub const MAX_CLUSTER_SIZE: u32 = 0x8_0000;

/// The size of a directory entry.
pub const DIR_ENTRY_SIZE: u32 = 32;

/// The number of entries a FAT directory can hold.
pub const MAX_DIR_ENTRIES: u32 = 65_536;

/// The layout of a FAT32 volume. Positions and sizes are in bytes.
#[derive(Clone, Copy, Debug)]
pub struct Geometry {
    /// Size of a cluster.
    pub cluster_size: u32,
    /// Where the first copy of the FAT starts.
    pub fat_start: u64,
    /// Size of one copy of the FAT.
    pub fat_size: u64,
    /// How many copies of the FAT there are.
    pub fats: u8,
    /// The copy that is read.
    pub first_mirror: u8,
    /// How many copies, from the one that is read on, are written.
    pub mirrors: u8,
    /// Where the first cluster, number 2, starts.
    pub data_start: u64,
    /// How many clusters there are.
    pub total_clusters: u32,
    /// The first cluster of the root directory.
    pub root_dir_first_cluster: u32,
    /// Where the `FSInfo` sector starts.
    pub fs_info_start: u64,
    /// The media descriptor.
    pub media: u8,
    /// The volume label in the boot sector.
    pub volume_label: [u8; 11],
}

impl Geometry {
    /// Where the last copy of the FAT ends.
    pub open spec fn fats_end(self) -> int {
        self.fat_start + self.fats * self.fat_size
    }

    /// Where the last cluster ends.
    pub open spec fn data_end(self) -> int {
        self.cluster_start(self.fat_entries())
    }

    /// The copies of the FAT follow each other behind the boot sector and in front of the data, and fit on a device of
    /// `size` bytes.
    pub open spec fn fat_wf(self, size: nat) -> bool {
        &&& 512 <= self.fat_start
        &&& self.fat_size % 512 == 0
        &&& 1 <= self.mirrors
        &&& self.first_mirror + self.mirrors <= self.fats
        &&& self.fats_end() <= self.data_start
        &&& self.data_start <= size
    }

    /// The parts of the volume follow each other without overlap and fit on a device of `size` bytes.
    pub open spec fn wf(self, size: nat) -> bool {
        &&& self.fat_wf(size)
        &&& 512 <= self.cluster_size <= MAX_CLUSTER_SIZE
        &&& self.cluster_size % 512 == 0
        &&& 1 <= self.total_clusters <= MAX_CLUSTERS
        &&& 512 <= self.fs_info_start
        &&& self.fs_info_start + 512 <= self.fat_start
        &&& 4 * (self.total_clusters + 2) <= self.fat_size
        &&& self.data_start + self.total_clusters * self.cluster_size <= size
        &&& self.data_start + self.total_clusters * self.cluster_size <= u64::MAX
        &&& self.valid_cluster(self.root_dir_first_cluster)
    }

    /// Whether `c` numbers a cluster of the volume.
    pub open spec fn valid_cluster(self, c: u32) -> bool {
        RESERVED_FAT_ENTRIES <= c < self.fat_entries()
    }

    /// Number of FAT entries on the volume, including the two reserved ones.
    pub open spec fn fat_entries(self) -> int {
        self.total_clusters + RESERVED_FAT_ENTRIES
    }

    /// Where the `k`-th copy of the FAT starts.
    pub open spec fn copy_start(self, k: int) -> int {
        self.fat_start + k * self.fat_size
    }

    /// Where entry `c` of the `k`-th copy of the FAT is.
    pub open spec fn entry_start(self, k: int, c: int) -> int {
        self.copy_start(k) + 4 * c
    }

    /// Where cluster `c` starts.
    pub open spec fn cluster_start(self, c: int) -> int {
        self.data_start + (c - RESERVED_FAT_ENTRIES) * self.cluster_size
    }

    /// The longest chain that could still be a directory, in clusters.
    pub open spec fn max_dir_chain(self) -> u32 {
        let whole = (MAX_DIR_ENTRIES * DIR_ENTRY_SIZE) as u32 / self.cluster_size;
        if whole >= 1 {
            whole
        } else {
            1
        }
    }

    /// How many clusters `size` bytes take up.
    pub open spec fn clusters_for(self, size: u32) -> u32 {
        ((size + self.cluster_size - 1) / (self.cluster_size as int)) as u32
    }

    /// Every copy of the FAT lies between the reserved area and the clusters.
    pub proof fn lemma_copy_bounds(self, size: nat, k: int)
        requires
            self.fat_wf(size),
            0 <= k < self.fats,
        ensures
            self.fat_start <= self.copy_start(k),
            self.copy_start(k) + self.fat_size <= self.fats_end(),
            self.fats_end() <= self.data_start,
            self.copy_start(k) + self.fat_size <= self.data_start,
            self.data_start <= size,
    {
        let n = self.fats as int;
        let z = self.fat_size as int;
        assert(0 <= k * z && k * z + z <= n * z) by (nonlinear_arith)
            requires
                0 <= k < n,
                0 <= z,
        ;
    }

    /// Different copies of the FAT do not overlap.
    pub proof fn lemma_copies_disjoint(self, size: nat, j: int, k: int)
        requires
            self.fat_wf(size),
            j < k,
        ensures
            self.copy_start(j) + self.fat_size <= self.copy_start(k),
    {
        let z = self.fat_size as int;
        assert(j * z + z <= k * z) by (nonlinear_arith)
            requires
                j < k,
                0 <= z,
        ;
    }

    /// A cluster lies behind the FAT and within the device.
    pub proof fn lemma_cluster_bounds(self, size: nat, c: int)
        requires
            self.wf(size),
            2 <= c < self.fat_entries(),
        ensures
            self.data_start <= self.cluster_start(c),
            self.cluster_start(c) + self.cluster_size <= size,
            self.cluster_start(c) + self.cluster_size <= u64::MAX,
            self.fat_start <= self.data_start,
    {
        let t = self.total_clusters as int;
        let z = self.cluster_size as int;
        let i = c - 2;
        assert(0 <= i * z && i * z + z <= t * z) by (nonlinear_arith)
            requires
                0 <= i < t,
                0 <= z,
        ;
        self.lemma_copy_bounds(size, 0);
    }

    /// Different clusters do not overlap.
    pub proof fn lemma_clusters_disjoint(self, size: nat, b: int, c: int)
        requires
            self.wf(size),
            b < c,
        ensures
            self.cluster_start(b) + self.cluster_size <= self.cluster_start(c),
    {
        let z = self.cluster_size as int;
        let i = b - 2;
        let j = c - 2;
        assert(i * z + z <= j * z) by (nonlinear_arith)
            requires
                i < j,
                0 <= z,
        ;
    }

    /// Whether `c` numbers a cluster of the volume.
    pub fn is_valid_cluster(&self, c: u32) -> (valid: bool)
        requires
            self.total_clusters <= MAX_CLUSTERS,
        ensures
            valid == self.valid_cluster(c),
    {
        RESERVED_FAT_ENTRIES <= c && c < self.total_clusters + RESERVED_FAT_ENTRIES
    }

    /// Number of FAT entries on the volume, including the two reserved ones.
    pub fn fat_entry_count(&self) -> (n: u32)
        requires
            self.total_clusters <= MAX_CLUSTERS,
        ensures
            n == self.fat_entries(),
    {
        self.total_clusters + RESERVED_FAT_ENTRIES
    }

    /// The longest chain that could still be a directory, in clusters.
    pub fn max_dir_clusters(&self) -> (n: u32)
        requires
            self.cluster_size > 0,
        ensures
            n == self.max_dir_chain(),
    {
        let whole: u32 = MAX_DIR_ENTRIES * DIR_ENTRY_SIZE / self.cluster_size;
        if whole >= 1 {
            whole
        } else {
            1
        }
    }

    /// How many clusters `size` bytes take up.
    pub fn clusters_from_bytes(&self, size: u32) -> (n: u32)
        requires
            self.cluster_size > 0,
        ensures
            n == self.clusters_for(size),
    {
        let n: u64 = (size as u64 + self.cluster_size as u64 - 1) / self.cluster_size as u64;
        n as u32
    }
}

} // verus!
