//! A mounted file system: a volume, and what the driver knows about it.

use vstd::prelude::*;

use crate::boot::{
    boot_valid, cluster_count, describes, fat32_layout, fat_type_for, fs_info_offset, read_layout, FatType,
    BOOT_SECTOR_SIZE, STATUS_DIRTY, STATUS_IO_ERROR, STATUS_OFFSET,
};
use crate::bytes::{get_u32, le_u32, splice, u32_bytes, u32_to_bytes};
use crate::error::{fails_only_by_device, Error};
use crate::fat::{read_copy_between, FAT32_CLEAN_BIT, FAT32_NO_ERROR_BIT};
use crate::fatcache::{
    coherent, lemma_coherent_front, lemma_written_back_local, slice_read, slice_written, written_back, CacheView,
    FatCache,
};
use crate::geometry::Geometry;
use crate::halting::but_torn;
use crate::interrupted::flush_stopped;
use crate::kept::data_kept;
use crate::storage::Storage;
use crate::volume::Volume;

verus! {

/// Where in the `FSInfo` sector the free-cluster count is. The allocation hint follows it.
pub const FS_INFO_FREE_COUNT: u64 = 488;

/// What the `FSInfo` sector stores for a value that is not known.
pub const FS_INFO_UNKNOWN: u32 = 0xFFFF_FFFF;

/// What the driver knows about free space.
#[derive(Clone, Copy, Debug)]
pub struct FsInfo {
    /// How many clusters are free, if that is known.
    pub free_cluster_count: Option<u32>,
    /// Where to start looking for a free cluster.
    pub next_free_cluster: Option<u32>,
    /// Whether the `FSInfo` sector is behind.
    pub dirty: bool,
    /// Whether the count was taken from the FAT itself.
    pub verified: bool,
}

/// The status flags of a volume.
#[derive(Clone, Copy, Debug, PartialEq, Eq, Structural)]
pub struct FsStatusFlags {
    pub dirty: bool,
    pub io_error: bool,
}

/// A mounted file system.
pub struct FileSystem<S: Storage> {
    pub vol: Volume<S>,
    pub fat_type: FatType,
    pub info: FsInfo,
    /// Whether the volume must not be marked clean when it is unmounted.
    pub clean_withheld: bool,
    pub cache: FatCache,
}

/// What the contracts speak about: the bytes of the volume, and what the driver knows.
#[verifier::ext_equal]
pub struct FsState {
    pub img: Seq<u8>,
    pub info: FsInfo,
    pub clean_withheld: bool,
    pub cache: CacheView,
}

/// The `FSInfo` sector of a volume.
pub open spec fn fs_info_sector(img: Seq<u8>, g: Geometry) -> Seq<u8> {
    img.subrange(g.fs_info_start as int, g.fs_info_start + 512)
}

/// Whether an `FSInfo` sector carries its three signatures.
pub open spec fn fs_info_signed(b: Seq<u8>) -> bool {
    &&& le_u32(b, 0) == 0x4161_5252
    &&& le_u32(b, 484) == 0x6141_7272
    &&& le_u32(b, 508) == 0xAA55_0000
}

/// Whether the volume in `img` was not unmounted cleanly, going by the boot sector.
pub open spec fn boot_dirty(img: Seq<u8>) -> bool {
    img[STATUS_OFFSET as int] & STATUS_DIRTY != 0
}

/// What a driver that just mounted the volume knows about free space. Values that cannot be right count as unknown, and
/// so does the count of a volume that was not unmounted cleanly.
pub open spec fn info_on_mount(img: Seq<u8>, g: Geometry) -> FsInfo {
    let b = fs_info_sector(img, g);
    let free = le_u32(b, 488);
    let next = le_u32(b, 492);
    FsInfo {
        free_cluster_count: if free <= g.total_clusters && !boot_dirty(img) {
            Some(free)
        } else {
            None
        },
        next_free_cluster: if g.valid_cluster(next) {
            Some(next)
        } else {
            None
        },
        dirty: false,
        verified: false,
    }
}

/// Nothing known about free space.
pub open spec fn no_info() -> FsInfo {
    FsInfo { free_cluster_count: None, next_free_cluster: None, dirty: false, verified: false }
}

/// The status flags that the boot sector byte `boot` and FAT entry 1 stand for together. The flags in the FAT are
/// inverted.
pub open spec fn status_flags(boot: u8, entry: u32) -> FsStatusFlags {
    FsStatusFlags {
        dirty: boot & STATUS_DIRTY != 0 || entry & FAT32_CLEAN_BIT == 0,
        io_error: boot & STATUS_IO_ERROR != 0 || entry & FAT32_NO_ERROR_BIT == 0,
    }
}

/// The boot sector of a volume.
pub open spec fn boot_sector(img: Seq<u8>) -> Seq<u8> {
    img.subrange(0, BOOT_SECTOR_SIZE as int)
}

/// Whether the boot sector in `img` describes a volume that is there.
pub open spec fn layout_sound(img: Seq<u8>) -> bool {
    img.len() >= BOOT_SECTOR_SIZE && boot_valid(boot_sector(img), img.len() as int)
}

/// Whether there is a volume in `img` that can be mounted.
pub open spec fn mountable(img: Seq<u8>) -> bool {
    let b = boot_sector(img);
    let at = fs_info_offset(b);
    layout_sound(img) && (fat32_layout(b) ==> fs_info_signed(img.subrange(at, at + 512)))
}

/// The image with the dirty flag in the boot sector cleared, and its other flags as they were.
pub open spec fn boot_flag_cleared(img: Seq<u8>) -> Seq<u8> {
    if boot_dirty(img) {
        splice(img, STATUS_OFFSET as int, seq![img[STATUS_OFFSET as int] & !STATUS_DIRTY])
    } else {
        img
    }
}

/// What the `FSInfo` sector stores for a value.
pub open spec fn info_field(x: Option<u32>) -> u32 {
    match x {
        Some(x) => x,
        None => FS_INFO_UNKNOWN,
    }
}

/// The image with `info` stored in the `FSInfo` sector.
pub open spec fn info_put(img: Seq<u8>, g: Geometry, info: FsInfo) -> Seq<u8> {
    splice(
        img,
        g.fs_info_start + FS_INFO_FREE_COUNT,
        u32_bytes(info_field(info.free_cluster_count)) + u32_bytes(
            info_field(info.next_free_cluster),
        ),
    )
}

/// The state after everything the driver holds back was written.
pub open spec fn state_flushed(s: FsState, g: Geometry) -> FsState {
    let stored = if s.info.dirty {
        FsState {
            img: info_put(s.img, g, s.info),
            info: FsInfo { dirty: false, ..s.info },
            ..s
        }
    } else {
        s
    };
    written_back(stored, g)
}

/// The state after the file system was flushed. The dirty flag goes if the free-cluster count is known to be right, and
/// nobody objected.
pub open spec fn flushed(s: FsState, g: Geometry) -> FsState {
    let t = state_flushed(s, g);
    if s.info.verified && !s.clean_withheld {
        FsState { img: boot_flag_cleared(t.img), ..t }
    } else {
        t
    }
}

/// The state after FAT entry 1 got its clean-shutdown bit, by way of the cache.
pub open spec fn clean_bit_set(s: FsState, g: Geometry) -> FsState {
    let t = slice_read(s, g, 4, 4);
    let raw = le_u32(t.cache.buf, 4);
    if raw & FAT32_CLEAN_BIT == 0 {
        slice_written(t, g, 4, u32_bytes(raw | FAT32_CLEAN_BIT))
    } else {
        t
    }
}

/// The state after the volume was marked clean in both places.
pub open spec fn marked_clean(s: FsState, g: Geometry) -> FsState {
    clean_bit_set(FsState { img: boot_flag_cleared(s.img), ..s }, g)
}

/// Whether `i` is one of the bytes of the reserved area that the driver may write: the status flags, and the two values
/// of the `FSInfo` sector.
pub open spec fn may_change(g: Geometry, i: int) -> bool {
    ||| i == STATUS_OFFSET
    ||| g.fs_info_start + FS_INFO_FREE_COUNT <= i < g.fs_info_start + FS_INFO_FREE_COUNT + 8
}

/// `b` is as long as `a`, and nothing in front of the FAT differs but what the driver may write.
pub open spec fn boot_kept(g: Geometry, a: Seq<u8>, b: Seq<u8>) -> bool {
    &&& a.len() == b.len()
    &&& forall|i: int| 0 <= i < g.fat_start && !may_change(g, i) ==> #[trigger] b[i] == a[i]
}

impl<S: Storage> FileSystem<S> {
    /// The layout fits the device, and the cache holds a part of the FAT.
    pub open spec fn wf(&self) -> bool {
        &&& self.vol.fat_wf()
        &&& self.fat_type is Fat32 ==> self.vol.wf()
        &&& self.cache.wf(self.vol.geom)
        &&& self.info.dirty || self.info.verified ==> self.fat_type is Fat32
    }

    /// The state of the file system.
    pub open spec fn state(&self) -> FsState {
        FsState {
            img: self.vol.image(),
            info: self.info,
            clean_withheld: self.clean_withheld,
            cache: self.cache.view(),
        }
    }

    /// `self` is `old` at a later time: the same file system, on a volume whose layout has not been touched.
    pub open spec fn follows(&self, old: &Self) -> bool {
        &&& self.wf()
        &&& self.fat_type == old.fat_type
        &&& self.vol.geom == old.vol.geom
        &&& self.vol.reliable() == old.vol.reliable()
        &&& boot_kept(self.vol.geom, old.vol.image(), self.vol.image())
    }

    /// Mount the volume on `disk`.
    pub fn new(mut disk: S) -> (res: Result<Self, Error<S::Error>>)
        ensures
            match res {
                Ok(fs) => {
                    let img = disk.bytes();
                    &&& mountable(img)
                    &&& fs.wf()
                    &&& fs.vol.image() == img
                    &&& fs.vol.reliable() == disk.reliable()
                    &&& fs.fat_type == fat_type_for(cluster_count(boot_sector(img)))
                    &&& describes(boot_sector(img), fs.vol.geom)
                    &&& fs.info == if fs.fat_type is Fat32 {
                        info_on_mount(img, fs.vol.geom)
                    } else {
                        no_info()
                    }
                    &&& !fs.clean_withheld
                    &&& fs.cache.window is None
                    &&& !fs.cache.dirty
                },
                Err(Error::Io(_)) => !disk.reliable(),
                Err(Error::CorruptedFileSystem) => !mountable(disk.bytes()),
                Err(_) => false,
            },
    {
        let capacity: u64 = match disk.capacity() {
            Ok(n) => n,
            Err(e) => {
                return Err(Error::Io(e));
            },
        };
        if capacity < BOOT_SECTOR_SIZE as u64 {
            return Err(Error::CorruptedFileSystem);
        }
        let mut boot: [u8; 512] = [0; 512];
        match disk.read_exact(0, &mut boot) {
            Ok(()) => {},
            Err(e) => {
                return Err(Error::Io(e));
            },
        }
        let (fat_type, geom): (FatType, Geometry) = match read_layout(&boot, capacity) {
            Some(layout) => layout,
            None => {
                return Err(Error::CorruptedFileSystem);
            },
        };
        let mut info = FsInfo {
            free_cluster_count: None,
            next_free_cluster: None,
            dirty: false,
            verified: false,
        };
        if fat_type == FatType::Fat32 {
            let mut sector: [u8; 512] = [0; 512];
            proof {
                geom.lemma_copy_bounds(capacity as nat, 0);
            }
            match disk.read_exact(geom.fs_info_start, &mut sector) {
                Ok(()) => {},
                Err(e) => {
                    return Err(Error::Io(e));
                },
            }
            if get_u32(&sector, 0) != 0x4161_5252 || get_u32(&sector, 484) != 0x6141_7272
                || get_u32(&sector, 508) != 0xAA55_0000 {
                return Err(Error::CorruptedFileSystem);
            }
            let free: u32 = get_u32(&sector, 488);
            let next: u32 = get_u32(&sector, 492);
            if free <= geom.total_clusters && boot[0x41] & STATUS_DIRTY == 0 {
                info.free_cluster_count = Some(free);
            }
            if geom.is_valid_cluster(next) {
                info.next_free_cluster = Some(next);
            }
        }
        Ok(
            FileSystem {
                vol: Volume { disk, geom },
                fat_type,
                info,
                clean_withheld: false,
                cache: FatCache::new(),
            },
        )
    }

    /// The width of the FAT.
    pub fn fat_type(&self) -> (fat_type: FatType)
        ensures
            fat_type == self.fat_type,
    {
        self.fat_type
    }

    /// How many clusters are free, as far as that is known.
    pub fn free_cluster_count_hint(&self) -> (count: Option<u32>)
        ensures
            count == self.info.free_cluster_count,
    {
        self.info.free_cluster_count
    }

    /// Record a free-cluster count that was taken from the FAT itself.
    pub fn set_verified_free_cluster_count(&mut self, count: u32)
        requires
            old(self).fat_type is Fat32,
        ensures
            *final(self) == (FileSystem {
                info: FsInfo {
                    free_cluster_count: Some(count),
                    dirty: true,
                    verified: true,
                    ..old(self).info
                },
                ..*old(self)
            }),
    {
        self.info.free_cluster_count = Some(count);
        self.info.dirty = true;
        self.info.verified = true;
    }

    /// Record where to start looking for a free cluster.
    pub fn set_next_free_cluster_hint(&mut self, cluster: u32)
        requires
            old(self).fat_type is Fat32,
        ensures
            *final(self) == (FileSystem {
                info: FsInfo { next_free_cluster: Some(cluster), dirty: true, ..old(self).info },
                ..*old(self)
            }),
    {
        self.info.next_free_cluster = Some(cluster);
        self.info.dirty = true;
    }

    /// Keep the volume from being marked clean when it is unmounted.
    pub fn withhold_clean_flag(&mut self)
        ensures
            *final(self) == (FileSystem { clean_withheld: true, ..*old(self) }),
    {
        self.clean_withheld = true;
    }

    /// Clear the dirty flag in the boot sector. No other byte is written.
    fn clear_boot_flag(&mut self) -> (res: Result<(), Error<S::Error>>)
        requires
            old(self).wf(),
        ensures
            final(self).follows(old(self)),
            data_kept(old(self).vol.geom, old(self).vol.image(), final(self).vol.image()),
            coherent(old(self).state(), old(self).vol.geom) ==> coherent(
                final(self).state(),
                old(self).vol.geom,
            ),
            final(self).info == old(self).info,
            final(self).clean_withheld == old(self).clean_withheld,
            res is Err ==> but_torn(
                old(self).vol.image(),
                final(self).vol.image(),
                final(self).vol.since(&old(self).vol),
            ),
            res is Ok ==> final(self).vol.torn() == old(self).vol.torn(),
            final(self).vol.torn().len() <= old(self).vol.torn().len() + 1,
            fails_only_by_device(res, old(self).vol.reliable()),
            forall|i: int|
                0 <= i < old(self).vol.image().len() && i != STATUS_OFFSET
                    ==> #[trigger] final(self).vol.image()[i] == old(self).vol.image()[i],
            res is Ok ==> final(self).state() == (FsState {
                img: boot_flag_cleared(old(self).vol.image()),
                ..old(self).state()
            }),
    {
        proof {
            self.vol.geom.lemma_copy_bounds(self.vol.image().len(), 0);
        }
        let mut buf: [u8; 1] = [0; 1];
        self.vol.read_at(STATUS_OFFSET, &mut buf)?;
        assert(buf@[0] == self.vol.image()[STATUS_OFFSET as int]);
        if buf[0] & STATUS_DIRTY != 0 {
            buf[0] = buf[0] & !STATUS_DIRTY;
            assert(buf@ =~= seq![self.vol.image()[STATUS_OFFSET as int] & !STATUS_DIRTY]);
            let res: Result<(), Error<S::Error>> = self.vol.write_at(STATUS_OFFSET, &buf);
            proof {
                lemma_coherent_front(old(self).state(), self.state(), self.vol.geom);
            }
            res?;
        }
        Ok(())
    }

    /// Declare the volume clean: in the boot sector, and in FAT entry 1, which is written by way of the FAT cache. The
    /// hard-error flags stay as they are.
    pub fn mark_clean(&mut self) -> (res: Result<(), Error<S::Error>>)
        requires
            old(self).wf(),
            old(self).fat_type is Fat32,
        ensures
            final(self).follows(old(self)),
            data_kept(old(self).vol.geom, old(self).vol.image(), final(self).vol.image()),
            coherent(old(self).state(), old(self).vol.geom) ==> coherent(
                final(self).state(),
                old(self).vol.geom,
            ),
            final(self).info == old(self).info,
            final(self).clean_withheld == old(self).clean_withheld,
            res is Err && !old(self).cache.dirty ==> but_torn(
                old(self).vol.image(),
                final(self).vol.image(),
                final(self).vol.since(&old(self).vol),
            ) || but_torn(
                boot_flag_cleared(old(self).vol.image()),
                final(self).vol.image(),
                final(self).vol.since(&old(self).vol),
            ),
            res is Ok ==> final(self).vol.torn() == old(self).vol.torn(),
            final(self).vol.torn().len() <= old(self).vol.torn().len() + 1,
            !old(self).cache.dirty ==> forall|i: int|
                old(self).vol.geom.fat_start <= i < old(self).vol.image().len()
                    ==> #[trigger] final(self).vol.image()[i] == old(self).vol.image()[i],
            fails_only_by_device(res, old(self).vol.reliable()),
            res is Ok ==> final(self).state() == marked_clean(
                old(self).state(),
                old(self).vol.geom,
            ),
    {
        self.clear_boot_flag()?;
        let mut buf: [u8; 4] = [0; 4];
        let size: u64 = self.vol.geom.fat_size;
        self.read_cached(4, size, &mut buf)?;
        let raw: u32 = get_u32(&buf, 0);
        assert(raw == le_u32(self.cache.buf@, 4));
        if raw & FAT32_CLEAN_BIT == 0 {
            let data: [u8; 4] = u32_to_bytes(raw | FAT32_CLEAN_BIT);
            self.write_cached(4, size, &data)?;
        }
        Ok(())
    }

    /// Store what the driver knows about free space, if the `FSInfo` sector is behind.
    fn flush_fs_info(&mut self) -> (res: Result<(), Error<S::Error>>)
        requires
            old(self).wf(),
        ensures
            final(self).follows(old(self)),
            final(self).vol.image()[65] == old(self).vol.image()[65],
            data_kept(old(self).vol.geom, old(self).vol.image(), final(self).vol.image()),
            coherent(old(self).state(), old(self).vol.geom) ==> coherent(
                final(self).state(),
                old(self).vol.geom,
            ),
            res is Err ==> final(self).info == old(self).info,
            final(self).clean_withheld == old(self).clean_withheld,
            res is Err ==> but_torn(
                old(self).vol.image(),
                final(self).vol.image(),
                final(self).vol.since(&old(self).vol),
            ),
            res is Ok ==> final(self).vol.torn() == old(self).vol.torn(),
            final(self).vol.torn().len() <= old(self).vol.torn().len() + 1,
            forall|i: int|
                old(self).vol.geom.fat_start <= i < old(self).vol.image().len()
                    ==> #[trigger] final(self).vol.image()[i] == old(self).vol.image()[i],
            final(self).cache == old(self).cache,
            fails_only_by_device(res, old(self).vol.reliable()),
            res is Ok ==> final(self).state() == if old(self).info.dirty {
                FsState {
                    img: info_put(
                        old(self).vol.image(),
                        old(self).vol.geom,
                        old(self).info,
                    ),
                    info: FsInfo { dirty: false, ..old(self).info },
                    ..old(self).state()
                }
            } else {
                old(self).state()
            },
    {
        if !self.info.dirty {
            return Ok(());
        }
        proof {
            self.vol.geom.lemma_copy_bounds(self.vol.image().len(), 0);
        }
        let free: u32 = match self.info.free_cluster_count {
            Some(n) => n,
            None => FS_INFO_UNKNOWN,
        };
        let next: u32 = match self.info.next_free_cluster {
            Some(c) => c,
            None => FS_INFO_UNKNOWN,
        };
        let a: [u8; 4] = u32_to_bytes(free);
        let b: [u8; 4] = u32_to_bytes(next);
        let data: [u8; 8] = [a[0], a[1], a[2], a[3], b[0], b[1], b[2], b[3]];
        assert(data@ =~= u32_bytes(free) + u32_bytes(next));
        let at: u64 = self.vol.geom.fs_info_start + FS_INFO_FREE_COUNT;
        let res: Result<(), Error<S::Error>> = self.vol.write_at(at, &data);
        proof {
            lemma_coherent_front(old(self).state(), self.state(), self.vol.geom);
        }
        res?;
        self.info.dirty = false;
        Ok(())
    }

    /// Write everything the driver holds back, the dirty flag aside.
    pub fn flush_state(&mut self) -> (res: Result<(), Error<S::Error>>)
        requires
            old(self).wf(),
        ensures
            final(self).follows(old(self)),
            final(self).vol.image()[65] == old(self).vol.image()[65],
            data_kept(old(self).vol.geom, old(self).vol.image(), final(self).vol.image()),
            coherent(old(self).state(), old(self).vol.geom) ==> coherent(
                final(self).state(),
                old(self).vol.geom,
            ),
            final(self).info == old(self).info || final(self).info == (FsInfo {
                dirty: false,
                ..old(self).info
            }),
            final(self).clean_withheld == old(self).clean_withheld,
            res is Err ==> flush_stopped(
                old(self).vol.geom,
                old(self).state(),
                final(self).vol.image(),
                final(self).vol.since(&old(self).vol),
            ),
            res is Ok ==> final(self).vol.torn() == old(self).vol.torn(),
            final(self).vol.torn().len() <= old(self).vol.torn().len() + 1,
            read_copy_between(
                old(self).vol.geom,
                old(self).vol.image(),
                written_back(old(self).state(), old(self).vol.geom).img,
                final(self).vol.image(),
                old(self).vol.torn(),
                final(self).vol.torn(),
            ),
            fails_only_by_device(res, old(self).vol.reliable()),
            res is Ok ==> final(self).state() == state_flushed(
                old(self).state(),
                old(self).vol.geom,
            ),
            res is Ok ==> final(self).vol.durable(),
    {
        proof {
            self.vol.geom.lemma_copy_bounds(
                self.vol.image().len(),
                self.vol.geom.first_mirror as int,
            );
        }
        self.flush_fs_info()?;
        proof {
            lemma_written_back_local(old(self).state(), self.state(), self.vol.geom);
        }
        self.flush_fat_cache()?;
        self.vol.sync()
    }

    /// Write everything the driver holds back. This clears the dirty flag in the boot sector if the free-cluster count
    /// was taken from the FAT itself and nobody withheld the flag.
    pub fn flush(&mut self) -> (res: Result<(), Error<S::Error>>)
        requires
            old(self).wf(),
        ensures
            final(self).follows(old(self)),
            data_kept(old(self).vol.geom, old(self).vol.image(), final(self).vol.image()),
            fails_only_by_device(res, old(self).vol.reliable()),
            res is Ok ==> final(self).state() == flushed(old(self).state(), old(self).vol.geom),
            res is Ok ==> final(self).vol.durable(),
    {
        self.flush_state()?;
        if self.info.verified && !self.clean_withheld {
            self.clear_boot_flag()?;
            self.vol.sync()?;
        }
        Ok(())
    }

    /// Flush the file system and give its device back.
    pub fn unmount(self) -> (res: Result<S, Error<S::Error>>)
        requires
            self.wf(),
        ensures
            fails_only_by_device(res, self.vol.reliable()),
            res matches Ok(disk) ==> disk.bytes() == flushed(self.state(), self.vol.geom).img
                && disk.durable(),
    {
        let mut fs: FileSystem<S> = self;
        fs.flush()?;
        Ok(fs.vol.disk)
    }

    /// The status flags of a FAT32 volume: what the boot sector says, together with what FAT entry 1 says, where the
    /// flags are inverted.
    pub fn read_status_flags(&mut self) -> (res: Result<FsStatusFlags, Error<S::Error>>)
        requires
            old(self).wf(),
        ensures
            final(self).follows(old(self)),
            data_kept(old(self).vol.geom, old(self).vol.image(), final(self).vol.image()),
            match res {
                Ok(flags) => {
                    let s = slice_read(old(self).state(), old(self).vol.geom, 4, 4);
                    let boot = s.img[STATUS_OFFSET as int];
                    let entry = le_u32(s.cache.buf, 4);
                    &&& old(self).fat_type is Fat32
                    &&& final(self).state() == s
                    &&& flags == status_flags(boot, entry)
                },
                Err(Error::Io(_)) => !old(self).vol.reliable(),
                Err(Error::InvalidInput) => !(old(self).fat_type is Fat32),
                Err(_) => false,
            },
    {
        if self.fat_type != FatType::Fat32 {
            return Err(Error::InvalidInput);
        }
        let mut buf: [u8; 4] = [0; 4];
        let size: u64 = self.vol.geom.fat_size;
        self.read_cached(4, size, &mut buf)?;
        let entry: u32 = get_u32(&buf, 0);
        assert(entry == le_u32(self.cache.buf@, 4));
        proof {
            self.vol.geom.lemma_copy_bounds(self.vol.image().len(), 0);
        }
        let mut boot: [u8; 1] = [0; 1];
        self.vol.read_at(STATUS_OFFSET, &mut boot)?;
        assert(boot@[0] == self.vol.image()[STATUS_OFFSET as int]);
        Ok(
            FsStatusFlags {
                dirty: boot[0] & STATUS_DIRTY != 0 || entry & FAT32_CLEAN_BIT == 0,
                io_error: boot[0] & STATUS_IO_ERROR != 0 || entry & FAT32_NO_ERROR_BIT == 0,
            },
        )
    }
}

} // verus!
