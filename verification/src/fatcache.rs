//! A persistent one-sector write-back cache for the FAT.
//!
//! Clusters are usually allocated and followed in order, 128 FAT entries to a sector. Keeping the current sector here,
//! and loading and storing it only when another one is asked for, turns that many read-modify-write cycles into one
//! read and one mirrored write.

use vstd::prelude::*;

use crate::bytes::splice;
use crate::error::{fails_only_by_device, Error};
use crate::fat::{
    lemma_agrees_self, lemma_put_fat_inside, lemma_put_fat_len, lemma_put_fat_local, lemma_put_fat_outside, put_fat,
    read_copy_agrees,
};
use crate::fs::{FileSystem, FsState};
use crate::geometry::Geometry;
use crate::interrupted::cache_stopped;
use crate::kept::data_kept;
use crate::storage::Storage;

verus! {

/// How much of the FAT the cache holds.
pub const FAT_CACHE_SIZE: usize = 512;

/// The cache: one window of the FAT.
pub struct FatCache {
    /// The number of the window that is loaded, if any is.
    pub window: Option<u64>,
    /// Whether the window holds changes that the device does not have yet.
    pub dirty: bool,
    pub buf: [u8; 512],
}

/// What the contracts say about the cache.
#[verifier::ext_equal]
pub struct CacheView {
    pub window: Option<u64>,
    pub dirty: bool,
    pub buf: Seq<u8>,
}

impl FatCache {
    /// The window that is loaded lies within the FAT.
    pub open spec fn wf(&self, g: Geometry) -> bool {
        self.window matches Some(w) ==> (w + 1) * FAT_CACHE_SIZE <= g.fat_size
    }

    /// The state of the cache.
    pub open spec fn view(&self) -> CacheView {
        CacheView { window: self.window, dirty: self.dirty, buf: self.buf@ }
    }

    /// An empty cache.
    pub fn new() -> (cache: FatCache)
        ensures
            cache.window is None,
            !cache.dirty,
            cache.buf@ == Seq::new(512, |i: int| 0u8),
    {
        let cache = FatCache { window: None, dirty: false, buf: [0; 512] };
        assert(cache.buf@ =~= Seq::new(512, |i: int| 0u8));
        cache
    }
}

/// The FAT as it is on the device: the copy that is read.
pub open spec fn fat_on_disk(img: Seq<u8>, g: Geometry) -> Seq<u8> {
    let start = g.copy_start(g.first_mirror as int);
    img.subrange(start, start + g.fat_size)
}

/// The FAT as the driver sees it: the one on the device, with the loaded window over it.
pub open spec fn fat_seen(s: FsState, g: Geometry) -> Seq<u8> {
    match s.cache.window {
        Some(w) => splice(fat_on_disk(s.img, g), w * 512, s.cache.buf),
        None => fat_on_disk(s.img, g),
    }
}

/// A window without changes of its own is what the device holds.
pub open spec fn coherent(s: FsState, g: Geometry) -> bool {
    !s.cache.dirty ==> fat_seen(s, g) == fat_on_disk(s.img, g)
}

/// The bytes of window `w` on the device.
pub open spec fn window_on_disk(img: Seq<u8>, g: Geometry, w: u64) -> Seq<u8> {
    fat_on_disk(img, g).subrange(w * 512, w * 512 + 512)
}

/// The state after the window was stored, to every copy of the FAT that is kept in step, if it had changed.
pub open spec fn written_back(s: FsState, g: Geometry) -> FsState {
    if s.cache.dirty {
        FsState {
            img: match s.cache.window {
                Some(w) => put_fat(s.img, g, w * 512, s.cache.buf),
                None => s.img,
            },
            cache: CacheView { dirty: false, ..s.cache },
            ..s
        }
    } else {
        s
    }
}

/// The state after window `w` was loaded, if it was not already.
pub open spec fn window_loaded(s: FsState, g: Geometry, w: u64) -> FsState {
    if s.cache.window == Some(w) {
        s
    } else {
        let t = written_back(s, g);
        FsState {
            cache: CacheView { window: Some(w), dirty: false, buf: window_on_disk(t.img, g, w) },
            ..t
        }
    }
}

/// The state after the window was stored and given up.
pub open spec fn cache_dropped(s: FsState, g: Geometry) -> FsState {
    let t = written_back(s, g);
    FsState { cache: CacheView { window: None, ..t.cache }, ..t }
}

/// How many of `len` bytes at `offset` of a FAT of `size` bytes one access covers: it ends with the FAT, and with the
/// window.
pub open spec fn access_len(offset: u64, size: u64, len: int) -> int {
    let avail = if offset < size {
        size - offset
    } else {
        0
    };
    let left = 512 - offset % 512;
    let want = if len < avail {
        len
    } else {
        avail
    };
    if want < left {
        want
    } else {
        left as int
    }
}

/// The state after `n` bytes were read at `offset`.
pub open spec fn slice_read(s: FsState, g: Geometry, offset: u64, n: int) -> FsState {
    if n == 0 {
        s
    } else {
        window_loaded(s, g, offset / 512)
    }
}

/// The state after `data` was written at `offset`.
pub open spec fn slice_written(s: FsState, g: Geometry, offset: u64, data: Seq<u8>) -> FsState {
    if data.len() == 0 {
        s
    } else {
        let t = window_loaded(s, g, offset / 512);
        FsState {
            cache: CacheView {
                window: t.cache.window,
                dirty: true,
                buf: splice(t.cache.buf, (offset % 512) as int, data),
            },
            ..t
        }
    }
}

/// Writing to the FAT shows in the copy that is read.
pub proof fn lemma_fat_on_disk(img: Seq<u8>, g: Geometry, offset: int, data: Seq<u8>)
    requires
        g.fat_wf(img.len()),
        0 <= offset,
        offset + data.len() <= g.fat_size,
    ensures
        put_fat(img, g, offset, data).len() == img.len(),
        fat_on_disk(put_fat(img, g, offset, data), g) == splice(
            fat_on_disk(img, g),
            offset,
            data,
        ),
{
    let new = put_fat(img, g, offset, data);
    let n = g.mirrors as nat;
    let k = g.first_mirror as int;
    let start = g.copy_start(k);
    lemma_put_fat_len(img, g, offset, data, n);
    g.lemma_copy_bounds(img.len(), k);
    let want = splice(fat_on_disk(img, g), offset, data);
    assert forall|i: int| 0 <= i < g.fat_size implies #[trigger] fat_on_disk(new, g)[i]
        == want[i] by {
        if offset <= i < offset + data.len() {
            lemma_put_fat_inside(img, g, offset, data, n, k, start + i);
        } else {
            assert forall|m: int| g.first_mirror <= m < g.first_mirror + n implies !(
            #[trigger] g.copy_start(m) + offset <= start + i < g.copy_start(m) + offset
                + data.len()) by {
                if k < m {
                    g.lemma_copies_disjoint(img.len(), k, m);
                }
            }
            lemma_put_fat_outside(img, g, offset, data, n, start + i);
        }
    }
    assert(fat_on_disk(new, g) =~= want);
}

/// The state of a file system that the cache steps work on.
pub open spec fn cache_ok(s: FsState, g: Geometry) -> bool {
    &&& g.fat_wf(s.img.len())
    &&& s.cache.buf.len() == 512
    &&& s.cache.window matches Some(w) ==> (w + 1) * 512 <= g.fat_size
}

/// Storing the window does not change the FAT that the driver sees, and leaves the device with that FAT.
pub proof fn lemma_written_back(s: FsState, g: Geometry)
    requires
        cache_ok(s, g),
        coherent(s, g),
    ensures
        cache_ok(written_back(s, g), g),
        coherent(written_back(s, g), g),
        fat_seen(written_back(s, g), g) == fat_seen(s, g),
        fat_on_disk(written_back(s, g).img, g) == fat_seen(s, g),
{
    if s.cache.dirty {
        if let Some(w) = s.cache.window {
            lemma_fat_on_disk(s.img, g, w * 512, s.cache.buf);
            let once = splice(fat_on_disk(s.img, g), w * 512, s.cache.buf);
            assert(splice(once, w * 512, s.cache.buf) =~= once);
        }
    }
}

/// What is in front of the FAT has no part in whether the cache is coherent.
pub proof fn lemma_coherent_front(s: FsState, t: FsState, g: Geometry)
    requires
        g.fat_wf(s.img.len()),
        s.img.len() == t.img.len(),
        s.cache == t.cache,
        forall|i: int| g.fat_start <= i < s.img.len() ==> #[trigger] t.img[i] == s.img[i],
    ensures
        coherent(s, g) == coherent(t, g),
{
    g.lemma_copy_bounds(s.img.len(), g.first_mirror as int);
    assert(fat_on_disk(s.img, g) =~= fat_on_disk(t.img, g));
}

/// Storing the window does the same to the FAT, whatever is in front of it.
pub proof fn lemma_written_back_local(s: FsState, t: FsState, g: Geometry)
    requires
        g.fat_wf(s.img.len()),
        s.img.len() == t.img.len(),
        s.cache == t.cache,
        forall|i: int| g.fat_start <= i < s.img.len() ==> #[trigger] t.img[i] == s.img[i],
    ensures
        forall|i: int|
            g.fat_start <= i < s.img.len() ==> #[trigger] written_back(t, g).img[i] == written_back(
                s,
                g,
            ).img[i],
{
    assert forall|i: int| g.fat_start <= i < s.img.len() implies #[trigger] written_back(t, g).img[i]
        == written_back(s, g).img[i] by {
        if let Some(w) = s.cache.window {
            assert(t.img[i] == s.img[i]);
            lemma_put_fat_local(s.img, t.img, g, w * 512, s.cache.buf, g.mirrors as nat, i);
        }
    }
}

/// Loading a window does not change the FAT that the driver sees, and shows its part of it.
pub proof fn lemma_window_loaded(s: FsState, g: Geometry, w: u64)
    requires
        cache_ok(s, g),
        coherent(s, g),
        (w + 1) * 512 <= g.fat_size,
    ensures
        cache_ok(window_loaded(s, g, w), g),
        coherent(window_loaded(s, g, w), g),
        fat_seen(window_loaded(s, g, w), g) == fat_seen(s, g),
        window_loaded(s, g, w).cache.buf == fat_seen(s, g).subrange(w * 512, w * 512 + 512),
{
    let t = window_loaded(s, g, w);
    g.lemma_copy_bounds(s.img.len(), g.first_mirror as int);
    if s.cache.window == Some(w) {
        assert(s.cache.buf =~= fat_seen(s, g).subrange(w * 512, w * 512 + 512));
    } else {
        lemma_written_back(s, g);
        lemma_put_fat_len(s.img, g, s.cache.window->0 * 512, s.cache.buf, g.mirrors as nat);
        let disk = fat_on_disk(t.img, g);
        assert(splice(disk, w * 512, disk.subrange(w * 512, w * 512 + 512)) =~= disk);
    }
}

/// A write through the cache shows in the FAT that the driver sees, where it was made and nowhere else.
pub proof fn lemma_slice_written(s: FsState, g: Geometry, offset: u64, data: Seq<u8>)
    requires
        cache_ok(s, g),
        coherent(s, g),
        offset + data.len() <= g.fat_size,
        offset % 512 + data.len() <= 512,
    ensures
        cache_ok(slice_written(s, g, offset, data), g),
        coherent(slice_written(s, g, offset, data), g),
        fat_seen(slice_written(s, g, offset, data), g) == splice(
            fat_seen(s, g),
            offset as int,
            data,
        ),
{
    if data.len() > 0 {
        let w = offset / 512;
        assert(offset == w * 512 + offset % 512);
        assert((w + 1) * 512 <= g.fat_size);
        lemma_window_loaded(s, g, w);
        g.lemma_copy_bounds(s.img.len(), g.first_mirror as int);
        let t = slice_written(s, g, offset, data);
        assert(fat_seen(t, g) =~= splice(fat_seen(s, g), offset as int, data));
    } else {
        assert(splice(fat_seen(s, g), offset as int, data) =~= fat_seen(s, g));
    }
}

impl<S: Storage> FileSystem<S> {
    /// Store the cached window if it holds changes. If that fails, the cache still holds them.
    pub fn flush_fat_cache(&mut self) -> (res: Result<(), Error<S::Error>>)
        requires
            old(self).wf(),
        ensures
            final(self).follows(old(self)),
            final(self).vol.image()[65] == old(self).vol.image()[65],
            data_kept(old(self).vol.geom, old(self).vol.image(), final(self).vol.image()),
            final(self).info == old(self).info,
            final(self).clean_withheld == old(self).clean_withheld,
            res is Err ==> cache_stopped(
                old(self).vol.geom,
                old(self).state(),
                final(self).vol.image(),
                final(self).vol.since(&old(self).vol),
            ),
            res is Ok ==> final(self).vol.torn() == old(self).vol.torn(),
            final(self).vol.torn().len() <= old(self).vol.torn().len() + 1,
            read_copy_agrees(
                old(self).vol.geom,
                written_back(old(self).state(), old(self).vol.geom).img,
                final(self).vol.image(),
                old(self).vol.torn(),
                final(self).vol.torn(),
            ),
            coherent(old(self).state(), old(self).vol.geom) ==> coherent(
                final(self).state(),
                old(self).vol.geom,
            ),
            fails_only_by_device(res, old(self).vol.reliable()),
            res is Ok ==> final(self).state() == written_back(
                old(self).state(),
                old(self).vol.geom,
            ),
            !old(self).cache.dirty ==> res is Ok,
            res is Err ==> final(self).cache == old(self).cache,
    {
        proof {
            lemma_agrees_self(self.vol.geom, self.vol.image(), self.vol.torn());
            if coherent(self.state(), self.vol.geom) {
                lemma_written_back(self.state(), self.vol.geom);
            }
        }
        if self.cache.dirty {
            if let Some(w) = self.cache.window {
                self.vol.write_fat(w * FAT_CACHE_SIZE as u64, &self.cache.buf)?;
            }
            self.cache.dirty = false;
        }
        Ok(())
    }

    /// Store the cached window if it holds changes, and give it up.
    pub fn drop_fat_cache(&mut self) -> (res: Result<(), Error<S::Error>>)
        requires
            old(self).wf(),
        ensures
            final(self).follows(old(self)),
            final(self).vol.image()[65] == old(self).vol.image()[65],
            data_kept(old(self).vol.geom, old(self).vol.image(), final(self).vol.image()),
            final(self).info == old(self).info,
            final(self).clean_withheld == old(self).clean_withheld,
            res is Err ==> cache_stopped(
                old(self).vol.geom,
                old(self).state(),
                final(self).vol.image(),
                final(self).vol.since(&old(self).vol),
            ),
            res is Ok ==> final(self).vol.torn() == old(self).vol.torn(),
            final(self).vol.torn().len() <= old(self).vol.torn().len() + 1,
            read_copy_agrees(
                old(self).vol.geom,
                cache_dropped(old(self).state(), old(self).vol.geom).img,
                final(self).vol.image(),
                old(self).vol.torn(),
                final(self).vol.torn(),
            ),
            coherent(old(self).state(), old(self).vol.geom) ==> coherent(
                final(self).state(),
                old(self).vol.geom,
            ),
            fails_only_by_device(res, old(self).vol.reliable()),
            !old(self).cache.dirty ==> final(self).vol.image() == old(self).vol.image(),
            res is Ok ==> final(self).state() == cache_dropped(
                old(self).state(),
                old(self).vol.geom,
            ),
    {
        self.flush_fat_cache()?;
        self.cache.window = None;
        Ok(())
    }

    /// Load window `window` of the FAT into the cache, storing the one that is there if it holds changes.
    pub fn load_window(&mut self, window: u64) -> (res: Result<(), Error<S::Error>>)
        requires
            old(self).wf(),
            (window + 1) * FAT_CACHE_SIZE <= old(self).vol.geom.fat_size,
        ensures
            final(self).follows(old(self)),
            data_kept(old(self).vol.geom, old(self).vol.image(), final(self).vol.image()),
            final(self).info == old(self).info,
            final(self).clean_withheld == old(self).clean_withheld,
            res is Ok ==> final(self).vol.torn() == old(self).vol.torn(),
            final(self).vol.torn().len() <= old(self).vol.torn().len() + 1,
            !old(self).cache.dirty ==> final(self).vol.image() == old(self).vol.image()
                && final(self).vol.torn() == old(self).vol.torn(),
            old(self).cache.window == Some(window) ==> res is Ok,
            coherent(old(self).state(), old(self).vol.geom) ==> coherent(
                final(self).state(),
                old(self).vol.geom,
            ),
            fails_only_by_device(res, old(self).vol.reliable()),
            res is Ok ==> final(self).state() == window_loaded(
                old(self).state(),
                old(self).vol.geom,
                window,
            ),
    {
        if self.cache.window == Some(window) {
            return Ok(());
        }
        self.flush_fat_cache()?;
        assert(window * 512 + 512 <= self.vol.geom.fat_size);
        proof {
            self.vol.geom.lemma_copy_bounds(
                self.vol.image().len(),
                self.vol.geom.first_mirror as int,
            );
        }
        // What is in the buffer is no part of the FAT until the read is done.
        self.cache.window = None;
        self.vol.read_fat(window * FAT_CACHE_SIZE as u64, &mut self.cache.buf)?;
        self.cache.window = Some(window);
        assert(self.cache.buf@ =~= window_on_disk(self.vol.image(), self.vol.geom, window));
        proof {
            if coherent(old(self).state(), old(self).vol.geom) {
                lemma_window_loaded(old(self).state(), old(self).vol.geom, window);
            }
        }
        Ok(())
    }

    /// How many of `len` bytes at `offset` of a FAT of `size` bytes one access covers.
    fn access_size(offset: u64, size: u64, len: usize) -> (n: usize)
        ensures
            n == access_len(offset, size, len as int),
    {
        let avail: u64 = size.saturating_sub(offset);
        let want: u64 = if (len as u64) < avail {
            len as u64
        } else {
            avail
        };
        let left: u64 = 512 - offset % 512;
        if want < left {
            want as usize
        } else {
            left as usize
        }
    }

    /// Read from the FAT, of which only the first `size` bytes exist, by way of the cache. One read does not cross the
    /// end of a window.
    pub fn read_cached(&mut self, offset: u64, size: u64, buf: &mut [u8]) -> (res: Result<
        usize,
        Error<S::Error>,
    >)
        requires
            old(self).wf(),
            size <= old(self).vol.geom.fat_size,
        ensures
            final(self).follows(old(self)),
            data_kept(old(self).vol.geom, old(self).vol.image(), final(self).vol.image()),
            final(self).info == old(self).info,
            final(self).clean_withheld == old(self).clean_withheld,
            res is Ok ==> final(self).vol.torn() == old(self).vol.torn(),
            final(self).vol.torn().len() <= old(self).vol.torn().len() + 1,
            !old(self).cache.dirty ==> final(self).vol.image() == old(self).vol.image()
                && final(self).vol.torn() == old(self).vol.torn(),
            access_len(offset, size, old(buf)@.len() as int) == 0 || old(self).cache.window == Some(
                offset / 512,
            ) ==> res is Ok,
            coherent(old(self).state(), old(self).vol.geom) ==> coherent(
                final(self).state(),
                old(self).vol.geom,
            ),
            fails_only_by_device(res, old(self).vol.reliable()),
            final(buf)@.len() == old(buf)@.len(),
            res matches Ok(n) ==> {
                &&& n == access_len(offset, size, old(buf)@.len() as int)
                &&& final(self).state() == slice_read(
                    old(self).state(),
                    old(self).vol.geom,
                    offset,
                    n as int,
                )
                &&& n > 0 ==> final(buf)@ == splice(
                    old(buf)@,
                    0,
                    final(self).cache.buf@.subrange((offset % 512) as int, offset % 512 + n),
                )
                &&& n == 0 ==> final(buf)@ == old(buf)@
                &&& coherent(old(self).state(), old(self).vol.geom) && n > 0 ==> final(buf)@
                    == splice(
                    old(buf)@,
                    0,
                    fat_seen(old(self).state(), old(self).vol.geom).subrange(
                        offset as int,
                        offset + n,
                    ),
                )
            },
    {
        let n: usize = FileSystem::<S>::access_size(offset, size, buf.len());
        if n == 0 {
            return Ok(0);
        }
        let window: u64 = offset / FAT_CACHE_SIZE as u64;
        let in_window: usize = (offset % FAT_CACHE_SIZE as u64) as usize;
        let ghost s = self.state();
        let ghost g = self.vol.geom;
        self.load_window(window)?;
        proof {
            if coherent(s, g) {
                lemma_window_loaded(s, g, window);
                g.lemma_copy_bounds(s.img.len(), g.first_mirror as int);
                assert(self.cache.buf@.subrange(in_window as int, in_window + n) =~= fat_seen(
                    s,
                    g,
                ).subrange(offset as int, offset + n));
            }
        }
        let mut i: usize = 0;
        while i < n
            invariant
                i <= n,
                n <= buf@.len(),
                buf@.len() == old(buf)@.len(),
                in_window + n <= 512,
                forall|j: int| 0 <= j < i ==> #[trigger] buf@[j] == self.cache.buf@[in_window + j],
                forall|j: int| i <= j < buf@.len() ==> #[trigger] buf@[j] == old(buf)@[j],
            decreases n - i,
        {
            buf[i] = self.cache.buf[in_window + i];
            i = i + 1;
        }
        assert(buf@ =~= splice(
            old(buf)@,
            0,
            self.cache.buf@.subrange(in_window as int, in_window + n),
        ));
        Ok(n)
    }

    /// Write to the FAT, of which only the first `size` bytes exist, by way of the cache. One write does not cross the
    /// end of a window.
    pub fn write_cached(&mut self, offset: u64, size: u64, data: &[u8]) -> (res: Result<
        usize,
        Error<S::Error>,
    >)
        requires
            old(self).wf(),
            size <= old(self).vol.geom.fat_size,
        ensures
            final(self).follows(old(self)),
            data_kept(old(self).vol.geom, old(self).vol.image(), final(self).vol.image()),
            final(self).info == old(self).info,
            final(self).clean_withheld == old(self).clean_withheld,
            res is Ok ==> final(self).vol.torn() == old(self).vol.torn(),
            final(self).vol.torn().len() <= old(self).vol.torn().len() + 1,
            !old(self).cache.dirty ==> final(self).vol.image() == old(self).vol.image()
                && final(self).vol.torn() == old(self).vol.torn(),
            access_len(offset, size, data@.len() as int) == 0 || old(self).cache.window == Some(
                offset / 512,
            ) ==> res is Ok,
            coherent(old(self).state(), old(self).vol.geom) ==> coherent(
                final(self).state(),
                old(self).vol.geom,
            ),
            fails_only_by_device(res, old(self).vol.reliable()),
            res matches Ok(n) ==> {
                &&& n == access_len(offset, size, data@.len() as int)
                &&& final(self).state() == slice_written(
                    old(self).state(),
                    old(self).vol.geom,
                    offset,
                    data@.take(n as int),
                )
                &&& coherent(old(self).state(), old(self).vol.geom) ==> {
                    &&& coherent(final(self).state(), old(self).vol.geom)
                    &&& fat_seen(final(self).state(), old(self).vol.geom) == splice(
                        fat_seen(old(self).state(), old(self).vol.geom),
                        offset as int,
                        data@.take(n as int),
                    )
                }
            },
    {
        let n: usize = FileSystem::<S>::access_size(offset, size, data.len());
        let ghost s = self.state();
        let ghost g = self.vol.geom;
        proof {
            if coherent(s, g) && (n == 0 || offset + n <= g.fat_size) {
                if n > 0 {
                    lemma_slice_written(s, g, offset, data@.take(n as int));
                } else {
                    assert(splice(fat_seen(s, g), offset as int, data@.take(0)) =~= fat_seen(s, g));
                }
            }
        }
        if n == 0 {
            return Ok(0);
        }
        let window: u64 = offset / FAT_CACHE_SIZE as u64;
        let in_window: usize = (offset % FAT_CACHE_SIZE as u64) as usize;
        self.load_window(window)?;
        let ghost loaded = self.cache.buf@;
        let ghost now = self.state();
        let mut i: usize = 0;
        while i < n
            invariant
                i <= n,
                n <= data@.len(),
                in_window + n <= 512,
                loaded.len() == 512,
                self.state() == (FsState {
                    cache: CacheView { buf: self.cache.buf@, ..now.cache },
                    ..now
                }),
                self.follows(old(self)),
                self.vol.torn() == old(self).vol.torn(),
                data_kept(old(self).vol.geom, old(self).vol.image(), self.vol.image()),
                forall|j: int|
                    0 <= j < 512 ==> #[trigger] self.cache.buf@[j] == if in_window <= j < in_window
                        + i {
                        data@[j - in_window]
                    } else {
                        loaded[j]
                    },
            decreases n - i,
        {
            self.cache.buf[in_window + i] = data[i];
            i = i + 1;
        }
        self.cache.dirty = true;
        assert(self.cache.buf@ =~= splice(loaded, in_window as int, data@.take(n as int)));
        Ok(n)
    }
}

/// Where to move to.
#[derive(Clone, Copy, Debug)]
pub enum SeekFrom {
    Start(u64),
    End(i64),
    Current(i64),
}

/// The first `size` bytes of the FAT, read and written by way of the cache.
pub struct CachedFatSlice<'a, S: Storage> {
    pub fs: &'a mut FileSystem<S>,
    pub offset: u64,
    pub size: u64,
}

/// `base` moved by `by`, in 64-bit arithmetic.
pub open spec fn moved(base: u64, by: i64) -> int {
    (base + by) % 0x1_0000_0000_0000_0000
}

impl<'a, S: Storage> CachedFatSlice<'a, S> {
    /// The slice is a part of the FAT.
    pub open spec fn wf(&self) -> bool {
        &&& self.fs.wf()
        &&& self.size <= self.fs.vol.geom.fat_size
    }

    /// `self` is `old` at a later time.
    pub open spec fn follows(&self, old: &Self) -> bool {
        &&& self.size == old.size
        &&& self.fs.follows(old.fs)
    }

    /// The first `size` bytes of the FAT of `fs`.
    pub fn new(fs: &'a mut FileSystem<S>, size: u64) -> (slice: Self)
        requires
            old(fs).wf(),
            size <= old(fs).vol.geom.fat_size,
        ensures
            slice.wf(),
            *slice.fs == *old(fs),
            *final(slice.fs) == *final(fs),
            slice.offset == 0,
            slice.size == size,
    {
        CachedFatSlice { fs, offset: 0, size }
    }

    /// Load window `window` of the FAT into the cache.
    pub fn ensure_window(&mut self, window: u64) -> (res: Result<(), Error<S::Error>>)
        requires
            old(self).wf(),
            (window + 1) * FAT_CACHE_SIZE <= old(self).fs.vol.geom.fat_size,
        ensures
            final(self).wf(),
            final(self).follows(old(self)),
            old(self).fs.cache.window == Some(window) ==> res is Ok,
            res is Err && coherent(old(self).fs.state(), old(self).fs.vol.geom) ==> coherent(
                final(self).fs.state(),
                old(self).fs.vol.geom,
            ),
            *final(final(self).fs) == *final(old(self).fs),
            final(self).offset == old(self).offset,
            fails_only_by_device(res, old(self).fs.vol.reliable()),
            res is Ok ==> final(self).fs.state() == window_loaded(
                old(self).fs.state(),
                old(self).fs.vol.geom,
                window,
            ),
    {
        self.fs.load_window(window)
    }

    /// Read from where the slice is, and move on.
    pub fn read(&mut self, buf: &mut [u8]) -> (res: Result<usize, Error<S::Error>>)
        requires
            old(self).wf(),
        ensures
            final(self).wf(),
            final(self).follows(old(self)),
            access_len(old(self).offset, old(self).size, old(buf)@.len() as int) == 0 || old(
                self,
            ).fs.cache.window == Some(old(self).offset / 512) ==> res is Ok,
            res is Err && coherent(old(self).fs.state(), old(self).fs.vol.geom) ==> coherent(
                final(self).fs.state(),
                old(self).fs.vol.geom,
            ),
            *final(final(self).fs) == *final(old(self).fs),
            fails_only_by_device(res, old(self).fs.vol.reliable()),
            final(buf)@.len() == old(buf)@.len(),
            res is Err ==> final(self).offset == old(self).offset,
            res matches Ok(n) ==> {
                let g = old(self).fs.vol.geom;
                let s = old(self).fs.state();
                let at = old(self).offset;
                &&& n == access_len(at, old(self).size, old(buf)@.len() as int)
                &&& final(self).offset == at + n
                &&& final(self).fs.state() == slice_read(s, g, at, n as int)
                &&& n == 0 ==> final(buf)@ == old(buf)@
                &&& n > 0 ==> final(buf)@ == splice(
                    old(buf)@,
                    0,
                    final(self).fs.cache.buf@.subrange((at % 512) as int, at % 512 + n),
                )
                &&& coherent(s, g) && n > 0 ==> final(buf)@ == splice(
                    old(buf)@,
                    0,
                    fat_seen(s, g).subrange(at as int, at + n),
                )
            },
    {
        let n: usize = self.fs.read_cached(self.offset, self.size, buf)?;
        self.offset = self.offset + n as u64;
        Ok(n)
    }

    /// Write to where the slice is, and move on.
    pub fn write(&mut self, data: &[u8]) -> (res: Result<usize, Error<S::Error>>)
        requires
            old(self).wf(),
        ensures
            final(self).wf(),
            final(self).follows(old(self)),
            access_len(old(self).offset, old(self).size, data@.len() as int) == 0 || old(
                self,
            ).fs.cache.window == Some(old(self).offset / 512) ==> res is Ok,
            res is Err && coherent(old(self).fs.state(), old(self).fs.vol.geom) ==> coherent(
                final(self).fs.state(),
                old(self).fs.vol.geom,
            ),
            *final(final(self).fs) == *final(old(self).fs),
            fails_only_by_device(res, old(self).fs.vol.reliable()),
            res is Err ==> final(self).offset == old(self).offset,
            res matches Ok(n) ==> {
                let g = old(self).fs.vol.geom;
                let s = old(self).fs.state();
                let at = old(self).offset;
                &&& n == access_len(at, old(self).size, data@.len() as int)
                &&& final(self).offset == at + n
                &&& final(self).fs.state() == slice_written(s, g, at, data@.take(n as int))
                &&& coherent(s, g) ==> {
                    &&& coherent(final(self).fs.state(), g)
                    &&& fat_seen(final(self).fs.state(), g) == splice(
                        fat_seen(s, g),
                        at as int,
                        data@.take(n as int),
                    )
                }
            },
    {
        let n: usize = self.fs.write_cached(self.offset, self.size, data)?;
        self.offset = self.offset + n as u64;
        Ok(n)
    }

    /// Store the cached window if it holds changes.
    pub fn flush(&mut self) -> (res: Result<(), Error<S::Error>>)
        requires
            old(self).wf(),
        ensures
            final(self).wf(),
            final(self).follows(old(self)),
            !old(self).fs.cache.dirty ==> res is Ok,
            res is Err && coherent(old(self).fs.state(), old(self).fs.vol.geom) ==> coherent(
                final(self).fs.state(),
                old(self).fs.vol.geom,
            ),
            *final(final(self).fs) == *final(old(self).fs),
            final(self).offset == old(self).offset,
            fails_only_by_device(res, old(self).fs.vol.reliable()),
            res is Ok ==> final(self).fs.state() == written_back(
                old(self).fs.state(),
                old(self).fs.vol.geom,
            ),
    {
        self.fs.flush_fat_cache()
    }

    /// Move to another place, and say which. Places outside the slice are allowed: there is nothing to read or write
    /// there.
    pub fn seek(&mut self, pos: SeekFrom) -> (at: u64)
        ensures
            *final(self).fs == *old(self).fs,
            *final(final(self).fs) == *final(old(self).fs),
            final(self).size == old(self).size,
            final(self).offset == at,
            match pos {
                SeekFrom::Start(x) => at == x,
                SeekFrom::Current(x) => at == moved(old(self).offset, x),
                SeekFrom::End(x) => at == moved(old(self).size, x),
            },
    {
        self.offset = match pos {
            SeekFrom::Start(x) => x,
            SeekFrom::Current(x) => self.offset.wrapping_add_signed(x),
            SeekFrom::End(x) => self.size.wrapping_add_signed(x),
        };
        self.offset
    }
}

} // verus!
