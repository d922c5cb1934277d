//! What the FAT cache shows, and what it stores.

use vstd::prelude::*;

use crate::fat::{lemma_put_fat_inside, lemma_put_fat_len, lemma_put_fat_outside};
use crate::fatcache::{
    access_len, cache_dropped, cache_ok, coherent, fat_seen, lemma_slice_written, lemma_window_loaded, moved,
    slice_read, slice_written, window_loaded, written_back,
};
use crate::fs::FsState;
use crate::geometry::Geometry;
verus! {

/// One access covers no more than was asked for, stays within the FAT and within one window of 512 bytes, and is as
/// long as that lets it be.
pub proof fn law_access_length(offset: u64, size: u64, len: int)
    requires
        0 <= len,
    ensures
        ({
            let n = access_len(offset, size, len);
            &&& 0 <= n <= len
            &&& n > 0 ==> offset + n <= size
            &&& offset % 512 + n <= 512
            &&& n == len || offset + n >= size || (offset + n) % 512 == 0
            &&& len > 0 && offset < size ==> n > 0
        }),
{
}

/// The FAT that the driver sees: the loaded window, and for the rest, the copy on the device that is read.
pub proof fn law_fat_seen(s: FsState, g: Geometry, i: int)
    requires
        cache_ok(s, g),
        0 <= i < g.fat_size,
    ensures
        ({
            let seen = fat_seen(s, g);
            let start = g.fat_start + g.first_mirror * g.fat_size;
            &&& seen.len() == g.fat_size
            &&& match s.cache.window {
                Some(w) => if 512 * w <= i < 512 * w + 512 {
                    seen[i] == s.cache.buf[i - 512 * w]
                } else {
                    seen[i] == s.img[start + i]
                },
                None => seen[i] == s.img[start + i],
            }
        }),
{
    g.lemma_copy_bounds(s.img.len(), g.first_mirror as int);
}

/// A window that holds changes is stored to every copy of the FAT that is kept in step, and to no other place, and
/// holds no changes any more. One that does not is left alone.
pub proof fn law_window_stored(s: FsState, g: Geometry, k: int, j: int, i: int)
    requires
        cache_ok(s, g),
        g.first_mirror <= k < g.first_mirror + g.mirrors,
        0 <= j < 512,
        0 <= i < s.img.len(),
    ensures
        ({
            let t = written_back(s, g);
            let w = s.cache.window->0;
            &&& !s.cache.dirty ==> t == s
            &&& s.cache.dirty ==> {
                &&& t.info == s.info && t.clean_withheld == s.clean_withheld
                &&& t.cache.window == s.cache.window && t.cache.buf == s.cache.buf && !t.cache.dirty
                &&& t.img.len() == s.img.len()
                &&& s.cache.window is None ==> t.img == s.img
                &&& s.cache.window is Some ==> t.img[g.fat_start + k * g.fat_size + 512 * w + j]
                    == s.cache.buf[j]
                &&& (forall|m: int|
                    g.first_mirror <= m < g.first_mirror + g.mirrors ==> !(#[trigger] g.copy_start(m) + 512 * w
                        <= i < g.copy_start(m) + 512 * w + 512)) ==> t.img[i] == s.img[i]
            }
        }),
{
    if s.cache.dirty {
        if let Some(w) = s.cache.window {
            let n = g.mirrors as nat;
            g.lemma_copy_bounds(s.img.len(), k);
            lemma_put_fat_len(s.img, g, w * 512, s.cache.buf, n);
            lemma_put_fat_inside(s.img, g, w * 512, s.cache.buf, n, k, g.copy_start(k) + w * 512 + j);
            if forall|m: int|
                g.first_mirror <= m < g.first_mirror + g.mirrors ==> !(#[trigger] g.copy_start(m) + 512 * w <= i
                    < g.copy_start(m) + 512 * w + 512) {
                assert forall|m: int| g.first_mirror <= m < g.first_mirror + n implies !(
                #[trigger] g.copy_start(m) + w * 512 <= i < g.copy_start(m) + w * 512
                    + s.cache.buf.len()) by {
                    assert(!(g.copy_start(m) + 512 * w <= i < g.copy_start(m) + 512 * w + 512));
                }
                lemma_put_fat_outside(s.img, g, w * 512, s.cache.buf, n, i);
            }
        }
    }
}

/// Another window is loaded only once the one that is there was stored, and is what the device holds then. A window
/// that is loaded already stays as it is. Giving a window up stores it, and leaves none.
pub proof fn law_window_loaded(s: FsState, g: Geometry, w: u64, j: int)
    requires
        cache_ok(s, g),
        512 * w + 512 <= g.fat_size,
        0 <= j < 512,
    ensures
        ({
            let t = window_loaded(s, g, w);
            let stored = written_back(s, g);
            let given_up = cache_dropped(s, g);
            &&& s.cache.window == Some(w) ==> t == s
            &&& s.cache.window != Some(w) ==> {
                &&& t.img == stored.img && t.info == stored.info && t.clean_withheld == stored.clean_withheld
                &&& t.cache.window == Some(w) && !t.cache.dirty && t.cache.buf.len() == 512
                &&& t.cache.buf[j] == stored.img[g.fat_start + g.first_mirror * g.fat_size + 512 * w + j]
            }
            &&& given_up.cache.window is None && given_up.img == stored.img && given_up.info == stored.info
            &&& given_up.clean_withheld == stored.clean_withheld && !given_up.cache.dirty
            &&& given_up.cache.buf == s.cache.buf
        }),
{
    g.lemma_copy_bounds(s.img.len(), g.first_mirror as int);
    if s.cache.dirty {
        if let Some(x) = s.cache.window {
            lemma_put_fat_len(s.img, g, x * 512, s.cache.buf, g.mirrors as nat);
        }
    }
}

/// What is written through the cache is what is read back through it, wherever the device stands, and nothing else of
/// the FAT changes. Reading changes nothing of it. What goes to the loaded window does not touch the device.
pub proof fn law_read_after_write(s: FsState, g: Geometry, offset: u64, data: Seq<u8>, i: int)
    requires
        cache_ok(s, g),
        coherent(s, g),
        data.len() > 0,
        offset + data.len() <= g.fat_size,
        offset % 512 + data.len() <= 512,
        0 <= i < g.fat_size,
    ensures
        ({
            let t = slice_written(s, g, offset, data);
            let r = slice_read(s, g, offset, data.len() as int);
            let seen = fat_seen(t, g);
            &&& offset <= i < offset + data.len() ==> seen[i] == data[i - offset]
            &&& !(offset <= i < offset + data.len()) ==> seen[i] == fat_seen(s, g)[i]
            &&& fat_seen(r, g) == fat_seen(s, g)
            &&& r.cache.window == Some(offset / 512)
            &&& t.cache.dirty && t.cache.window == Some(offset / 512)
            &&& s.cache.window == Some(offset / 512) ==> t.img == s.img && r == s
            &&& t.info == s.info && r.info == s.info
            &&& t.clean_withheld == s.clean_withheld && r.clean_withheld == s.clean_withheld
            &&& slice_read(s, g, offset, 0) == s
            &&& slice_written(s, g, offset, Seq::empty()) == s
        }),
{
    let w = offset / 512;
    assert((w + 1) * 512 <= g.fat_size) by {
        assert(g.fat_size % 512 == 0);
    }
    lemma_slice_written(s, g, offset, data);
    lemma_window_loaded(s, g, w);
    law_fat_seen(s, g, i);
}

/// A move within a slice, in 64 bits: what does not fit wraps round.
pub proof fn law_moved(base: u64, by: i64)
    ensures
        0 <= base + by <= u64::MAX ==> moved(base, by) == base + by,
        base + by < 0 ==> moved(base, by) == base + by + 0x1_0000_0000_0000_0000,
        base + by > u64::MAX ==> moved(base, by) == base + by - 0x1_0000_0000_0000_0000,
{
}

} // verus!
