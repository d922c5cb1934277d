//! FAT entries: what their values mean, and reading and writing them.

use vstd::prelude::*;

use crate::bytes::{get_u32, le_u32, splice, u32_bytes, u32_to_bytes};
use crate::error::{fails_only_by_device, Error};
use crate::geometry::Geometry;
use crate::halting::{but_torn, entry_stopped};
use crate::storage::{struck, Storage};
use crate::volume::{reserved_kept, Volume};

verus! {

/// The bit of a FAT entry that marks a cluster as reached. It lies in the nibble that FAT32 leaves to the driver.
pub const FAT32_VISITED_BIT: u32 = 0x1000_0000;

/// The bits of a FAT entry that hold its value.
pub const FAT32_VALUE_MASK: u32 = 0x0FFF_FFFF;

pub const FAT32_FREE: u32 = 0x0000_0000;

pub const FAT32_BAD: u32 = 0x0FFF_FFF7;

pub const FAT32_EOC_MIN: u32 = 0x0FFF_FFF8;

pub const FAT32_EOC: u32 = 0x0FFF_FFFF;

/// The clean-shutdown bit of FAT entry 1.
pub const FAT32_CLEAN_BIT: u32 = 0x0800_0000;

/// The hard-error bit of FAT entry 1.
pub const FAT32_NO_ERROR_BIT: u32 = 0x0400_0000;

/// The clean-shutdown and hard-error bits of FAT entry 1.
pub const FAT32_STATUS_BITS: u32 = 0x0C00_0000;

/// What a FAT entry says about its cluster.
#[derive(Clone, Copy, Debug, PartialEq, Eq, Structural)]
pub enum FatEntry {
    Free,
    Data(u32),
    Bad,
    EndOfChain,
}

/// What a raw FAT entry says about its cluster.
pub open spec fn entry_of(raw: u32) -> FatEntry {
    let value = raw & FAT32_VALUE_MASK;
    if value == FAT32_FREE {
        FatEntry::Free
    } else if value == FAT32_BAD {
        FatEntry::Bad
    } else if FAT32_EOC_MIN <= value <= FAT32_EOC {
        FatEntry::EndOfChain
    } else {
        FatEntry::Data(value)
    }
}

/// An entry of nothing but zeros is free, and carries no marker.
pub proof fn lemma_zero_entry()
    ensures
        0u32 & FAT32_VALUE_MASK == 0,
        0u32 & FAT32_VISITED_BIT == 0,
{
    assert(0u32 & 0x0FFF_FFFFu32 == 0 && 0u32 & 0x1000_0000u32 == 0) by (bit_vector);
}

/// Whether a raw FAT entry carries the reachability marker.
pub open spec fn marked(raw: u32) -> bool {
    raw & FAT32_VISITED_BIT != 0
}

/// What a raw FAT entry says about its cluster.
pub fn classify(raw: u32) -> (entry: FatEntry)
    ensures
        entry == entry_of(raw),
{
    let value: u32 = raw & FAT32_VALUE_MASK;
    if value == FAT32_FREE {
        FatEntry::Free
    } else if value == FAT32_BAD {
        FatEntry::Bad
    } else if FAT32_EOC_MIN <= value && value <= FAT32_EOC {
        FatEntry::EndOfChain
    } else {
        FatEntry::Data(value)
    }
}

/// Whether a raw FAT entry carries the reachability marker.
pub fn is_visited(raw: u32) -> (visited: bool)
    ensures
        visited == marked(raw),
{
    raw & FAT32_VISITED_BIT != 0
}

/// The image with `data` written at `offset` of the first `n` copies of the FAT that are kept in step.
pub open spec fn put_fat_copies(
    img: Seq<u8>,
    g: Geometry,
    offset: int,
    data: Seq<u8>,
    n: nat,
) -> Seq<u8>
    decreases n,
{
    if n == 0 {
        img
    } else {
        splice(
            put_fat_copies(img, g, offset, data, (n - 1) as nat),
            g.copy_start(g.first_mirror + n - 1) + offset,
            data,
        )
    }
}

/// The image with `data` written at `offset` of every copy of the FAT that is kept in step.
pub open spec fn put_fat(img: Seq<u8>, g: Geometry, offset: int, data: Seq<u8>) -> Seq<u8> {
    put_fat_copies(img, g, offset, data, g.mirrors as nat)
}

/// FAT entry `c`, reserved bits included.
pub open spec fn raw_entry(img: Seq<u8>, g: Geometry, c: u32) -> u32 {
    copy_entry(img, g, g.first_mirror as int, c)
}

/// FAT entry `c` in the `k`-th copy of the table.
pub open spec fn copy_entry(img: Seq<u8>, g: Geometry, k: int, c: u32) -> u32 {
    le_u32(img, g.entry_start(k, c as int))
}

/// The image with FAT entry `c` replaced, in every copy that is kept in step.
pub open spec fn put_entry(img: Seq<u8>, g: Geometry, c: u32, raw: u32) -> Seq<u8> {
    put_fat(img, g, 4 * c, u32_bytes(raw))
}

/// The entry that holds `value` and has the reserved bits of `old`.
pub open spec fn with_value(old: u32, value: u32) -> u32 {
    (value & FAT32_VALUE_MASK) | (old & !FAT32_VALUE_MASK)
}

/// The image with the value of FAT entry `c` replaced, and its reserved bits as they were.
pub open spec fn put_value(img: Seq<u8>, g: Geometry, c: u32, value: u32) -> Seq<u8> {
    let old = raw_entry(img, g, c);
    let new = with_value(old, value);
    if new != old {
        put_entry(img, g, c, new)
    } else {
        img
    }
}

/// A byte that no copy gets written to stays as it is.
pub proof fn lemma_put_fat_outside(
    img: Seq<u8>,
    g: Geometry,
    offset: int,
    data: Seq<u8>,
    n: nat,
    i: int,
)
    requires
        0 <= i < img.len(),
        forall|k: int|
            g.first_mirror <= k < g.first_mirror + n ==> !(#[trigger] g.copy_start(k) + offset <= i
                < g.copy_start(k) + offset + data.len()),
    ensures
        put_fat_copies(img, g, offset, data, n).len() == img.len(),
        put_fat_copies(img, g, offset, data, n)[i] == img[i],
    decreases n,
{
    if n > 0 {
        lemma_put_fat_outside(img, g, offset, data, (n - 1) as nat, i);
        let k = g.first_mirror + n - 1;
        assert(!(g.copy_start(k) + offset <= i < g.copy_start(k) + offset + data.len()));
    }
}

/// A byte of a copy that gets written to holds what was written.
pub proof fn lemma_put_fat_inside(
    img: Seq<u8>,
    g: Geometry,
    offset: int,
    data: Seq<u8>,
    n: nat,
    k: int,
    i: int,
)
    requires
        g.fat_wf(img.len()),
        n <= g.mirrors,
        0 <= offset,
        offset + data.len() <= g.fat_size,
        g.first_mirror <= k < g.first_mirror + n,
        g.copy_start(k) + offset <= i < g.copy_start(k) + offset + data.len(),
    ensures
        0 <= i < img.len(),
        put_fat_copies(img, g, offset, data, n).len() == img.len(),
        put_fat_copies(img, g, offset, data, n)[i] == data[i - g.copy_start(k) - offset],
    decreases n,
{
    let m = (n - 1) as nat;
    let last = g.first_mirror + m;
    g.lemma_copy_bounds(img.len(), k);
    lemma_put_fat_len(img, g, offset, data, m);
    if k < last {
        g.lemma_copies_disjoint(img.len(), k, last as int);
        lemma_put_fat_inside(img, g, offset, data, m, k, i);
    }
}

/// Writing to the FAT keeps the length of the image.
pub proof fn lemma_put_fat_len(img: Seq<u8>, g: Geometry, offset: int, data: Seq<u8>, n: nat)
    ensures
        put_fat_copies(img, g, offset, data, n).len() == img.len(),
    decreases n,
{
    if n > 0 {
        lemma_put_fat_len(img, g, offset, data, (n - 1) as nat);
    }
}

/// Whether the copy of the FAT that is read is the same in `a` and `b`, except where a write failed since the failed
/// writes were `was`.
pub open spec fn read_copy_agrees(
    g: Geometry,
    a: Seq<u8>,
    b: Seq<u8>,
    was: Seq<(int, int)>,
    now: Seq<(int, int)>,
) -> bool {
    let start = g.copy_start(g.first_mirror as int);
    forall|i: int| start <= i < start + g.fat_size && !struck(was, now, i, i + 1) ==> #[trigger] b[i] == a[i]
}

/// Whether every byte of the copy of the FAT that is read is what it is in `a` or in `m`, except where a write failed
/// since the failed writes were `was`.
pub open spec fn read_copy_between(
    g: Geometry,
    a: Seq<u8>,
    m: Seq<u8>,
    b: Seq<u8>,
    was: Seq<(int, int)>,
    now: Seq<(int, int)>,
) -> bool {
    let start = g.copy_start(g.first_mirror as int);
    forall|i: int|
        start <= i < start + g.fat_size && !struck(was, now, i, i + 1) ==> #[trigger] b[i] == a[i]
            || b[i] == m[i]
}

/// What a write to the FAT makes of a byte depends on nothing else.
pub proof fn lemma_put_fat_local(
    a: Seq<u8>,
    b: Seq<u8>,
    g: Geometry,
    offset: int,
    data: Seq<u8>,
    n: nat,
    i: int,
)
    requires
        a.len() == b.len(),
        0 <= i < a.len(),
        a[i] == b[i],
    ensures
        put_fat_copies(a, g, offset, data, n)[i] == put_fat_copies(b, g, offset, data, n)[i],
    decreases n,
{
    if n > 0 {
        lemma_put_fat_local(a, b, g, offset, data, (n - 1) as nat, i);
        lemma_put_fat_len(a, g, offset, data, (n - 1) as nat);
        lemma_put_fat_len(b, g, offset, data, (n - 1) as nat);
    }
}

/// Where nothing changed, nothing differs.
pub proof fn lemma_agrees_self(g: Geometry, a: Seq<u8>, torn: Seq<(int, int)>)
    ensures
        read_copy_agrees(g, a, a, torn, torn),
{
}

/// A write to the FAT that fails at its `n`-th copy.
pub proof fn lemma_torn_copy(
    g: Geometry,
    img: Seq<u8>,
    mid: Seq<u8>,
    b: Seq<u8>,
    offset: int,
    data: Seq<u8>,
    n: nat,
    was: Seq<(int, int)>,
    now: Seq<(int, int)>,
)
    requires
        g.fat_wf(img.len()),
        0 <= offset,
        offset + data.len() <= g.fat_size,
        n < g.mirrors,
        mid == put_fat_copies(img, g, offset, data, n),
        b.len() == mid.len(),
        ({
            let at = g.copy_start(g.first_mirror + n) + offset;
            &&& forall|i: int|
                0 <= i < mid.len() && !(at <= i < at + data.len()) ==> #[trigger] b[i] == mid[i]
            &&& now == was || now == was.push((at, at + data.len()))
        }),
    ensures
        now.len() > was.len() ==> read_copy_agrees(g, put_fat(img, g, offset, data), b, was, now),
{
    let first = g.first_mirror as int;
    let start = g.copy_start(first);
    let put = put_fat(img, g, offset, data);
    let m = g.mirrors as nat;
    g.lemma_copy_bounds(img.len(), first);
    lemma_put_fat_len(img, g, offset, data, n);
    if now.len() > was.len() {
        let at = g.copy_start(g.first_mirror + n) + offset;
        assert forall|i: int|
            start <= i < start + g.fat_size && !struck(was, now, i, i + 1) implies #[trigger] b[i]
            == put[i] by {
            assert(now[was.len() as int] == (at, at + data.len()));
            assert(!(at <= i < at + data.len()));
            assert(b[i] == mid[i]);
            if start + offset <= i < start + offset + data.len() {
                lemma_put_fat_inside(img, g, offset, data, m, first, i);
                assert(n > 0);
                lemma_put_fat_inside(img, g, offset, data, n, first, i);
            } else {
                assert forall|k: int| g.first_mirror <= k < g.first_mirror + m implies !(
                #[trigger] g.copy_start(k) + offset <= i < g.copy_start(k) + offset + data.len()) by {
                    if first < k {
                        g.lemma_copies_disjoint(img.len(), first, k);
                    }
                }
                lemma_put_fat_outside(img, g, offset, data, m, i);
                lemma_put_fat_outside(img, g, offset, data, n, i);
            }
        }
    }
}

/// Whether a write that failed since the failed writes were `was` was to go to FAT entry `c`.
pub open spec fn entry_struck(
    g: Geometry,
    was: Seq<(int, int)>,
    now: Seq<(int, int)>,
    c: u32,
) -> bool {
    let at = g.entry_start(g.first_mirror as int, c as int);
    struck(was, now, at, at + 4)
}

/// Whether every FAT entry is the same in `a` and `b`, except where a write failed since the failed writes were `was`.
pub open spec fn entries_agree(
    g: Geometry,
    a: Seq<u8>,
    b: Seq<u8>,
    was: Seq<(int, int)>,
    now: Seq<(int, int)>,
) -> bool {
    forall|c: u32|
        c < g.fat_entries() && !entry_struck(g, was, now, c) ==> #[trigger] raw_entry(b, g, c)
            == raw_entry(a, g, c)
}

/// Whether the FAT entry of every cluster is the same in `a` and `b`, except where a write failed since the failed
/// writes were `was`.
pub open spec fn clusters_agree(
    g: Geometry,
    a: Seq<u8>,
    b: Seq<u8>,
    was: Seq<(int, int)>,
    now: Seq<(int, int)>,
) -> bool {
    forall|c: u32|
        g.valid_cluster(c) && !entry_struck(g, was, now, c) ==> #[trigger] raw_entry(b, g, c)
            == raw_entry(a, g, c)
}

/// Copies that agree hold the same entries.
pub proof fn lemma_entries_agree(
    g: Geometry,
    a: Seq<u8>,
    b: Seq<u8>,
    was: Seq<(int, int)>,
    now: Seq<(int, int)>,
)
    requires
        g.wf(a.len()),
        read_copy_agrees(g, a, b, was, now),
    ensures
        entries_agree(g, a, b, was, now),
{
    let k = g.first_mirror as int;
    g.lemma_copy_bounds(a.len(), k);
    assert forall|c: u32|
        c < g.fat_entries() && !entry_struck(g, was, now, c) implies #[trigger] raw_entry(b, g, c)
        == raw_entry(a, g, c) by {
        let at = g.entry_start(k, c as int);
        assert forall|j: int| 0 <= j < 4 implies #[trigger] b[at + j] == a[at + j] by {
            if struck(was, now, at + j, at + j + 1) {
                let m = choose|m: int|
                    was.len() <= m < now.len() && (#[trigger] now[m]).0 < at + j + 1 && at + j
                        < now[m].1;
                assert(now[m].0 < at + 4 && at < now[m].1);
            }
        }
        assert(b[at + 0] == a[at + 0]);
    }
}

/// `b` differs from `a` in the FAT at most.
pub open spec fn only_fat_changed(g: Geometry, a: Seq<u8>, b: Seq<u8>) -> bool {
    &&& reserved_kept(g, a, b)
    &&& forall|i: int| g.fats_end() <= i < a.len() ==> #[trigger] b[i] == a[i]
}

/// Whether position `i` is outside the entries of every copy of the FAT that is kept in step.
pub open spec fn outside_tables(g: Geometry, i: int) -> bool {
    forall|k: int|
        g.first_mirror <= k < g.first_mirror + g.mirrors ==> !(#[trigger] g.copy_start(k) <= i
            < g.copy_start(k) + 4 * g.fat_entries())
}

/// Whether the part of the FATs that holds no entry that is kept in step is the same in `a` and `b`: other copies, and
/// what is behind the last entry.
pub open spec fn slack_kept(g: Geometry, a: Seq<u8>, b: Seq<u8>) -> bool {
    forall|i: int| g.fat_start <= i < g.fats_end() && outside_tables(g, i) ==> #[trigger] b[i] == a[i]
}

/// What replacing one FAT entry does: that entry changes in every copy that is kept in step, and nothing else does.
pub proof fn lemma_put_entry(img: Seq<u8>, g: Geometry, c: u32, raw: u32)
    requires
        g.wf(img.len()),
        c < g.fat_entries(),
    ensures
        put_entry(img, g, c, raw).len() == img.len(),
        only_fat_changed(g, img, put_entry(img, g, c, raw)),
        slack_kept(g, img, put_entry(img, g, c, raw)),
        raw_entry(put_entry(img, g, c, raw), g, c) == raw,
        forall|b: u32|
            #![trigger raw_entry(put_entry(img, g, c, raw), g, b)]
            b < g.fat_entries() && b != c ==> raw_entry(put_entry(img, g, c, raw), g, b)
                == raw_entry(img, g, b),
        forall|k: int, b: u32|
            #![trigger copy_entry(put_entry(img, g, c, raw), g, k, b)]
            0 <= k < g.fats && b < g.fat_entries() ==> copy_entry(
                put_entry(img, g, c, raw),
                g,
                k,
                b,
            ) == if b == c && g.first_mirror <= k < g.first_mirror + g.mirrors {
                raw
            } else {
                copy_entry(img, g, k, b)
            },
{
    let new = put_entry(img, g, c, raw);
    let data = u32_bytes(raw);
    let n = g.mirrors as nat;
    lemma_put_fat_len(img, g, 4 * c, data, n);
    assert forall|i: int| 0 <= i < g.fat_start || g.fats_end() <= i < img.len() implies
        #[trigger] new[i] == img[i] by {
        assert forall|k: int| g.first_mirror <= k < g.first_mirror + n implies !(
        #[trigger] g.copy_start(k) + 4 * c <= i < g.copy_start(k) + 4 * c + data.len()) by {
            g.lemma_copy_bounds(img.len(), k);
        }
        g.lemma_copy_bounds(img.len(), 0);
        lemma_put_fat_outside(img, g, 4 * c, data, n, i);
    }
    assert forall|i: int| g.fat_start <= i < g.fats_end() && outside_tables(g, i) implies #[trigger] new[i]
        == img[i] by {
        g.lemma_copy_bounds(img.len(), 0);
        assert forall|k: int| g.first_mirror <= k < g.first_mirror + n implies !(
        #[trigger] g.copy_start(k) + 4 * c <= i < g.copy_start(k) + 4 * c + data.len()) by {
            assert(!(g.copy_start(k) <= i < g.copy_start(k) + 4 * g.fat_entries()));
        }
        lemma_put_fat_outside(img, g, 4 * c, data, n, i);
    }
    assert forall|k: int, b: u32| 0 <= k < g.fats && b < g.fat_entries() implies copy_entry(
        new,
        g,
        k,
        b,
    ) == if b == c && g.first_mirror <= k < g.first_mirror + g.mirrors {
        raw
    } else {
        copy_entry(img, g, k, b)
    } by {
        g.lemma_copy_bounds(img.len(), k);
        let at = g.entry_start(k, b as int);
        if b == c && g.first_mirror <= k < g.first_mirror + g.mirrors {
            assert forall|j: int| 0 <= j < 4 implies #[trigger] new[at + j] == data[j] by {
                lemma_put_fat_inside(img, g, 4 * c, data, n, k, at + j);
            }
            assert(new[at + 0] == data[0]);
        } else {
            assert forall|j: int| 0 <= j < 4 implies #[trigger] new[at + j] == img[at + j] by {
                assert forall|m: int| g.first_mirror <= m < g.first_mirror + n implies !(
                #[trigger] g.copy_start(m) + 4 * c <= at + j < g.copy_start(m) + 4 * c
                    + data.len()) by {
                    if m < k {
                        g.lemma_copies_disjoint(img.len(), m, k);
                    } else if k < m {
                        g.lemma_copies_disjoint(img.len(), k, m);
                    }
                }
                lemma_put_fat_outside(img, g, 4 * c, data, n, at + j);
            }
            assert(new[at + 0] == img[at + 0]);
        }
    }
    assert forall|b: u32| b < g.fat_entries() && b != c implies raw_entry(new, g, b)
        == raw_entry(img, g, b) by {
        assert(copy_entry(new, g, g.first_mirror as int, b) == copy_entry(
            img,
            g,
            g.first_mirror as int,
            b,
        ));
    }
    assert(copy_entry(new, g, g.first_mirror as int, c) == raw);
}

/// Read a FAT entry verbatim, reserved bits included.
pub fn read_fat_raw<S: Storage>(vol: &mut Volume<S>, cluster: u32) -> (res: Result<
    u32,
    Error<S::Error>,
>)
    requires
        old(vol).wf(),
        cluster < old(vol).geom.fat_entries(),
    ensures
        final(vol).geom == old(vol).geom,
        final(vol).reliable() == old(vol).reliable(),
        final(vol).torn() == old(vol).torn(),
        final(vol).image() == old(vol).image(),
        fails_only_by_device(res, old(vol).reliable()),
        res matches Ok(raw) ==> raw == raw_entry(old(vol).image(), old(vol).geom, cluster),
{
    let mut buf: [u8; 4] = [0; 4];
    vol.read_fat(cluster as u64 * 4, &mut buf)?;
    proof {
        vol.geom.lemma_copy_bounds(vol.image().len(), vol.geom.first_mirror as int);
    }
    Ok(get_u32(&buf, 0))
}

/// Write a FAT entry verbatim, reserved bits included.
pub fn write_fat_raw<S: Storage>(vol: &mut Volume<S>, cluster: u32, raw: u32) -> (res: Result<
    (),
    Error<S::Error>,
>)
    requires
        old(vol).wf(),
        cluster < old(vol).geom.fat_entries(),
    ensures
        final(vol).continues(old(vol)),
        only_fat_changed(old(vol).geom, old(vol).image(), final(vol).image()),
        res is Ok ==> final(vol).torn() == old(vol).torn(),
        final(vol).torn().len() <= old(vol).torn().len() + 1,
        entries_agree(
            old(vol).geom,
            put_entry(old(vol).image(), old(vol).geom, cluster, raw),
            final(vol).image(),
            old(vol).torn(),
            final(vol).torn(),
        ),
        res is Err ==> entry_stopped(
            old(vol).geom,
            old(vol).image(),
            cluster,
            raw,
            final(vol).image(),
            final(vol).since(old(vol)),
        ),
        fails_only_by_device(res, old(vol).reliable()),
        res is Ok ==> final(vol).image() == put_entry(
            old(vol).image(),
            old(vol).geom,
            cluster,
            raw,
        ),
{
    let buf: [u8; 4] = u32_to_bytes(raw);
    let res: Result<(), Error<S::Error>> = vol.write_fat(cluster as u64 * 4, &buf);
    proof {
        lemma_put_entry(old(vol).image(), vol.geom, cluster, raw);
        lemma_entries_agree(
            vol.geom,
            put_entry(old(vol).image(), vol.geom, cluster, raw),
            vol.image(),
            old(vol).torn(),
            vol.torn(),
        );
    }
    res
}

/// Write the 28-bit value of a FAT entry, leaving the reserved top nibble as it was.
pub fn write_fat_value<S: Storage>(vol: &mut Volume<S>, cluster: u32, value: u32) -> (res: Result<
    (),
    Error<S::Error>,
>)
    requires
        old(vol).wf(),
        cluster < old(vol).geom.fat_entries(),
    ensures
        final(vol).continues(old(vol)),
        only_fat_changed(old(vol).geom, old(vol).image(), final(vol).image()),
        res is Ok ==> final(vol).torn() == old(vol).torn(),
        final(vol).torn().len() <= old(vol).torn().len() + 1,
        final(vol).image() == old(vol).image() && final(vol).torn() == old(vol).torn()
            || entries_agree(
            old(vol).geom,
            put_value(old(vol).image(), old(vol).geom, cluster, value),
            final(vol).image(),
            old(vol).torn(),
            final(vol).torn(),
        ),
        res is Err ==> but_torn(
            old(vol).image(),
            final(vol).image(),
            final(vol).since(old(vol)),
        ) || entry_stopped(
            old(vol).geom,
            old(vol).image(),
            cluster,
            with_value(raw_entry(old(vol).image(), old(vol).geom, cluster), value),
            final(vol).image(),
            final(vol).since(old(vol)),
        ),
        fails_only_by_device(res, old(vol).reliable()),
        res is Ok ==> final(vol).image() == put_value(
            old(vol).image(),
            old(vol).geom,
            cluster,
            value,
        ),
{
    let old_raw: u32 = read_fat_raw(vol, cluster)?;
    let new_raw: u32 = (value & FAT32_VALUE_MASK) | (old_raw & !FAT32_VALUE_MASK);
    if new_raw != old_raw {
        write_fat_raw(vol, cluster, new_raw)?;
    }
    Ok(())
}

/// Read a FAT entry from a specific copy of the table.
pub fn read_fat_copy<S: Storage>(vol: &mut Volume<S>, copy: u8, cluster: u32) -> (res: Result<
    u32,
    Error<S::Error>,
>)
    requires
        old(vol).wf(),
        copy < old(vol).geom.fats,
        cluster < old(vol).geom.fat_entries(),
    ensures
        final(vol).geom == old(vol).geom,
        final(vol).reliable() == old(vol).reliable(),
        final(vol).torn() == old(vol).torn(),
        final(vol).image() == old(vol).image(),
        fails_only_by_device(res, old(vol).reliable()),
        res matches Ok(raw) ==> raw == copy_entry(
            old(vol).image(),
            old(vol).geom,
            copy as int,
            cluster,
        ),
{
    let start: u64 = vol.copy_offset(copy);
    proof {
        vol.geom.lemma_copy_bounds(vol.image().len(), copy as int);
    }
    let mut buf: [u8; 4] = [0; 4];
    vol.read_at(start + cluster as u64 * 4, &mut buf)?;
    Ok(get_u32(&buf, 0))
}

} // verus!
