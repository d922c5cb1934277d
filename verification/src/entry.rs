//! Checking and repairing one directory entry.

use vstd::prelude::*;

use crate::bounded::{
    fat_bounded, fat_stays, front_same, lemma_bounded_edit, lemma_bounded_front, lemma_bounded_self, lemma_bounded_then,
};
use crate::chain::{chain_from, chain_scanned, lemma_chain_begins, lemma_chain_bounds, scan_chain, ChainScan};
use crate::confined::{
    carried, confined, dir_carried, edited, leads_to, lemma_by_dir, lemma_carried_self, lemma_chain_carried,
    lemma_dir_then, lemma_edit_then, lemma_fat_then, lemma_leads_after, lemma_leads_at, lemma_then,
};
use crate::dir::{
    advance, delete_entry, editable, entry_deleted, entry_offset, fields_put, looks_like_directory, name_put,
    place_after, place_at, seek, starts_directory, write_fields, write_name, Cursor, Place,
};
use crate::dirent::{
    attributes_possible, attrs_are_possible, cluster_field, file_size, first_cluster, is_dir, is_name_corrupted,
    name_corrupted, recovered_name, recovery_name, short_name, with_cluster, with_size, DirEntryData, SFN_DOT,
};
use crate::error::{fails_only_by_device, Error, Fault};
use crate::fat::{classify, is_visited, only_fat_changed, read_fat_raw, FatEntry};
use crate::geometry::{Geometry, DIR_ENTRY_SIZE};
use crate::halting::{but_torn, chain_stopped, check_stopped, deletion_stopped, discard_stopped, removal_stopped, Torn};
use crate::mode::RepairMode;
use crate::model::{agrees, state, Vol};
use crate::scratch::DirFrame;
use crate::stats::{bump, count_one, RepairStats};
use crate::storage::Storage;
use crate::volume::Volume;

verus! {

/// One directory entry, located both ways we need it.
#[derive(Clone, Copy, Debug)]
pub struct EntrySite {
    /// Offset within the directory of the short-name entry.
    pub pos: u32,
    /// Offset within the directory where this entry's run starts, which is the first of its long-name entries when it
    /// has any.
    pub run_start: u32,
    /// Position of the short-name entry on the device.
    pub abs_pos: u64,
}

impl EntrySite {
    /// The run is made of whole entries, and ends with the short-name one.
    pub open spec fn wf(self) -> bool {
        &&& self.run_start <= self.pos
        &&& self.run_start % DIR_ENTRY_SIZE == 0
        &&& self.pos % DIR_ENTRY_SIZE == 0
    }
}

/// The image with `count` entries from `cur` on marked deleted, or, where the directory ends before, those up to there
/// and why it went no further.
pub open spec fn entries_deleted(img: Seq<u8>, g: Geometry, cur: Cursor, count: nat) -> (
    Seq<u8>,
    Result<(), Fault>,
)
    decreases count,
{
    if count == 0 {
        (img, Ok(()))
    } else {
        let next = entry_deleted(img, cur.offset(g));
        if count == 1 {
            (next, Ok(()))
        } else {
            match place_after(next, g, cur) {
                Place::At(cur) => entries_deleted(next, g, cur, (count - 1) as nat),
                Place::End => (next, Err(Fault::UnexpectedEof)),
                Place::Lost(fault) => (next, Err(fault)),
            }
        }
    }
}

/// The state after a run of `count` entries at `start` of the directory that starts at `first` was removed. The run
/// counts once, and is only touched if `mode` grants `flag`.
pub open spec fn run_removed(
    g: Geometry,
    v: Vol,
    first: u32,
    start: u32,
    count: nat,
    mode: RepairMode,
    flag: RepairMode,
) -> (Vol, Result<(), Fault>) {
    let counted = Vol {
        img: v.img,
        stats: RepairStats { entries_removed: bump(v.stats.entries_removed), ..v.stats },
    };
    if !mode.applies(flag) {
        (counted, Ok(()))
    } else {
        match place_at(v.img, g, first, start) {
            Place::At(cur) => {
                let (img, res) = entries_deleted(v.img, g, cur, count);
                (Vol { img, ..counted }, res)
            },
            Place::End => (counted, Err(Fault::UnexpectedEof)),
            Place::Lost(fault) => (counted, Err(fault)),
        }
    }
}

/// How many entries there are in `[start, end)`.
pub open spec fn entries_between(start: u32, end: u64) -> nat {
    ((end - start) / 32) as nat
}

/// Mark every entry in `[start, end)` deleted, as a driver would.
///
/// `authorised_by` is the flag whose remit this deletion falls under; the run is only counted, not touched, unless
/// `mode` grants it.
pub fn delete_range<S: Storage>(
    vol: &mut Volume<S>,
    first: u32,
    start: u32,
    end: u64,
    mode: RepairMode,
    authorised_by: RepairMode,
    stats: &mut RepairStats,
) -> (res: Result<(), Error<S::Error>>)
    requires
        old(vol).wf(),
        old(vol).geom.valid_cluster(first),
        start % DIR_ENTRY_SIZE == 0,
        start <= end,
    ensures
        final(vol).continues(old(vol)),
        res is Ok ==> final(vol).torn() == old(vol).torn(),
        final(vol).torn().len() <= old(vol).torn().len() + 1,
        front_same(old(vol).geom, old(vol).image(), final(vol).image()),
        res matches Err(Error::Io(_)) ==> removal_stopped(
            old(vol).geom,
            old(vol).image(),
            first,
            start,
            entries_between(start, end),
            mode,
            authorised_by,
            final(vol).image(),
            final(vol).since(old(vol)),
        ),
        dir_carried(old(vol).geom, old(vol).image(), final(vol).image(), first),
        !mode.writes() ==> final(vol).image() == old(vol).image(),
        res is Ok && mode.applies(authorised_by) ==> final(vol).durable(),
        agrees(
            res,
            state(final(vol), *final(stats)),
            old(vol).reliable(),
            run_removed(
                old(vol).geom,
                state(old(vol), *old(stats)),
                first,
                start,
                entries_between(start, end),
                mode,
                authorised_by,
            ),
        ),
{
    proof {
        lemma_carried_self(vol.geom, vol.image(), first, 0);
    }
    count_one(&mut stats.entries_removed);
    if !mode.applies(authorised_by) {
        return Ok(());
    }
    let mut cur: Cursor = match seek(vol, first, start)? {
        Some(cur) => cur,
        None => {
            return Err(Error::UnexpectedEof);
        },
    };
    let ghost img = vol.image();
    let ghost g = vol.geom;
    let ghost count = entries_between(start, end);
    let ghost whole = entries_deleted(img, g, cur, count);
    proof {
        lemma_leads_at(g, img, first, start, cur);
    }
    let mut left: u64 = (end - start as u64) / DIR_ENTRY_SIZE as u64;
    while left > 0
        invariant
            old(vol).wf(),
            g == old(vol).geom,
            vol.continues(old(vol)),
            vol.torn() == old(vol).torn(),
            mode.writes(),
            count == entries_between(start, end),
            cur.wf(g),
            front_same(g, old(vol).image(), vol.image()),
            forall|b: Seq<u8>, t: Torn|
                deletion_stopped(g, vol.image(), cur, left as nat, b, t) ==> #[trigger] removal_stopped(
                    g,
                    old(vol).image(),
                    first,
                    start,
                    count,
                    mode,
                    authorised_by,
                    b,
                    t,
                ),
            dir_carried(g, old(vol).image(), vol.image(), first),
            leads_to(g, old(vol).image(), first, cur.offset(g)),
            *stats == (RepairStats {
                entries_removed: bump(old(stats).entries_removed),
                ..*old(stats)
            }),
            whole == entries_deleted(vol.image(), g, cur, left as nat),
            run_removed(
                g,
                state(old(vol), *old(stats)),
                first,
                start,
                count,
                mode,
                authorised_by,
            ) == (Vol { img: whole.0, stats: *stats }, whole.1),
        decreases left,
    {
        let at: u64 = entry_offset(vol, cur);
        proof {
            lemma_dir_then(g, old(vol).image(), vol.image(), first, at as int);
            lemma_edit_then(g, vol.image(), first, at as int);
            lemma_bounded_edit(g, vol.image(), at as int);
        }
        delete_entry(vol, at)?;
        left = left - 1;
        if left > 0 {
            match advance(vol, cur)? {
                Some(next) => {
                    proof {
                        lemma_leads_after(g, old(vol).image(), vol.image(), first, cur, next);
                    }
                    cur = next;
                },
                None => {
                    return Err(Error::UnexpectedEof);
                },
            }
        }
    }
    vol.sync()?;
    Ok(())
}

/// Where a dot entry of the directory of `frame` has to point: `.` at the directory, `..` at its parent, with 0
/// standing for the root.
pub open spec fn dot_target(frame: DirFrame, e: Seq<u8>) -> u32 {
    if e[1] == SFN_DOT {
        frame.parent
    } else {
        frame.cluster
    }
}

/// The state after a dot entry was checked.
pub open spec fn dot_fixed(v: Vol, mode: RepairMode, frame: DirFrame, e: Seq<u8>, at: int) -> Vol {
    let target = dot_target(frame, e);
    if cluster_field(e) == target {
        v
    } else {
        Vol {
            img: if mode.applies(RepairMode::entry_validity()) {
                fields_put(v.img, at, with_cluster(e, target))
            } else {
                v.img
            },
            stats: RepairStats { dot_entries_fixed: bump(v.stats.dot_entries_fixed), ..v.stats },
        }
    }
}

/// `.` must name the directory it sits in and `..` must name its parent. Both are known for free during the walk.
pub fn fix_dot_entry<S: Storage>(
    vol: &mut Volume<S>,
    data: &DirEntryData,
    abs_pos: u64,
    frame: DirFrame,
    mode: RepairMode,
    stats: &mut RepairStats,
) -> (res: Result<(), Error<S::Error>>)
    requires
        editable(old(vol), abs_pos),
        abs_pos + DIR_ENTRY_SIZE <= u64::MAX,
    ensures
        final(vol).continues(old(vol)),
        edited(old(vol).image(), final(vol).image(), abs_pos as int),
        res is Ok ==> final(vol).torn() == old(vol).torn(),
        final(vol).torn().len() <= old(vol).torn().len() + 1,
        res is Err ==> but_torn(
            old(vol).image(),
            final(vol).image(),
            final(vol).since(old(vol)),
        ),
        fails_only_by_device(res, old(vol).reliable()),
        !mode.writes() ==> final(vol).image() == old(vol).image(),
        res is Ok ==> state(final(vol), *final(stats)) == dot_fixed(
            state(old(vol), *old(stats)),
            mode,
            frame,
            data.raw@,
            abs_pos as int,
        ),
{
    let is_dotdot: bool = data.raw[1] == SFN_DOT;
    let expected: u32 = if is_dotdot {
        frame.parent
    } else {
        frame.cluster
    };
    let found: u32 = data.first_cluster().unwrap_or(0);
    if found == expected {
        return Ok(());
    }
    count_one(&mut stats.dot_entries_fixed);
    if !mode.applies(RepairMode::entry_validity()) {
        return Ok(());
    }
    let mut fixed: DirEntryData = *data;
    fixed.set_first_cluster(expected);
    write_fields(vol, abs_pos, &fixed)
}

/// The state after the size of an entry was corrected.
pub open spec fn resized(
    v: Vol,
    mode: RepairMode,
    flag: RepairMode,
    e: Seq<u8>,
    at: int,
    size: u32,
) -> Vol {
    Vol {
        img: if mode.applies(flag) {
            fields_put(v.img, at, with_size(e, size))
        } else {
            v.img
        },
        stats: RepairStats { sizes_corrected: bump(v.stats.sizes_corrected), ..v.stats },
    }
}

/// Correct the size of an entry.
pub fn set_size<S: Storage>(
    vol: &mut Volume<S>,
    data: &DirEntryData,
    abs_pos: u64,
    new_size: u32,
    mode: RepairMode,
    authorised_by: RepairMode,
    stats: &mut RepairStats,
) -> (res: Result<(), Error<S::Error>>)
    requires
        editable(old(vol), abs_pos),
        abs_pos + DIR_ENTRY_SIZE <= u64::MAX,
    ensures
        final(vol).continues(old(vol)),
        edited(old(vol).image(), final(vol).image(), abs_pos as int),
        res is Ok ==> final(vol).torn() == old(vol).torn(),
        final(vol).torn().len() <= old(vol).torn().len() + 1,
        res is Err ==> but_torn(
            old(vol).image(),
            final(vol).image(),
            final(vol).since(old(vol)),
        ),
        fails_only_by_device(res, old(vol).reliable()),
        !mode.writes() ==> final(vol).image() == old(vol).image(),
        res is Ok ==> state(final(vol), *final(stats)) == resized(
            state(old(vol), *old(stats)),
            mode,
            authorised_by,
            data.raw@,
            abs_pos as int,
            new_size,
        ),
{
    count_one(&mut stats.sizes_corrected);
    if !mode.applies(authorised_by) {
        return Ok(());
    }
    let mut fixed: DirEntryData = *data;
    fixed.set_size(new_size);
    write_fields(vol, abs_pos, &fixed)
}

/// The state after an entry was made to describe an empty file. The size counts as corrected if there was one.
pub open spec fn emptied(v: Vol, mode: RepairMode, e: Seq<u8>, at: int) -> Vol {
    Vol {
        img: if mode.applies(RepairMode::chains()) {
            fields_put(v.img, at, with_cluster(with_size(e, 0), 0))
        } else {
            v.img
        },
        stats: if file_size(e) != 0 {
            RepairStats { sizes_corrected: bump(v.stats.sizes_corrected), ..v.stats }
        } else {
            v.stats
        },
    }
}

/// Make an entry describe an empty file: no size, no first cluster.
pub fn clear_data<S: Storage>(
    vol: &mut Volume<S>,
    data: &DirEntryData,
    abs_pos: u64,
    mode: RepairMode,
    stats: &mut RepairStats,
) -> (res: Result<(), Error<S::Error>>)
    requires
        editable(old(vol), abs_pos),
        abs_pos + DIR_ENTRY_SIZE <= u64::MAX,
    ensures
        final(vol).continues(old(vol)),
        edited(old(vol).image(), final(vol).image(), abs_pos as int),
        res is Ok ==> final(vol).torn() == old(vol).torn(),
        final(vol).torn().len() <= old(vol).torn().len() + 1,
        res is Err ==> but_torn(
            old(vol).image(),
            final(vol).image(),
            final(vol).since(old(vol)),
        ),
        fails_only_by_device(res, old(vol).reliable()),
        !mode.writes() ==> final(vol).image() == old(vol).image(),
        res is Ok ==> state(final(vol), *final(stats)) == emptied(
            state(old(vol), *old(stats)),
            mode,
            data.raw@,
            abs_pos as int,
        ),
{
    if data.size() != 0 {
        count_one(&mut stats.sizes_corrected);
    }
    if !mode.applies(RepairMode::chains()) {
        return Ok(());
    }
    let mut fixed: DirEntryData = *data;
    fixed.set_size(0);
    fixed.set_first_cluster(0);
    write_fields(vol, abs_pos, &fixed)
}

/// The state after an entry with an illegal short name got another one.
pub open spec fn renamed(v: Vol, mode: RepairMode, at: int) -> Vol {
    Vol {
        img: if mode.applies(RepairMode::entry_validity()) {
            name_put(v.img, at, recovered_name(v.stats.entries_recovered))
        } else {
            v.img
        },
        stats: RepairStats { entries_recovered: bump(v.stats.entries_recovered), ..v.stats },
    }
}

/// Replace a short name that holds bytes a name cannot hold.
pub fn rename_entry<S: Storage>(
    vol: &mut Volume<S>,
    abs_pos: u64,
    mode: RepairMode,
    stats: &mut RepairStats,
) -> (res: Result<(), Error<S::Error>>)
    requires
        editable(old(vol), abs_pos),
    ensures
        final(vol).continues(old(vol)),
        edited(old(vol).image(), final(vol).image(), abs_pos as int),
        res is Ok ==> final(vol).torn() == old(vol).torn(),
        final(vol).torn().len() <= old(vol).torn().len() + 1,
        res is Err ==> but_torn(
            old(vol).image(),
            final(vol).image(),
            final(vol).since(old(vol)),
        ) || but_torn(
            renamed(state(old(vol), *old(stats)), mode, abs_pos as int).img,
            final(vol).image(),
            final(vol).since(old(vol)),
        ),
        fails_only_by_device(res, old(vol).reliable()),
        !mode.writes() ==> final(vol).image() == old(vol).image(),
        res is Ok && mode.applies(RepairMode::entry_validity()) ==> final(vol).durable(),
        res is Ok ==> state(final(vol), *final(stats)) == renamed(
            state(old(vol), *old(stats)),
            mode,
            abs_pos as int,
        ),
{
    let name: [u8; 11] = recovery_name(stats.entries_recovered);
    count_one(&mut stats.entries_recovered);
    if !mode.applies(RepairMode::entry_validity()) {
        return Ok(());
    }
    write_name(vol, abs_pos, &name)
}

/// The image after a damaged volume label was rewritten from the one in the boot sector.
pub open spec fn label_put(img: Seq<u8>, g: Geometry, mode: RepairMode, at: int) -> Seq<u8> {
    if mode.applies(RepairMode::entry_validity()) {
        name_put(img, at, g.volume_label@)
    } else {
        img
    }
}

/// Rewrite a damaged volume-label entry from the label in the boot sector, which is the copy the volume is actually
/// identified by.
pub fn fix_volume_label<S: Storage>(vol: &mut Volume<S>, abs_pos: u64, mode: RepairMode) -> (res:
    Result<(), Error<S::Error>>)
    requires
        editable(old(vol), abs_pos),
    ensures
        final(vol).continues(old(vol)),
        edited(old(vol).image(), final(vol).image(), abs_pos as int),
        res is Ok ==> final(vol).torn() == old(vol).torn(),
        final(vol).torn().len() <= old(vol).torn().len() + 1,
        res is Err ==> but_torn(
            old(vol).image(),
            final(vol).image(),
            final(vol).since(old(vol)),
        ) || but_torn(
            label_put(old(vol).image(), old(vol).geom, mode, abs_pos as int),
            final(vol).image(),
            final(vol).since(old(vol)),
        ),
        fails_only_by_device(res, old(vol).reliable()),
        !mode.writes() ==> final(vol).image() == old(vol).image(),
        res is Ok && mode.applies(RepairMode::entry_validity()) ==> final(vol).durable(),
        res is Ok ==> final(vol).image() == label_put(
            old(vol).image(),
            old(vol).geom,
            mode,
            abs_pos as int,
        ),
{
    if !mode.applies(RepairMode::entry_validity()) {
        return Ok(());
    }
    let label: [u8; 11] = vol.geom.volume_label;
    write_name(vol, abs_pos, &label)
}

/// The state after an entry that cannot be trusted was removed, long name and all.
pub open spec fn entry_discarded(
    g: Geometry,
    v: Vol,
    first: u32,
    site: EntrySite,
    mode: RepairMode,
) -> (Vol, Result<Option<u32>, Fault>) {
    let end = (site.pos + DIR_ENTRY_SIZE) as u64;
    let (after, res) = run_removed(
        g,
        v,
        first,
        site.run_start,
        entries_between(site.run_start, end),
        mode,
        RepairMode::entry_validity(),
    );
    match res {
        Ok(()) => (after, Ok(None)),
        Err(fault) => (after, Err(fault)),
    }
}

/// How many bytes `clusters` clusters hold, as far as a size field can say.
pub open spec fn capacity_of(g: Geometry, clusters: int) -> u32 {
    if clusters * g.cluster_size <= u32::MAX {
        (clusters * g.cluster_size) as u32
    } else {
        u32::MAX
    }
}

/// The most clusters the chain of an entry may have. A file is as long as its size says, a directory at most as long as
/// a directory can be.
pub open spec fn chain_limit(g: Geometry, e: Seq<u8>) -> Option<u32> {
    if is_dir(e) {
        Some(g.max_dir_chain())
    } else {
        Some(g.clusters_for(file_size(e)))
    }
}

/// The state after an entry that claims to be a directory and is none was passed over. The entry stays as it is. The
/// chain that it points at is taken to be in use, of whatever length, unless there is nothing there to take.
pub open spec fn dir_rejected(g: Geometry, v: Vol, start: u32, mode: RepairMode) -> Vol {
    let judged = Vol {
        img: v.img,
        stats: RepairStats { dirs_rejected: bump(v.stats.dirs_rejected), ..v.stats },
    };
    if chain_from(v.img, g, start, None, mode.marks()).path.len() == 0 {
        judged
    } else {
        chain_scanned(g, judged, start, None, mode)
    }
}

/// The state after an entry whose first cluster `start` is in the volume was checked, and the directory to descend
/// into, if it is one.
pub open spec fn linked_entry_checked(
    g: Geometry,
    v: Vol,
    first: u32,
    e: Seq<u8>,
    site: EntrySite,
    start: u32,
    mode: RepairMode,
) -> (Vol, Result<Option<u32>, Fault>) {
    let at = site.abs_pos as int;
    if is_dir(e) && !starts_directory(v.img, g, start) {
        (dir_rejected(g, v, start, mode), Ok(None))
    } else {
        let named = if name_corrupted(short_name(e)) {
            renamed(v, mode, at)
        } else {
            v
        };
        let limit = chain_limit(g, e);
        let walk = chain_from(named.img, g, start, limit, mode.marks());
        let scanned = chain_scanned(g, named, start, limit, mode);
        let reachable = capacity_of(g, walk.path.len() as int);
        if is_dir(e) {
            if walk.path.len() == 0 {
                entry_discarded(g, scanned, first, site, mode)
            } else {
                (scanned, Ok(Some(start)))
            }
        } else if walk.path.len() == 0 {
            (emptied(scanned, mode, e, at), Ok(None))
        } else if file_size(e) > reachable {
            (resized(scanned, mode, RepairMode::chains(), e, at, reachable), Ok(None))
        } else {
            (scanned, Ok(None))
        }
    }
}

/// The state after an ordinary entry `e` was checked, and the directory to descend into, if it is one.
pub open spec fn entry_checked(
    g: Geometry,
    v: Vol,
    first: u32,
    e: Seq<u8>,
    site: EntrySite,
    mode: RepairMode,
) -> (Vol, Result<Option<u32>, Fault>) {
    let corrupt = name_corrupted(short_name(e));
    if !attributes_possible(e) {
        entry_discarded(g, v, first, site, mode)
    } else {
        match first_cluster(e) {
            None => if corrupt {
                entry_discarded(g, v, first, site, mode)
            } else if file_size(e) != 0 {
                (
                    resized(v, mode, RepairMode::entry_validity(), e, site.abs_pos as int, 0),
                    Ok(None),
                )
            } else {
                (v, Ok(None))
            },
            Some(start) => if g.valid_cluster(start) {
                linked_entry_checked(g, v, first, e, site, start, mode)
            } else {
                entry_discarded(g, v, first, site, mode)
            },
        }
    }
}

/// Remove an entry that cannot be trusted, long name and all.
fn discard_entry<S: Storage>(
    vol: &mut Volume<S>,
    first: u32,
    site: EntrySite,
    mode: RepairMode,
    stats: &mut RepairStats,
) -> (res: Result<Option<u32>, Error<S::Error>>)
    requires
        old(vol).wf(),
        old(vol).geom.valid_cluster(first),
        site.wf(),
    ensures
        final(vol).continues(old(vol)),
        res is Ok ==> final(vol).torn() == old(vol).torn(),
        final(vol).torn().len() <= old(vol).torn().len() + 1,
        front_same(old(vol).geom, old(vol).image(), final(vol).image()),
        res matches Err(Error::Io(_)) ==> discard_stopped(
            old(vol).geom,
            old(vol).image(),
            first,
            site,
            mode,
            final(vol).image(),
            final(vol).since(old(vol)),
        ),
        carried(
            old(vol).geom,
            old(vol).image(),
            final(vol).image(),
            first,
            site.abs_pos as int,
        ),
        !mode.writes() ==> final(vol).image() == old(vol).image(),
        agrees(
            res,
            state(final(vol), *final(stats)),
            old(vol).reliable(),
            entry_discarded(old(vol).geom, state(old(vol), *old(stats)), first, site, mode),
        ),
{
    let end: u64 = site.pos as u64 + DIR_ENTRY_SIZE as u64;
    let res: Result<(), Error<S::Error>> = delete_range(
        vol,
        first,
        site.run_start,
        end,
        mode,
        RepairMode::entry_validity(),
        stats,
    );
    proof {
        lemma_by_dir(vol.geom, old(vol).image(), vol.image(), first, site.abs_pos as int);
    }
    match res {
        Ok(()) => Ok(None),
        Err(e) => Err(e),
    }
}

/// Pass over an entry that claims to be a directory and is none, and leave it alone. What it points at may still be
/// somebody's data, so it counts as in use.
fn reject_dir<S: Storage>(
    vol: &mut Volume<S>,
    start: u32,
    mode: RepairMode,
    stats: &mut RepairStats,
) -> (res: Result<Option<u32>, Error<S::Error>>)
    requires
        old(vol).wf(),
        old(vol).geom.valid_cluster(start),
    ensures
        final(vol).continues(old(vol)),
        fat_bounded(
            old(vol).geom,
            old(vol).image(),
            final(vol).image(),
            old(vol).torn(),
            final(vol).torn(),
        ),
        res is Ok ==> final(vol).torn() == old(vol).torn(),
        final(vol).torn().len() <= old(vol).torn().len() + 1,
        res is Ok ==> fat_stays(old(vol).geom, old(vol).image(), final(vol).image()),
        only_fat_changed(old(vol).geom, old(vol).image(), final(vol).image()),
        res is Err ==> chain_stopped(
            old(vol).geom,
            old(vol).image(),
            start,
            None,
            mode,
            final(vol).image(),
            final(vol).since(old(vol)),
        ),
        fails_only_by_device(res, old(vol).reliable()),
        !mode.writes() ==> final(vol).image() == old(vol).image(),
        res is Ok ==> state(final(vol), *final(stats)) == dir_rejected(
            old(vol).geom,
            state(old(vol), *old(stats)),
            start,
            mode,
        ) && res->Ok_0 is None,
{
    proof {
        lemma_bounded_self(vol.geom, vol.image());
    }
    count_one(&mut stats.dirs_rejected);
    let raw: u32 = read_fat_raw(vol, start)?;
    proof {
        lemma_chain_begins(vol.image(), vol.geom, start, None, mode.marks());
    }
    if (mode.marks() && is_visited(raw)) || classify(raw) == FatEntry::Free || classify(raw)
        == FatEntry::Bad {
        return Ok(None);
    }
    scan_chain(vol, start, None, mode, stats)?;
    Ok(None)
}

/// Check one ordinary entry, repairing what is wrong with it.
///
/// Returns the first cluster of a subdirectory that should be descended into.
pub fn check_entry<S: Storage>(
    vol: &mut Volume<S>,
    first: u32,
    data: &DirEntryData,
    site: EntrySite,
    mode: RepairMode,
    stats: &mut RepairStats,
) -> (res: Result<Option<u32>, Error<S::Error>>)
    requires
        old(vol).wf(),
        old(vol).geom.valid_cluster(first),
        site.wf(),
        editable(old(vol), site.abs_pos),
        site.abs_pos + DIR_ENTRY_SIZE <= u64::MAX,
    ensures
        final(vol).continues(old(vol)),
        fat_bounded(
            old(vol).geom,
            old(vol).image(),
            final(vol).image(),
            old(vol).torn(),
            final(vol).torn(),
        ),
        res is Ok ==> final(vol).torn() == old(vol).torn(),
        final(vol).torn().len() <= old(vol).torn().len() + 1,
        res is Ok ==> fat_stays(old(vol).geom, old(vol).image(), final(vol).image()),
        res matches Err(Error::Io(_)) ==> check_stopped(
            old(vol).geom,
            state(old(vol), *old(stats)),
            first,
            data.raw@,
            site,
            mode,
            final(vol).image(),
            final(vol).since(old(vol)),
        ),
        confined(
            old(vol).geom,
            old(vol).image(),
            final(vol).image(),
            first,
            site.abs_pos as int,
        ),
        !mode.writes() ==> final(vol).image() == old(vol).image(),
        agrees(
            res,
            state(final(vol), *final(stats)),
            old(vol).reliable(),
            entry_checked(
                old(vol).geom,
                state(old(vol), *old(stats)),
                first,
                data.raw@,
                site,
                mode,
            ),
        ),
        res matches Ok(Some(c)) ==> old(vol).geom.valid_cluster(c),
{
    let ghost g = vol.geom;
    let ghost img = vol.image();
    let ghost at = site.abs_pos as int;
    proof {
        lemma_carried_self(g, img, first, at);
        lemma_then(g, img, img, first, at);
        lemma_edit_then(g, img, first, at);
        lemma_fat_then(g, img, first, at);
        lemma_bounded_self(g, img);
        lemma_bounded_then(g, img, img);
        lemma_bounded_edit(g, img, at);
        lemma_bounded_front(g, img);
    }
    let name_corrupt: bool = is_name_corrupted(&data.name());
    let is_dir: bool = data.is_dir();
    let size: u32 = data.size();
    if !attrs_are_possible(data) {
        return discard_entry(vol, first, site, mode, stats);
    }
    let start: u32 = match data.first_cluster() {
        Some(start) => start,
        None => {
            if name_corrupt {
                return discard_entry(vol, first, site, mode, stats);
            }
            if !is_dir && size != 0 {
                set_size(
                    vol,
                    data,
                    site.abs_pos,
                    0,
                    mode,
                    RepairMode::entry_validity(),
                    stats,
                )?;
            }
            return Ok(None);
        },
    };
    if !vol.geom.is_valid_cluster(start) {
        return discard_entry(vol, first, site, mode, stats);
    }
    if is_dir && !looks_like_directory(vol, start)? {
        return reject_dir(vol, start, mode, stats);
    }
    if name_corrupt {
        rename_entry(vol, site.abs_pos, mode, stats)?;
    }
    // A file is as long as the shorter of its size and its chain. A directory is as long as its chain, up to the most a
    // directory can hold.
    let limit: Option<u32> = if is_dir {
        Some(vol.geom.max_dir_clusters())
    } else {
        Some(vol.geom.clusters_from_bytes(size))
    };
    let ghost named = state(vol, *stats);
    proof {
        lemma_chain_bounds(vol.image(), vol.geom, start, limit, mode.marks());
        assert(carried(g, img, named.img, first, at));
        lemma_then(g, img, named.img, first, at);
        lemma_fat_then(g, named.img, first, at);
        lemma_chain_carried(g, mode, named, start, limit, first, at);
        lemma_bounded_then(g, img, named.img);
    }
    let scan: ChainScan = scan_chain(vol, start, limit, mode, stats)?;
    proof {
        lemma_then(g, img, vol.image(), first, at);
        lemma_edit_then(g, vol.image(), first, at);
        lemma_bounded_then(g, img, vol.image());
        lemma_bounded_edit(g, vol.image(), at);
        lemma_bounded_front(g, vol.image());
    }
    if is_dir {
        if scan.clusters == 0 {
            return discard_entry(vol, first, site, mode, stats);
        }
        return Ok(Some(start));
    }
    if scan.clusters == 0 {
        clear_data(vol, data, site.abs_pos, mode, stats)?;
        return Ok(None);
    }
    let reachable: u32 = bytes_in(scan.clusters, vol.geom.cluster_size);
    if size > reachable {
        set_size(vol, data, site.abs_pos, reachable, mode, RepairMode::chains(), stats)?;
    }
    Ok(None)
}

/// How many bytes `clusters` clusters hold, as far as a size field can say.
fn bytes_in(clusters: u32, cluster_size: u32) -> (n: u32)
    ensures
        n == if clusters * cluster_size <= u32::MAX {
            clusters * cluster_size
        } else {
            u32::MAX as int
        },
{
    proof {
        assert(0 <= clusters * cluster_size <= 0xFFFF_FFFF * 0xFFFF_FFFF) by (nonlinear_arith)
            requires
                clusters <= 0xFFFF_FFFF,
                cluster_size <= 0xFFFF_FFFF,
        ;
    }
    let n: u64 = clusters as u64 * cluster_size as u64;
    if n <= u32::MAX as u64 {
        n as u32
    } else {
        u32::MAX
    }
}

} // verus!
