//! Walking the directory tree.

use vstd::prelude::*;

use crate::bounded::{
    fat_bounded, fat_stays, lemma_bounded_edit, lemma_bounded_front, lemma_bounded_self, lemma_bounded_then,
};
use crate::confined::{
    confined, dir_carried, dir_confined, leads_to, lemma_by_dir_then, lemma_carried_self, lemma_dir_then,
    lemma_edit_then, lemma_leads_after, lemma_leads_at, lemma_then, lemma_visited_carried, lemma_walk_begins,
    lemma_walk_goes_on, lemma_walk_then, lemma_walked, walk_carried, walk_confined,
};
use crate::dir::{
    advance, at_last_offset, dir_start, entry_offset, entry_under, place_after, place_at, read_entry, seek, Cursor,
    Place,
};
use crate::dirent::{
    attrs_are_possible, dot_name, is_deleted, is_dot_or_dotdot, is_end, is_label, is_lfn, is_name_corrupted, is_volume,
    lfn_checksum, long_name_checksum, name_checksum, name_corrupted, short_name, DirEntryData,
};
use crate::entry::{
    check_entry, delete_range, dot_fixed, entries_between, entry_checked, fix_dot_entry, fix_volume_label, label_put,
    run_removed, EntrySite,
};
use crate::error::{Error, Fault};
use crate::geometry::{Geometry, DIR_ENTRY_SIZE};
use crate::halting::{dir_stopped, scan_stopped, short_stopped, stack_stopped, tree_stopped, visit_stopped, Torn};
use crate::mode::RepairMode;
use crate::model::{agrees, state, Vol};
use crate::scratch::{DirFrame, RepairScratch};
use crate::stats::{bump, count_one, RepairStats};
use crate::storage::Storage;
use crate::volume::Volume;

verus! {

/// The run of long-name entries that the scan is in the middle of, if any.
#[derive(Clone, Copy, Debug)]
pub struct LfnRun {
    /// Where it starts.
    pub start: Option<u32>,
    /// The checksum its first entry carries.
    pub checksum: u8,
    /// Some entry carries another checksum: the run was overwritten in place.
    pub damaged: bool,
}

/// What looking at one entry leads to.
pub enum Visit {
    /// The directory ends here.
    Finish,
    /// The entry is a directory to descend into.
    Descend(u32),
    /// The scan goes on behind the entry.
    Next(LfnRun),
}

/// Where the scan of a directory stopped.
pub enum DirStep {
    /// At its end.
    Done,
    /// Behind a subdirectory to descend into first.
    Descend { cluster: u32, resume: u32 },
}

/// No run of long-name entries.
pub open spec fn no_run() -> LfnRun {
    LfnRun { start: None, checksum: 0, damaged: false }
}

/// The run once the long-name entry `e` at `pos` has joined it. Every entry of a run carries the same checksum.
pub open spec fn run_joined(lfn: LfnRun, e: Seq<u8>, pos: u32) -> LfnRun {
    match lfn.start {
        None => LfnRun { start: Some(pos), checksum: long_name_checksum(e), damaged: false },
        Some(_) => LfnRun {
            damaged: lfn.damaged || long_name_checksum(e) != lfn.checksum,
            ..lfn
        },
    }
}

/// Whether a run belongs to the short name behind it.
pub open spec fn run_matches(lfn: LfnRun, name: Seq<u8>) -> bool {
    !lfn.damaged && lfn.checksum == name_checksum(name)
}

/// The state after the run in front of the entry at `pos` was removed.
pub open spec fn long_name_dropped(
    g: Geometry,
    v: Vol,
    first: u32,
    start: u32,
    pos: u32,
    mode: RepairMode,
) -> (Vol, Result<(), Fault>) {
    run_removed(
        g,
        v,
        first,
        start,
        entries_between(start, pos as u64),
        mode,
        RepairMode::long_names(),
    )
}

/// The state after a volume label was looked at.
pub open spec fn label_checked(
    g: Geometry,
    v: Vol,
    e: Seq<u8>,
    at: int,
    mode: RepairMode,
) -> Vol {
    if name_corrupted(short_name(e)) {
        Vol {
            img: label_put(v.img, g, mode, at),
            stats: RepairStats { entries_recovered: bump(v.stats.entries_recovered), ..v.stats },
        }
    } else {
        v
    }
}

/// The state after the short-name entry at `cur`, whose run starts at `run_start`, was looked at.
pub open spec fn short_entry_visited(
    g: Geometry,
    v: Vol,
    frame: DirFrame,
    cur: Cursor,
    run_start: u32,
    e: Seq<u8>,
    lfn: LfnRun,
    mode: RepairMode,
) -> (Vol, Result<Visit, Fault>) {
    let at = cur.offset(g);
    let rest = LfnRun { start: None, ..lfn };
    if dot_name(short_name(e)) {
        (dot_fixed(v, mode, frame, e, at), Ok(Visit::Next(rest)))
    } else if is_label(e) {
        (label_checked(g, v, e, at, mode), Ok(Visit::Next(rest)))
    } else {
        let counted = Vol {
            img: v.img,
            stats: RepairStats { files_examined: bump(v.stats.files_examined), ..v.stats },
        };
        let site = EntrySite { pos: cur.pos, run_start, abs_pos: at as u64 };
        let (after, res) = entry_checked(
            g,
            counted,
            dir_start(g, frame.cluster),
            e,
            site,
            mode,
        );
        match res {
            Ok(Some(cluster)) => (after, Ok(Visit::Descend(cluster))),
            Ok(None) => (after, Ok(Visit::Next(rest))),
            Err(fault) => (after, Err(fault)),
        }
    }
}

/// The state after the entry at `cur` of the directory of `frame` was looked at.
#[verifier::opaque]
pub open spec fn entry_visited(
    g: Geometry,
    v: Vol,
    frame: DirFrame,
    cur: Cursor,
    lfn: LfnRun,
    mode: RepairMode,
) -> (Vol, Result<Visit, Fault>) {
    let e = entry_under(v.img, g, cur);
    let first = dir_start(g, frame.cluster);
    if is_end(e) {
        match lfn.start {
            Some(start) => {
                let (after, res) = long_name_dropped(g, v, first, start, cur.pos, mode);
                match res {
                    Ok(()) => (after, Ok(Visit::Finish)),
                    Err(fault) => (after, Err(fault)),
                }
            },
            None => (v, Ok(Visit::Finish)),
        }
    } else if is_deleted(e) {
        let rest = LfnRun { start: None, ..lfn };
        match lfn.start {
            Some(start) => {
                let (after, res) = long_name_dropped(g, v, first, start, cur.pos, mode);
                match res {
                    Ok(()) => (after, Ok(Visit::Next(rest))),
                    Err(fault) => (after, Err(fault)),
                }
            },
            None => (v, Ok(Visit::Next(rest))),
        }
    } else if is_lfn(e) {
        (v, Ok(Visit::Next(run_joined(lfn, e, cur.pos))))
    } else {
        match lfn.start {
            None => short_entry_visited(g, v, frame, cur, cur.pos, e, lfn, mode),
            Some(start) => if run_matches(lfn, short_name(e)) {
                short_entry_visited(g, v, frame, cur, start, e, lfn, mode)
            } else {
                let (after, res) = long_name_dropped(g, v, first, start, cur.pos, mode);
                match res {
                    Ok(()) => short_entry_visited(g, after, frame, cur, cur.pos, e, lfn, mode),
                    Err(fault) => (after, Err(fault)),
                }
            },
        }
    }
}

/// The state after the directory of `frame` ended behind the entry at `cur`. A run that is still waiting for its short
/// name is removed.
pub open spec fn dir_ended(
    g: Geometry,
    v: Vol,
    frame: DirFrame,
    cur: Cursor,
    lfn: LfnRun,
    mode: RepairMode,
) -> (Vol, Result<DirStep, Fault>) {
    match lfn.start {
        Some(start) => {
            let end = (cur.pos + DIR_ENTRY_SIZE) as u32;
            let first = dir_start(g, frame.cluster);
            let (after, res) = long_name_dropped(g, v, first, start, end, mode);
            match res {
                Ok(()) => (after, Ok(DirStep::Done)),
                Err(fault) => (after, Err(fault)),
            }
        },
        None => (v, Ok(DirStep::Done)),
    }
}

/// The state after the directory of `frame` was scanned from `cur` on, and where the scan stopped.
pub open spec fn scanned_from(
    g: Geometry,
    v: Vol,
    frame: DirFrame,
    cur: Cursor,
    lfn: LfnRun,
    mode: RepairMode,
) -> (Vol, Result<DirStep, Fault>)
    decreases u32::MAX - cur.pos,
{
    let (after, res) = entry_visited(g, v, frame, cur, lfn, mode);
    match res {
        Err(fault) => (after, Err(fault)),
        Ok(Visit::Finish) => (after, Ok(DirStep::Done)),
        Ok(Visit::Descend(cluster)) => if at_last_offset(cur.pos) {
            (after, Err(Fault::CorruptedFileSystem))
        } else {
            (
                after,
                Ok(DirStep::Descend { cluster, resume: (cur.pos + DIR_ENTRY_SIZE) as u32 }),
            )
        },
        Ok(Visit::Next(rest)) => match place_after(after.img, g, cur) {
            Place::At(next) => scanned_from(g, after, frame, next, rest, mode),
            Place::End => dir_ended(g, after, frame, cur, rest, mode),
            Place::Lost(fault) => (after, Err(fault)),
        },
    }
}

/// The state after the directory of `frame` was scanned from where it is to be resumed, and where the scan stopped.
pub open spec fn dir_scanned(g: Geometry, v: Vol, frame: DirFrame, mode: RepairMode) -> (
    Vol,
    Result<DirStep, Fault>,
) {
    match place_at(v.img, g, dir_start(g, frame.cluster), frame.resume) {
        Place::At(cur) => scanned_from(g, v, frame, cur, no_run(), mode),
        Place::End => (v, Ok(DirStep::Done)),
        Place::Lost(fault) => (v, Err(fault)),
    }
}

/// A scan that stops for a subdirectory is to be resumed further on than it began.
pub proof fn lemma_scanned_from_advances(
    g: Geometry,
    v: Vol,
    frame: DirFrame,
    cur: Cursor,
    lfn: LfnRun,
    mode: RepairMode,
)
    ensures
        scanned_from(g, v, frame, cur, lfn, mode).1 matches Ok(DirStep::Descend {
            cluster,
            resume,
        }) ==> resume > cur.pos,
    decreases u32::MAX - cur.pos,
{
    let (after, res) = entry_visited(g, v, frame, cur, lfn, mode);
    if let Ok(Visit::Next(rest)) = res {
        if let Place::At(next) = place_after(after.img, g, cur) {
            lemma_scanned_from_advances(g, after, frame, next, rest, mode);
        }
    }
}

/// A scan that stops for a subdirectory is to be resumed further on than it began.
pub proof fn lemma_dir_scanned_advances(g: Geometry, v: Vol, frame: DirFrame, mode: RepairMode)
    ensures
        dir_scanned(g, v, frame, mode).1 matches Ok(DirStep::Descend { cluster, resume })
            ==> resume > frame.resume,
{
    if let Place::At(cur) = place_at(v.img, g, dir_start(g, frame.cluster), frame.resume) {
        lemma_scanned_from_advances(g, v, frame, cur, no_run(), mode);
    }
}

/// A directory that can be scanned: its first cluster is in the volume, and it is to be resumed at an entry.
pub open spec fn frame_ok(g: Geometry, frame: DirFrame) -> bool {
    &&& frame.cluster == 0 || g.valid_cluster(frame.cluster)
    &&& frame.resume % DIR_ENTRY_SIZE == 0
}

/// A run that can be removed once the scan is at `pos`.
pub open spec fn run_ok(lfn: LfnRun, pos: u32) -> bool {
    lfn.start matches Some(start) ==> start % DIR_ENTRY_SIZE == 0 && start <= pos
}

/// Look at one short-name entry.
fn visit_short_entry<S: Storage>(
    vol: &mut Volume<S>,
    frame: DirFrame,
    cur: Cursor,
    run_start: u32,
    data: &DirEntryData,
    lfn: LfnRun,
    mode: RepairMode,
    stats: &mut RepairStats,
) -> (res: Result<Visit, Error<S::Error>>)
    requires
        old(vol).wf(),
        frame_ok(old(vol).geom, frame),
        cur.wf(old(vol).geom),
        run_start % DIR_ENTRY_SIZE == 0,
        run_start <= cur.pos,
    ensures
        final(vol).continues(old(vol)),
        fat_bounded(
            old(vol).geom,
            old(vol).image(),
            final(vol).image(),
            old(vol).torn(),
            final(vol).torn(),
        ),
        res is Ok ==> final(vol).torn() == old(vol).torn(),
        final(vol).torn().len() <= old(vol).torn().len() + 1,
        res is Ok ==> fat_stays(old(vol).geom, old(vol).image(), final(vol).image()),
        res matches Err(Error::Io(_)) ==> short_stopped(
            old(vol).geom,
            state(old(vol), *old(stats)),
            frame,
            cur,
            run_start,
            data.raw@,
            mode,
            final(vol).image(),
            final(vol).since(old(vol)),
        ),
        confined(
            old(vol).geom,
            old(vol).image(),
            final(vol).image(),
            dir_start(old(vol).geom, frame.cluster),
            cur.offset(old(vol).geom),
        ),
        !mode.writes() ==> final(vol).image() == old(vol).image(),
        agrees(
            res,
            state(final(vol), *final(stats)),
            old(vol).reliable(),
            short_entry_visited(
                old(vol).geom,
                state(old(vol), *old(stats)),
                frame,
                cur,
                run_start,
                data.raw@,
                lfn,
                mode,
            ),
        ),
        res matches Ok(Visit::Descend(c)) ==> old(vol).geom.valid_cluster(c),
        res matches Ok(Visit::Next(rest)) ==> rest.start is None,
{
    let at: u64 = entry_offset(vol, cur);
    proof {
        let dir = dir_start(vol.geom, frame.cluster);
        lemma_carried_self(vol.geom, vol.image(), dir, at as int);
        lemma_edit_then(vol.geom, vol.image(), dir, at as int);
        lemma_bounded_self(vol.geom, vol.image());
        lemma_bounded_edit(vol.geom, vol.image(), at as int);
    }
    let rest = LfnRun { start: None, checksum: lfn.checksum, damaged: lfn.damaged };
    if is_dot_or_dotdot(&data.name()) {
        fix_dot_entry(vol, data, at, frame, mode, stats)?;
        return Ok(Visit::Next(rest));
    }
    if data.is_volume() && attrs_are_possible(data) {
        if is_name_corrupted(&data.name()) {
            fix_volume_label(vol, at, mode)?;
            count_one(&mut stats.entries_recovered);
        }
        return Ok(Visit::Next(rest));
    }
    count_one(&mut stats.files_examined);
    let first: u32 = open_dir(vol, frame.cluster);
    let site = EntrySite { pos: cur.pos, run_start, abs_pos: at };
    match check_entry(vol, first, data, site, mode, stats) {
        Ok(Some(cluster)) => Ok(Visit::Descend(cluster)),
        Ok(None) => Ok(Visit::Next(rest)),
        Err(e) => Err(e),
    }
}

/// The first cluster of the directory that a frame calls `cluster`, where 0 stands for the root.
pub fn open_dir<S: Storage>(vol: &Volume<S>, cluster: u32) -> (first: u32)
    requires
        vol.wf(),
        cluster == 0 || vol.geom.valid_cluster(cluster),
    ensures
        first == dir_start(vol.geom, cluster),
        vol.geom.valid_cluster(first),
{
    if cluster == 0 {
        vol.geom.root_dir_first_cluster
    } else {
        cluster
    }
}

/// Look at the entry at `cur`.
fn visit_entry<S: Storage>(
    vol: &mut Volume<S>,
    frame: DirFrame,
    cur: Cursor,
    lfn: LfnRun,
    mode: RepairMode,
    stats: &mut RepairStats,
) -> (res: Result<Visit, Error<S::Error>>)
    requires
        old(vol).wf(),
        frame_ok(old(vol).geom, frame),
        cur.wf(old(vol).geom),
        run_ok(lfn, cur.pos),
    ensures
        final(vol).continues(old(vol)),
        fat_bounded(
            old(vol).geom,
            old(vol).image(),
            final(vol).image(),
            old(vol).torn(),
            final(vol).torn(),
        ),
        res is Ok ==> final(vol).torn() == old(vol).torn(),
        final(vol).torn().len() <= old(vol).torn().len() + 1,
        res is Ok ==> fat_stays(old(vol).geom, old(vol).image(), final(vol).image()),
        res matches Err(Error::Io(_)) ==> visit_stopped(
            old(vol).geom,
            state(old(vol), *old(stats)),
            frame,
            cur,
            lfn,
            mode,
            final(vol).image(),
            final(vol).since(old(vol)),
        ),
        confined(
            old(vol).geom,
            old(vol).image(),
            final(vol).image(),
            dir_start(old(vol).geom, frame.cluster),
            cur.offset(old(vol).geom),
        ),
        !mode.writes() ==> final(vol).image() == old(vol).image(),
        agrees(
            res,
            state(final(vol), *final(stats)),
            old(vol).reliable(),
            entry_visited(
                old(vol).geom,
                state(old(vol), *old(stats)),
                frame,
                cur,
                lfn,
                mode,
            ),
        ),
        res matches Ok(Visit::Descend(c)) ==> old(vol).geom.valid_cluster(c),
        res matches Ok(Visit::Next(rest)) ==> run_ok(rest, cur.pos),
{
    proof {
        reveal(entry_visited);
    }
    let at: u64 = entry_offset(vol, cur);
    let ghost dir = dir_start(vol.geom, frame.cluster);
    proof {
        lemma_carried_self(vol.geom, vol.image(), dir, at as int);
        lemma_by_dir_then(vol.geom, vol.image(), dir, at as int);
        lemma_bounded_self(vol.geom, vol.image());
        lemma_bounded_then(vol.geom, vol.image(), vol.image());
        lemma_bounded_front(vol.geom, vol.image());
    }
    let data: DirEntryData = read_entry(vol, at)?;
    let first: u32 = open_dir(vol, frame.cluster);
    if data.is_end() {
        // Long-name entries with nothing behind them: a file whose creation never got as far as writing its short name.
        if let Some(start) = lfn.start {
            delete_range(
                vol,
                first,
                start,
                cur.pos as u64,
                mode,
                RepairMode::long_names(),
                stats,
            )?;
        }
        return Ok(Visit::Finish);
    }
    if data.is_deleted() {
        // The same, with the short name deleted from behind its long one.
        if let Some(start) = lfn.start {
            delete_range(
                vol,
                first,
                start,
                cur.pos as u64,
                mode,
                RepairMode::long_names(),
                stats,
            )?;
        }
        return Ok(
            Visit::Next(LfnRun { start: None, checksum: lfn.checksum, damaged: lfn.damaged }),
        );
    }
    if data.is_lfn() {
        let sum: u8 = data.checksum();
        let joined: LfnRun = match lfn.start {
            None => LfnRun { start: Some(cur.pos), checksum: sum, damaged: false },
            Some(start) => LfnRun {
                start: Some(start),
                checksum: lfn.checksum,
                damaged: lfn.damaged || sum != lfn.checksum,
            },
        };
        return Ok(Visit::Next(joined));
    }
    // A run only belongs to the short name it precedes if the checksums agree. When they do not, the long name is the
    // part that cannot be trusted: drop it and let the file keep its short name.
    let mut run_start: u32 = cur.pos;
    if let Some(start) = lfn.start {
        if lfn.damaged || lfn.checksum != lfn_checksum(&data.name()) {
            delete_range(
                vol,
                first,
                start,
                cur.pos as u64,
                mode,
                RepairMode::long_names(),
                stats,
            )?;
        } else {
            run_start = start;
        }
    }
    proof {
        lemma_then(vol.geom, old(vol).image(), vol.image(), dir, at as int);
        lemma_bounded_then(vol.geom, old(vol).image(), vol.image());
    }
    visit_short_entry(vol, frame, cur, run_start, &data, lfn, mode, stats)
}

/// Scan one directory from where it is to be resumed until it ends or until a subdirectory turns up.
pub fn scan_dir<S: Storage>(
    vol: &mut Volume<S>,
    frame: DirFrame,
    mode: RepairMode,
    stats: &mut RepairStats,
) -> (res: Result<DirStep, Error<S::Error>>)
    requires
        old(vol).wf(),
        frame_ok(old(vol).geom, frame),
    ensures
        final(vol).continues(old(vol)),
        fat_bounded(
            old(vol).geom,
            old(vol).image(),
            final(vol).image(),
            old(vol).torn(),
            final(vol).torn(),
        ),
        res is Ok ==> final(vol).torn() == old(vol).torn(),
        final(vol).torn().len() <= old(vol).torn().len() + 1,
        res is Ok ==> fat_stays(old(vol).geom, old(vol).image(), final(vol).image()),
        res matches Err(Error::Io(_)) ==> dir_stopped(
            old(vol).geom,
            state(old(vol), *old(stats)),
            frame,
            mode,
            final(vol).image(),
            final(vol).since(old(vol)),
        ),
        dir_confined(
            old(vol).geom,
            old(vol).image(),
            final(vol).image(),
            dir_start(old(vol).geom, frame.cluster),
        ),
        !mode.writes() ==> final(vol).image() == old(vol).image(),
        agrees(
            res,
            state(final(vol), *final(stats)),
            old(vol).reliable(),
            dir_scanned(old(vol).geom, state(old(vol), *old(stats)), frame, mode),
        ),
        res matches Ok(DirStep::Descend { cluster, resume }) ==> old(vol).geom.valid_cluster(
            cluster,
        ) && resume % DIR_ENTRY_SIZE == 0 && resume > frame.resume && final(vol).durable(),
{
    let ghost g = vol.geom;
    let ghost whole = dir_scanned(g, state(vol, *stats), frame, mode);
    let ghost dir = dir_start(g, frame.cluster);
    proof {
        lemma_carried_self(g, vol.image(), dir, 0);
        lemma_bounded_self(g, vol.image());
    }
    proof {
        lemma_dir_scanned_advances(g, state(vol, *stats), frame, mode);
    }
    let first: u32 = open_dir(vol, frame.cluster);
    let mut cur: Cursor = match seek(vol, first, frame.resume)? {
        Some(cur) => cur,
        None => {
            return Ok(DirStep::Done);
        },
    };
    let mut lfn = LfnRun { start: None, checksum: 0, damaged: false };
    proof {
        lemma_leads_at(g, vol.image(), dir, frame.resume, cur);
    }
    loop
        invariant
            old(vol).wf(),
            g == old(vol).geom,
            vol.continues(old(vol)),
            vol.torn() == old(vol).torn(),
            !mode.writes() ==> vol.image() == old(vol).image(),
            frame_ok(g, frame),
            cur.wf(g),
            run_ok(lfn, cur.pos),
            dir == dir_start(g, frame.cluster),
            fat_stays(g, old(vol).image(), vol.image()),
            dir_carried(g, old(vol).image(), vol.image(), dir),
            leads_to(g, old(vol).image(), dir, cur.offset(g)),
            forall|b: Seq<u8>, t: Torn|
                scan_stopped(g, state(vol, *stats), frame, cur, lfn, mode, b, t) ==> #[trigger] dir_stopped(
                    g,
                    state(old(vol), *old(stats)),
                    frame,
                    mode,
                    b,
                    t,
                ),
            whole == dir_scanned(g, state(old(vol), *old(stats)), frame, mode),
            whole == scanned_from(g, state(vol, *stats), frame, cur, lfn, mode),
            whole.1 matches Ok(DirStep::Descend { cluster, resume }) ==> resume > frame.resume,
        decreases u32::MAX - cur.pos,
    {
        proof {
            lemma_dir_then(g, old(vol).image(), vol.image(), dir, cur.offset(g));
            lemma_bounded_then(g, old(vol).image(), vol.image());
            lemma_visited_carried(g, mode, state(vol, *stats), frame, cur, lfn);
        }
        match visit_entry(vol, frame, cur, lfn, mode, stats)? {
            Visit::Finish => {
                return Ok(DirStep::Done);
            },
            Visit::Descend(cluster) => {
                vol.sync()?;
                // A directory is capped at the entries it can hold, so this always fits; if it somehow does not, stop
                // rather than resume the parent at a wrapped-around offset and walk it twice.
                if cur.pos > u32::MAX - DIR_ENTRY_SIZE {
                    return Err(Error::CorruptedFileSystem);
                }
                return Ok(DirStep::Descend { cluster, resume: cur.pos + DIR_ENTRY_SIZE });
            },
            Visit::Next(rest) => {
                lfn = rest;
            },
        }
        proof {
            lemma_dir_then(g, old(vol).image(), vol.image(), dir, cur.offset(g));
            lemma_bounded_then(g, old(vol).image(), vol.image());
            lemma_bounded_front(g, vol.image());
        }
        match advance(vol, cur)? {
            Some(next) => {
                proof {
                    lemma_leads_after(g, old(vol).image(), vol.image(), dir, cur, next);
                }
                cur = next;
            },
            // A directory that stops without an end marker simply stops.
            None => {
                if let Some(start) = lfn.start {
                    let first: u32 = open_dir(vol, frame.cluster);
                    let end: u64 = cur.pos as u64 + DIR_ENTRY_SIZE as u64;
                    delete_range(vol, first, start, end, mode, RepairMode::long_names(), stats)?;
                }
                return Ok(DirStep::Done);
            },
        }
    }
}

/// The state after the directory of `frame` was walked to its end, subdirectories included, with room for `room` more
/// levels below it.
pub open spec fn tree_walked(
    g: Geometry,
    v: Vol,
    frame: DirFrame,
    room: nat,
    mode: RepairMode,
) -> (Vol, Result<(), Fault>)
    decreases room, u32::MAX - frame.resume,
{
    proof {
        lemma_dir_scanned_advances(g, dir_entered(v, frame), frame, mode);
    }
    let (after, res) = dir_scanned(g, dir_entered(v, frame), frame, mode);
    match res {
        Err(fault) => (after, Err(fault)),
        Ok(DirStep::Done) => (after, Ok(())),
        Ok(DirStep::Descend { cluster, resume }) => {
            let rest = DirFrame { resume, ..frame };
            if room == 0 {
                tree_walked(g, dir_skipped(after), rest, room, mode)
            } else {
                let child = DirFrame { cluster, parent: frame.cluster, resume: 0 };
                let (below, done) = tree_walked(g, after, child, (room - 1) as nat, mode);
                match done {
                    Ok(()) => tree_walked(g, below, rest, room, mode),
                    Err(fault) => (below, Err(fault)),
                }
            }
        },
    }
}

/// The state once the scan of a directory has begun. A directory counts as scanned once.
pub open spec fn dir_entered(v: Vol, frame: DirFrame) -> Vol {
    if frame.resume == 0 {
        Vol {
            img: v.img,
            stats: RepairStats { dirs_scanned: bump(v.stats.dirs_scanned), ..v.stats },
        }
    } else {
        v
    }
}

/// The state once a subdirectory was left out for want of room.
pub open spec fn dir_skipped(v: Vol) -> Vol {
    Vol {
        img: v.img,
        stats: RepairStats { dirs_skipped: bump(v.stats.dirs_skipped), ..v.stats },
    }
}

/// The state after every directory on the stack was walked to its end, top first, with room for `cap` levels in all.
pub open spec fn stack_walked(
    g: Geometry,
    v: Vol,
    stack: Seq<DirFrame>,
    cap: nat,
    mode: RepairMode,
) -> (Vol, Result<(), Fault>)
    decreases stack.len(),
{
    if stack.len() == 0 {
        (v, Ok(()))
    } else {
        let (after, res) = tree_walked(g, v, stack.last(), (cap - stack.len()) as nat, mode);
        match res {
            Ok(()) => stack_walked(g, after, stack.drop_last(), cap, mode),
            Err(fault) => (after, Err(fault)),
        }
    }
}

/// The root directory, not scanned yet.
pub open spec fn root_frame() -> DirFrame {
    DirFrame { cluster: 0, parent: 0, resume: 0 }
}

/// How much more a step at a level counts than one at the level below it.
pub open spec fn level_weight(below: nat) -> nat
    decreases below,
{
    if below == 0 {
        1
    } else {
        0x1_0000_0001 * level_weight((below - 1) as nat)
    }
}

/// A bound on the work left: what is left of each directory on the stack, weighted by how deep it may still lead.
pub open spec fn work_left(stack: Seq<DirFrame>, cap: nat) -> nat
    decreases stack.len(),
{
    if stack.len() == 0 {
        0
    } else {
        work_left(stack.drop_last(), cap) + ((0x1_0000_0000 - stack.last().resume) as nat)
            * level_weight((cap - stack.len()) as nat)
    }
}

/// A weight is at least one.
proof fn lemma_level_weight(below: nat)
    ensures
        level_weight(below) >= 1,
    decreases below,
{
    if below > 0 {
        lemma_level_weight((below - 1) as nat);
    }
}

/// Leaving a directory reduces the work left.
proof fn lemma_work_pop(stack: Seq<DirFrame>, cap: nat)
    requires
        0 < stack.len(),
    ensures
        work_left(stack.drop_last(), cap) < work_left(stack, cap),
{
    let w = level_weight((cap - stack.len()) as nat);
    let n = (0x1_0000_0000 - stack.last().resume) as nat;
    lemma_level_weight((cap - stack.len()) as nat);
    assert(n * w >= 1) by (nonlinear_arith)
        requires
            n >= 1,
            w >= 1,
    ;
}

/// Getting further in a directory reduces the work left.
proof fn lemma_work_resume(stack: Seq<DirFrame>, cap: nat, resume: u32)
    requires
        0 < stack.len(),
        stack.last().resume < resume,
    ensures
        work_left(stack.drop_last().push(DirFrame { resume, ..stack.last() }), cap)
            + level_weight((cap - stack.len()) as nat) <= work_left(stack, cap),
        level_weight((cap - stack.len()) as nat) >= 1,
{
    let next = stack.drop_last().push(DirFrame { resume, ..stack.last() });
    assert(next.drop_last() =~= stack.drop_last());
    let w = level_weight((cap - stack.len()) as nat);
    let n = (0x1_0000_0000 - stack.last().resume) as nat;
    let m = (0x1_0000_0000 - resume) as nat;
    lemma_level_weight((cap - stack.len()) as nat);
    assert(m * w + w <= n * w) by (nonlinear_arith)
        requires
            m + 1 <= n,
    ;
}

/// Entering a subdirectory adds less than getting behind its entry took away.
proof fn lemma_work_push(stack: Seq<DirFrame>, cap: nat, frame: DirFrame)
    requires
        0 < stack.len() < cap,
    ensures
        work_left(stack.push(frame), cap) < work_left(stack, cap) + level_weight(
            (cap - stack.len()) as nat,
        ),
{
    assert(stack.push(frame).drop_last() =~= stack);
    let below = (cap - stack.len() - 1) as nat;
    let w = level_weight(below);
    let n = (0x1_0000_0000 - frame.resume) as nat;
    lemma_level_weight(below);
    assert(level_weight((cap - stack.len()) as nat) == 0x1_0000_0001 * w);
    assert(n * w < 0x1_0000_0001 * w) by (nonlinear_arith)
        requires
            n <= 0x1_0000_0000,
            w >= 1,
    ;
}

/// Walk the tree from the root, and whatever is still on the stack after it.
pub fn scan_tree<S: Storage>(
    vol: &mut Volume<S>,
    mode: RepairMode,
    scratch: &mut RepairScratch<'_>,
    stats: &mut RepairStats,
) -> (res: Result<(), Error<S::Error>>)
    requires
        old(vol).wf(),
        old(scratch).wf(),
        old(scratch).frames().len() < old(scratch).room(),
        forall|i: int|
            0 <= i < old(scratch).frames().len() ==> frame_ok(
                old(vol).geom,
                #[trigger] old(scratch).frames()[i],
            ),
    ensures
        final(vol).continues(old(vol)),
        fat_bounded(
            old(vol).geom,
            old(vol).image(),
            final(vol).image(),
            old(vol).torn(),
            final(vol).torn(),
        ),
        res is Ok ==> final(vol).torn() == old(vol).torn(),
        final(vol).torn().len() <= old(vol).torn().len() + 1,
        res is Ok ==> fat_stays(old(vol).geom, old(vol).image(), final(vol).image()),
        res matches Err(Error::Io(_)) ==> stack_stopped(
            old(vol).geom,
            state(old(vol), *old(stats)),
            old(scratch).frames().push(root_frame()),
            old(scratch).room(),
            mode,
            final(vol).image(),
            final(vol).since(old(vol)),
        ),
        walk_confined(
            old(vol).geom,
            old(vol).image(),
            old(scratch).frames(),
            final(vol).image(),
        ),
        final(scratch).wf(),
        final(scratch).size() == old(scratch).size(),
        final(scratch).frames().len() <= final(scratch).room(),
        forall|i: int|
            0 <= i < final(scratch).frames().len() ==> frame_ok(
                old(vol).geom,
                #[trigger] final(scratch).frames()[i],
            ),
        !mode.writes() ==> final(vol).image() == old(vol).image(),
        agrees(
            res,
            state(final(vol), *final(stats)),
            old(vol).reliable(),
            stack_walked(
                old(vol).geom,
                state(old(vol), *old(stats)),
                old(scratch).frames().push(root_frame()),
                old(scratch).room(),
                mode,
            ),
        ),
        res is Ok ==> final(scratch).frames().len() == 0,
{
    let ghost g = vol.geom;
    let ghost cap = scratch.room();
    let ghost whole = stack_walked(
        g,
        state(vol, *stats),
        scratch.frames().push(root_frame()),
        cap,
        mode,
    );
    proof {
        lemma_walk_begins(g, vol.image(), scratch.frames());
        lemma_bounded_self(g, vol.image());
    }
    scratch.push(DirFrame { cluster: 0, parent: 0, resume: 0 });
    while !scratch.is_empty()
        invariant
            old(vol).wf(),
            g == old(vol).geom,
            vol.continues(old(vol)),
            vol.torn() == old(vol).torn(),
            fat_stays(g, old(vol).image(), vol.image()),
            walk_confined(g, old(vol).image(), old(scratch).frames(), vol.image()),
            walk_carried(
                g,
                old(vol).image(),
                old(scratch).frames(),
                vol.image(),
                scratch.frames(),
            ),
            !mode.writes() ==> vol.image() == old(vol).image(),
            scratch.wf(),
            scratch.size() == old(scratch).size(),
            cap == old(scratch).room(),
            scratch.frames().len() <= cap,
            forall|i: int|
                0 <= i < scratch.frames().len() ==> frame_ok(g, #[trigger] scratch.frames()[i]),
            whole == stack_walked(
                g,
                state(old(vol), *old(stats)),
                old(scratch).frames().push(root_frame()),
                cap,
                mode,
            ),
            whole == stack_walked(g, state(vol, *stats), scratch.frames(), cap, mode),
            forall|b: Seq<u8>, t: Torn|
                stack_stopped(g, state(vol, *stats), scratch.frames(), cap, mode, b, t)
                    ==> #[trigger] stack_stopped(
                    g,
                    state(old(vol), *old(stats)),
                    old(scratch).frames().push(root_frame()),
                    cap,
                    mode,
                    b,
                    t,
                ),
        decreases work_left(scratch.frames(), cap),
    {
        let ghost stack = scratch.frames();
        let frame: DirFrame = scratch.top();
        assert(frame_ok(g, stack[stack.len() - 1]));
        let ghost before = state(vol, *stats);
        proof {
            reveal_with_fuel(stack_walked, 3);
            reveal_with_fuel(tree_walked, 2);
            reveal_with_fuel(stack_stopped, 3);
            reveal_with_fuel(tree_stopped, 2);
        }
        if frame.resume == 0 {
            count_one(&mut stats.dirs_scanned);
        }
        assert(state(vol, *stats) == dir_entered(before, frame));
        proof {
            lemma_bounded_then(g, old(vol).image(), vol.image());
            lemma_walk_then(g, old(vol).image(), old(scratch).frames(), vol.image(), stack);
        }
        let ghost entered = state(vol, *stats);
        match scan_dir(vol, frame, mode, stats)? {
            // The directory is exhausted; go back up.
            DirStep::Done => {
                scratch.pop();
                proof {
                    lemma_work_pop(stack, cap);
                    assert forall|i: int| 0 <= i < scratch.frames().len() implies frame_ok(
                        g,
                        #[trigger] scratch.frames()[i],
                    ) by {
                        assert(frame_ok(g, stack[i]));
                    }
                }
            },
            DirStep::Descend { cluster, resume } => {
                scratch.set_top_resume(resume);
                let ghost moved = scratch.frames();
                proof {
                    lemma_work_resume(stack, cap, resume);
                    assert(moved.drop_last() =~= stack.drop_last());
                    assert forall|i: int| 0 <= i < moved.len() implies frame_ok(
                        g,
                        #[trigger] moved[i],
                    ) by {
                        assert(frame_ok(g, stack[i]));
                    }
                }
                if scratch.is_full() {
                    count_one(&mut stats.dirs_skipped);
                } else {
                    scratch.push(DirFrame { cluster, parent: frame.cluster, resume: 0 });
                    proof {
                        let child = DirFrame { cluster, parent: frame.cluster, resume: 0 };
                        lemma_work_push(moved, cap, child);
                        assert(scratch.frames().drop_last() =~= moved);
                        assert forall|i: int| 0 <= i < scratch.frames().len() implies frame_ok(
                            g,
                            #[trigger] scratch.frames()[i],
                        ) by {
                            if i < moved.len() {
                                assert(frame_ok(g, moved[i]));
                            }
                        }
                    }
                }
            },
        }
        proof {
            let next = scratch.frames();
            lemma_walk_goes_on(
                g,
                mode,
                old(vol).image(),
                old(scratch).frames(),
                entered,
                stack,
                next,
            );
            lemma_walked(g, old(vol).image(), old(scratch).frames(), vol.image(), next);
        }
    }
    proof {
        lemma_bounded_then(g, old(vol).image(), vol.image());
    }
    Ok(())
}

} // verus!
