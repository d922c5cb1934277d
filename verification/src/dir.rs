//! Moving through a directory and editing its entries.

use vstd::prelude::*;

use crate::bytes::splice;
use crate::confined::edited;
use crate::dirent::{is_dots, is_dots_entry, DirEntryData, DIR_ENTRY_DELETED_FLAG};
use crate::error::{fails_only_by_device, Error, Fault};
use crate::fat::{classify, entry_of, raw_entry, read_fat_raw, FatEntry};
use crate::geometry::{Geometry, DIR_ENTRY_SIZE, RESERVED_FAT_ENTRIES};
use crate::halting::but_torn;
use crate::storage::Storage;
use crate::volume::Volume;

verus! {

/// A place in a directory: a position, and the cluster that holds it.
#[derive(Clone, Copy, Debug, PartialEq, Eq, Structural)]
pub struct Cursor {
    /// Byte offset within the directory.
    pub pos: u32,
    /// The cluster that holds the entry there.
    pub cluster: u32,
}

/// Where a move through a directory leads.
pub enum Place {
    At(Cursor),
    End,
    Lost(Fault),
}

/// Where the link of a cluster leads.
pub enum Link {
    To(u32),
    End,
    Broken,
}

/// The cluster behind cluster `c` of a directory. A link to a reserved number is an error; one that leads out of the
/// volume ends the directory, as an end mark does.
pub open spec fn link_of(img: Seq<u8>, g: Geometry, c: u32) -> Link {
    match entry_of(raw_entry(img, g, c)) {
        FatEntry::Data(next) => if next < RESERVED_FAT_ENTRIES {
            Link::Broken
        } else if g.valid_cluster(next) {
            Link::To(next)
        } else {
            Link::End
        },
        _ => Link::End,
    }
}

/// The `k`-th cluster of the directory that starts at `first`.
pub open spec fn nth_cluster(img: Seq<u8>, g: Geometry, first: u32, k: nat) -> Link
    decreases k,
{
    if k == 0 {
        Link::To(first)
    } else {
        match nth_cluster(img, g, first, (k - 1) as nat) {
            Link::To(c) => link_of(img, g, c),
            other => other,
        }
    }
}

/// The place at `pos` of the directory that starts at `first`.
pub open spec fn place_at(img: Seq<u8>, g: Geometry, first: u32, pos: u32) -> Place {
    match nth_cluster(img, g, first, (pos / g.cluster_size) as nat) {
        Link::To(cluster) => Place::At(Cursor { pos, cluster }),
        Link::End => Place::End,
        Link::Broken => Place::Lost(Fault::CorruptedFileSystem),
    }
}

/// Whether there is no room in a 32-bit offset for an entry behind the one at `pos`.
pub open spec fn at_last_offset(pos: u32) -> bool {
    pos + DIR_ENTRY_SIZE > u32::MAX
}

/// The place of the entry behind the one at `cur`.
pub open spec fn place_after(img: Seq<u8>, g: Geometry, cur: Cursor) -> Place {
    if at_last_offset(cur.pos) {
        Place::Lost(Fault::CorruptedFileSystem)
    } else {
        let pos = (cur.pos + DIR_ENTRY_SIZE) as u32;
        if pos % g.cluster_size != 0 {
            Place::At(Cursor { pos, cluster: cur.cluster })
        } else {
            match link_of(img, g, cur.cluster) {
                Link::To(cluster) => Place::At(Cursor { pos, cluster }),
                Link::End => Place::End,
                Link::Broken => Place::Lost(Fault::CorruptedFileSystem),
            }
        }
    }
}

/// The first cluster of the directory that a frame calls `cluster`, where 0 stands for the root.
pub open spec fn dir_start(g: Geometry, cluster: u32) -> u32 {
    if cluster == 0 {
        g.root_dir_first_cluster
    } else {
        cluster
    }
}

impl Cursor {
    /// The place is at an entry of a cluster of the volume.
    pub open spec fn wf(self, g: Geometry) -> bool {
        &&& g.valid_cluster(self.cluster)
        &&& self.pos % DIR_ENTRY_SIZE == 0
    }

    /// Where on the device the entry is.
    pub open spec fn offset(self, g: Geometry) -> int {
        g.cluster_start(self.cluster as int) + self.pos % g.cluster_size
    }
}

/// The 32 bytes of the entry at `at`.
pub open spec fn entry_at(img: Seq<u8>, at: int) -> Seq<u8> {
    img.subrange(at, at + DIR_ENTRY_SIZE)
}

/// The entry at `cur`.
pub open spec fn entry_under(img: Seq<u8>, g: Geometry, cur: Cursor) -> Seq<u8> {
    entry_at(img, cur.offset(g))
}

/// An entry lies within its cluster.
pub proof fn lemma_entry_bounds(g: Geometry, size: nat, cur: Cursor)
    requires
        g.wf(size),
        cur.wf(g),
    ensures
        g.cluster_start(cur.cluster as int) <= cur.offset(g),
        cur.offset(g) + DIR_ENTRY_SIZE <= g.cluster_start(cur.cluster as int) + g.cluster_size,
        g.data_start <= cur.offset(g),
        cur.offset(g) + DIR_ENTRY_SIZE <= size,
        cur.offset(g) + DIR_ENTRY_SIZE <= u64::MAX,
        g.fat_start <= g.data_start,
{
    g.lemma_cluster_bounds(size, cur.cluster as int);
    let cs = g.cluster_size as int;
    let p = cur.pos as int;
    let m = cs / 32;
    assert(cs == 32 * m);
    vstd::arithmetic::div_mod::lemma_mod_mod(p, 32, m);
    assert((p % cs) % 32 == 0);
}

/// The next place is one entry further on, in a cluster of the volume.
pub proof fn lemma_place_after(img: Seq<u8>, g: Geometry, cur: Cursor)
    requires
        cur.wf(g),
    ensures
        place_after(img, g, cur) matches Place::At(next) ==> next.wf(g) && next.pos == cur.pos
            + DIR_ENTRY_SIZE,
{
}

/// Every cluster of a directory that starts in the volume is in the volume.
pub proof fn lemma_nth_cluster(img: Seq<u8>, g: Geometry, first: u32, k: nat)
    requires
        g.valid_cluster(first),
    ensures
        nth_cluster(img, g, first, k) matches Link::To(c) ==> g.valid_cluster(c),
    decreases k,
{
    if k > 0 {
        lemma_nth_cluster(img, g, first, (k - 1) as nat);
    }
}

/// Where the link of cluster `c` leads.
pub fn follow_link<S: Storage>(vol: &mut Volume<S>, c: u32) -> (res: Result<
    Option<u32>,
    Error<S::Error>,
>)
    requires
        old(vol).wf(),
        old(vol).geom.valid_cluster(c),
    ensures
        final(vol).geom == old(vol).geom,
        final(vol).reliable() == old(vol).reliable(),
        final(vol).torn() == old(vol).torn(),
        final(vol).image() == old(vol).image(),
        match res {
            Ok(Some(next)) => link_of(old(vol).image(), old(vol).geom, c) == Link::To(next),
            Ok(None) => link_of(old(vol).image(), old(vol).geom, c) is End,
            Err(Error::Io(_)) => !old(vol).reliable(),
            Err(Error::CorruptedFileSystem) => link_of(
                old(vol).image(),
                old(vol).geom,
                c,
            ) is Broken,
            Err(_) => false,
        },
{
    let raw: u32 = read_fat_raw(vol, c)?;
    match classify(raw) {
        FatEntry::Data(next) => {
            if next < RESERVED_FAT_ENTRIES {
                Err(Error::CorruptedFileSystem)
            } else if vol.geom.is_valid_cluster(next) {
                Ok(Some(next))
            } else {
                Ok(None)
            }
        },
        _ => Ok(None),
    }
}

/// `res` is the place that `place` says, unless a device that may fail did.
pub open spec fn is_place<E>(
    res: Result<Option<Cursor>, Error<E>>,
    reliable: bool,
    place: Place,
) -> bool {
    match res {
        Ok(Some(cur)) => place == Place::At(cur),
        Ok(None) => place is End,
        Err(Error::Io(_)) => !reliable,
        Err(Error::UnexpectedEof) => place == Place::Lost(Fault::UnexpectedEof),
        Err(Error::CorruptedFileSystem) => place == Place::Lost(Fault::CorruptedFileSystem),
        Err(Error::InvalidInput) => false,
    }
}

/// Find the place at `pos` of the directory that starts at `first`. `None` if the directory ends before.
pub fn seek<S: Storage>(vol: &mut Volume<S>, first: u32, pos: u32) -> (res: Result<
    Option<Cursor>,
    Error<S::Error>,
>)
    requires
        old(vol).wf(),
        old(vol).geom.valid_cluster(first),
    ensures
        final(vol).geom == old(vol).geom,
        final(vol).reliable() == old(vol).reliable(),
        final(vol).torn() == old(vol).torn(),
        final(vol).image() == old(vol).image(),
        is_place(
            res,
            old(vol).reliable(),
            place_at(old(vol).image(), old(vol).geom, first, pos),
        ),
        res matches Ok(Some(cur)) ==> cur.pos == pos && old(vol).geom.valid_cluster(cur.cluster),
{
    let skip: u32 = pos / vol.geom.cluster_size;
    let ghost img = vol.image();
    let ghost g = vol.geom;
    let mut cluster: u32 = first;
    let mut k: u32 = 0;
    while k < skip
        invariant
            old(vol).wf(),
            g == old(vol).geom,
            img == old(vol).image(),
            vol.geom == g,
            vol.reliable() == old(vol).reliable(),
            vol.torn() == old(vol).torn(),
            vol.image() == img,
            g.valid_cluster(first),
            g.valid_cluster(cluster),
            k <= skip,
            skip == pos / g.cluster_size,
            nth_cluster(img, g, first, k as nat) == Link::To(cluster),
        decreases skip - k,
    {
        assert(nth_cluster(img, g, first, (k + 1) as nat) == link_of(img, g, cluster));
        match follow_link(vol, cluster) {
            Ok(Some(next)) => {
                cluster = next;
            },
            Ok(None) => {
                proof {
                    lemma_nth_cluster_ends(img, g, first, (k + 1) as nat, skip as nat);
                }
                return Ok(None);
            },
            Err(e) => {
                proof {
                    lemma_nth_cluster_ends(img, g, first, (k + 1) as nat, skip as nat);
                }
                return Err(e);
            },
        }
        k = k + 1;
    }
    Ok(Some(Cursor { pos, cluster }))
}

/// Where a directory has ended it stays ended.
pub proof fn lemma_nth_cluster_ends(img: Seq<u8>, g: Geometry, first: u32, j: nat, k: nat)
    requires
        j <= k,
    ensures
        nth_cluster(img, g, first, j) is End ==> nth_cluster(img, g, first, k) is End,
        nth_cluster(img, g, first, j) is Broken ==> nth_cluster(img, g, first, k) is Broken,
    decreases k,
{
    if j < k {
        lemma_nth_cluster_ends(img, g, first, j, (k - 1) as nat);
    }
}

/// Move from the entry at `cur` to the one behind it. `None` if the directory ends there.
pub fn advance<S: Storage>(vol: &mut Volume<S>, cur: Cursor) -> (res: Result<
    Option<Cursor>,
    Error<S::Error>,
>)
    requires
        old(vol).wf(),
        cur.wf(old(vol).geom),
    ensures
        final(vol).geom == old(vol).geom,
        final(vol).reliable() == old(vol).reliable(),
        final(vol).torn() == old(vol).torn(),
        final(vol).image() == old(vol).image(),
        is_place(res, old(vol).reliable(), place_after(old(vol).image(), old(vol).geom, cur)),
        res matches Ok(Some(next)) ==> next.wf(old(vol).geom) && next.pos == cur.pos
            + DIR_ENTRY_SIZE,
{
    if cur.pos > u32::MAX - DIR_ENTRY_SIZE {
        return Err(Error::CorruptedFileSystem);
    }
    let pos: u32 = cur.pos + DIR_ENTRY_SIZE;
    if pos % vol.geom.cluster_size != 0 {
        return Ok(Some(Cursor { pos, cluster: cur.cluster }));
    }
    match follow_link(vol, cur.cluster) {
        Ok(Some(cluster)) => Ok(Some(Cursor { pos, cluster })),
        Ok(None) => Ok(None),
        Err(e) => Err(e),
    }
}

/// Where on the device the entry at `cur` is.
pub fn entry_offset<S: Storage>(vol: &Volume<S>, cur: Cursor) -> (at: u64)
    requires
        vol.wf(),
        cur.wf(vol.geom),
    ensures
        at == cur.offset(vol.geom),
        vol.geom.data_start <= at,
        at + DIR_ENTRY_SIZE <= vol.image().len(),
        at + DIR_ENTRY_SIZE <= u64::MAX,
        vol.geom.fat_start <= vol.geom.data_start,
{
    proof {
        lemma_entry_bounds(vol.geom, vol.image().len(), cur);
    }
    vol.cluster_offset(cur.cluster) + (cur.pos % vol.geom.cluster_size) as u64
}

/// Read the directory entry at `at`.
pub fn read_entry<S: Storage>(vol: &mut Volume<S>, at: u64) -> (res: Result<
    DirEntryData,
    Error<S::Error>,
>)
    requires
        at + DIR_ENTRY_SIZE <= old(vol).image().len(),
    ensures
        final(vol).geom == old(vol).geom,
        final(vol).reliable() == old(vol).reliable(),
        final(vol).torn() == old(vol).torn(),
        final(vol).image() == old(vol).image(),
        fails_only_by_device(res, old(vol).reliable()),
        res matches Ok(data) ==> data.raw@ == entry_at(old(vol).image(), at as int),
{
    let mut raw: [u8; 32] = [0; 32];
    vol.read_at(at, &mut raw)?;
    Ok(DirEntryData { raw })
}

/// The image with the entry at `at` marked deleted.
pub open spec fn entry_deleted(img: Seq<u8>, at: int) -> Seq<u8> {
    splice(img, at, seq![DIR_ENTRY_DELETED_FLAG])
}

/// The image with the cluster and size fields of the entry at `at` taken from `e`.
pub open spec fn fields_put(img: Seq<u8>, at: int, e: Seq<u8>) -> Seq<u8> {
    splice(img, at + 20, e.subrange(20, 32))
}

/// The image with the short name of the entry at `at` replaced.
pub open spec fn name_put(img: Seq<u8>, at: int, name: Seq<u8>) -> Seq<u8> {
    splice(img, at, name)
}

/// Whether `at` is the place of an entry behind the FAT.
pub open spec fn editable<S: Storage>(vol: &Volume<S>, at: u64) -> bool {
    &&& vol.geom.fat_start <= vol.geom.data_start <= at
    &&& at + DIR_ENTRY_SIZE <= vol.image().len()
}

/// Mark the entry at `at` deleted. Nothing but the first byte of its name changes.
pub fn delete_entry<S: Storage>(vol: &mut Volume<S>, at: u64) -> (res: Result<(), Error<S::Error>>)
    requires
        editable(old(vol), at),
    ensures
        final(vol).continues(old(vol)),
        edited(old(vol).image(), final(vol).image(), at as int),
        res is Ok ==> final(vol).torn() == old(vol).torn(),
        final(vol).torn().len() <= old(vol).torn().len() + 1,
        res is Err ==> but_torn(
            old(vol).image(),
            final(vol).image(),
            final(vol).since(old(vol)),
        ),
        fails_only_by_device(res, old(vol).reliable()),
        res is Ok ==> final(vol).image() == entry_deleted(old(vol).image(), at as int),
{
    let data: [u8; 1] = [DIR_ENTRY_DELETED_FLAG];
    assert(data@ =~= seq![DIR_ENTRY_DELETED_FLAG]);
    vol.write_at(at, &data)
}

/// Store the cluster and size fields of `data` in the entry at `at`.
pub fn write_fields<S: Storage>(vol: &mut Volume<S>, at: u64, data: &DirEntryData) -> (res: Result<
    (),
    Error<S::Error>,
>)
    requires
        editable(old(vol), at),
        at + DIR_ENTRY_SIZE <= u64::MAX,
    ensures
        final(vol).continues(old(vol)),
        edited(old(vol).image(), final(vol).image(), at as int),
        res is Ok ==> final(vol).torn() == old(vol).torn(),
        final(vol).torn().len() <= old(vol).torn().len() + 1,
        res is Err ==> but_torn(
            old(vol).image(),
            final(vol).image(),
            final(vol).since(old(vol)),
        ),
        fails_only_by_device(res, old(vol).reliable()),
        res is Ok ==> final(vol).image() == fields_put(old(vol).image(), at as int, data.raw@),
{
    let fields = vstd::slice::slice_subrange(&data.raw, 20, 32);
    vol.write_at(at + 20, fields)
}

/// Store a short name in the entry at `at`.
pub fn write_name<S: Storage>(vol: &mut Volume<S>, at: u64, name: &[u8; 11]) -> (res: Result<
    (),
    Error<S::Error>,
>)
    requires
        editable(old(vol), at),
    ensures
        final(vol).continues(old(vol)),
        edited(old(vol).image(), final(vol).image(), at as int),
        res is Ok ==> final(vol).torn() == old(vol).torn(),
        final(vol).torn().len() <= old(vol).torn().len() + 1,
        res is Err ==> but_torn(
            old(vol).image(),
            final(vol).image(),
            final(vol).since(old(vol)),
        ) || but_torn(
            name_put(old(vol).image(), at as int, name@),
            final(vol).image(),
            final(vol).since(old(vol)),
        ),
        fails_only_by_device(res, old(vol).reliable()),
        res is Ok ==> final(vol).image() == name_put(old(vol).image(), at as int, name@),
        res is Ok ==> final(vol).durable(),
{
    vol.write_at(at, name)?;
    vol.sync()
}

/// Whether `c` starts a directory: every one but the root begins with `.` and `..`.
///
/// Only the names and the directory attribute count. A `..` that points at the wrong place is ordinary damage, and no
/// reason to disown a directory that is plainly a directory.
pub open spec fn starts_directory(img: Seq<u8>, g: Geometry, c: u32) -> bool {
    let at = g.cluster_start(c as int);
    is_dots_entry(entry_at(img, at), 1) && is_dots_entry(entry_at(img, at + DIR_ENTRY_SIZE), 2)
}

/// Whether `cluster` really is the start of a directory, as opposed to somewhere in the middle of a file that a
/// corrupted entry has pointed us at.
pub fn looks_like_directory<S: Storage>(vol: &mut Volume<S>, cluster: u32) -> (res: Result<
    bool,
    Error<S::Error>,
>)
    requires
        old(vol).wf(),
        old(vol).geom.valid_cluster(cluster),
    ensures
        final(vol).geom == old(vol).geom,
        final(vol).reliable() == old(vol).reliable(),
        final(vol).torn() == old(vol).torn(),
        final(vol).image() == old(vol).image(),
        fails_only_by_device(res, old(vol).reliable()),
        res matches Ok(found) ==> found == starts_directory(
            old(vol).image(),
            old(vol).geom,
            cluster,
        ),
{
    let at: u64 = vol.cluster_offset(cluster);
    let dot: DirEntryData = read_entry(vol, at)?;
    if !is_dots(&dot, 1) {
        return Ok(false);
    }
    let dotdot: DirEntryData = read_entry(vol, at + DIR_ENTRY_SIZE as u64)?;
    Ok(is_dots(&dotdot, 2))
}

} // verus!
