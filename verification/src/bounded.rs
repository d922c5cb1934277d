//! What an interrupted repair may have made of the FAT.

use vstd::prelude::*;

use crate::confined::edited;
use crate::fat::{entries_agree, entry_of, entry_struck, raw_entry};
use crate::geometry::Geometry;
use crate::kept::{allocated, lemma_same_fat};

verus! {

/// What any step but the sweep may make of the FAT entry `x` of a cluster, markers aside: it stays, or the chain ends
/// there. No cluster is allocated, and none becomes free.
pub open spec fn entry_stays(x: u32, y: u32) -> bool {
    entry_of(y) == entry_of(x) || (allocated(x) && entry_of(y) is EndOfChain)
}

/// Whether a step that was carried out did to every cluster what a step may do.
#[verifier::opaque]
pub open spec fn fat_stays(g: Geometry, a: Seq<u8>, b: Seq<u8>) -> bool {
    forall|c: u32|
        g.valid_cluster(c) ==> entry_stays(raw_entry(a, g, c), #[trigger] raw_entry(b, g, c))
}

/// Whether a step, carried out or not, did to every cluster what a step may do, except where a write failed since the
/// failed writes were `was`.
#[verifier::opaque]
pub open spec fn fat_bounded(
    g: Geometry,
    a: Seq<u8>,
    b: Seq<u8>,
    was: Seq<(int, int)>,
    now: Seq<(int, int)>,
) -> bool {
    forall|c: u32|
        g.valid_cluster(c) && !entry_struck(g, was, now, c) ==> entry_stays(
            raw_entry(a, g, c),
            #[trigger] raw_entry(b, g, c),
        )
}

/// `b` is as long as `a`, and nothing in front of the data has changed.
pub open spec fn front_same(g: Geometry, a: Seq<u8>, b: Seq<u8>) -> bool {
    &&& b.len() == a.len()
    &&& forall|i: int| 0 <= i < g.data_start ==> #[trigger] b[i] == a[i]
}

/// What may follow a step that was carried out.
pub proof fn lemma_bounded_then(g: Geometry, a: Seq<u8>, m: Seq<u8>)
    requires
        fat_stays(g, a, m),
    ensures
        forall|was: Seq<(int, int)>, now: Seq<(int, int)>| #[trigger] fat_bounded(g, a, m, was, now),
        forall|b: Seq<u8>, was: Seq<(int, int)>, now: Seq<(int, int)>| #[trigger]
            fat_bounded(g, m, b, was, now) ==> fat_bounded(g, a, b, was, now),
        forall|b: Seq<u8>| #[trigger] fat_stays(g, m, b) ==> fat_stays(g, a, b),
        forall|b: Seq<u8>, was: Seq<(int, int)>, now: Seq<(int, int)>| #[trigger]
            fat_bounded(g, a, b, was, now) <== fat_stays(g, m, b),
{
    reveal(fat_stays);
    reveal(fat_bounded);
    assert forall|b: Seq<u8>, was: Seq<(int, int)>, now: Seq<(int, int)>| #[trigger]
        fat_bounded(g, m, b, was, now) implies fat_bounded(g, a, b, was, now) by {
        assert forall|c: u32| g.valid_cluster(c) && !entry_struck(g, was, now, c) implies entry_stays(
            raw_entry(a, g, c),
            #[trigger] raw_entry(b, g, c),
        ) by {
            assert(entry_stays(raw_entry(a, g, c), raw_entry(m, g, c)));
        }
    }
    assert forall|b: Seq<u8>| #[trigger] fat_stays(g, m, b) implies fat_stays(g, a, b) by {
        assert forall|c: u32| g.valid_cluster(c) implies entry_stays(
            raw_entry(a, g, c),
            #[trigger] raw_entry(b, g, c),
        ) by {
            assert(entry_stays(raw_entry(a, g, c), raw_entry(m, g, c)));
        }
    }
}

/// Nothing happened.
pub proof fn lemma_bounded_self(g: Geometry, a: Seq<u8>)
    ensures
        fat_stays(g, a, a),
        forall|was: Seq<(int, int)>, now: Seq<(int, int)>| #[trigger] fat_bounded(g, a, a, was, now),
{
    reveal(fat_stays);
    reveal(fat_bounded);
}

/// A write of FAT entries, failed or not, that was to leave `m`.
pub proof fn lemma_bounded_write(g: Geometry, a: Seq<u8>, m: Seq<u8>)
    requires
        g.wf(a.len()),
        forall|c: u32|
            g.valid_cluster(c) ==> entry_stays(raw_entry(a, g, c), #[trigger] raw_entry(m, g, c)),
    ensures
        fat_stays(g, a, m),
        forall|was: Seq<(int, int)>, now: Seq<(int, int)>| #[trigger] fat_bounded(g, a, m, was, now),
        forall|b: Seq<u8>, was: Seq<(int, int)>, now: Seq<(int, int)>| #[trigger]
            entries_agree(g, m, b, was, now) ==> fat_bounded(g, a, b, was, now),
{
    reveal(fat_stays);
    reveal(fat_bounded);
    assert forall|b: Seq<u8>, was: Seq<(int, int)>, now: Seq<(int, int)>| #[trigger]
        entries_agree(g, m, b, was, now) implies fat_bounded(g, a, b, was, now) by {
        assert forall|c: u32| g.valid_cluster(c) && !entry_struck(g, was, now, c) implies entry_stays(
            raw_entry(a, g, c),
            #[trigger] raw_entry(b, g, c),
        ) by {
            assert(raw_entry(b, g, c) == raw_entry(m, g, c));
        }
    }
}

/// What changes nothing in front of the data leaves the FAT as it is.
pub proof fn lemma_bounded_front(g: Geometry, a: Seq<u8>)
    requires
        g.wf(a.len()),
    ensures
        forall|b: Seq<u8>| #[trigger] front_same(g, a, b) ==> fat_stays(g, a, b),
        forall|b: Seq<u8>, was: Seq<(int, int)>, now: Seq<(int, int)>| #[trigger]
            fat_bounded(g, a, b, was, now) <== front_same(g, a, b),
{
    assert forall|b: Seq<u8>| #[trigger] front_same(g, a, b) implies fat_stays(g, a, b) by {
        reveal(fat_stays);
        lemma_same_fat(g, a, b);
    }
    assert forall|b: Seq<u8>, was: Seq<(int, int)>, now: Seq<(int, int)>|
        front_same(g, a, b) implies #[trigger] fat_bounded(g, a, b, was, now) by {
        assert(fat_stays(g, a, b));
        lemma_bounded_then(g, a, b);
    }
}

/// An edit of a directory leaves the FAT as it is.
pub proof fn lemma_bounded_edit(g: Geometry, a: Seq<u8>, at: int)
    requires
        g.wf(a.len()),
        g.data_start <= at,
    ensures
        forall|b: Seq<u8>| #[trigger] edited(a, b, at) ==> fat_stays(g, a, b) && front_same(g, a, b),
        forall|b: Seq<u8>, was: Seq<(int, int)>, now: Seq<(int, int)>| #[trigger]
            fat_bounded(g, a, b, was, now) <== edited(a, b, at),
{
    lemma_bounded_front(g, a);
    g.lemma_copy_bounds(a.len(), 0);
    assert forall|b: Seq<u8>| #[trigger] edited(a, b, at) implies front_same(g, a, b) by {}
}

} // verus!
