//! A FAT32 volume on a device, and the raw accesses to it.

use vstd::prelude::*;

use crate::bytes::splice;
use crate::error::{fails_only_by_device, Error};
use crate::fat::{lemma_agrees_self, lemma_torn_copy, only_fat_changed, put_fat, put_fat_copies, read_copy_agrees};
use crate::geometry::{Geometry, RESERVED_FAT_ENTRIES};
use crate::halting::{but_torn, lemma_but_torn, write_stopped, Torn};
use crate::storage::{torn_after, Storage};

verus! {

/// A FAT32 volume: the device it is on, and where things are on it.
pub struct Volume<S: Storage> {
    pub disk: S,
    pub geom: Geometry,
}

/// `b` is as long as `a` and has the same reserved area, the part of the volume in front of the FAT.
pub open spec fn reserved_kept(g: Geometry, a: Seq<u8>, b: Seq<u8>) -> bool {
    &&& a.len() == b.len()
    &&& forall|i: int| 0 <= i < g.fat_start ==> #[trigger] b[i] == a[i]
}

impl<S: Storage> Volume<S> {
    /// The layout fits the device.
    pub open spec fn wf(&self) -> bool {
        self.geom.wf(self.disk.bytes().len())
    }

    /// The copies of the FAT are where the layout says.
    pub open spec fn fat_wf(&self) -> bool {
        self.geom.fat_wf(self.disk.bytes().len())
    }

    /// The bytes of the volume.
    pub open spec fn image(&self) -> Seq<u8> {
        self.disk.bytes()
    }

    /// Whether the device never fails.
    pub open spec fn reliable(&self) -> bool {
        self.disk.reliable()
    }

    /// Whether everything written so far is durable.
    pub open spec fn durable(&self) -> bool {
        self.disk.durable()
    }

    /// Where the writes that failed were to go.
    pub open spec fn torn(&self) -> Seq<(int, int)> {
        self.disk.torn()
    }

    /// The failed writes between `old` and `self`.
    pub open spec fn since(&self, old: &Self) -> Torn {
        Torn { was: old.torn(), now: self.torn() }
    }

    /// `self` is `old` at a later time: the same volume, with its reserved area as it was.
    pub open spec fn continues(&self, old: &Self) -> bool {
        &&& self.geom == old.geom
        &&& self.reliable() == old.reliable()
        &&& reserved_kept(self.geom, old.image(), self.image())
    }

    /// Read from the device.
    pub fn read_at(&mut self, offset: u64, buf: &mut [u8]) -> (res: Result<(), Error<S::Error>>)
        requires
            offset + old(buf)@.len() <= old(self).image().len(),
        ensures
            final(self).geom == old(self).geom,
            final(self).reliable() == old(self).reliable(),
            final(self).torn() == old(self).torn(),
            final(self).image() == old(self).image(),
            final(buf)@.len() == old(buf)@.len(),
            fails_only_by_device(res, old(self).reliable()),
            res is Ok ==> final(buf)@ == old(self).image().subrange(
                offset as int,
                offset + old(buf)@.len(),
            ),
    {
        match self.disk.read_exact(offset, buf) {
            Ok(()) => Ok(()),
            Err(e) => Err(Error::Io(e)),
        }
    }

    /// Write to the device.
    pub fn write_at(&mut self, offset: u64, data: &[u8]) -> (res: Result<(), Error<S::Error>>)
        requires
            offset + data@.len() <= old(self).image().len(),
        ensures
            final(self).geom == old(self).geom,
            final(self).reliable() == old(self).reliable(),
            final(self).image().len() == old(self).image().len(),
            forall|i: int|
                0 <= i < old(self).image().len() && !(offset <= i < offset + data@.len())
                    ==> #[trigger] final(self).image()[i] == old(self).image()[i],
            fails_only_by_device(res, old(self).reliable()),
            res is Ok ==> final(self).image() == splice(old(self).image(), offset as int, data@),
            final(self).torn() == torn_after(old(self).torn(), res is Ok, offset as int, data@.len()),
            res is Err ==> but_torn(
                old(self).image(),
                final(self).image(),
                final(self).since(old(self)),
            ),
    {
        match self.disk.write_all(offset, data) {
            Ok(()) => Ok(()),
            Err(e) => {
                proof {
                    lemma_but_torn(
                        old(self).image(),
                        self.image(),
                        offset as int,
                        data@.len(),
                        self.since(old(self)),
                    );
                }
                Err(Error::Io(e))
            },
        }
    }

    /// Make everything written so far durable.
    pub fn sync(&mut self) -> (res: Result<(), Error<S::Error>>)
        ensures
            final(self).geom == old(self).geom,
            final(self).reliable() == old(self).reliable(),
            final(self).torn() == old(self).torn(),
            final(self).image() == old(self).image(),
            fails_only_by_device(res, old(self).reliable()),
            res is Ok ==> final(self).durable(),
    {
        match self.disk.flush() {
            Ok(()) => Ok(()),
            Err(e) => Err(Error::Io(e)),
        }
    }

    /// Read from the FAT, at `offset` within it.
    pub fn read_fat(&mut self, offset: u64, buf: &mut [u8]) -> (res: Result<(), Error<S::Error>>)
        requires
            old(self).fat_wf(),
            offset + old(buf)@.len() <= old(self).geom.fat_size,
        ensures
            final(self).geom == old(self).geom,
            final(self).reliable() == old(self).reliable(),
            final(self).torn() == old(self).torn(),
            final(self).image() == old(self).image(),
            final(buf)@.len() == old(buf)@.len(),
            fails_only_by_device(res, old(self).reliable()),
            res is Ok ==> ({
                let from = old(self).geom.copy_start(old(self).geom.first_mirror as int) + offset;
                final(buf)@ == old(self).image().subrange(from, from + old(buf)@.len())
            }),
    {
        let start: u64 = self.copy_offset(self.geom.first_mirror);
        proof {
            self.geom.lemma_copy_bounds(self.image().len(), self.geom.first_mirror as int);
        }
        self.read_at(start + offset, buf)
    }

    /// Write to the FAT, at `offset` within it. The data goes to every copy that is kept in step.
    pub fn write_fat(&mut self, offset: u64, data: &[u8]) -> (res: Result<(), Error<S::Error>>)
        requires
            old(self).fat_wf(),
            offset + data@.len() <= old(self).geom.fat_size,
        ensures
            final(self).continues(old(self)),
            only_fat_changed(old(self).geom, old(self).image(), final(self).image()),
            res is Ok ==> final(self).torn() == old(self).torn(),
            final(self).torn().len() <= old(self).torn().len() + 1,
            read_copy_agrees(
                old(self).geom,
                put_fat(old(self).image(), old(self).geom, offset as int, data@),
                final(self).image(),
                old(self).torn(),
                final(self).torn(),
            ),
            res is Err ==> write_stopped(
                old(self).geom,
                old(self).image(),
                offset as int,
                data@,
                final(self).image(),
                final(self).since(old(self)),
            ),
            fails_only_by_device(res, old(self).reliable()),
            res is Ok ==> final(self).image() == put_fat(
                old(self).image(),
                old(self).geom,
                offset as int,
                data@,
            ),
    {
        let mut n: u8 = 0;
        while n < self.geom.mirrors
            invariant
                old(self).fat_wf(),
                n <= self.geom.mirrors,
                offset + data@.len() <= self.geom.fat_size,
                self.continues(old(self)),
                self.torn() == old(self).torn(),
                forall|i: int|
                    old(self).geom.fats_end() <= i < old(self).image().len()
                        ==> #[trigger] self.image()[i] == old(self).image()[i],
                self.image() == put_fat_copies(
                    old(self).image(),
                    old(self).geom,
                    offset as int,
                    data@,
                    n as nat,
                ),
            decreases self.geom.mirrors - n,
        {
            let k: u8 = self.geom.first_mirror + n;
            let start: u64 = self.copy_offset(k);
            proof {
                self.geom.lemma_copy_bounds(self.image().len(), k as int);
            }
            let ghost mid = self.image();
            let res: Result<(), Error<S::Error>> = self.write_at(start + offset, data);
            proof {
                lemma_torn_copy(
                    self.geom,
                    old(self).image(),
                    mid,
                    self.image(),
                    offset as int,
                    data@,
                    n as nat,
                    old(self).torn(),
                    self.torn(),
                );
            }
            assert(res is Err ==> but_torn(mid, self.image(), self.since(old(self))));
            res?;
            n = n + 1;
        }
        proof {
            lemma_agrees_self(self.geom, self.image(), self.torn());
        }
        Ok(())
    }

    /// Where the `k`-th copy of the FAT starts.
    pub fn copy_offset(&self, k: u8) -> (offset: u64)
        requires
            self.fat_wf(),
            k < self.geom.fats,
        ensures
            offset == self.geom.copy_start(k as int),
    {
        proof {
            self.geom.lemma_copy_bounds(self.image().len(), k as int);
            let z = self.geom.fat_size as int;
            assert(0 <= k * z) by (nonlinear_arith)
                requires
                    0 <= z,
                    0 <= k,
            ;
        }
        self.geom.fat_start + k as u64 * self.geom.fat_size
    }

    /// Where cluster `c` starts.
    pub fn cluster_offset(&self, c: u32) -> (offset: u64)
        requires
            self.wf(),
            self.geom.valid_cluster(c),
        ensures
            offset == self.geom.cluster_start(c as int),
            offset + self.geom.cluster_size <= self.image().len(),
            offset + self.geom.cluster_size <= u64::MAX,
    {
        proof {
            self.geom.lemma_cluster_bounds(self.image().len(), c as int);
            let i = c - 2;
            let z = self.geom.cluster_size as int;
            assert(0 <= i * z) by (nonlinear_arith)
                requires
                    0 <= i,
                    0 <= z,
            ;
        }
        self.geom.data_start + (c - RESERVED_FAT_ENTRIES) as u64 * self.geom.cluster_size as u64
    }
}

} // verus!
