//! The device a volume lives on.

use vstd::prelude::*;

use crate::bytes::splice;

verus! {

/// Random-access storage, supplied by the user of the library.
///
/// Positions are byte offsets from the start of the device. A failed read or write reports the device's own error. A
/// failed write may have stored any part of its data, and nothing anywhere else.
///
/// The contracts of the methods are what a device owes the library. A verified device such as [`MemDisk`] says what its
/// bytes are and is held to them. One that can fail keeps a record of the writes that failed. Code that is not verified
/// leaves the ghost methods out, and has to keep the contracts by other means.
pub trait Storage: Sized {
    /// What the device reports when it fails.
    type Error;

    /// The bytes on the device.
    open spec fn bytes(&self) -> Seq<u8> {
        Seq::empty()
    }

    /// Whether the device never fails.
    open spec fn reliable(&self) -> bool {
        false
    }

    /// Whether everything written so far is durable: it is still there after the power was cut.
    open spec fn durable(&self) -> bool {
        false
    }

    /// Where the writes that failed were to go, oldest first: the first position of each, and the one behind its last.
    open spec fn torn(&self) -> Seq<(int, int)> {
        Seq::empty()
    }

    /// The size of the device in bytes.
    fn capacity(&mut self) -> (res: Result<u64, Self::Error>)
        ensures
            final(self).bytes() == old(self).bytes(),
            final(self).reliable() == old(self).reliable(),
            final(self).torn() == old(self).torn(),
            old(self).reliable() ==> res is Ok,
            res matches Ok(n) ==> n == old(self).bytes().len(),
    ;

    /// Fill `buf` with the bytes from `offset` on.
    fn read_exact(&mut self, offset: u64, buf: &mut [u8]) -> (res: Result<(), Self::Error>)
        requires
            offset + old(buf)@.len() <= old(self).bytes().len(),
        ensures
            final(self).bytes() == old(self).bytes(),
            final(self).reliable() == old(self).reliable(),
            final(self).torn() == old(self).torn(),
            final(buf)@.len() == old(buf)@.len(),
            old(self).reliable() ==> res is Ok,
            res is Ok ==> final(buf)@ == old(self).bytes().subrange(
                offset as int,
                offset + old(buf)@.len(),
            ),
    ;

    /// Store `data` from `offset` on.
    fn write_all(&mut self, offset: u64, data: &[u8]) -> (res: Result<(), Self::Error>)
        requires
            offset + data@.len() <= old(self).bytes().len(),
        ensures
            final(self).reliable() == old(self).reliable(),
            final(self).bytes().len() == old(self).bytes().len(),
            forall|i: int|
                0 <= i < old(self).bytes().len() && !(offset <= i < offset + data@.len())
                    ==> #[trigger] final(self).bytes()[i] == old(self).bytes()[i],
            old(self).reliable() ==> res is Ok,
            res is Ok ==> final(self).bytes() == splice(old(self).bytes(), offset as int, data@),
            final(self).torn() == torn_after(old(self).torn(), res is Ok, offset as int, data@.len()),
    ;

    /// Make everything written so far durable.
    fn flush(&mut self) -> (res: Result<(), Self::Error>)
        ensures
            final(self).bytes() == old(self).bytes(),
            final(self).reliable() == old(self).reliable(),
            final(self).torn() == old(self).torn(),
            old(self).reliable() ==> res is Ok,
            res is Ok ==> final(self).durable(),
    ;
}

/// The failed writes, once a write of `len` bytes at `offset` was tried.
pub open spec fn torn_after(torn: Seq<(int, int)>, ok: bool, offset: int, len: nat) -> Seq<(int, int)> {
    if ok {
        torn
    } else {
        torn.push((offset, offset + len))
    }
}

/// Whether one of the failed writes `now`, of which there were only `was` before, was to go to one of the positions
/// from `lo` to `hi`.
pub open spec fn struck(was: Seq<(int, int)>, now: Seq<(int, int)>, lo: int, hi: int) -> bool {
    exists|j: int| was.len() <= j < now.len() && (#[trigger] now[j]).0 < hi && lo < now[j].1
}

/// A device kept in memory.
pub struct MemDisk {
    data: Vec<u8>,
}

/// The error type of a device that never fails.
#[derive(Clone, Copy, Debug, PartialEq, Eq)]
pub struct NoError;

impl MemDisk {
    /// A device that holds `data`.
    pub fn from_bytes(data: Vec<u8>) -> (disk: MemDisk)
        ensures
            disk.bytes() == data@,
    {
        MemDisk { data }
    }

    /// The bytes on the device.
    pub fn as_bytes(&self) -> (data: &[u8])
        ensures
            data@ == self.bytes(),
    {
        self.data.as_slice()
    }

    /// The bytes on the device, given away.
    pub fn into_bytes(self) -> (data: Vec<u8>)
        ensures
            data@ == self.bytes(),
    {
        self.data
    }
}

impl Storage for MemDisk {
    type Error = NoError;

    closed spec fn bytes(&self) -> Seq<u8> {
        self.data@
    }

    open spec fn reliable(&self) -> bool {
        true
    }

    /// A device in memory holds nothing back.
    open spec fn durable(&self) -> bool {
        true
    }

    fn capacity(&mut self) -> (res: Result<u64, NoError>) {
        Ok(self.data.len() as u64)
    }

    fn read_exact(&mut self, offset: u64, buf: &mut [u8]) -> (res: Result<(), NoError>) {
        let size: usize = self.data.len();
        let n: usize = buf.len();
        let start: usize = offset as usize;
        let mut i: usize = 0;
        while i < n
            invariant
                i <= n,
                n == buf@.len(),
                start + n <= size,
                size == self.data@.len(),
                forall|j: int| 0 <= j < i ==> #[trigger] buf@[j] == self.data@[start + j],
            decreases n - i,
        {
            buf[i] = self.data[start + i];
            i = i + 1;
        }
        assert(buf@ =~= self.data@.subrange(start as int, start + n));
        Ok(())
    }

    fn write_all(&mut self, offset: u64, data: &[u8]) -> (res: Result<(), NoError>) {
        let size: usize = self.data.len();
        let n: usize = data.len();
        let start: usize = offset as usize;
        let mut i: usize = 0;
        assert(self.data@ =~= splice(old(self).data@, start as int, data@.take(0)));
        while i < n
            invariant
                i <= n,
                n == data@.len(),
                start + n <= size,
                size == old(self).data@.len(),
                self.data@ == splice(old(self).data@, start as int, data@.take(i as int)),
            decreases n - i,
        {
            self.data.set(start + i, data[i]);
            i = i + 1;
            assert(self.data@ =~= splice(old(self).data@, start as int, data@.take(i as int)));
        }
        assert(data@.take(n as int) =~= data@);
        Ok(())
    }

    fn flush(&mut self) -> (res: Result<(), NoError>) {
        Ok(())
    }
}

} // verus!
