//! Working memory for the directory walk: a stack of directories, kept in a buffer of the caller's.

use vstd::prelude::*;

use crate::bytes::{get_u32, le_u32, lemma_u32_round_trip, put_u32};

verus! {

/// Bytes of scratch space one level of directory nesting needs.
pub const REPAIR_FRAME_SIZE: usize = 12;

/// Bytes of scratch space needed to descend `depth` levels of directories.
///
/// The root counts as one level, so the space for depth one only lets a repair scan the root directory itself.
#[must_use]
#[verifier::allow_in_spec]
pub fn scratch_size_for_depth(depth: usize) -> usize
    requires
        depth * REPAIR_FRAME_SIZE <= usize::MAX,
    returns
        (depth * REPAIR_FRAME_SIZE) as usize,
{
    depth * REPAIR_FRAME_SIZE
}

/// One directory waiting to be scanned or resumed.
#[derive(Clone, Copy, Debug, PartialEq, Eq, Structural)]
pub struct DirFrame {
    /// First cluster of the directory, or 0 for the root.
    pub cluster: u32,
    /// First cluster of the parent directory.
    pub parent: u32,
    /// Byte offset within the directory to resume at.
    pub resume: u32,
}

/// The frame stored in the `i`-th slot of a scratch buffer.
pub open spec fn frame_at(buf: Seq<u8>, i: int) -> DirFrame {
    DirFrame {
        cluster: le_u32(buf, i * REPAIR_FRAME_SIZE),
        parent: le_u32(buf, i * REPAIR_FRAME_SIZE + 4),
        resume: le_u32(buf, i * REPAIR_FRAME_SIZE + 8),
    }
}

/// Working memory for a repair, borrowed from the caller.
pub struct RepairScratch<'a> {
    buf: &'a mut [u8],
    depth: usize,
}

impl<'a> RepairScratch<'a> {
    /// Every frame on the stack fits in the buffer.
    pub closed spec fn wf(&self) -> bool {
        self.depth * REPAIR_FRAME_SIZE <= self.buf@.len()
    }

    /// The stack, bottom first.
    pub closed spec fn frames(&self) -> Seq<DirFrame> {
        Seq::new(self.depth as nat, |i: int| frame_at(self.buf@, i))
    }

    /// The size of the buffer.
    pub closed spec fn size(&self) -> nat {
        self.buf@.len()
    }

    /// How many levels the buffer can hold.
    pub open spec fn room(&self) -> nat {
        self.size() / REPAIR_FRAME_SIZE as nat
    }

    /// Borrow `buf` as scratch space. Bytes beyond the last whole frame are not used.
    pub fn new(buf: &'a mut [u8]) -> (scratch: Self)
        ensures
            scratch.wf(),
            scratch.size() == old(buf)@.len(),
            scratch.frames() == Seq::<DirFrame>::empty(),
    {
        let scratch = RepairScratch { buf, depth: 0 };
        assert(scratch.frames() =~= Seq::<DirFrame>::empty());
        scratch
    }

    /// How many levels of directory nesting this buffer can hold.
    #[must_use]
    pub fn max_depth(&self) -> (depth: usize)
        ensures
            depth == self.room(),
    {
        self.buf.len() / REPAIR_FRAME_SIZE
    }

    /// Whether no directory is on the stack.
    pub fn is_empty(&self) -> (empty: bool)
        ensures
            empty == (self.frames().len() == 0),
    {
        self.depth == 0
    }

    /// Whether there is no room for another directory.
    pub fn is_full(&self) -> (full: bool)
        ensures
            full == (self.frames().len() >= self.room()),
    {
        self.depth >= self.max_depth()
    }

    /// Put `frame` on top of the stack.
    pub fn push(&mut self, frame: DirFrame)
        requires
            old(self).wf(),
            old(self).frames().len() < old(self).room(),
        ensures
            final(self).wf(),
            final(self).size() == old(self).size(),
            final(self).frames() == old(self).frames().push(frame),
    {
        let size: usize = self.buf.len();
        let at: usize = self.depth * REPAIR_FRAME_SIZE;
        put_u32(&mut *self.buf, at, frame.cluster);
        let ghost one = self.buf@;
        put_u32(&mut *self.buf, at + 4, frame.parent);
        let ghost two = self.buf@;
        put_u32(&mut *self.buf, at + 8, frame.resume);
        self.depth = self.depth + 1;
        proof {
            lemma_u32_round_trip(old(self).buf@, at as int, frame.cluster);
            lemma_u32_round_trip(one, at + 4, frame.parent);
            lemma_u32_round_trip(two, at + 8, frame.resume);
            assert forall|i: int| 0 <= i < self.depth implies #[trigger] self.frames()[i] == old(
                self,
            ).frames().push(frame)[i] by {
                if i < old(self).depth {
                    assert(frame_at(self.buf@, i) == frame_at(old(self).buf@, i));
                } else {
                    assert(frame_at(self.buf@, i) == frame);
                }
            }
            assert(self.frames() =~= old(self).frames().push(frame));
        }
    }

    /// Take the directory on top off the stack.
    pub fn pop(&mut self)
        requires
            old(self).wf(),
            old(self).frames().len() > 0,
        ensures
            final(self).wf(),
            final(self).size() == old(self).size(),
            final(self).frames() == old(self).frames().drop_last(),
    {
        self.depth = self.depth - 1;
        assert(self.frames() =~= old(self).frames().drop_last());
    }

    /// Take every directory off the stack.
    pub fn clear(&mut self)
        ensures
            final(self).wf(),
            final(self).size() == old(self).size(),
            final(self).frames() == Seq::<DirFrame>::empty(),
    {
        self.depth = 0;
        assert(self.frames() =~= Seq::<DirFrame>::empty());
    }

    /// The directory on top of the stack.
    pub fn top(&self) -> (frame: DirFrame)
        requires
            self.wf(),
            self.frames().len() > 0,
        ensures
            frame == self.frames().last(),
    {
        let size: usize = self.buf.len();
        let at: usize = (self.depth - 1) * REPAIR_FRAME_SIZE;
        DirFrame {
            cluster: get_u32(&*self.buf, at),
            parent: get_u32(&*self.buf, at + 4),
            resume: get_u32(&*self.buf, at + 8),
        }
    }

    /// Record where to resume the directory on top of the stack.
    pub fn set_top_resume(&mut self, resume: u32)
        requires
            old(self).wf(),
            old(self).frames().len() > 0,
        ensures
            final(self).wf(),
            final(self).size() == old(self).size(),
            final(self).frames() == old(self).frames().drop_last().push(
                DirFrame { resume, ..old(self).frames().last() },
            ),
    {
        let size: usize = self.buf.len();
        let at: usize = (self.depth - 1) * REPAIR_FRAME_SIZE + 8;
        put_u32(&mut *self.buf, at, resume);
        proof {
            let want = old(self).frames().drop_last().push(
                DirFrame { resume, ..old(self).frames().last() },
            );
            lemma_u32_round_trip(old(self).buf@, at as int, resume);
            assert forall|i: int| 0 <= i < self.depth implies #[trigger] self.frames()[i]
                == want[i] by {
                if i < self.depth - 1 {
                    assert(frame_at(self.buf@, i) == frame_at(old(self).buf@, i));
                } else {
                    let last = frame_at(old(self).buf@, i);
                    assert(frame_at(self.buf@, i) == DirFrame { resume, ..last });
                }
            }
            assert(self.frames() =~= want);
        }
    }
}

} // verus!
