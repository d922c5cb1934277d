//! Directory entries: what their bytes mean.

use vstd::prelude::*;

use crate::bytes::{get_u16, get_u32, le_u16, le_u32, splice, u16_bytes, u16_to_bytes, u32_bytes, u32_to_bytes};

verus! {

/// The byte that fills a short name up to its size.
pub const SFN_PADDING: u8 = 0x20;

/// The byte that `.` and `..` are made of.
pub const SFN_DOT: u8 = 0x2E;

/// The first byte of a deleted entry.
pub const DIR_ENTRY_DELETED_FLAG: u8 = 0xE5;

/// The attribute bit of a volume label.
pub const ATTR_VOLUME_ID: u8 = 0x08;

/// The attribute bit of a directory.
pub const ATTR_DIRECTORY: u8 = 0x10;

/// The attribute bits that together make an entry part of a long name.
pub const ATTR_LFN: u8 = 0x0F;

/// Whether nothing follows in the directory.
pub open spec fn is_end(e: Seq<u8>) -> bool {
    e[0] == 0
}

/// Whether the entry is marked deleted.
pub open spec fn is_deleted(e: Seq<u8>) -> bool {
    e[0] == DIR_ENTRY_DELETED_FLAG
}

/// Whether the entry is part of a long name.
pub open spec fn is_lfn(e: Seq<u8>) -> bool {
    e[11] & ATTR_LFN == ATTR_LFN
}

/// Whether the entry is a volume label.
pub open spec fn is_volume(e: Seq<u8>) -> bool {
    e[11] & ATTR_VOLUME_ID == ATTR_VOLUME_ID
}

/// Whether the entry is a directory.
pub open spec fn is_dir(e: Seq<u8>) -> bool {
    e[11] & ATTR_DIRECTORY == ATTR_DIRECTORY
}

/// The short name of the entry.
pub open spec fn short_name(e: Seq<u8>) -> Seq<u8> {
    e.subrange(0, 11)
}

/// The checksum that an entry of a long name carries.
pub open spec fn long_name_checksum(e: Seq<u8>) -> u8 {
    e[13]
}

/// The cluster number in the entry: its upper half is at byte 20, its lower half at byte 26.
pub open spec fn cluster_field(e: Seq<u8>) -> u32 {
    (le_u16(e, 26) + 0x1_0000 * le_u16(e, 20)) as u32
}

/// The first cluster of what the entry names. Cluster 0 stands for none.
pub open spec fn first_cluster(e: Seq<u8>) -> Option<u32> {
    if cluster_field(e) == 0 {
        None
    } else {
        Some(cluster_field(e))
    }
}

/// The size of the file that the entry names. A directory has none.
pub open spec fn file_size(e: Seq<u8>) -> u32 {
    if is_dir(e) {
        0
    } else {
        le_u32(e, 28)
    }
}

/// The entry with another first cluster.
pub open spec fn with_cluster(e: Seq<u8>, c: u32) -> Seq<u8> {
    splice(
        splice(e, 20, u16_bytes((c / 0x1_0000) as u16)),
        26,
        u16_bytes((c % 0x1_0000) as u16),
    )
}

/// The entry with another size.
pub open spec fn with_size(e: Seq<u8>, size: u32) -> Seq<u8> {
    splice(e, 28, u32_bytes(size))
}

/// Whether an entry is not a volume label and a directory at once.
pub open spec fn attributes_possible(e: Seq<u8>) -> bool {
    !(is_volume(e) && is_dir(e))
}

/// Whether `name` is a dot followed by dots and padding.
pub open spec fn dot_name(name: Seq<u8>) -> bool {
    &&& name[0] == SFN_DOT
    &&& forall|i: int|
        1 <= i < name.len() ==> #[trigger] name[i] == SFN_PADDING || name[i] == SFN_DOT
}

/// Whether the byte `b` cannot stand at position `i` of a short name.
///
/// Bytes below 0x20 cannot appear in one; 0x05 is the escape for a leading 0xE5, and legal in the first position only.
pub open spec fn illegal_in_name(i: int, b: u8) -> bool {
    b < 0x20 && !(i == 0 && b == 0x05)
}

/// Whether a short name holds a byte that it cannot hold.
pub open spec fn name_corrupted(name: Seq<u8>) -> bool {
    exists|i: int| 0 <= i < name.len() && illegal_in_name(i, #[trigger] name[i])
}

/// One step of the checksum: the sum so far is rotated right by one bit, then the byte is added.
pub open spec fn checksum_step(sum: u8, b: u8) -> u8 {
    ((sum / 2 + sum % 2 * 128 + b) % 256) as u8
}

/// The checksum of a short name.
pub open spec fn name_checksum(name: Seq<u8>) -> u8
    decreases name.len(),
{
    if name.len() == 0 {
        0
    } else {
        checksum_step(name_checksum(name.drop_last()), name.last())
    }
}

/// The upper-case hexadecimal digit for `n`.
pub open spec fn hex_digit(n: u32) -> u8 {
    if n < 10 {
        (0x30 + n) as u8
    } else {
        (0x37 + n) as u8
    }
}

/// `FSCKnnnn.REC`, where `nnnn` is the lower half of `index` in hexadecimal.
pub open spec fn recovered_name(index: u32) -> Seq<u8> {
    seq![
        0x46u8,
        0x53,
        0x43,
        0x4B,
        hex_digit(index / 0x1000 % 16),
        hex_digit(index / 0x100 % 16),
        hex_digit(index / 0x10 % 16),
        hex_digit(index % 16),
        0x52,
        0x45,
        0x43,
    ]
}

/// The short name of `.`, or of `..`.
pub open spec fn dots(n: int) -> Seq<u8> {
    Seq::new(
        11,
        |i: int|
            if i < n {
                SFN_DOT
            } else {
                SFN_PADDING
            },
    )
}

/// Whether the entry is a volume label.
pub open spec fn is_label(e: Seq<u8>) -> bool {
    is_volume(e) && attributes_possible(e)
}

/// Whether the entry is the `n`-dot entry of a directory.
pub open spec fn is_dots_entry(e: Seq<u8>, n: int) -> bool {
    !is_lfn(e) && is_dir(e) && short_name(e) == dots(n)
}

/// A directory entry as it is stored.
#[derive(Clone, Copy, Debug)]
pub struct DirEntryData {
    pub raw: [u8; 32],
}

impl DirEntryData {
    /// Whether nothing follows in the directory.
    pub fn is_end(&self) -> (b: bool)
        ensures
            b == is_end(self.raw@),
    {
        self.raw[0] == 0
    }

    /// Whether the entry is marked deleted.
    pub fn is_deleted(&self) -> (b: bool)
        ensures
            b == is_deleted(self.raw@),
    {
        self.raw[0] == DIR_ENTRY_DELETED_FLAG
    }

    /// Whether the entry is part of a long name.
    pub fn is_lfn(&self) -> (b: bool)
        ensures
            b == is_lfn(self.raw@),
    {
        self.raw[11] & ATTR_LFN == ATTR_LFN
    }

    /// Whether the entry is a volume label.
    pub fn is_volume(&self) -> (b: bool)
        ensures
            b == is_volume(self.raw@),
    {
        self.raw[11] & ATTR_VOLUME_ID == ATTR_VOLUME_ID
    }

    /// Whether the entry is a directory.
    pub fn is_dir(&self) -> (b: bool)
        ensures
            b == is_dir(self.raw@),
    {
        self.raw[11] & ATTR_DIRECTORY == ATTR_DIRECTORY
    }

    /// The checksum that an entry of a long name carries.
    pub fn checksum(&self) -> (sum: u8)
        ensures
            sum == long_name_checksum(self.raw@),
    {
        self.raw[13]
    }

    /// The short name of the entry.
    pub fn name(&self) -> (name: [u8; 11])
        ensures
            name@ == short_name(self.raw@),
    {
        let mut name: [u8; 11] = [0; 11];
        let mut i: usize = 0;
        while i < 11
            invariant
                i <= 11,
                forall|j: int| 0 <= j < i ==> #[trigger] name@[j] == self.raw@[j],
            decreases 11 - i,
        {
            name[i] = self.raw[i];
            i = i + 1;
        }
        assert(name@ =~= short_name(self.raw@));
        name
    }

    /// The first cluster of what the entry names, if it has any.
    pub fn first_cluster(&self) -> (first: Option<u32>)
        ensures
            first == first_cluster(self.raw@),
    {
        let lo: u16 = get_u16(&self.raw, 26);
        let hi: u16 = get_u16(&self.raw, 20);
        let c: u32 = lo as u32 + 0x1_0000 * (hi as u32);
        if c == 0 {
            None
        } else {
            Some(c)
        }
    }

    /// The size of the file that the entry names. A directory has none.
    pub fn size(&self) -> (size: u32)
        ensures
            size == file_size(self.raw@),
    {
        if self.is_dir() {
            0
        } else {
            get_u32(&self.raw, 28)
        }
    }

    /// Replace the first cluster. Cluster 0 stands for none.
    pub fn set_first_cluster(&mut self, c: u32)
        ensures
            final(self).raw@ == with_cluster(old(self).raw@, c),
    {
        let hi: [u8; 2] = u16_to_bytes((c / 0x1_0000) as u16);
        let lo: [u8; 2] = u16_to_bytes((c % 0x1_0000) as u16);
        self.raw[20] = hi[0];
        self.raw[21] = hi[1];
        self.raw[26] = lo[0];
        self.raw[27] = lo[1];
        assert(self.raw@ =~= with_cluster(old(self).raw@, c));
    }

    /// Replace the size.
    pub fn set_size(&mut self, size: u32)
        ensures
            final(self).raw@ == with_size(old(self).raw@, size),
    {
        let data: [u8; 4] = u32_to_bytes(size);
        self.raw[28] = data[0];
        self.raw[29] = data[1];
        self.raw[30] = data[2];
        self.raw[31] = data[3];
        assert(self.raw@ =~= with_size(old(self).raw@, size));
    }
}

/// Whether the name is that of a dot entry.
pub fn is_dot_or_dotdot(name: &[u8; 11]) -> (b: bool)
    ensures
        b == dot_name(name@),
{
    if name[0] != SFN_DOT {
        return false;
    }
    let mut i: usize = 1;
    while i < 11
        invariant
            1 <= i <= 11,
            name@[0] == SFN_DOT,
            forall|j: int| 1 <= j < i ==> #[trigger] name@[j] == SFN_PADDING || name@[j] == SFN_DOT,
        decreases 11 - i,
    {
        if name[i] != SFN_PADDING && name[i] != SFN_DOT {
            assert(!(name@[i as int] == SFN_PADDING || name@[i as int] == SFN_DOT));
            return false;
        }
        i = i + 1;
    }
    true
}

/// Whether a short name holds a byte that it cannot hold.
pub fn is_name_corrupted(name: &[u8; 11]) -> (b: bool)
    ensures
        b == name_corrupted(name@),
{
    let mut i: usize = 0;
    while i < 11
        invariant
            i <= 11,
            forall|j: int| 0 <= j < i ==> !illegal_in_name(j, #[trigger] name@[j]),
        decreases 11 - i,
    {
        if name[i] < 0x20 && !(i == 0 && name[i] == 0x05) {
            assert(illegal_in_name(i as int, name@[i as int]));
            return true;
        }
        i = i + 1;
    }
    false
}

/// An entry cannot be both a volume label and a directory.
pub fn attrs_are_possible(data: &DirEntryData) -> (b: bool)
    ensures
        b == attributes_possible(data.raw@),
{
    !(data.is_volume() && data.is_dir())
}

/// Checksum tying a run of long-name entries to the short name behind it.
pub fn lfn_checksum(short_name: &[u8; 11]) -> (sum: u8)
    ensures
        sum == name_checksum(short_name@),
{
    let mut sum: u8 = 0;
    let mut i: usize = 0;
    while i < 11
        invariant
            i <= 11,
            sum == name_checksum(short_name@.take(i as int)),
        decreases 11 - i,
    {
        let rotated: u8 = sum / 2 + sum % 2 * 128;
        sum = rotated.wrapping_add(short_name[i]);
        proof {
            let longer = short_name@.take(i + 1);
            assert(longer.drop_last() =~= short_name@.take(i as int));
            assert(longer.last() == short_name@[i as int]);
        }
        i = i + 1;
    }
    assert(short_name@.take(11) =~= short_name@);
    sum
}

/// The upper-case hexadecimal digit for `n`.
fn hex(n: u32) -> (digit: u8)
    requires
        n < 16,
    ensures
        digit == hex_digit(n),
{
    if n < 10 {
        0x30 + n as u8
    } else {
        0x37 + n as u8
    }
}

/// `FSCKnnnn.REC`, numbered so repeated recoveries in one directory do not collide.
pub fn recovery_name(index: u32) -> (name: [u8; 11])
    ensures
        name@ == recovered_name(index),
{
    let name: [u8; 11] = [
        0x46,
        0x53,
        0x43,
        0x4B,
        hex(index / 0x1000 % 16),
        hex(index / 0x100 % 16),
        hex(index / 0x10 % 16),
        hex(index % 16),
        0x52,
        0x45,
        0x43,
    ];
    assert(name@ =~= recovered_name(index));
    name
}

/// Whether the entry is the `n`-dot entry of a directory.
pub fn is_dots(data: &DirEntryData, n: usize) -> (b: bool)
    requires
        n <= 2,
    ensures
        b == is_dots_entry(data.raw@, n as int),
{
    if data.is_lfn() || !data.is_dir() {
        return false;
    }
    let mut i: usize = 0;
    while i < 11
        invariant
            i <= 11,
            n <= 2,
            !is_lfn(data.raw@),
            is_dir(data.raw@),
            forall|j: int| 0 <= j < i ==> #[trigger] data.raw@[j] == dots(n as int)[j],
        decreases 11 - i,
    {
        let want: u8 = if i < n {
            SFN_DOT
        } else {
            SFN_PADDING
        };
        if data.raw[i] != want {
            assert(short_name(data.raw@)[i as int] != dots(n as int)[i as int]);
            return false;
        }
        i = i + 1;
    }
    assert(short_name(data.raw@) =~= dots(n as int));
    true
}

} // verus!
