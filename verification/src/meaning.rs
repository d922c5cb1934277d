//! What the bytes of a volume mean, in plain numbers.

use vstd::prelude::*;

use crate::bytes::{le_u16, le_u32, splice, u16_bytes, u32_bytes};
use crate::dirent::{
    attributes_possible, cluster_field, dot_name, dots, file_size, first_cluster, hex_digit, illegal_in_name,
    is_deleted, is_dir, is_dots_entry, is_end, is_label, is_lfn, is_volume, long_name_checksum, name_checksum,
    name_corrupted, recovered_name, short_name, with_cluster, with_size,
};
use crate::fat::{copy_entry, entry_of, marked, raw_entry, with_value, FatEntry};
use crate::geometry::Geometry;
use crate::mode::RepairMode;
use crate::passes::{is_free, is_orphan, swept, unmarked};
use crate::stats::{bump, bump_by};

verus! {

/// Numbers are stored with the least significant byte first.
pub proof fn law_numbers(s: Seq<u8>, at: int, x: u32, y: u16)
    requires
        0 <= at,
        at + 4 <= s.len(),
    ensures
        le_u16(s, at) == s[at] + 256 * s[at + 1],
        le_u32(s, at) == s[at] + 256 * s[at + 1] + 65_536 * s[at + 2] + 16_777_216 * s[at + 3],
        u16_bytes(y).len() == 2,
        u16_bytes(y)[0] + 256 * u16_bytes(y)[1] == y,
        u32_bytes(x).len() == 4,
        u32_bytes(x)[0] + 256 * u32_bytes(x)[1] + 65_536 * u32_bytes(x)[2] + 16_777_216 * u32_bytes(x)[3]
            == x,
{
}

/// Writing changes the bytes that are written over, and no others.
pub proof fn law_splice(s: Seq<u8>, at: int, data: Seq<u8>, i: int)
    requires
        0 <= i < s.len(),
    ensures
        splice(s, at, data).len() == s.len(),
        0 <= i - at < data.len() ==> splice(s, at, data)[i] == data[i - at],
        !(0 <= i - at < data.len()) ==> splice(s, at, data)[i] == s[i],
{
}

/// The first byte of an entry says whether it is there at all, the attributes at byte 11 what it is.
pub proof fn law_kinds_of_entries(e: Seq<u8>)
    ensures
        is_end(e) <==> e[0] == 0,
        is_deleted(e) <==> e[0] == 229,
        is_lfn(e) <==> e[11] % 16 == 15,
        is_volume(e) <==> e[11] / 8 % 2 == 1,
        is_dir(e) <==> e[11] / 16 % 2 == 1,
        attributes_possible(e) <==> e[11] / 8 % 4 != 3,
        is_label(e) <==> e[11] / 8 % 4 == 1,
{
    let a = e[11];
    assert((a & 0x0Fu8 == 0x0Fu8) == (a % 16 == 15) && (a & 0x08u8 == 0x08u8) == (a / 8 % 2 == 1) && (a
        & 0x10u8 == 0x10u8) == (a / 16 % 2 == 1) && (a / 8 % 4 == 3) == (a / 8 % 2 == 1 && a / 16
        % 2 == 1) && (a / 8 % 4 == 1) == (a / 8 % 2 == 1 && a / 16 % 2 == 0)) by (bit_vector);
}

/// Where the fields of an entry are. Its cluster number is in two halves, and cluster 0 is none.
pub proof fn law_fields_of_entries(e: Seq<u8>)
    requires
        e.len() == 32,
    ensures
        cluster_field(e) == e[26] + 256 * e[27] + 65_536 * e[20] + 16_777_216 * e[21],
        first_cluster(e) is None <==> e[20] == 0 && e[21] == 0 && e[26] == 0 && e[27] == 0,
        first_cluster(e) matches Some(c) ==> c == cluster_field(e),
        e[11] / 16 % 2 == 1 ==> file_size(e) == 0,
        e[11] / 16 % 2 == 0 ==> file_size(e) == e[28] + 256 * e[29] + 65_536 * e[30] + 16_777_216
            * e[31],
        long_name_checksum(e) == e[13],
        short_name(e).len() == 11,
        forall|i: int| 0 <= i < 11 ==> #[trigger] short_name(e)[i] == e[i],
{
    law_kinds_of_entries(e);
}

/// An entry that is given a cluster number, or a size, holds it, and is otherwise what it was.
pub proof fn law_fields_written(e: Seq<u8>, c: u32, size: u32)
    requires
        e.len() == 32,
    ensures
        cluster_field(with_cluster(e, c)) == c,
        with_cluster(e, c).len() == 32,
        forall|i: int|
            0 <= i < 32 && i != 20 && i != 21 && i != 26 && i != 27 ==> #[trigger] with_cluster(e, c)[i]
                == e[i],
        le_u32(with_size(e, size), 28) == size,
        with_size(e, size).len() == 32,
        forall|i: int| 0 <= i < 28 ==> #[trigger] with_size(e, size)[i] == e[i],
{
    let w = with_cluster(e, c);
    let hi = u16_bytes((c / 0x1_0000) as u16);
    let lo = u16_bytes((c % 0x1_0000) as u16);
    assert(w[20] == hi[0] && w[21] == hi[1] && w[26] == lo[0] && w[27] == lo[1]);
    assert(le_u16(w, 20) == c / 0x1_0000);
    assert(le_u16(w, 26) == c % 0x1_0000);
    let z = with_size(e, size);
    let d = u32_bytes(size);
    assert(z[28] == d[0] && z[29] == d[1] && z[30] == d[2] && z[31] == d[3]);
}

/// Whether no byte of a short name is below 32, but that the first one may be 5, which stands for 229.
pub open spec fn legal_name(name: Seq<u8>) -> bool {
    forall|i: int| 0 <= i < 11 ==> #[trigger] name[i] >= 32 || (i == 0 && name[i] == 5)
}

/// A legal short name is never taken for a corrupted one, and any other always is.
pub proof fn law_legal_names(name: Seq<u8>)
    requires
        name.len() == 11,
    ensures
        legal_name(name) ==> !name_corrupted(name),
        forall|i: int| 0 <= i < 11 && #[trigger] name[i] < 32 && (i > 0 || name[i] != 5) ==> name_corrupted(name),
{
    if name_corrupted(name) {
        let i = choose|i: int| 0 <= i < name.len() && illegal_in_name(i, #[trigger] name[i]);
        assert(name[i] < 32);
    }
    assert forall|i: int| 0 <= i < 11 && #[trigger] name[i] < 32 && (i > 0 || name[i] != 5) implies name_corrupted(
        name,
    ) by {
        assert(illegal_in_name(i, name[i]));
    }
}

/// The names of `.` and `..`, and what passes for one of them: a dot, and behind it nothing but dots and blanks.
pub proof fn law_dot_names(name: Seq<u8>, e: Seq<u8>, n: int)
    requires
        name.len() == 11,
        e.len() == 32,
        1 <= n <= 2,
    ensures
        dot_name(name) <==> name[0] == 46 && (forall|i: int|
            1 <= i < 11 ==> #[trigger] name[i] == 32 || name[i] == 46),
        dots(n).len() == 11,
        forall|i: int| 0 <= i < n ==> #[trigger] dots(n)[i] == 46,
        forall|i: int| n <= i < 11 ==> #[trigger] dots(n)[i] == 32,
        is_dots_entry(e, n) <==> e[11] % 16 != 15 && e[11] / 16 % 2 == 1 && (forall|i: int|
            0 <= i < n ==> #[trigger] e[i] == 46) && (forall|i: int|
            n <= i < 11 ==> #[trigger] e[i] == 32),
{
    law_kinds_of_entries(e);
    law_fields_of_entries(e);
    let s = short_name(e);
    if is_dots_entry(e, n) {
        assert forall|i: int| 0 <= i < 11 implies #[trigger] e[i] == dots(n)[i] by {
            assert(s[i] == e[i]);
        }
    }
    if (forall|i: int| 0 <= i < n ==> #[trigger] e[i] == 46) && (forall|i: int|
        n <= i < 11 ==> #[trigger] e[i] == 32) {
        assert(s =~= dots(n));
    }
}

/// The checksum of a short name: that of no bytes is 0, and each byte is added, modulo 256, to what there is so far,
/// halved, with the bit that falls off put back on top.
pub proof fn law_checksum(name: Seq<u8>, b: u8)
    ensures
        name_checksum(Seq::empty()) == 0,
        ({
            let sum = name_checksum(name);
            let longer = name_checksum(name.push(b));
            let turned = if sum % 2 == 0 {
                sum as int / 2
            } else {
                128 + (sum - 1) / 2
            };
            longer == turned + b || longer == turned + b - 256
        }),
{
    let more = name.push(b);
    assert(more.drop_last() =~= name);
    assert(more.last() == b);
}

/// What a hexadecimal digit stands for.
pub open spec fn digit_value(d: u8) -> int {
    if 48 <= d <= 57 {
        d - 48
    } else {
        d - 55
    }
}

/// A recovered file is called `FSCKnnnn.REC`, and the number, read back as hexadecimal digits, is the lower half of its
/// index.
pub proof fn law_recovered_name(index: u32)
    ensures
        ({
            let n = recovered_name(index);
            &&& n.len() == 11
            &&& n[0] == 70 && n[1] == 83 && n[2] == 67 && n[3] == 75
            &&& n[8] == 82 && n[9] == 69 && n[10] == 67
            &&& forall|i: int|
                4 <= i < 8 ==> (48 <= #[trigger] n[i] <= 57 || 65 <= n[i] <= 70)
            &&& 4096 * digit_value(n[4]) + 256 * digit_value(n[5]) + 16 * digit_value(n[6]) + digit_value(
                n[7],
            ) == index % 65_536
        }),
{
    let n = recovered_name(index);
    assert(n[4] == hex_digit(index / 0x1000 % 16));
    assert(n[5] == hex_digit(index / 0x100 % 16));
    assert(n[6] == hex_digit(index / 0x10 % 16));
    assert(n[7] == hex_digit(index % 16));
    assert(4096 * (index / 0x1000 % 16) + 256 * (index / 0x100 % 16) + 16 * (index / 0x10 % 16) + index
        % 16 == index % 65_536) by (bit_vector);
    assert forall|i: int| 4 <= i < 8 implies (48 <= #[trigger] n[i] <= 57 || 65 <= n[i] <= 70) by {
        if i == 4 {
        } else if i == 5 {
        } else if i == 6 {
        } else {
            assert(i == 7);
        }
    }
}

/// What a FAT entry says is in its lower 28 bits: 0 is free, then come the clusters, then the bad mark, and behind it
/// the ends of chains. The lowest of the four bits above is the marker.
pub proof fn law_fat_values(raw: u32)
    ensures
        ({
            let value = raw % 0x1000_0000;
            &&& entry_of(raw) is Free <==> value == 0
            &&& entry_of(raw) is Bad <==> value == 0x0FFF_FFF7
            &&& entry_of(raw) is EndOfChain <==> value >= 0x0FFF_FFF8
            &&& entry_of(raw) matches FatEntry::Data(next) ==> next == value
            &&& is_free(raw) <==> value == 0
            &&& marked(raw) <==> raw / 0x1000_0000 % 2 == 1
            &&& marked(raw) ==> unmarked(raw) == raw - 0x1000_0000
            &&& !marked(raw) ==> unmarked(raw) == raw
        }),
{
    assert(raw & 0x0FFF_FFFFu32 == raw % 0x1000_0000 && (raw & 0x1000_0000u32 != 0) == (raw / 0x1000_0000
        % 2 == 1) && (raw & 0x1000_0000u32 != 0 ==> raw & !0x1000_0000u32 == raw - 0x1000_0000) && (raw
        & 0x1000_0000u32 == 0 ==> raw & !0x1000_0000u32 == raw)) by (bit_vector);
}

/// A FAT entry that is given a value keeps its upper four bits.
pub proof fn law_fat_value_written(old_raw: u32, value: u32)
    ensures
        with_value(old_raw, value) % 0x1000_0000 == value % 0x1000_0000,
        with_value(old_raw, value) / 0x1000_0000 == old_raw / 0x1000_0000,
{
    assert(((value & 0x0FFF_FFFFu32) | (old_raw & !0x0FFF_FFFFu32)) % 0x1000_0000 == value
        % 0x1000_0000 && ((value & 0x0FFF_FFFFu32) | (old_raw & !0x0FFF_FFFFu32)) / 0x1000_0000
        == old_raw / 0x1000_0000) by (bit_vector);
}

/// What the sweep makes of a FAT entry: a marker goes. What has none, but is allocated, is free afterwards, if that was
/// asked for. Anything else stays.
pub proof fn law_swept_entry(raw: u32, reclaim: bool)
    ensures
        ({
            let value = raw % 0x1000_0000;
            let reached = raw / 0x1000_0000 % 2 == 1;
            let in_use = value != 0 && value != 0x0FFF_FFF7;
            &&& reached ==> swept(raw, reclaim) == raw - 0x1000_0000
            &&& !reached && in_use && reclaim ==> swept(raw, reclaim) == 0
            &&& !reached && !(in_use && reclaim) ==> swept(raw, reclaim) == raw
            &&& is_orphan(raw) <==> !reached && in_use
        }),
{
    law_fat_values(raw);
}

/// Where in the `k`-th copy of the FAT the entry of cluster `c` is, and which copy is read.
pub proof fn law_fat_places(img: Seq<u8>, g: Geometry, k: int, c: u32)
    requires
        g.wf(img.len()),
        0 <= k < g.fats,
        c < g.total_clusters + 2,
    ensures
        ({
            let at = g.fat_start + k * g.fat_size + 4 * c;
            &&& 0 <= at && at + 4 <= img.len()
            &&& copy_entry(img, g, k, c) == img[at] + 256 * img[at + 1] + 65_536 * img[at + 2]
                + 16_777_216 * img[at + 3]
            &&& k == g.first_mirror ==> raw_entry(img, g, c) == copy_entry(img, g, k, c)
        }),
{
    g.lemma_copy_bounds(img.len(), k);
}

/// Clusters are numbered from 2 on, and lie one behind the other. A size takes up as few clusters as will hold it, and
/// a directory no more than hold 65 536 entries of 32 bytes, but at least one.
pub proof fn law_clusters(g: Geometry, c: u32, size: u32)
    requires
        512 <= g.cluster_size <= 0x8_0000,
    ensures
        g.valid_cluster(c) <==> 2 <= c <= g.total_clusters + 1,
        g.fat_entries() == g.total_clusters + 2,
        g.cluster_start(2) == g.data_start,
        g.cluster_start(c + 1) == g.cluster_start(c as int) + g.cluster_size,
        g.clusters_for(size) * g.cluster_size >= size,
        (g.clusters_for(size) - 1) * g.cluster_size < size,
        g.max_dir_chain() * g.cluster_size <= 2_097_152,
        (g.max_dir_chain() + 1) * g.cluster_size > 2_097_152,
{
    let z = g.cluster_size as int;
    let i = c - 2;
    assert((i + 1) * z == i * z + z) by (nonlinear_arith);
    let n = (size + z - 1) / z;
    assert(n * z >= size && (n - 1) * z < size && 0 <= n <= size) by (nonlinear_arith)
        requires
            z >= 512,
            size >= 0,
            n == (size + z - 1) / z,
    ;
    let w = 2_097_152int / z;
    assert(w * z <= 2_097_152 && (w + 1) * z > 2_097_152 && w >= 1) by (nonlinear_arith)
        requires
            512 <= z <= 0x8_0000,
            w == 2_097_152int / z,
    ;
}

/// Which bit of a mode stands for which class, and when a class is carried out: bit 7 keeps everything from being
/// written.
pub proof fn law_mode_bits(mode: RepairMode)
    ensures
        mode.contains(RepairMode::fat_signatures()) <==> mode.bits % 2 == 1,
        mode.contains(RepairMode::chains()) <==> mode.bits / 2 % 2 == 1,
        mode.contains(RepairMode::entry_validity()) <==> mode.bits / 4 % 2 == 1,
        mode.contains(RepairMode::long_names()) <==> mode.bits / 8 % 2 == 1,
        mode.contains(RepairMode::orphan_clusters()) <==> mode.bits / 16 % 2 == 1,
        mode.contains(RepairMode::fs_info()) <==> mode.bits / 32 % 2 == 1,
        mode.contains(RepairMode::fat_mirrors()) <==> mode.bits / 64 % 2 == 1,
        mode.writes() <==> mode.bits / 128 % 2 == 0,
        mode.marks() <==> mode.bits / 16 % 2 == 1 && mode.bits / 128 % 2 == 0,
        mode.contains(RepairMode::minimal()) <==> mode.bits % 16 == 15 && mode.bits / 32 % 4 == 3,
        RepairMode::minimal().bits == 111,
        RepairMode::all().bits == 127,
        RepairMode::empty().bits == 0,
        forall|flag: RepairMode| #[trigger] mode.applies(flag) <==> mode.contains(flag) && mode.bits
            / 128 % 2 == 0,
{
    let b = mode.bits;
    assert((b & 0x0001u16 == 0x0001u16) == (b % 2 == 1) && (b & 0x0002u16 == 0x0002u16) == (b / 2 % 2
        == 1) && (b & 0x0004u16 == 0x0004u16) == (b / 4 % 2 == 1) && (b & 0x0008u16 == 0x0008u16) == (b
        / 8 % 2 == 1) && (b & 0x0010u16 == 0x0010u16) == (b / 16 % 2 == 1) && (b & 0x0020u16
        == 0x0020u16) == (b / 32 % 2 == 1) && (b & 0x0040u16 == 0x0040u16) == (b / 64 % 2 == 1) && (b
        & 0x0080u16 == 0x0080u16) == (b / 128 % 2 == 1) && (b & 0x006fu16 == 0x006fu16) == (b % 16
        == 15 && b / 32 % 4 == 3)) by (bit_vector);
}

/// Putting modes together, and taking one out of another: each class is in the one or the other, or in the one and not
/// in the other.
pub proof fn law_mode_sets(a: RepairMode, b: RepairMode, k: u16)
    requires
        k == 1 || k == 2 || k == 4 || k == 8 || k == 16 || k == 32 || k == 64 || k == 128,
    ensures
        a.union(b).bits / k % 2 == 1 <==> a.bits / k % 2 == 1 || b.bits / k % 2 == 1,
        a.difference(b).bits / k % 2 == 1 <==> a.bits / k % 2 == 1 && b.bits / k % 2 == 0,
        b.contains(a) && a.contains(b) ==> a == b,
{
    let x = a.bits;
    let y = b.bits;
    assert((k == 1 || k == 2 || k == 4 || k == 8 || k == 16 || k == 32 || k == 64 || k == 128) ==> ((x
        | y) / k % 2 == 1) == (x / k % 2 == 1 || y / k % 2 == 1) && ((x & !y) / k % 2 == 1) == (x / k
        % 2 == 1 && y / k % 2 == 0) && (x & y == y && y & x == x ==> x == y)) by (bit_vector);
}

/// Counters count, and stop where they cannot count any further.
pub proof fn law_counters(n: u32, by: nat)
    ensures
        n < u32::MAX ==> bump(n) == n + 1,
        bump(u32::MAX) == u32::MAX,
        n + by <= u32::MAX ==> bump_by(n, by) == n + by,
        n + by > u32::MAX ==> bump_by(n, by) == u32::MAX,
{
}

} // verus!
