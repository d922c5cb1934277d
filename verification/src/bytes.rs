//! Little-endian fields inside byte strings.

use vstd::prelude::*;

verus! {

/// `s` with `data` written over it from position `at` on.
pub open spec fn splice(s: Seq<u8>, at: int, data: Seq<u8>) -> Seq<u8> {
    Seq::new(
        s.len(),
        |i: int|
            if at <= i < at + data.len() {
                data[i - at]
            } else {
                s[i]
            },
    )
}

/// The 16-bit little-endian number stored at `at`.
pub open spec fn le_u16(s: Seq<u8>, at: int) -> u16 {
    (s[at] + 0x100 * s[at + 1]) as u16
}

/// The 32-bit little-endian number stored at `at`.
pub open spec fn le_u32(s: Seq<u8>, at: int) -> u32 {
    (s[at] + 0x100 * s[at + 1] + 0x1_0000 * s[at + 2] + 0x100_0000 * s[at + 3]) as u32
}

/// The two bytes that store `x`, least significant first.
pub open spec fn u16_bytes(x: u16) -> Seq<u8> {
    seq![(x % 0x100) as u8, (x / 0x100) as u8]
}

/// The four bytes that store `x`, least significant first.
pub open spec fn u32_bytes(x: u32) -> Seq<u8> {
    seq![
        (x % 0x100) as u8,
        (x / 0x100 % 0x100) as u8,
        (x / 0x1_0000 % 0x100) as u8,
        (x / 0x100_0000) as u8,
    ]
}

/// A number read back from where it was stored is the number that was stored.
pub proof fn lemma_u32_round_trip(s: Seq<u8>, at: int, x: u32)
    requires
        0 <= at,
        at + 4 <= s.len(),
    ensures
        u32_bytes(x).len() == 4,
        le_u32(splice(s, at, u32_bytes(x)), at) == x,
{
    let t = splice(s, at, u32_bytes(x));
    assert(t[at] == u32_bytes(x)[0]);
    assert(t[at + 1] == u32_bytes(x)[1]);
    assert(t[at + 2] == u32_bytes(x)[2]);
    assert(t[at + 3] == u32_bytes(x)[3]);
}

/// The four bytes of a stored number are the bytes of that number.
pub proof fn lemma_u32_bytes_of_field(s: Seq<u8>, at: int)
    requires
        0 <= at,
        at + 4 <= s.len(),
    ensures
        u32_bytes(le_u32(s, at)) == s.subrange(at, at + 4),
{
    let x = le_u32(s, at);
    assert(x / 0x100 == s[at + 1] + 0x100 * s[at + 2] + 0x1_0000 * s[at + 3]);
    assert(x / 0x1_0000 == s[at + 2] + 0x100 * s[at + 3]);
    assert(x / 0x100_0000 == s[at + 3]);
    assert(u32_bytes(x) =~= s.subrange(at, at + 4));
}

/// Storing what is already stored changes nothing.
pub proof fn lemma_splice_same(s: Seq<u8>, at: int, data: Seq<u8>)
    requires
        0 <= at,
        at + data.len() <= s.len(),
        s.subrange(at, at + data.len()) == data,
    ensures
        splice(s, at, data) == s,
{
    assert forall|i: int| 0 <= i < s.len() implies splice(s, at, data)[i] == s[i] by {
        if at <= i < at + data.len() {
            assert(s.subrange(at, at + data.len())[i - at] == s[i]);
        }
    }
    assert(splice(s, at, data) =~= s);
}

/// The 16-bit little-endian number stored at `at`.
pub fn get_u16(buf: &[u8], at: usize) -> (x: u16)
    requires
        at + 2 <= buf@.len(),
    ensures
        x == le_u16(buf@, at as int),
{
    buf[at] as u16 + 0x100 * (buf[at + 1] as u16)
}

/// The 32-bit little-endian number stored at `at`.
pub fn get_u32(buf: &[u8], at: usize) -> (x: u32)
    requires
        at + 4 <= buf@.len(),
    ensures
        x == le_u32(buf@, at as int),
{
    buf[at] as u32 + 0x100 * (buf[at + 1] as u32) + 0x1_0000 * (buf[at + 2] as u32) + 0x100_0000 * (
    buf[at + 3] as u32)
}

/// Store `x` at `at`.
pub fn put_u32(buf: &mut [u8], at: usize, x: u32)
    requires
        at + 4 <= old(buf)@.len(),
    ensures
        final(buf)@ == splice(old(buf)@, at as int, u32_bytes(x)),
{
    buf[at] = (x % 0x100) as u8;
    buf[at + 1] = (x / 0x100 % 0x100) as u8;
    buf[at + 2] = (x / 0x1_0000 % 0x100) as u8;
    buf[at + 3] = (x / 0x100_0000) as u8;
    assert(buf@ =~= splice(old(buf)@, at as int, u32_bytes(x)));
}

/// The four bytes that store `x`.
pub fn u32_to_bytes(x: u32) -> (out: [u8; 4])
    ensures
        out@ == u32_bytes(x),
{
    let out: [u8; 4] = [
        (x % 0x100) as u8,
        (x / 0x100 % 0x100) as u8,
        (x / 0x1_0000 % 0x100) as u8,
        (x / 0x100_0000) as u8,
    ];
    assert(out@ =~= u32_bytes(x));
    out
}

/// The two bytes that store `x`.
pub fn u16_to_bytes(x: u16) -> (out: [u8; 2])
    ensures
        out@ == u16_bytes(x),
{
    let out: [u8; 2] = [(x % 0x100) as u8, (x / 0x100) as u8];
    assert(out@ =~= u16_bytes(x));
    out
}

} // verus!
