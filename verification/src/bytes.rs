//! Numbers in bytes.
use vstd::prelude::*;

verus! {

/// The number that 4 bytes spell, the most significant first.
#[verifier::opaque]
pub open spec fn be32_at(s: Seq<u8>, off: int) -> int {
    s[off] * 0x100_0000 + s[off + 1] * 0x1_0000 + s[off + 2] * 0x100 + s[off + 3]
}

/// Four bytes spell a number of 32 bits.
pub proof fn lemma_be32_range(s: Seq<u8>, off: int)
    ensures
        0 <= be32_at(s, off) <= u32::MAX,
{
    reveal(be32_at);
}

/// The number that 8 bytes spell, the most significant first.
pub open spec fn be64_at(s: Seq<u8>, off: int) -> int {
    be32_at(s, off) * 0x1_0000_0000 + be32_at(s, off + 4)
}

/// The number that 2 bytes spell, the least significant first.
pub open spec fn le16_at(s: Seq<u8>, off: int) -> int {
    s[off] + s[off + 1] * 0x100
}

/// The number that 4 bytes spell, the least significant first.
pub open spec fn le32_at(s: Seq<u8>, off: int) -> int {
    s[off] + s[off + 1] * 0x100 + s[off + 2] * 0x1_0000 + s[off + 3] * 0x100_0000
}

/// The number that 8 bytes spell, the least significant first.
pub open spec fn le64_at(s: Seq<u8>, off: int) -> int {
    s[off] + s[off + 1] * 0x100 + s[off + 2] * 0x1_0000 + s[off + 3] * 0x100_0000 + s[off + 4]
        * 0x1_0000_0000 + s[off + 5] * 0x100_0000_0000 + s[off + 6] * 0x1_0000_0000_0000 + s[off
        + 7] * 0x100_0000_0000_0000
}

/// The `i`th byte of a number, the least significant first.
pub open spec fn le_byte(v: u64, i: int) -> u8
    decreases i,
{
    if i <= 0 {
        (v % 0x100) as u8
    } else {
        le_byte(v / 0x100, i - 1)
    }
}

/// The 8 bytes of a number, the least significant first.
pub open spec fn le_bytes(v: u64) -> Seq<u8> {
    Seq::new(8, |i: int| le_byte(v, i))
}

/// The number in 4 bytes, the most significant first.
pub fn be32(b: &[u8], off: usize) -> (r: u32)
    requires
        off + 4 <= b.len(),
    ensures
        r == be32_at(b@, off as int),
{
    proof {
        reveal(be32_at);
    }
    b[off] as u32 * 0x100_0000 + b[off + 1] as u32 * 0x1_0000 + b[off + 2] as u32 * 0x100 + b[off
        + 3] as u32
}

/// The number in 8 bytes, the most significant first.
pub fn be64(b: &[u8], off: usize) -> (r: u64)
    requires
        off + 8 <= b.len(),
    ensures
        r == be64_at(b@, off as int),
{
    be32(b, off) as u64 * 0x1_0000_0000 + be32(b, off + 4) as u64
}

/// The number in 2 bytes, the least significant first.
pub fn le16(b: &[u8], off: usize) -> (r: u16)
    requires
        off + 2 <= b.len(),
    ensures
        r == le16_at(b@, off as int),
{
    b[off] as u16 + b[off + 1] as u16 * 0x100
}

/// The number in 4 bytes, the least significant first.
pub fn le32(b: &[u8], off: usize) -> (r: u32)
    requires
        off + 4 <= b.len(),
    ensures
        r == le32_at(b@, off as int),
{
    b[off] as u32 + b[off + 1] as u32 * 0x100 + b[off + 2] as u32 * 0x1_0000 + b[off + 3] as u32
        * 0x100_0000
}

/// The number in 8 bytes, the least significant first.
pub fn le64(b: &[u8], off: usize) -> (r: u64)
    requires
        off + 8 <= b.len(),
    ensures
        r == le64_at(b@, off as int),
{
    b[off] as u64 + b[off + 1] as u64 * 0x100 + b[off + 2] as u64 * 0x1_0000 + b[off + 3] as u64
        * 0x100_0000 + b[off + 4] as u64 * 0x1_0000_0000 + b[off + 5] as u64 * 0x100_0000_0000
        + b[off + 6] as u64 * 0x1_0000_0000_0000 + b[off + 7] as u64 * 0x100_0000_0000_0000
}

/// Appends the 8 bytes of a number, the least significant first.
pub fn push_le64(out: &mut Vec<u8>, v: u64)
    ensures
        final(out)@ == old(out)@ + le_bytes(v),
{
    let mut w = v;
    let mut i: usize = 0;
    while i < 8
        invariant
            i <= 8,
            out@ == old(out)@ + le_bytes(v).take(i as int),
            forall|k: int| i <= k < 8 ==> le_byte(v, k) == #[trigger] le_byte(w, k - i),
        decreases 8 - i,
    {
        proof {
            assert(le_byte(v, i as int) == le_byte(w, i - i));
        }
        out.push((w % 0x100) as u8);
        proof {
            assert(le_bytes(v).take(i + 1) =~= le_bytes(v).take(i as int).push(
                (w % 0x100) as u8,
            ));
            assert forall|k: int| i + 1 <= k < 8 implies le_byte(v, k) == #[trigger] le_byte(
                (w / 0x100) as u64,
                k - (i + 1),
            ) by {
                assert(le_byte(w, k - i) == le_byte((w / 0x100) as u64, k - i - 1));
            }
        }
        w = w / 0x100;
        i += 1;
    }
    assert(le_bytes(v).take(8) =~= le_bytes(v));
}

/// The number that `n` bytes spell, the least significant first: the first byte, and 256
/// times the number in the rest.
pub open spec fn little(s: Seq<u8>, off: int, n: nat) -> int
    decreases n,
{
    if n == 0 {
        0
    } else {
        s[off] + 0x100 * little(s, off + 1, (n - 1) as nat)
    }
}

/// Numbers of 2, 4 and 8 bytes are read with the least significant byte first.
pub proof fn lemma_little(s: Seq<u8>, off: int)
    ensures
        le16_at(s, off) == little(s, off, 2),
        le32_at(s, off) == little(s, off, 4),
        le64_at(s, off) == little(s, off, 8),
        0 <= le64_at(s, off) <= u64::MAX,
{
    reveal_with_fuel(little, 9);
}

/// What is written of a number is read back as the number.
pub proof fn lemma_le_bytes(v: u64)
    ensures
        le_bytes(v).len() == 8,
        little(le_bytes(v), 0, 8) == v,
{
    reveal_with_fuel(le_byte, 9);
    reveal_with_fuel(little, 9);
    let s = le_bytes(v);
    let v1 = (v / 0x100) as u64;
    let v2 = (v1 / 0x100) as u64;
    let v3 = (v2 / 0x100) as u64;
    let v4 = (v3 / 0x100) as u64;
    let v5 = (v4 / 0x100) as u64;
    let v6 = (v5 / 0x100) as u64;
    let v7 = (v6 / 0x100) as u64;
    assert(s[0] == v % 0x100 && s[1] == v1 % 0x100 && s[2] == v2 % 0x100 && s[3] == v3 % 0x100);
    assert(s[4] == v4 % 0x100 && s[5] == v5 % 0x100 && s[6] == v6 % 0x100 && s[7] == v7 % 0x100);
    assert(v7 < 0x100);
}

} // verus!
