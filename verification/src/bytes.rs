//! Byte sequences: little-endian numbers, zero padding and concatenation.

use vstd::prelude::*;

verus! {

/// `n` zero bytes.
pub open spec fn zeros(n: nat) -> Seq<u8> {
    Seq::new(n, |i: int| 0u8)
}

/// `s` with zero bytes appended up to the length `n`.
pub open spec fn pad(s: Seq<u8>, n: nat) -> Seq<u8> {
    s + zeros((n - s.len()) as nat)
}

/// The low 32 bits of `x`, low byte first. A negative number is taken in two's
/// complement.
pub open spec fn le32(x: int) -> Seq<u8> {
    seq![
        (x % 256) as u8,
        (x / 256 % 256) as u8,
        (x / 65536 % 256) as u8,
        (x / 16777216 % 256) as u8,
    ]
}

/// The low 16 bits of `x`, low byte first.
pub open spec fn le16(x: int) -> Seq<u8> {
    seq![(x % 256) as u8, (x / 256 % 256) as u8]
}

/// The number that four bytes at position `at` stand for, low byte first.
pub open spec fn u32_at(s: Seq<u8>, at: int) -> int {
    s[at] + s[at + 1] * 256 + s[at + 2] * 65536 + s[at + 3] * 16777216
}

/// The concatenation of byte sequences.
pub open spec fn concat(parts: Seq<Seq<u8>>) -> Seq<u8>
    decreases parts.len(),
{
    if parts.len() == 0 {
        seq![]
    } else {
        concat(parts.drop_last()) + parts.last()
    }
}

/// The byte sequences of a list of byte vectors.
pub open spec fn blobs(v: Seq<Vec<u8>>) -> Seq<Seq<u8>> {
    Seq::new(v.len(), |i: int| v[i]@)
}

/// Writing a 32-bit number and reading it back gives the number.
pub proof fn lemma_le32_reads_back(s: Seq<u8>, at: int, x: int)
    requires
        0 <= at,
        at + 4 <= s.len(),
        s.subrange(at, at + 4) == le32(x),
        -0x8000_0000 <= x < 0x1_0000_0000,
    ensures
        u32_at(s, at) == (if x < 0 {
            x + 0x1_0000_0000
        } else {
            x
        }),
{
    let t = s.subrange(at, at + 4);
    assert(t[0] == s[at] && t[1] == s[at + 1] && t[2] == s[at + 2] && t[3] == s[at + 3]);
    let a = x % 256;
    let b = x / 256 % 256;
    let c = x / 65536 % 256;
    let d = x / 16777216 % 256;
    assert(s[at] == a && s[at + 1] == b && s[at + 2] == c && s[at + 3] == d);
    assert(x / 65536 == x / 256 / 256);
    assert(x / 16777216 == x / 256 / 256 / 256);
    assert(x == a + 256 * (x / 256));
    assert(x / 256 == b + 256 * (x / 65536));
    assert(x / 65536 == c + 256 * (x / 16777216));
}

proof fn lemma_byte_shift(x: int, k: int)
    ensures
        (x + k * 256) % 256 == x % 256,
        (x + k * 256) / 256 == x / 256 + k,
{
}

/// Numbers that differ by 2^32 have the same low 32 bits.
proof fn lemma_le32_wraps(x: int)
    ensures
        le32(x + 0x1_0000_0000) == le32(x),
{
    let y = x + 0x1_0000_0000;
    lemma_byte_shift(x, 0x100_0000);
    lemma_byte_shift(x / 256, 0x1_0000);
    lemma_byte_shift(x / 256 / 256, 0x100);
    lemma_byte_shift(x / 256 / 256 / 256, 1);
    assert(y / 65536 == y / 256 / 256 && x / 65536 == x / 256 / 256);
    assert(y / 16777216 == y / 256 / 256 / 256 && x / 16777216 == x / 256 / 256 / 256);
}

/// Appends all of `tail`.
pub fn push_bytes(out: &mut Vec<u8>, tail: &[u8])
    ensures
        final(out)@ == old(out)@ + tail@,
{
    let mut i: usize = 0;
    while i < tail.len()
        invariant
            i <= tail@.len(),
            out@ == old(out)@ + tail@.take(i as int),
        decreases tail@.len() - i,
    {
        out.push(tail[i]);
        i = i + 1;
    }
    assert(tail@.take(i as int) == tail@);
}

/// Appends `data[from..to]`.
pub fn push_range(out: &mut Vec<u8>, data: &[u8], from: usize, to: usize)
    requires
        from <= to <= data@.len(),
    ensures
        final(out)@ == old(out)@ + data@.subrange(from as int, to as int),
{
    let mut i: usize = from;
    while i < to
        invariant
            from <= i <= to <= data@.len(),
            out@ == old(out)@ + data@.subrange(from as int, i as int),
        decreases to - i,
    {
        out.push(data[i]);
        i = i + 1;
    }
}

/// Appends `n` zero bytes.
pub fn push_zeros(out: &mut Vec<u8>, n: usize)
    ensures
        final(out)@ == old(out)@ + zeros(n as nat),
{
    let mut i: usize = 0;
    while i < n
        invariant
            i <= n,
            out@ == old(out)@ + zeros(i as nat),
        decreases n - i,
    {
        out.push(0);
        i = i + 1;
    }
}

/// Appends the low 32 bits of `x`, low byte first.
pub fn push_le32(out: &mut Vec<u8>, x: i64)
    requires
        -0x8000_0000 <= x < 0x1_0000_0000,
    ensures
        final(out)@ == old(out)@ + le32(x as int),
{
    let v: u64 = if x < 0 {
        (x + 0x1_0000_0000) as u64
    } else {
        x as u64
    };
    proof {
        if x < 0 {
            lemma_le32_wraps(x as int);
        }
    }
    out.push((v % 256) as u8);
    out.push((v / 256 % 256) as u8);
    out.push((v / 65536 % 256) as u8);
    out.push((v / 16777216 % 256) as u8);
    assert(out@ == old(out)@ + le32(v as int));
}

} // verus!
