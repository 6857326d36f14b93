//! Fixed-width integers read from and written to byte strings.

use vstd::prelude::*;

verus! {

/// `256^n`.
pub open spec fn pow256(n: nat) -> nat
    decreases n,
{
    if n == 0 {
        1
    } else {
        256 * pow256((n - 1) as nat)
    }
}

/// The big-endian unsigned value of `s[pos .. pos + w]`.
pub open spec fn be_uint(s: Seq<u8>, pos: int, w: nat) -> nat
    decreases w,
{
    if w == 0 {
        0
    } else {
        be_uint(s, pos, (w - 1) as nat) * 256 + s[pos + w - 1] as nat
    }
}

/// The little-endian unsigned value of `s[pos .. pos + w]`.
pub open spec fn le_uint(s: Seq<u8>, pos: int, w: nat) -> nat
    decreases w,
{
    if w == 0 {
        0
    } else {
        s[pos] as nat + 256 * le_uint(s, pos + 1, (w - 1) as nat)
    }
}

/// An unsigned 64-bit pattern read as two's complement.
pub open spec fn as_signed(u: u64) -> i64 {
    if u < 0x8000_0000_0000_0000 {
        u as i64
    } else {
        (u - 0x1_0000_0000_0000_0000) as i64
    }
}

/// The memory-comparable form of a signed integer: its two's complement
/// pattern with the sign bit flipped, that is `i + 2^63`.
pub open spec fn comparable_of(i: i64) -> u64 {
    (i + 0x8000_0000_0000_0000) as u64
}

/// The signed integer whose memory-comparable form is `u`.
pub open spec fn from_comparable(u: u64) -> i64 {
    (u - 0x8000_0000_0000_0000) as i64
}

/// The `w` big-endian bytes of `x`.
pub open spec fn be_bytes(x: nat, w: nat) -> Seq<u8>
    decreases w,
{
    if w == 0 {
        Seq::empty()
    } else {
        be_bytes(x / 256, (w - 1) as nat).push((x % 256) as u8)
    }
}

pub proof fn lemma_pow256_pos(n: nat)
    ensures
        pow256(n) >= 1,
    decreases n,
{
    if n > 0 {
        lemma_pow256_pos((n - 1) as nat);
    }
}

pub proof fn lemma_be_uint_bound(s: Seq<u8>, pos: int, w: nat)
    ensures
        be_uint(s, pos, w) < pow256(w),
    decreases w,
{
    if w > 0 {
        let w1 = (w - 1) as nat;
        lemma_be_uint_bound(s, pos, w1);
        let a = be_uint(s, pos, w1);
        let b = s[pos + w - 1] as nat;
        assert(a * 256 + b < pow256(w1) * 256) by (nonlinear_arith)
            requires
                a < pow256(w1),
                b < 256,
        ;
    }
}

pub proof fn lemma_le_uint_bound(s: Seq<u8>, pos: int, w: nat)
    ensures
        le_uint(s, pos, w) < pow256(w),
    decreases w,
{
    if w > 0 {
        let w1 = (w - 1) as nat;
        lemma_le_uint_bound(s, pos + 1, w1);
        let a = le_uint(s, pos + 1, w1);
        let b = s[pos] as nat;
        assert(b + 256 * a < 256 * pow256(w1)) by (nonlinear_arith)
            requires
                a < pow256(w1),
                b < 256,
        ;
    }
}

/// `be_uint` depends only on the bytes it reads.
pub proof fn lemma_be_uint_frame(s: Seq<u8>, pos: int, t: Seq<u8>, tpos: int, w: nat)
    requires
        0 <= pos,
        pos + w <= s.len(),
        0 <= tpos,
        tpos + w <= t.len(),
        s.subrange(pos, pos + w) == t.subrange(tpos, tpos + w),
    ensures
        be_uint(s, pos, w) == be_uint(t, tpos, w),
    decreases w,
{
    if w > 0 {
        assert(s.subrange(pos, pos + w - 1) == s.subrange(pos, pos + w).subrange(0, w - 1));
        assert(t.subrange(tpos, tpos + w - 1) == t.subrange(tpos, tpos + w).subrange(0, w - 1));
        lemma_be_uint_frame(s, pos, t, tpos, (w - 1) as nat);
        assert(s[pos + (w - 1)] == s.subrange(pos, pos + w)[w - 1]);
        assert(t[tpos + (w - 1)] == t.subrange(tpos, tpos + w)[w - 1]);
    }
}

/// Reading back the bytes of `be_bytes` gives the value.
pub proof fn lemma_be_bytes_round_trip(x: nat, w: nat)
    requires
        x < pow256(w),
    ensures
        be_bytes(x, w).len() == w,
        be_uint(be_bytes(x, w), 0, w) == x,
    decreases w,
{
    if w > 0 {
        let w1 = (w - 1) as nat;
        assert(x / 256 < pow256(w1)) by (nonlinear_arith)
            requires
                x < 256 * pow256(w1),
        ;
        lemma_be_bytes_round_trip(x / 256, w1);
        let s = be_bytes(x, w);
        let p = be_bytes(x / 256, w1);
        assert(s == p.push((x % 256) as u8));
        assert(s.subrange(0, w1 as int) == p.subrange(0, w1 as int));
        lemma_be_uint_frame(s, 0, p, 0, w1);
        assert(be_uint(s, 0, w) == be_uint(s, 0, w1) * 256 + s[w - 1] as nat);
        assert(x == (x / 256) * 256 + x % 256) by (nonlinear_arith);
    }
}

pub proof fn lemma_pow256_values()
    ensures
        pow256(0) == 1,
        pow256(1) == 0x100,
        pow256(2) == 0x1_0000,
        pow256(4) == 0x1_0000_0000,
        pow256(7) == 0x100_0000_0000_0000,
        pow256(8) == 0x1_0000_0000_0000_0000,
{
    reveal_with_fuel(pow256, 9);
}

/// Reads the big-endian unsigned integer of `w` bytes at `pos`.
pub fn read_be(s: &[u8], pos: usize, w: usize) -> (r: u64)
    requires
        w <= 8,
        pos + w <= s@.len(),
    ensures
        r as nat == be_uint(s@, pos as int, w as nat),
{
    let n: usize = s.len();
    let mut acc: u64 = 0;
    let mut i: usize = 0;
    while i < w
        invariant
            i <= w <= 8,
            pos + w <= s@.len() == n,
            acc as nat == be_uint(s@, pos as int, i as nat),
        decreases w - i,
    {
        proof {
            lemma_be_uint_bound(s@, pos as int, i as nat);
            assert(pow256(i as nat) <= pow256(7)) by {
                lemma_pow256_mono(i as nat, 7);
            }
            lemma_pow256_values();
        }
        acc = acc * 256 + s[pos + i] as u64;
        i = i + 1;
    }
    acc
}

/// Reads the little-endian unsigned integer of `w` bytes at `pos`.
pub fn read_le(s: &[u8], pos: usize, w: usize) -> (r: u64)
    requires
        w <= 8,
        pos + w <= s@.len(),
    ensures
        r as nat == le_uint(s@, pos as int, w as nat),
{
    let n: usize = s.len();
    let mut acc: u64 = 0;
    let mut i: usize = w;
    while i > 0
        invariant
            i <= w <= 8,
            pos + w <= s@.len() == n,
            acc as nat == le_uint(s@, pos + i, (w - i) as nat),
        decreases i,
    {
        proof {
            lemma_le_uint_bound(s@, pos + i, (w - i) as nat);
            assert(pow256((w - i) as nat) <= pow256(7)) by {
                lemma_pow256_mono((w - i) as nat, 7);
            }
            lemma_pow256_values();
        }
        acc = acc * 256 + s[pos + i - 1] as u64;
        i = i - 1;
    }
    acc
}

pub proof fn lemma_pow256_mono(a: nat, b: nat)
    requires
        a <= b,
    ensures
        pow256(a) <= pow256(b),
    decreases b,
{
    if a < b {
        lemma_pow256_mono(a, (b - 1) as nat);
        lemma_pow256_pos((b - 1) as nat);
    }
}

/// Reinterprets a 64-bit pattern as a signed integer.
pub fn to_signed(u: u64) -> (r: i64)
    ensures
        r == as_signed(u),
{
    if u < 0x8000_0000_0000_0000 {
        u as i64
    } else {
        let low = (u - 0x8000_0000_0000_0000) as i64;
        low - 0x7fff_ffff_ffff_ffff - 1
    }
}

/// Decodes a memory-comparable signed integer.
pub fn decode_comparable(u: u64) -> (r: i64)
    ensures
        r == from_comparable(u),
{
    if u >= 0x8000_0000_0000_0000 {
        (u - 0x8000_0000_0000_0000) as i64
    } else {
        let low = u as i64;
        low - 0x7fff_ffff_ffff_ffff - 1
    }
}

/// Encodes a signed integer in memory-comparable form.
pub fn encode_comparable(i: i64) -> (r: u64)
    ensures
        r == comparable_of(i),
        from_comparable(r) == i,
{
    if i >= 0 {
        i as u64 + 0x8000_0000_0000_0000
    } else {
        let shifted = i + 0x7fff_ffff_ffff_ffff + 1;
        shifted as u64
    }
}

/// Appends the eight big-endian bytes of `x`.
pub fn write_be_u64(buf: &mut Vec<u8>, x: u64)
    ensures
        final(buf)@ == old(buf)@ + be_bytes(x as nat, 8),
{
    let mut bytes: Vec<u8> = vec![0u8; 8];
    let mut y: u64 = x;
    let mut i: usize = 8;
    while i > 0
        invariant
            i <= 8,
            bytes@.len() == 8,
            be_bytes(x as nat, 8) == be_bytes(y as nat, i as nat) + bytes@.subrange(i as int, 8),
        decreases i,
    {
        let ghost old_bytes = bytes@;
        bytes[i - 1] = (y % 256) as u8;
        proof {
            let i1 = (i - 1) as nat;
            assert(be_bytes(y as nat, i as nat) == be_bytes(y as nat / 256, i1).push((y as nat % 256) as u8));
            assert(bytes@.subrange(i1 as int, 8) == seq![(y % 256) as u8] + old_bytes.subrange(i as int, 8));
            assert(be_bytes(y as nat, i as nat) + old_bytes.subrange(i as int, 8)
                == be_bytes(y as nat / 256, i1) + bytes@.subrange(i1 as int, 8));
        }
        y = y / 256;
        i = i - 1;
    }
    assert(be_bytes(y as nat, 0) == Seq::<u8>::empty());
    assert(bytes@.subrange(0, 8) == bytes@);
    let ghost start = buf@;
    let mut j: usize = 0;
    while j < 8
        invariant
            j <= 8,
            bytes@.len() == 8,
            buf@ == start + bytes@.subrange(0, j as int),
        decreases 8 - j,
    {
        buf.push(bytes[j]);
        assert(bytes@.subrange(0, j + 1) == bytes@.subrange(0, j as int).push(bytes@[j as int]));
        j = j + 1;
    }
}

} // verus!
