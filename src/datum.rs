//! Framing of datums: one flag byte followed by a payload whose length the
//! flag determines.

use vstd::prelude::*;
use crate::error::Error;
use crate::number::{be_bytes, comparable_of, encode_comparable, write_be_u64};

verus! {

pub const NIL_FLAG: u8 = 0;
pub const BYTES_FLAG: u8 = 1;
pub const COMPACT_BYTES_FLAG: u8 = 2;
pub const INT_FLAG: u8 = 3;
pub const UINT_FLAG: u8 = 4;
pub const FLOAT_FLAG: u8 = 5;
pub const DECIMAL_FLAG: u8 = 6;
pub const DURATION_FLAG: u8 = 7;
pub const VAR_INT_FLAG: u8 = 8;
pub const VAR_UINT_FLAG: u8 = 9;
pub const JSON_FLAG: u8 = 10;
pub const MAX_FLAG: u8 = 250;

/// Size of one group of the memory-comparable byte-string encoding: eight
/// data bytes and a marker.
pub const ENC_GROUP_SIZE: usize = 8;
/// Marker of a group that is followed by another one.
pub const ENC_MARKER: u8 = 255;

/// `128^n`.
pub open spec fn pow128(n: nat) -> nat
    decreases n,
{
    if n == 0 {
        1
    } else {
        128 * pow128((n - 1) as nat)
    }
}

/// Length of a memory-comparable byte string whose next marker is at
/// `idx`: up to and including the first marker that ends it, or everything
/// that is left when no such marker comes.
pub open spec fn bytes_len_from(p: Seq<u8>, idx: int) -> nat
    decreases p.len() + 9 - idx,
{
    if idx < 0 || p.len() < idx + 1 {
        p.len()
    } else if p[idx] != ENC_MARKER {
        (idx + 1) as nat
    } else {
        bytes_len_from(p, idx + 9)
    }
}

/// Number of bytes of the varint at the front of `p`, read from index `i`:
/// up to the first byte below 128, within ten bytes.
pub open spec fn varint_size_from(p: Seq<u8>, i: nat) -> Option<nat>
    decreases 10 - i,
{
    if i >= 10 || i >= p.len() {
        None
    } else if p[i as int] < 128 {
        Some(i + 1)
    } else {
        varint_size_from(p, i + 1)
    }
}

/// Value of the `n` varint bytes at `i`: seven bits per byte, least
/// significant first.
pub open spec fn varint_value(p: Seq<u8>, i: int, n: nat) -> nat
    decreases n,
{
    if n == 0 {
        0
    } else {
        (p[i] % 128) as nat + 128 * varint_value(p, i + 1, (n - 1) as nat)
    }
}

/// Bytes that hold `d < 9` leftover decimal digits.
pub open spec fn dig2bytes(d: int) -> nat {
    if d <= 0 {
        0
    } else if d <= 2 {
        1
    } else if d <= 4 {
        2
    } else if d <= 6 {
        3
    } else {
        4
    }
}

/// Length of an encoded decimal: precision and scale bytes, then four bytes
/// per nine digits and a few more for the rest, for the integer part and for
/// the fraction alike.
pub open spec fn decimal_len(p: Seq<u8>) -> Option<nat> {
    if p.len() < 2 || p[1] > p[0] {
        None
    } else {
        let int_cnt = p[0] - p[1];
        let frac_cnt = p[1] as int;
        Some((2 + (int_cnt / 9) * 4 + dig2bytes(int_cnt % 9) + (frac_cnt / 9) * 4 + dig2bytes(frac_cnt % 9)) as nat)
    }
}

/// Length of the payload that follows flag `f`, given the bytes `p` after the
/// flag; `None` for a flag that is not understood or a length that cannot be
/// read.
pub open spec fn payload_len(f: u8, p: Seq<u8>) -> Option<nat> {
    if f == INT_FLAG || f == UINT_FLAG || f == FLOAT_FLAG || f == DURATION_FLAG {
        Some(8)
    } else if f == VAR_INT_FLAG || f == VAR_UINT_FLAG {
        varint_size_from(p, 0)
    } else if f == BYTES_FLAG {
        Some(bytes_len_from(p, ENC_GROUP_SIZE as int))
    } else if f == COMPACT_BYTES_FLAG {
        match varint_size_from(p, 0) {
            None => None,
            Some(n) => {
                let v = varint_value(p, 0, n);
                if v % 2 == 1 {
                    None
                } else {
                    Some(n + v / 2)
                }
            },
        }
    } else if f == DECIMAL_FLAG {
        decimal_len(p)
    } else if f == NIL_FLAG || f == MAX_FLAG {
        Some(0)
    } else {
        None
    }
}

/// Length of the datum at the front of `s`, flag included.
pub open spec fn datum_len(s: Seq<u8>) -> Option<nat> {
    if s.len() == 0 {
        None
    } else {
        match payload_len(s[0], s.skip(1)) {
            Some(k) => if k + 1 <= s.len() {
                Some(k + 1)
            } else {
                None
            },
            None => None,
        }
    }
}

/// Splits `n` datums off the front of `s`: the datums, in order, and what
/// follows them. An empty cursor before the `i`-th datum is
/// `MissingColumnValue(i)`; a datum that cannot be framed is `BadDatum`.
pub open spec fn split_datums(s: Seq<u8>, n: nat) -> Result<(Seq<Seq<u8>>, Seq<u8>), Error>
    decreases n,
{
    if n == 0 {
        Ok((Seq::empty(), s))
    } else {
        match split_datums(s, (n - 1) as nat) {
            Err(e) => Err(e),
            Ok((cells, rest)) => {
                if rest.len() == 0 {
                    Err(Error::MissingColumnValue((n - 1) as usize))
                } else {
                    match datum_len(rest) {
                        None => Err(Error::BadDatum),
                        Some(l) => Ok((cells.push(rest.take(l as int)), rest.skip(l as int))),
                    }
                }
            },
        }
    }
}

/// The bytes of `x` as a varint.
pub open spec fn varint_bytes(x: nat) -> Seq<u8>
    decreases x,
{
    if x < 128 {
        seq![x as u8]
    } else {
        seq![(x % 128 + 128) as u8] + varint_bytes(x / 128)
    }
}

/// A signed integer datum, as keys hold it.
pub open spec fn int_datum(i: i64) -> Seq<u8> {
    seq![INT_FLAG] + be_bytes(comparable_of(i) as nat, 8)
}

/// An unsigned integer datum.
pub open spec fn uint_datum(u: u64) -> Seq<u8> {
    seq![UINT_FLAG] + be_bytes(u as nat, 8)
}

/// A compact byte-string datum: its length as a zigzag varint, then the bytes.
pub open spec fn compact_bytes_datum(b: Seq<u8>) -> Seq<u8> {
    seq![COMPACT_BYTES_FLAG] + varint_bytes(2 * b.len()) + b
}

proof fn lemma_pow128_values()
    ensures
        pow128(9) == 0x8000_0000_0000_0000,
        pow128(10) == 0x40_0000_0000_0000_0000,
{
    reveal_with_fuel(pow128, 11);
}

proof fn lemma_pow128_mono(a: nat, b: nat)
    requires
        a <= b,
    ensures
        pow128(a) <= pow128(b),
    decreases b,
{
    if a < b {
        lemma_pow128_mono(a, (b - 1) as nat);
    }
}

proof fn lemma_varint_value_bound(p: Seq<u8>, i: int, n: nat)
    ensures
        varint_value(p, i, n) < pow128(n),
    decreases n,
{
    if n > 0 {
        let n1 = (n - 1) as nat;
        lemma_varint_value_bound(p, i + 1, n1);
        let a = varint_value(p, i + 1, n1);
        let b = (p[i] % 128) as nat;
        assert(b + 128 * a < 128 * pow128(n1)) by (nonlinear_arith)
            requires
                a < pow128(n1),
                b < 128,
        ;
    }
}

proof fn lemma_varint_size_bound(p: Seq<u8>, i: nat)
    ensures
        varint_size_from(p, i) matches Some(n) ==> i < n <= 10 && n <= p.len(),
    decreases 10 - i,
{
    if !(i >= 10 || i >= p.len()) && p[i as int] >= 128 {
        lemma_varint_size_bound(p, i + 1);
    }
}

/// Size of the varint at the front of `p`.
fn varint_size(p: &[u8]) -> (r: Option<usize>)
    ensures
        r matches Some(n) ==> varint_size_from(p@, 0) == Some(n as nat),
        r is None ==> varint_size_from(p@, 0) is None,
{
    let len: usize = p.len();
    let mut i: usize = 0;
    while i < 10 && i < len
        invariant
            i <= 10,
            len == p@.len(),
            varint_size_from(p@, 0) == varint_size_from(p@, i as nat),
        decreases 10 - i,
    {
        if p[i] < 128 {
            return Some(i + 1);
        }
        i = i + 1;
    }
    None
}

/// Value of the `n` varint bytes at the front of `p`.
fn varint_value_exec(p: &[u8], n: usize) -> (r: u128)
    requires
        n <= 10,
        n <= p@.len(),
    ensures
        r as nat == varint_value(p@, 0, n as nat),
{
    let mut acc: u128 = 0;
    let mut j: usize = n;
    while j > 0
        invariant
            j <= n <= 10,
            n <= p@.len(),
            acc as nat == varint_value(p@, j as int, (n - j) as nat),
        decreases j,
    {
        proof {
            lemma_varint_value_bound(p@, j as int, (n - j) as nat);
            lemma_pow128_mono((n - j) as nat, 9);
            lemma_pow128_values();
        }
        acc = acc * 128 + (p[j - 1] % 128) as u128;
        j = j - 1;
    }
    acc
}

/// Length of a memory-comparable byte string, given the bytes after the flag.
fn bytes_len(p: &[u8]) -> (r: usize)
    ensures
        r as nat == bytes_len_from(p@, ENC_GROUP_SIZE as int),
        r <= p@.len(),
{
    let len: usize = p.len();
    let mut idx: usize = ENC_GROUP_SIZE;
    loop
        invariant
            len == p@.len(),
            idx >= 8,
            bytes_len_from(p@, ENC_GROUP_SIZE as int) == bytes_len_from(p@, idx as int),
        decreases len + 9 - idx,
    {
        if idx >= len {
            return len;
        }
        if p[idx] != ENC_MARKER {
            return idx + 1;
        }
        if len - idx <= 9 {
            assert(bytes_len_from(p@, idx as int) == bytes_len_from(p@, idx + 9));
            return len;
        }
        idx = idx + ENC_GROUP_SIZE + 1;
    }
}

fn dig2bytes_exec(d: usize) -> (r: usize)
    ensures
        r == dig2bytes(d as int),
{
    if d == 0 {
        0
    } else if d <= 2 {
        1
    } else if d <= 4 {
        2
    } else if d <= 6 {
        3
    } else {
        4
    }
}

/// Length of an encoded decimal, given the bytes after the flag.
fn decimal_len_exec(p: &[u8]) -> (r: Option<usize>)
    ensures
        match decimal_len(p@) {
            Some(n) => r == Some(n as usize),
            None => r is None,
        },
{
    if p.len() < 2 || p[1] > p[0] {
        return None;
    }
    let int_cnt: usize = (p[0] - p[1]) as usize;
    let frac_cnt: usize = p[1] as usize;
    Some(2 + (int_cnt / 9) * 4 + dig2bytes_exec(int_cnt % 9) + (frac_cnt / 9) * 4 + dig2bytes_exec(frac_cnt % 9))
}

/// Length of the datum at the front of `s`, flag included.
pub fn split_datum(s: &[u8]) -> (r: Result<usize, Error>)
    ensures
        r matches Ok(l) ==> datum_len(s@) == Some(l as nat),
        r is Err ==> datum_len(s@) is None && r == Err::<usize, Error>(Error::BadDatum),
{
    let len: usize = s.len();
    if len == 0 {
        return Err(Error::BadDatum);
    }
    let f = s[0];
    let p = vstd::slice::slice_subrange(s, 1, len);
    assert(p@ == s@.skip(1));
    let pos: usize;
    if f == INT_FLAG || f == UINT_FLAG || f == FLOAT_FLAG || f == DURATION_FLAG {
        pos = 8;
    } else if f == VAR_INT_FLAG || f == VAR_UINT_FLAG {
        match varint_size(p) {
            Some(n) => {
                pos = n;
            },
            None => {
                return Err(Error::BadDatum);
            },
        }
    } else if f == BYTES_FLAG {
        pos = bytes_len(p);
    } else if f == COMPACT_BYTES_FLAG {
        match varint_size(p) {
            Some(n) => {
                proof {
                    lemma_varint_size_bound(p@, 0);
                }
                let v = varint_value_exec(p, n);
                if v % 2 == 1 {
                    return Err(Error::BadDatum);
                }
                let data_len = v / 2;
                if data_len > (len - 1 - n) as u128 {
                    return Err(Error::BadDatum);
                }
                pos = n + data_len as usize;
            },
            None => {
                return Err(Error::BadDatum);
            },
        }
    } else if f == DECIMAL_FLAG {
        match decimal_len_exec(p) {
            Some(n) => {
                pos = n;
            },
            None => {
                return Err(Error::BadDatum);
            },
        }
    } else if f == NIL_FLAG || f == MAX_FLAG {
        pos = 0;
    } else {
        return Err(Error::BadDatum);
    }
    if len - 1 < pos {
        return Err(Error::BadDatum);
    }
    Ok(pos + 1)
}

/// Once splitting fails, splitting more datums fails in the same way.
pub proof fn lemma_split_err_persists(s: Seq<u8>, a: nat, b: nat)
    requires
        a <= b,
        split_datums(s, a) is Err,
    ensures
        split_datums(s, b) == split_datums(s, a),
    decreases b,
{
    if a < b {
        lemma_split_err_persists(s, a, (b - 1) as nat);
    }
}

/// Splits `n` datums off the front of `s`; returns them with the offset at
/// which the rest of `s` starts.
pub fn split_n(s: &[u8], n: usize) -> (r: Result<(Vec<Vec<u8>>, usize), Error>)
    ensures
        match split_datums(s@, n as nat) {
            Ok((cells, rest)) => r matches Ok((v, off)) && off <= s@.len() && rest == s@.skip(
                off as int,
            ) && v@.len() == cells.len() && forall|k: int|
                0 <= k < cells.len() ==> #[trigger] v@[k]@ == cells[k],
            Err(e) => r == Err::<(Vec<Vec<u8>>, usize), Error>(e),
        },
{
    let len: usize = s.len();
    let mut cells: Vec<Vec<u8>> = Vec::new();
    let mut off: usize = 0;
    let mut i: usize = 0;
    while i < n
        invariant
            i <= n,
            len == s@.len(),
            off <= len,
            split_datums(s@, i as nat) matches Ok((c, rest)) && rest == s@.skip(off as int)
                && cells@.len() == c.len() && forall|k: int|
                0 <= k < c.len() ==> #[trigger] cells@[k]@ == c[k],
        decreases n - i,
    {
        let ghost prev = split_datums(s@, i as nat);
        if off == len {
            assert(split_datums(s@, (i + 1) as nat) == Err::<(Seq<Seq<u8>>, Seq<u8>), Error>(
                Error::MissingColumnValue(i),
            ));
            proof {
                lemma_split_err_persists(s@, (i + 1) as nat, n as nat);
            }
            return Err(Error::MissingColumnValue(i));
        }
        let rest = vstd::slice::slice_subrange(s, off, len);
        match split_datum(rest) {
            Err(e) => {
                assert(split_datums(s@, (i + 1) as nat) == Err::<(Seq<Seq<u8>>, Seq<u8>), Error>(
                    Error::BadDatum,
                ));
                proof {
                    lemma_split_err_persists(s@, (i + 1) as nat, n as nat);
                }
                return Err(e);
            },
            Ok(l) => {
                let cell = copy_range(s, off, off + l);
                proof {
                    assert(cell@ == rest@.take(l as int));
                    assert(rest@.skip(l as int) == s@.skip((off + l) as int));
                }
                cells.push(cell);
                off = off + l;
            },
        }
        i = i + 1;
    }
    Ok((cells, off))
}

/// The bytes `s[start .. end]` as a vector.
pub fn copy_range(s: &[u8], start: usize, end: usize) -> (r: Vec<u8>)
    requires
        start <= end <= s@.len(),
    ensures
        r@ == s@.subrange(start as int, end as int),
{
    let mut out: Vec<u8> = Vec::with_capacity(end - start);
    let mut i: usize = start;
    while i < end
        invariant
            start <= i <= end <= s@.len(),
            out@ == s@.subrange(start as int, i as int),
        decreases end - i,
    {
        out.push(s[i]);
        assert(s@.subrange(start as int, i + 1) == s@.subrange(start as int, i as int).push(s@[i as int]));
        i = i + 1;
    }
    out
}

/// Appends a signed integer datum.
pub fn write_int_datum(buf: &mut Vec<u8>, i: i64)
    ensures
        final(buf)@ == old(buf)@ + int_datum(i),
{
    buf.push(INT_FLAG);
    let u = encode_comparable(i);
    write_be_u64(buf, u);
    assert(old(buf)@ + int_datum(i) == old(buf)@.push(INT_FLAG) + be_bytes(u as nat, 8));
}

/// Appends an unsigned integer datum.
pub fn write_uint_datum(buf: &mut Vec<u8>, u: u64)
    ensures
        final(buf)@ == old(buf)@ + uint_datum(u),
{
    buf.push(UINT_FLAG);
    write_be_u64(buf, u);
    assert(old(buf)@ + uint_datum(u) == old(buf)@.push(UINT_FLAG) + be_bytes(u as nat, 8));
}

/// Appends the varint bytes of `x`.
pub fn write_varint(buf: &mut Vec<u8>, x: u128)
    ensures
        final(buf)@ == old(buf)@ + varint_bytes(x as nat),
{
    let ghost start = buf@;
    let mut y: u128 = x;
    while y >= 128
        invariant
            start + varint_bytes(x as nat) == buf@ + varint_bytes(y as nat),
        decreases y,
    {
        let ghost before = buf@;
        buf.push((y % 128 + 128) as u8);
        assert(varint_bytes(y as nat) == seq![(y % 128 + 128) as u8] + varint_bytes(y as nat / 128));
        assert(before + varint_bytes(y as nat) == buf@ + varint_bytes(y as nat / 128));
        y = y / 128;
    }
    buf.push(y as u8);
    assert(varint_bytes(y as nat) == seq![y as u8]);
}

/// Appends a compact byte-string datum holding `b`.
pub fn write_compact_bytes_datum(buf: &mut Vec<u8>, b: &[u8])
    ensures
        final(buf)@ == old(buf)@ + compact_bytes_datum(b@),
{
    buf.push(COMPACT_BYTES_FLAG);
    let n: usize = b.len();
    write_varint(buf, 2 * (n as u128));
    let ghost mid = buf@;
    let mut i: usize = 0;
    while i < n
        invariant
            i <= n == b@.len(),
            buf@ == mid + b@.subrange(0, i as int),
        decreases n - i,
    {
        buf.push(b[i]);
        assert(b@.subrange(0, i + 1) == b@.subrange(0, i as int).push(b@[i as int]));
        i = i + 1;
    }
    assert(b@.subrange(0, n as int) == b@);
    assert(old(buf)@ + compact_bytes_datum(b@) == old(buf)@.push(COMPACT_BYTES_FLAG) + varint_bytes(
        (2 * n) as nat,
    ) + b@);
}

} // verus!
