//! Reading and writing the wire format: big-endian integers, little-endian
//! 24-bit integers, length-prefixed strings, addresses, acknowledgement
//! ranges, fragments and datagrams. Readers take a byte slice and a
//! position and give back the value and the position after it; writers
//! append to a byte vector.
use vstd::prelude::*;

use crate::error::{BytesFault, RukBytesError, TryGetError};

verus! {

/// The outcome of a reader, seen through the views of its value and error.
pub open spec fn parsed<T: View>(r: Result<(T, usize), RukBytesError>) -> Result<(T::V, int), BytesFault> {
    match r {
        Ok((v, p)) => Ok((v@, p as int)),
        Err(e) => Err(e@),
    }
}

/// The error of a read of `requested` bytes at `p`.
pub open spec fn short(requested: nat, s: Seq<u8>, p: int) -> BytesFault {
    BytesFault::Short { requested, available: (s.len() - p) as nat }
}

pub open spec fn not_enough_data() -> BytesFault {
    BytesFault::Invalid("Not enough data"@)
}

pub open spec fn be16(b0: u8, b1: u8) -> u16 {
    (b0 * 0x100 + b1) as u16
}

pub open spec fn be32(b0: u8, b1: u8, b2: u8, b3: u8) -> u32 {
    (b0 * 0x1000000 + b1 * 0x10000 + b2 * 0x100 + b3) as u32
}

pub open spec fn be64(s: Seq<u8>, p: int) -> u64 {
    (be32(s[p], s[p + 1], s[p + 2], s[p + 3]) * 0x100000000 + be32(
        s[p + 4],
        s[p + 5],
        s[p + 6],
        s[p + 7],
    )) as u64
}

pub open spec fn le24(b0: u8, b1: u8, b2: u8) -> u32 {
    (b0 + b1 * 0x100 + b2 * 0x10000) as u32
}

pub open spec fn sp_u8(s: Seq<u8>, p: int) -> Result<(u8, int), BytesFault> {
    if p + 1 <= s.len() {
        Ok((s[p], p + 1))
    } else {
        Err(short(1, s, p))
    }
}

pub open spec fn sp_u16(s: Seq<u8>, p: int) -> Result<(u16, int), BytesFault> {
    if p + 2 <= s.len() {
        Ok((be16(s[p], s[p + 1]), p + 2))
    } else {
        Err(short(2, s, p))
    }
}

pub open spec fn sp_u24_le(s: Seq<u8>, p: int) -> Result<(u32, int), BytesFault> {
    if p + 3 <= s.len() {
        Ok((le24(s[p], s[p + 1], s[p + 2]), p + 3))
    } else {
        Err(short(3, s, p))
    }
}

pub open spec fn sp_u32(s: Seq<u8>, p: int) -> Result<(u32, int), BytesFault> {
    if p + 4 <= s.len() {
        Ok((be32(s[p], s[p + 1], s[p + 2], s[p + 3]), p + 4))
    } else {
        Err(short(4, s, p))
    }
}

pub open spec fn sp_u64(s: Seq<u8>, p: int) -> Result<(u64, int), BytesFault> {
    if p + 8 <= s.len() {
        Ok((be64(s, p), p + 8))
    } else {
        Err(short(8, s, p))
    }
}

pub open spec fn sp_advance(s: Seq<u8>, p: int, n: nat) -> Result<int, BytesFault> {
    if s.len() - p < n {
        Err(not_enough_data())
    } else {
        Ok(p + n)
    }
}

pub open spec fn ser_u8(v: u8) -> Seq<u8> {
    seq![v]
}

pub open spec fn ser_u16(v: u16) -> Seq<u8> {
    seq![(v / 0x100) as u8, (v % 0x100) as u8]
}

pub open spec fn ser_u24_le(v: u32) -> Seq<u8> {
    seq![(v % 0x100) as u8, ((v / 0x100) % 0x100) as u8, ((v / 0x10000) % 0x100) as u8]
}

pub open spec fn ser_u32(v: u32) -> Seq<u8> {
    seq![
        (v / 0x1000000) as u8,
        ((v / 0x10000) % 0x100) as u8,
        ((v / 0x100) % 0x100) as u8,
        (v % 0x100) as u8,
    ]
}

pub open spec fn ser_u64(v: u64) -> Seq<u8> {
    ser_u32((v / 0x100000000) as u32) + ser_u32((v % 0x100000000) as u32)
}

fn too_short(requested: usize, len: usize, pos: usize) -> (e: RukBytesError)
    requires
        pos <= len,
    ensures
        e@ == (BytesFault::Short { requested: requested as nat, available: (len - pos) as nat }),
{
    RukBytesError::TryGet(TryGetError { requested, available: len - pos })
}

/// Reads one byte.
pub fn try_get_u8(data: &[u8], pos: usize) -> (r: Result<(u8, usize), RukBytesError>)
    requires
        pos <= data@.len(),
    ensures
        parsed(r) == sp_u8(data@, pos as int),
{
    if data.len() - pos < 1 {
        return Err(too_short(1, data.len(), pos));
    }
    Ok((data[pos], pos + 1))
}

/// Reads a big-endian 16-bit integer.
pub fn try_get_u16(data: &[u8], pos: usize) -> (r: Result<(u16, usize), RukBytesError>)
    requires
        pos <= data@.len(),
    ensures
        parsed(r) == sp_u16(data@, pos as int),
{
    if data.len() - pos < 2 {
        return Err(too_short(2, data.len(), pos));
    }
    let v: u16 = (data[pos] as u16) * 0x100 + data[pos + 1] as u16;
    Ok((v, pos + 2))
}

/// Reads a little-endian 24-bit integer.
pub fn try_get_u24_le(data: &[u8], pos: usize) -> (r: Result<(u32, usize), RukBytesError>)
    requires
        pos <= data@.len(),
    ensures
        parsed(r) == sp_u24_le(data@, pos as int),
        r matches Ok((v, _)) ==> v < 0x1000000,
{
    if data.len() - pos < 3 {
        return Err(too_short(3, data.len(), pos));
    }
    let v: u32 = data[pos] as u32 + (data[pos + 1] as u32) * 0x100 + (data[pos + 2] as u32) * 0x10000;
    Ok((v, pos + 3))
}

/// Reads a big-endian 32-bit integer.
pub fn try_get_u32(data: &[u8], pos: usize) -> (r: Result<(u32, usize), RukBytesError>)
    requires
        pos <= data@.len(),
    ensures
        parsed(r) == sp_u32(data@, pos as int),
{
    if data.len() - pos < 4 {
        return Err(too_short(4, data.len(), pos));
    }
    let v: u32 = (data[pos] as u32) * 0x1000000 + (data[pos + 1] as u32) * 0x10000 + (data[pos
        + 2] as u32) * 0x100 + data[pos + 3] as u32;
    Ok((v, pos + 4))
}

/// Reads a big-endian 64-bit integer.
pub fn try_get_u64(data: &[u8], pos: usize) -> (r: Result<(u64, usize), RukBytesError>)
    requires
        pos <= data@.len(),
    ensures
        parsed(r) == sp_u64(data@, pos as int),
{
    if data.len() - pos < 8 {
        return Err(too_short(8, data.len(), pos));
    }
    let hi: u64 = (data[pos] as u64) * 0x1000000 + (data[pos + 1] as u64) * 0x10000 + (data[pos
        + 2] as u64) * 0x100 + data[pos + 3] as u64;
    let lo: u64 = (data[pos + 4] as u64) * 0x1000000 + (data[pos + 5] as u64) * 0x10000 + (data[pos
        + 6] as u64) * 0x100 + data[pos + 7] as u64;
    let v: u64 = hi * 0x100000000 + lo;
    Ok((v, pos + 8))
}

/// Skips `n` bytes.
pub fn try_advance(data: &[u8], pos: usize, n: usize) -> (r: Result<usize, RukBytesError>)
    requires
        pos <= data@.len(),
    ensures
        match r {
            Ok(p) => sp_advance(data@, pos as int, n as nat) == Ok::<int, BytesFault>(p as int),
            Err(e) => sp_advance(data@, pos as int, n as nat) == Err::<int, BytesFault>(e@),
        },
{
    if data.len() - pos < n {
        return Err(RukBytesError::invalid_data("Not enough data"));
    }
    Ok(pos + n)
}

pub fn put_u8(buf: &mut Vec<u8>, v: u8)
    ensures
        final(buf)@ == old(buf)@ + ser_u8(v),
{
    buf.push(v);
    assert(final(buf)@ =~= old(buf)@ + ser_u8(v));
}

pub fn put_u16(buf: &mut Vec<u8>, v: u16)
    ensures
        final(buf)@ == old(buf)@ + ser_u16(v),
{
    buf.push((v / 0x100) as u8);
    buf.push((v % 0x100) as u8);
    assert(final(buf)@ =~= old(buf)@ + ser_u16(v));
}

/// Writes the low three bytes of `v`, least significant first.
pub fn put_u24_le(buf: &mut Vec<u8>, v: u32)
    ensures
        final(buf)@ == old(buf)@ + ser_u24_le(v),
{
    buf.push((v % 0x100) as u8);
    buf.push(((v / 0x100) % 0x100) as u8);
    buf.push(((v / 0x10000) % 0x100) as u8);
    assert(final(buf)@ =~= old(buf)@ + ser_u24_le(v));
}

pub fn put_u32(buf: &mut Vec<u8>, v: u32)
    ensures
        final(buf)@ == old(buf)@ + ser_u32(v),
{
    buf.push((v / 0x1000000) as u8);
    buf.push(((v / 0x10000) % 0x100) as u8);
    buf.push(((v / 0x100) % 0x100) as u8);
    buf.push((v % 0x100) as u8);
    assert(final(buf)@ =~= old(buf)@ + ser_u32(v));
}

pub fn put_u64(buf: &mut Vec<u8>, v: u64)
    ensures
        final(buf)@ == old(buf)@ + ser_u64(v),
{
    put_u32(buf, (v / 0x100000000) as u32);
    put_u32(buf, (v % 0x100000000) as u32);
    assert(final(buf)@ =~= old(buf)@ + ser_u64(v));
}

/// Appends the bytes of `src`.
pub fn put_slice(buf: &mut Vec<u8>, src: &[u8])
    ensures
        final(buf)@ == old(buf)@ + src@,
{
    let mut i: usize = 0;
    while i < src.len()
        invariant
            i <= src@.len(),
            buf@ == old(buf)@ + src@.subrange(0, i as int),
        decreases src@.len() - i,
    {
        buf.push(src[i]);
        i += 1;
        assert(buf@ =~= old(buf)@ + src@.subrange(0, i as int));
    }
    assert(src@.subrange(0, src@.len() as int) =~= src@);
}

/// Appends `n` copies of `v`.
pub fn put_bytes(buf: &mut Vec<u8>, v: u8, n: usize)
    ensures
        final(buf)@ == old(buf)@ + Seq::new(n as nat, |_i: int| v),
{
    let mut i: usize = 0;
    while i < n
        invariant
            i <= n,
            buf@ == old(buf)@ + Seq::new(i as nat, |_i: int| v),
        decreases n - i,
    {
        buf.push(v);
        i += 1;
        assert(buf@ =~= old(buf)@ + Seq::new(i as nat, |_i: int| v));
    }
}

/// A 16-bit integer written and then read back at the same place gives
/// itself back.
pub proof fn lemma_u16_roundtrip(s: Seq<u8>, p: int, v: u16)
    requires
        0 <= p,
        p + 2 <= s.len(),
        s.subrange(p, p + 2) == ser_u16(v),
    ensures
        sp_u16(s, p) == Ok::<(u16, int), BytesFault>((v, p + 2)),
{
    assert(s[p] == s.subrange(p, p + 2)[0]);
    assert(s[p + 1] == s.subrange(p, p + 2)[1]);
    let b0 = (v / 0x100) as u8;
    let b1 = (v % 0x100) as u8;
    assert(((b0 * 0x100 + b1) as u16) == v) by (nonlinear_arith)
        requires
            b0 == (v / 0x100) as u8,
            b1 == (v % 0x100) as u8,
    ;
}

/// A 24-bit integer written and then read back at the same place gives
/// itself back.
pub proof fn lemma_u24_le_roundtrip(s: Seq<u8>, p: int, v: u32)
    requires
        0 <= p,
        p + 3 <= s.len(),
        s.subrange(p, p + 3) == ser_u24_le(v),
        v < 0x1000000,
    ensures
        sp_u24_le(s, p) == Ok::<(u32, int), BytesFault>((v, p + 3)),
{
    assert(s[p] == s.subrange(p, p + 3)[0]);
    assert(s[p + 1] == s.subrange(p, p + 3)[1]);
    assert(s[p + 2] == s.subrange(p, p + 3)[2]);
    let b0 = (v % 0x100) as u8;
    let b1 = ((v / 0x100) % 0x100) as u8;
    let b2 = ((v / 0x10000) % 0x100) as u8;
    assert(((b0 + b1 * 0x100 + b2 * 0x10000) as u32) == v) by (nonlinear_arith)
        requires
            b0 == (v % 0x100) as u8,
            b1 == ((v / 0x100) % 0x100) as u8,
            b2 == ((v / 0x10000) % 0x100) as u8,
            v < 0x1000000,
    ;
}

/// A 32-bit integer written and then read back at the same place gives
/// itself back.
pub proof fn lemma_u32_roundtrip(s: Seq<u8>, p: int, v: u32)
    requires
        0 <= p,
        p + 4 <= s.len(),
        s.subrange(p, p + 4) == ser_u32(v),
    ensures
        sp_u32(s, p) == Ok::<(u32, int), BytesFault>((v, p + 4)),
{
    assert(s[p] == s.subrange(p, p + 4)[0]);
    assert(s[p + 1] == s.subrange(p, p + 4)[1]);
    assert(s[p + 2] == s.subrange(p, p + 4)[2]);
    assert(s[p + 3] == s.subrange(p, p + 4)[3]);
    let b0 = (v / 0x1000000) as u8;
    let b1 = ((v / 0x10000) % 0x100) as u8;
    let b2 = ((v / 0x100) % 0x100) as u8;
    let b3 = (v % 0x100) as u8;
    assert(((b0 * 0x1000000 + b1 * 0x10000 + b2 * 0x100 + b3) as u32) == v) by (nonlinear_arith)
        requires
            b0 == (v / 0x1000000) as u8,
            b1 == ((v / 0x10000) % 0x100) as u8,
            b2 == ((v / 0x100) % 0x100) as u8,
            b3 == (v % 0x100) as u8,
    ;
}

/// A 64-bit integer written and then read back at the same place gives
/// itself back.
pub proof fn lemma_u64_roundtrip(s: Seq<u8>, p: int, v: u64)
    requires
        0 <= p,
        p + 8 <= s.len(),
        s.subrange(p, p + 8) == ser_u64(v),
    ensures
        sp_u64(s, p) == Ok::<(u64, int), BytesFault>((v, p + 8)),
{
    let hi = (v / 0x100000000) as u32;
    let lo = (v % 0x100000000) as u32;
    assert(s.subrange(p, p + 4) =~= s.subrange(p, p + 8).subrange(0, 4));
    assert(s.subrange(p + 4, p + 8) =~= s.subrange(p, p + 8).subrange(4, 8));
    assert(ser_u32(hi) =~= ser_u64(v).subrange(0, 4));
    assert(ser_u32(lo) =~= ser_u64(v).subrange(4, 8));
    lemma_u32_roundtrip(s, p, hi);
    lemma_u32_roundtrip(s, p + 4, lo);
    assert(v == hi * 0x100000000 + lo) by (nonlinear_arith)
        requires
            hi == v / 0x100000000,
            lo == v % 0x100000000,
    ;
}

/// A byte written and then read back at the same place gives itself back.
pub proof fn lemma_u8_roundtrip(s: Seq<u8>, p: int, v: u8)
    requires
        0 <= p,
        p + 1 <= s.len(),
        s.subrange(p, p + 1) == ser_u8(v),
    ensures
        sp_u8(s, p) == Ok::<(u8, int), BytesFault>((v, p + 1)),
{
    assert(s[p] == s.subrange(p, p + 1)[0]);
}

} // verus!

verus! {

/// The bytes of `data` from `from` up to `to`.
pub fn copy_range(data: &[u8], from: usize, to: usize) -> (v: Vec<u8>)
    requires
        from <= to <= data@.len(),
    ensures
        v@ == data@.subrange(from as int, to as int),
{
    let mut v: Vec<u8> = Vec::new();
    let mut i: usize = from;
    while i < to
        invariant
            from <= i <= to <= data@.len(),
            v@ == data@.subrange(from as int, i as int),
        decreases to - i,
    {
        v.push(data[i]);
        i += 1;
        assert(v@ =~= data@.subrange(from as int, i as int));
    }
    v
}

/// When `a + b` is found at `p`, `a` is found at `p` and `b` right after it.
pub proof fn lemma_split_at(s: Seq<u8>, p: int, a: Seq<u8>, b: Seq<u8>)
    requires
        0 <= p,
        p + a.len() + b.len() <= s.len(),
        s.subrange(p, p + a.len() + b.len()) == a + b,
    ensures
        s.subrange(p, p + a.len()) == a,
        s.subrange(p + a.len(), p + a.len() + b.len()) == b,
{
    assert(s.subrange(p, p + a.len()) =~= (a + b).subrange(0, a.len() as int));
    assert(s.subrange(p + a.len(), p + a.len() + b.len()) =~= (a + b).subrange(
        a.len() as int,
        (a.len() + b.len()) as int,
    ));
    assert((a + b).subrange(0, a.len() as int) =~= a);
    assert((a + b).subrange(a.len() as int, (a.len() + b.len()) as int) =~= b);
}

} // verus!
