//! The wire form of a fragment: a flag byte carrying the reliability and
//! whether the fragment is a piece of a split message, the payload length
//! in bits, the indices that the reliability calls for, the split header,
//! and the payload.
use vstd::prelude::*;

use crate::error::{BytesFault, RukBytesError};
use crate::proto::codec::{
    copy_range, lemma_split_at, lemma_u16_roundtrip, lemma_u24_le_roundtrip, lemma_u32_roundtrip,
    lemma_u8_roundtrip, not_enough_data, parsed, put_slice, put_u16, put_u24_le, put_u32, put_u8, ser_u16,
    ser_u24_le, ser_u32, ser_u8, sp_u16, sp_u24_le, sp_u32, sp_u8, try_get_u16, try_get_u24_le,
    try_get_u32, try_get_u8,
};
use crate::proto::datagram::{Fragment, FragmentModel, OrderingInfo, SplitInfo};
use crate::reliability::fragment::Reliability;

verus! {

/// The flag byte of a fragment.
pub open spec fn fragment_flags(f: FragmentModel) -> u8 {
    (f.reliability.code() * 32 + (if f.split_info is Some { 16int } else { 0int })) as u8
}

/// The reliability code held in the top three bits of a flag byte.
pub open spec fn flags_reliability_code(flags: u8) -> u8 {
    flags / 32
}

/// Whether the split bit of a flag byte is set.
pub open spec fn flags_is_split(flags: u8) -> bool {
    (flags / 16) % 2 == 1
}

pub open spec fn sp_opt_u24(s: Seq<u8>, p: int, present: bool) -> Result<(Option<u32>, int), BytesFault> {
    if present {
        match sp_u24_le(s, p) {
            Ok((v, q)) => Ok((Some(v), q)),
            Err(e) => Err(e),
        }
    } else {
        Ok((None, p))
    }
}

pub open spec fn sp_opt_ordering(s: Seq<u8>, p: int, present: bool) -> Result<(Option<OrderingInfo>, int), BytesFault> {
    if present {
        match sp_u24_le(s, p) {
            Err(e) => Err(e),
            Ok((index, q)) => match sp_u8(s, q) {
                Err(e) => Err(e),
                Ok((channel, r)) => Ok((Some(OrderingInfo { index, channel }), r)),
            },
        }
    } else {
        Ok((None, p))
    }
}

pub open spec fn sp_opt_split(s: Seq<u8>, p: int, present: bool) -> Result<(Option<SplitInfo>, int), BytesFault> {
    if present {
        match sp_u32(s, p) {
            Err(e) => Err(e),
            Ok((size, q)) => match sp_u16(s, q) {
                Err(e) => Err(e),
                Ok((id, r)) => match sp_u32(s, r) {
                    Err(e) => Err(e),
                    Ok((index, t)) => Ok((Some(SplitInfo { size, id, index }), t)),
                },
            },
        }
    } else {
        Ok((None, p))
    }
}

/// Reads the indices that reliability `rel` calls for, at `p`.
pub open spec fn sp_fragment_indices(s: Seq<u8>, p: int, rel: Reliability) -> Result<
    ((Option<u32>, Option<u32>, Option<OrderingInfo>), int),
    BytesFault,
> {
    match sp_opt_u24(s, p, rel.spec_is_reliable()) {
        Err(e) => Err(e),
        Ok((ri, p3)) => match sp_opt_u24(s, p3, rel.spec_is_sequenced()) {
            Err(e) => Err(e),
            Ok((si, p4)) => match sp_opt_ordering(
                s,
                p4,
                rel.spec_is_sequenced() || rel.spec_is_ordered(),
            ) {
                Err(e) => Err(e),
                Ok((oi, p5)) => Ok(((ri, si, oi), p5)),
            },
        },
    }
}

/// Reads the split header, if `split`, and a payload of `len` bytes at `p`.
pub open spec fn sp_fragment_tail(
    s: Seq<u8>,
    p: int,
    rel: Reliability,
    indices: (Option<u32>, Option<u32>, Option<OrderingInfo>),
    split: bool,
    len: nat,
) -> Result<(FragmentModel, int), BytesFault> {
    match sp_opt_split(s, p, split) {
        Err(e) => Err(e),
        Ok((spl, p6)) => {
            if s.len() - p6 < len {
                Err(not_enough_data())
            } else {
                Ok(
                    (
                        FragmentModel {
                            reliability: rel,
                            reliable_index: indices.0,
                            sequence_index: indices.1,
                            ordering_info: indices.2,
                            split_info: spl,
                            data: s.subrange(p6, p6 + len),
                        },
                        p6 + len,
                    ),
                )
            }
        },
    }
}

/// Reads a fragment at `p`.
pub open spec fn sp_fragment(s: Seq<u8>, p: int) -> Result<(FragmentModel, int), BytesFault> {
    match sp_u8(s, p) {
        Err(e) => Err(e),
        Ok((flags, p1)) => match Reliability::from_code(flags_reliability_code(flags)) {
            None => Err(BytesFault::Invalid("Invalid reliability"@)),
            Some(rel) => match sp_u16(s, p1) {
                Err(e) => Err(e),
                Ok((bits, p2)) => match sp_fragment_indices(s, p2, rel) {
                    Err(e) => Err(e),
                    Ok((indices, p5)) => sp_fragment_tail(
                        s,
                        p5,
                        rel,
                        indices,
                        flags_is_split(flags),
                        (bits / 8) as nat,
                    ),
                },
            },
        },
    }
}

pub open spec fn ser_opt_u24(v: Option<u32>) -> Seq<u8> {
    match v {
        Some(x) => ser_u24_le(x),
        None => Seq::empty(),
    }
}

pub open spec fn ser_opt_ordering(v: Option<OrderingInfo>) -> Seq<u8> {
    match v {
        Some(o) => ser_u24_le(o.index) + ser_u8(o.channel),
        None => Seq::empty(),
    }
}

pub open spec fn ser_opt_split(v: Option<SplitInfo>) -> Seq<u8> {
    match v {
        Some(x) => ser_u32(x.size) + (ser_u16(x.id) + ser_u32(x.index)),
        None => Seq::empty(),
    }
}

/// The payload length field: the length in bits, cut to sixteen bits.
pub open spec fn length_bits(len: nat) -> u16 {
    ((len % 8192) * 8) as u16
}

/// The bytes a fragment is written as.
#[verifier::opaque]
pub open spec fn ser_fragment(f: FragmentModel) -> Seq<u8> {
    ser_u8(fragment_flags(f)) + (ser_u16(length_bits(f.data.len())) + (ser_opt_u24(f.reliable_index)
        + (ser_opt_u24(f.sequence_index) + (ser_opt_ordering(f.ordering_info) + (ser_opt_split(
        f.split_info) + f.data)))))
}

/// A fragment whose header fields match its reliability, whose indices fit
/// in 24 bits and whose payload length fits the length field.
pub open spec fn fragment_wf(f: FragmentModel) -> bool {
    &&& (f.reliable_index is Some) == f.reliability.spec_is_reliable()
    &&& (f.sequence_index is Some) == f.reliability.spec_is_sequenced()
    &&& (f.ordering_info is Some) == (f.reliability.spec_is_sequenced()
        || f.reliability.spec_is_ordered())
    &&& (f.reliable_index matches Some(i) ==> i < 0x1000000)
    &&& (f.sequence_index matches Some(i) ==> i < 0x1000000)
    &&& (f.ordering_info matches Some(o) ==> o.index < 0x1000000)
    &&& f.data.len() < 8192
}

fn try_get_opt_u24(data: &[u8], pos: usize, present: bool) -> (r: Result<(Option<u32>, usize), RukBytesError>)
    requires
        pos <= data@.len(),
    ensures
        match r {
            Ok((v, p)) => sp_opt_u24(data@, pos as int, present) == Ok::<(Option<u32>, int), BytesFault>((v, p as int)) && p <= data@.len(),
            Err(e) => sp_opt_u24(data@, pos as int, present) == Err::<(Option<u32>, int), BytesFault>(e@),
        },
{
    if present {
        match try_get_u24_le(data, pos) {
            Ok((v, p)) => Ok((Some(v), p)),
            Err(e) => Err(e),
        }
    } else {
        Ok((None, pos))
    }
}

fn try_get_opt_ordering(data: &[u8], pos: usize, present: bool) -> (r: Result<(Option<OrderingInfo>, usize), RukBytesError>)
    requires
        pos <= data@.len(),
    ensures
        match r {
            Ok((v, p)) => sp_opt_ordering(data@, pos as int, present) == Ok::<(Option<OrderingInfo>, int), BytesFault>((v, p as int)) && p <= data@.len(),
            Err(e) => sp_opt_ordering(data@, pos as int, present) == Err::<(Option<OrderingInfo>, int), BytesFault>(e@),
        },
{
    if present {
        let (index, p) = match try_get_u24_le(data, pos) {
            Ok(x) => x,
            Err(e) => return Err(e),
        };
        let (channel, q) = match try_get_u8(data, p) {
            Ok(x) => x,
            Err(e) => return Err(e),
        };
        Ok((Some(OrderingInfo { index, channel }), q))
    } else {
        Ok((None, pos))
    }
}

fn try_get_opt_split(data: &[u8], pos: usize, present: bool) -> (r: Result<(Option<SplitInfo>, usize), RukBytesError>)
    requires
        pos <= data@.len(),
    ensures
        match r {
            Ok((v, p)) => sp_opt_split(data@, pos as int, present) == Ok::<(Option<SplitInfo>, int), BytesFault>((v, p as int)) && p <= data@.len(),
            Err(e) => sp_opt_split(data@, pos as int, present) == Err::<(Option<SplitInfo>, int), BytesFault>(e@),
        },
{
    if present {
        let (size, p) = match try_get_u32(data, pos) {
            Ok(x) => x,
            Err(e) => return Err(e),
        };
        let (id, q) = match try_get_u16(data, p) {
            Ok(x) => x,
            Err(e) => return Err(e),
        };
        let (index, t) = match try_get_u32(data, q) {
            Ok(x) => x,
            Err(e) => return Err(e),
        };
        Ok((Some(SplitInfo { size, id, index }), t))
    } else {
        Ok((None, pos))
    }
}

fn try_get_fragment_indices(data: &[u8], pos: usize, reliability: Reliability) -> (r: Result<
    ((Option<u32>, Option<u32>, Option<OrderingInfo>), usize),
    RukBytesError,
>)
    requires
        pos <= data@.len(),
    ensures
        match r {
            Ok((v, p)) => sp_fragment_indices(data@, pos as int, reliability) == Ok::<
                ((Option<u32>, Option<u32>, Option<OrderingInfo>), int),
                BytesFault,
            >((v, p as int)) && p <= data@.len(),
            Err(e) => sp_fragment_indices(data@, pos as int, reliability) == Err::<
                ((Option<u32>, Option<u32>, Option<OrderingInfo>), int),
                BytesFault,
            >(e@),
        },
{
    let (reliable_index, p3) = match try_get_opt_u24(data, pos, reliability.is_reliable()) {
        Ok(x) => x,
        Err(e) => return Err(e),
    };
    let (sequence_index, p4) = match try_get_opt_u24(data, p3, reliability.is_sequenced()) {
        Ok(x) => x,
        Err(e) => return Err(e),
    };
    let (ordering_info, p5) = match try_get_opt_ordering(
        data,
        p4,
        reliability.is_sequenced() || reliability.is_ordered(),
    ) {
        Ok(x) => x,
        Err(e) => return Err(e),
    };
    Ok(((reliable_index, sequence_index, ordering_info), p5))
}

/// Reads a fragment: its flag byte, its length, the indices its reliability
/// calls for, its split header if the flag says so, and its payload.
pub fn try_get_fragment(data: &[u8], pos: usize) -> (r: Result<(Fragment, usize), RukBytesError>)
    requires
        pos <= data@.len(),
    ensures
        parsed(r) == sp_fragment(data@, pos as int),
        r matches Ok((f, p)) ==> pos < p <= data@.len() && fragment_wf(f@),
{
    let (bit_flags, p1) = match try_get_u8(data, pos) {
        Ok(x) => x,
        Err(e) => return Err(e),
    };
    let code = (bit_flags & Fragment::RELIABILITY_MASK) >> 5;
    let is_split = bit_flags & Fragment::IS_SPLIT != 0;
    assert(code == bit_flags / 32 && is_split == ((bit_flags / 16) % 2 == 1)) by (bit_vector)
        requires
            code == (bit_flags & 0xE0u8) >> 5u8,
            is_split == (bit_flags & 0x10u8 != 0u8),
    ;
    let reliability = match Reliability::from_u8(code) {
        Some(r) => r,
        None => return Err(RukBytesError::invalid_data("Invalid reliability")),
    };
    let (bits, p2) = match try_get_u16(data, p1) {
        Ok(x) => x,
        Err(e) => return Err(e),
    };
    let len = bits / 8;
    let ((reliable_index, sequence_index, ordering_info), p5) = match try_get_fragment_indices(
        data,
        p2,
        reliability,
    ) {
        Ok(x) => x,
        Err(e) => return Err(e),
    };
    let (split_info, p6) = match try_get_opt_split(data, p5, is_split) {
        Ok(x) => x,
        Err(e) => return Err(e),
    };
    if data.len() - p6 < len as usize {
        return Err(RukBytesError::invalid_data("Not enough data"));
    }
    let end = p6 + len as usize;
    let payload = copy_range(data, p6, end);
    let fragment = Fragment {
        reliability,
        reliable_index,
        sequence_index,
        ordering_info,
        split_info,
        data: payload,
    };
    assert(fragment@ =~= (FragmentModel {
        reliability,
        reliable_index,
        sequence_index,
        ordering_info,
        split_info,
        data: data@.subrange(p6 as int, end as int),
    }));
    Ok((fragment, end))
}

fn put_opt_u24(buf: &mut Vec<u8>, v: Option<u32>)
    ensures
        final(buf)@ == old(buf)@ + ser_opt_u24(v),
{
    match v {
        Some(x) => put_u24_le(buf, x),
        None => {
            assert(final(buf)@ =~= old(buf)@ + ser_opt_u24(v));
        },
    }
}

fn put_opt_ordering(buf: &mut Vec<u8>, v: &Option<OrderingInfo>)
    ensures
        final(buf)@ == old(buf)@ + ser_opt_ordering(*v),
{
    match v {
        Some(o) => {
            put_u24_le(buf, o.index);
            put_u8(buf, o.channel);
            assert(final(buf)@ =~= old(buf)@ + ser_opt_ordering(*v));
        },
        None => {
            assert(final(buf)@ =~= old(buf)@ + ser_opt_ordering(*v));
        },
    }
}

fn put_opt_split(buf: &mut Vec<u8>, v: &Option<SplitInfo>)
    ensures
        final(buf)@ == old(buf)@ + ser_opt_split(*v),
{
    match v {
        Some(x) => {
            put_u32(buf, x.size);
            put_u16(buf, x.id);
            put_u32(buf, x.index);
            assert(final(buf)@ =~= old(buf)@ + ser_opt_split(*v));
        },
        None => {
            assert(final(buf)@ =~= old(buf)@ + ser_opt_split(*v));
        },
    }
}

fn fragment_flag_byte(fragment: &Fragment) -> (bit_flags: u8)
    ensures
        bit_flags == fragment_flags(fragment@),
{
    let code = fragment.reliability.to_u8();
    let mut bit_flags: u8 = 0;
    bit_flags |= code << 5;
    if fragment.split_info.is_some() {
        bit_flags |= Fragment::IS_SPLIT;
    }
    let ghost split = fragment.split_info is Some;
    assert(bit_flags == (code * 32 + (if split { 16u8 } else { 0u8 })) as u8) by (bit_vector)
        requires
            code < 8,
            split ==> bit_flags == (0u8 | (code << 5u8)) | 0x10u8,
            !split ==> bit_flags == 0u8 | (code << 5u8),
    ;
    bit_flags
}

/// Writes a fragment in the form `try_get_fragment` reads.
pub fn put_fragment(buf: &mut Vec<u8>, fragment: &Fragment)
    ensures
        final(buf)@ == old(buf)@ + ser_fragment(fragment@),
{
    reveal(ser_fragment);
    let ghost f = fragment@;
    let ghost b0 = buf@;
    let bit_flags = fragment_flag_byte(fragment);
    put_u8(buf, bit_flags);
    let len = fragment.data.len();
    let bits: u16 = ((len % 8192) * 8) as u16;
    assert(bits == length_bits(f.data.len()));
    put_u16(buf, bits);
    put_opt_u24(buf, fragment.reliable_index);
    put_opt_u24(buf, fragment.sequence_index);
    put_opt_ordering(buf, &fragment.ordering_info);
    put_opt_split(buf, &fragment.split_info);
    put_slice(buf, fragment.data.as_slice());
    proof {
        let a = ser_u8(fragment_flags(f));
        let b = ser_u16(length_bits(f.data.len()));
        let c = ser_opt_u24(f.reliable_index);
        let d = ser_opt_u24(f.sequence_index);
        let e = ser_opt_ordering(f.ordering_info);
        let g = ser_opt_split(f.split_info);
        let h = f.data;
        assert(buf@ == b0 + a + b + c + d + e + g + h);
        assert(b0 + a + b + c + d + e + g + h =~= b0 + (a + (b + (c + (d + (e + (g + h)))))));
    }
}

proof fn lemma_opt_u24_roundtrip(s: Seq<u8>, q: int, v: Option<u32>, present: bool)
    requires
        0 <= q,
        q + ser_opt_u24(v).len() <= s.len(),
        s.subrange(q, q + ser_opt_u24(v).len()) == ser_opt_u24(v),
        (v is Some) == present,
        v matches Some(x) ==> x < 0x1000000,
    ensures
        sp_opt_u24(s, q, present) == Ok::<(Option<u32>, int), BytesFault>((v, q + ser_opt_u24(v).len())),
{
    if let Some(x) = v {
        lemma_u24_le_roundtrip(s, q, x);
    }
}

proof fn lemma_opt_ordering_roundtrip(s: Seq<u8>, q: int, v: Option<OrderingInfo>, present: bool)
    requires
        0 <= q,
        q + ser_opt_ordering(v).len() <= s.len(),
        s.subrange(q, q + ser_opt_ordering(v).len()) == ser_opt_ordering(v),
        (v is Some) == present,
        v matches Some(o) ==> o.index < 0x1000000,
    ensures
        sp_opt_ordering(s, q, present) == Ok::<(Option<OrderingInfo>, int), BytesFault>(
            (v, q + ser_opt_ordering(v).len()),
        ),
{
    if let Some(o) = v {
        lemma_split_at(s, q, ser_u24_le(o.index), ser_u8(o.channel));
        lemma_u24_le_roundtrip(s, q, o.index);
        lemma_u8_roundtrip(s, q + 3, o.channel);
    }
}

proof fn lemma_opt_split_roundtrip(s: Seq<u8>, q: int, v: Option<SplitInfo>, present: bool)
    requires
        0 <= q,
        q + ser_opt_split(v).len() <= s.len(),
        s.subrange(q, q + ser_opt_split(v).len()) == ser_opt_split(v),
        (v is Some) == present,
    ensures
        sp_opt_split(s, q, present) == Ok::<(Option<SplitInfo>, int), BytesFault>(
            (v, q + ser_opt_split(v).len()),
        ),
{
    if let Some(x) = v {
        lemma_split_at(s, q, ser_u32(x.size), ser_u16(x.id) + ser_u32(x.index));
        lemma_split_at(s, q + 4, ser_u16(x.id), ser_u32(x.index));
        lemma_u32_roundtrip(s, q, x.size);
        lemma_u16_roundtrip(s, q + 4, x.id);
        lemma_u32_roundtrip(s, q + 6, x.index);
    }
}

/// The number of bytes a well-formed fragment is written as is its full
/// size as `calc_full_size` counts it.
pub proof fn lemma_fragment_size(f: FragmentModel)
    requires
        fragment_wf(f),
    ensures
        ser_fragment(f).len() == f.full_size(),
{
    reveal(ser_fragment);
}

proof fn lemma_fragment_indices_roundtrip(s: Seq<u8>, q: int, f: FragmentModel)
    requires
        0 <= q,
        fragment_wf(f),
        q + ser_opt_u24(f.reliable_index).len() + ser_opt_u24(f.sequence_index).len()
            + ser_opt_ordering(f.ordering_info).len() <= s.len(),
        s.subrange(
            q,
            q + ser_opt_u24(f.reliable_index).len() + ser_opt_u24(f.sequence_index).len()
                + ser_opt_ordering(f.ordering_info).len(),
        ) == ser_opt_u24(f.reliable_index) + (ser_opt_u24(f.sequence_index) + ser_opt_ordering(
            f.ordering_info,
        )),
    ensures
        sp_fragment_indices(s, q, f.reliability) == Ok::<
            ((Option<u32>, Option<u32>, Option<OrderingInfo>), int),
            BytesFault,
        >(
            (
                (f.reliable_index, f.sequence_index, f.ordering_info),
                q + ser_opt_u24(f.reliable_index).len() + ser_opt_u24(f.sequence_index).len()
                    + ser_opt_ordering(f.ordering_info).len(),
            ),
        ),
{
    let c = ser_opt_u24(f.reliable_index);
    let d = ser_opt_u24(f.sequence_index);
    let e = ser_opt_ordering(f.ordering_info);
    lemma_split_at(s, q, c, d + e);
    lemma_split_at(s, q + c.len(), d, e);
    lemma_opt_u24_roundtrip(s, q, f.reliable_index, f.reliability.spec_is_reliable());
    lemma_opt_u24_roundtrip(s, q + c.len(), f.sequence_index, f.reliability.spec_is_sequenced());
    lemma_opt_ordering_roundtrip(
        s,
        q + c.len() + d.len(),
        f.ordering_info,
        f.reliability.spec_is_sequenced() || f.reliability.spec_is_ordered(),
    );
}

proof fn lemma_fragment_tail_roundtrip(s: Seq<u8>, q: int, f: FragmentModel)
    requires
        0 <= q,
        q + ser_opt_split(f.split_info).len() + f.data.len() <= s.len(),
        s.subrange(q, q + ser_opt_split(f.split_info).len() + f.data.len()) == ser_opt_split(
            f.split_info,
        ) + f.data,
    ensures
        sp_fragment_tail(
            s,
            q,
            f.reliability,
            (f.reliable_index, f.sequence_index, f.ordering_info),
            f.split_info is Some,
            f.data.len(),
        ) == Ok::<(FragmentModel, int), BytesFault>(
            (f, q + ser_opt_split(f.split_info).len() + f.data.len()),
        ),
{
    let g = ser_opt_split(f.split_info);
    lemma_split_at(s, q, g, f.data);
    lemma_opt_split_roundtrip(s, q, f.split_info, f.split_info is Some);
    let p6 = q + g.len();
    let m = FragmentModel {
        reliability: f.reliability,
        reliable_index: f.reliable_index,
        sequence_index: f.sequence_index,
        ordering_info: f.ordering_info,
        split_info: f.split_info,
        data: s.subrange(p6, p6 + f.data.len()),
    };
    assert(m =~= f);
}

proof fn lemma_header_fields(f: FragmentModel)
    requires
        fragment_wf(f),
    ensures
        flags_reliability_code(fragment_flags(f)) == f.reliability.code(),
        flags_is_split(fragment_flags(f)) == (f.split_info is Some),
        Reliability::from_code(f.reliability.code()) == Some(f.reliability),
        length_bits(f.data.len()) / 8 == f.data.len(),
{
}

/// A well-formed fragment written at `p` and read back from `p` gives
/// itself back, and the read ends where the written bytes end.
#[verifier::rlimit(40)]
pub proof fn lemma_fragment_roundtrip(s: Seq<u8>, p: int, f: FragmentModel)
    requires
        0 <= p,
        p + ser_fragment(f).len() <= s.len(),
        s.subrange(p, p + ser_fragment(f).len()) == ser_fragment(f),
        fragment_wf(f),
    ensures
        sp_fragment(s, p) == Ok::<(FragmentModel, int), BytesFault>((f, p + ser_fragment(f).len())),
{
    reveal(ser_fragment);
    let a = ser_u8(fragment_flags(f));
    let b = ser_u16(length_bits(f.data.len()));
    let c = ser_opt_u24(f.reliable_index);
    let d = ser_opt_u24(f.sequence_index);
    let e = ser_opt_ordering(f.ordering_info);
    let g = ser_opt_split(f.split_info);
    let h = f.data;
    let mid = c + (d + e);
    let tail = g + h;
    assert(ser_fragment(f) =~= a + (b + (mid + tail)));
    lemma_split_at(s, p, a, b + (mid + tail));
    lemma_split_at(s, p + 1, b, mid + tail);
    lemma_split_at(s, p + 3, mid, tail);
    lemma_u8_roundtrip(s, p, fragment_flags(f));
    lemma_header_fields(f);
    lemma_u16_roundtrip(s, p + 1, length_bits(f.data.len()));
    lemma_fragment_indices_roundtrip(s, p + 3, f);
    lemma_fragment_tail_roundtrip(s, p + 3 + mid.len(), f);
}

} // verus!
