//! The wire form of a datagram: a flag byte, then either an optional arrival
//! rate and a list of acknowledged numbers, a list of negatively
//! acknowledged numbers, or a 24-bit packet number followed by fragments up
//! to the end of the datagram.
use vstd::prelude::*;

use crate::error::{BytesFault, RukBytesError};
use crate::proto::ack_codec::{
    lemma_seq_list_roundtrip, put_seqs, ser_seq_list, sorted_seqs, sp_seqs, try_get_seqs,
};
use crate::proto::codec::{
    lemma_split_at, lemma_u24_le_roundtrip, lemma_u32_roundtrip, lemma_u8_roundtrip, put_u24_le,
    put_u32, put_u8, ser_u24_le, ser_u32, ser_u8, sp_u24_le, sp_u32, sp_u8, try_get_u24_le,
    try_get_u32, try_get_u8,
};
use crate::proto::datagram::{Datagram, DatagramModel, Fragment, FragmentModel};
use crate::proto::fragment_codec::{
    fragment_wf, lemma_fragment_roundtrip, put_fragment, ser_fragment, sp_fragment,
    try_get_fragment,
};

verus! {

/// Whether the bit `mask` (a power of two) is set in `flags`.
pub open spec fn has_bit(flags: u8, mask: u8) -> bool {
    (flags / mask) % 2 == 1
}

/// A fragment read ends after where it starts and within the bytes.
pub proof fn lemma_fragment_advances(s: Seq<u8>, p: int)
    requires
        0 <= p,
    ensures
        sp_fragment(s, p) matches Ok((_, q)) ==> p < q <= s.len(),
{
}

/// Reads fragments from `p` up to the end of the bytes.
pub open spec fn sp_fragments(s: Seq<u8>, p: int) -> Result<Seq<FragmentModel>, BytesFault>
    decreases s.len() - p,
{
    if p < 0 || p >= s.len() {
        Ok(Seq::empty())
    } else {
        match sp_fragment(s, p) {
            Err(e) => Err(e),
            Ok((f, q)) => {
                proof {
                    lemma_fragment_advances(s, p);
                }
                match sp_fragments(s, q) {
                    Err(e) => Err(e),
                    Ok(rest) => Ok(seq![f] + rest),
                }
            },
        }
    }
}

/// Reads a whole datagram.
pub open spec fn sp_datagram(s: Seq<u8>) -> Result<DatagramModel, BytesFault> {
    match sp_u8(s, 0) {
        Err(e) => Err(e),
        Ok((flags, p1)) => if !has_bit(flags, Datagram::IS_VALID) {
            Err(BytesFault::Invalid("Invalid datagram"@))
        } else if has_bit(flags, Datagram::IS_ACK) {
            let rate = if has_bit(flags, Datagram::HAS_ARRIVAL_RATE) {
                match sp_u32(s, p1) {
                    Err(e) => Err(e),
                    Ok((v, q)) => Ok((Some(v), q)),
                }
            } else {
                Ok((None, p1))
            };
            match rate {
                Err(e) => Err(e),
                Ok((arrival_rate, p2)) => match sp_seqs(s, p2) {
                    Err(e) => Err(e),
                    Ok((seqs, _)) => Ok(DatagramModel::Ack { arrival_rate, seqs }),
                },
            }
        } else if has_bit(flags, Datagram::IS_NAK) {
            match sp_seqs(s, p1) {
                Err(e) => Err(e),
                Ok((seqs, _)) => Ok(DatagramModel::Nak { seqs }),
            }
        } else {
            match sp_u24_le(s, p1) {
                Err(e) => Err(e),
                Ok((seq, p2)) => match sp_fragments(s, p2) {
                    Err(e) => Err(e),
                    Ok(fragments) => Ok(
                        DatagramModel::Packet {
                            is_packet_pair: has_bit(flags, Datagram::IS_PACKET_PAIR),
                            is_continuous_send: has_bit(flags, Datagram::IS_CONTINUOUS_SEND),
                            needs_arrival_rate: has_bit(flags, Datagram::NEEDS_ARRIVAL_RATE),
                            seq,
                            fragments,
                        },
                    ),
                },
            }
        },
    }
}

/// The fragments written one after the other.
pub open spec fn ser_fragments(fs: Seq<FragmentModel>) -> Seq<u8>
    decreases fs.len(),
{
    if fs.len() == 0 {
        Seq::empty()
    } else {
        ser_fragment(fs[0]) + ser_fragments(fs.drop_first())
    }
}

/// The flag byte of a packet.
pub open spec fn packet_flags(pair: bool, cont: bool, needs: bool) -> u8 {
    (0x80 + (if pair { 0x10int } else { 0 }) + (if cont { 0x08int } else { 0 }) + (if needs {
        0x04int
    } else {
        0
    })) as u8
}

/// The bytes a datagram is written as.
pub open spec fn ser_datagram(d: DatagramModel) -> Seq<u8> {
    match d {
        DatagramModel::Ack { arrival_rate, seqs } => match arrival_rate {
            Some(r) => ser_u8(0xE0) + (ser_u32(r) + ser_seq_list(seqs)),
            None => ser_u8(0xC0) + ser_seq_list(seqs),
        },
        DatagramModel::Nak { seqs } => ser_u8(0xA0) + ser_seq_list(seqs),
        DatagramModel::Packet {
            is_packet_pair,
            is_continuous_send,
            needs_arrival_rate,
            seq,
            fragments,
        } => ser_u8(packet_flags(is_packet_pair, is_continuous_send, needs_arrival_rate)) + (
        ser_u24_le(seq) + ser_fragments(fragments)),
    }
}

/// The datagram as it is written: the numbers of an acknowledgement sorted.
pub open spec fn normalized(d: DatagramModel) -> DatagramModel {
    match d {
        DatagramModel::Ack { arrival_rate, seqs } => DatagramModel::Ack {
            arrival_rate,
            seqs: sorted_seqs(seqs),
        },
        DatagramModel::Nak { seqs } => DatagramModel::Nak { seqs: sorted_seqs(seqs) },
        DatagramModel::Packet { .. } => d,
    }
}

/// A list of numbers that can be written: non-empty and without the
/// largest 32-bit value.
pub open spec fn seqs_writable(seqs: Seq<u32>) -> bool {
    &&& seqs.len() > 0
    &&& forall|i: int| 0 <= i < seqs.len() ==> #[trigger] seqs[i] < u32::MAX
}

/// A datagram that `put_datagram` accepts.
pub open spec fn datagram_writable(d: DatagramModel) -> bool {
    match d {
        DatagramModel::Ack { seqs, .. } => seqs_writable(seqs),
        DatagramModel::Nak { seqs } => seqs_writable(seqs),
        DatagramModel::Packet { .. } => true,
    }
}

/// A list of numbers that reads back as written: non-empty, of 24-bit
/// numbers, in fewer than 65536 runs of consecutive numbers.
pub open spec fn seqs_wf(seqs: Seq<u32>) -> bool {
    &&& 1 <= seqs.len()
    &&& forall|i: int| 0 <= i < seqs.len() ==> #[trigger] seqs[i] < 0x1000000
    &&& crate::proto::ack_codec::seq_ranges(seqs).len() < 0x10000
}

/// A datagram that `put_datagram` writes so that it reads back: the numbers
/// of an acknowledgement make a well-formed list once sorted.
pub open spec fn put_wf(d: DatagramModel) -> bool {
    match d {
        DatagramModel::Ack { seqs, .. } => seqs_wf(sorted_seqs(seqs)),
        DatagramModel::Nak { seqs } => seqs_wf(sorted_seqs(seqs)),
        DatagramModel::Packet { .. } => datagram_wf(d),
    }
}

/// A datagram that reads back as written.
pub open spec fn datagram_wf(d: DatagramModel) -> bool {
    match d {
        DatagramModel::Ack { seqs, .. } => seqs_wf(seqs),
        DatagramModel::Nak { seqs } => seqs_wf(seqs),
        DatagramModel::Packet { seq, fragments, .. } => {
            &&& seq < 0x1000000
            &&& forall|i: int| 0 <= i < fragments.len() ==> fragment_wf(#[trigger] fragments[i])
        },
    }
}

pub open spec fn fragments_view(fs: Seq<Fragment>) -> Seq<FragmentModel> {
    fs.map_values(|f: Fragment| f@)
}

proof fn lemma_fragments_step(s: Seq<u8>, p: int, f: FragmentModel, q: int)
    requires
        0 <= p < s.len(),
        sp_fragment(s, p) == Ok::<(FragmentModel, int), BytesFault>((f, q)),
    ensures
        sp_fragments(s, p) == match sp_fragments(s, q) {
            Ok(rest) => Ok::<Seq<FragmentModel>, BytesFault>(seq![f] + rest),
            Err(e) => Err(e),
        },
{
}

fn try_get_fragments(data: &[u8], pos: usize) -> (r: Result<Vec<Fragment>, RukBytesError>)
    requires
        pos <= data@.len(),
    ensures
        match r {
            Ok(fs) => sp_fragments(data@, pos as int) == Ok::<Seq<FragmentModel>, BytesFault>(
                fragments_view(fs@),
            ),
            Err(e) => sp_fragments(data@, pos as int) == Err::<Seq<FragmentModel>, BytesFault>(e@),
        },
{
    let mut fragments: Vec<Fragment> = Vec::new();
    let mut p = pos;
    while p < data.len()
        invariant
            pos <= p <= data@.len(),
            sp_fragments(data@, pos as int) == match sp_fragments(data@, p as int) {
                Ok(rest) => Ok::<Seq<FragmentModel>, BytesFault>(fragments_view(fragments@) + rest),
                Err(e) => Err(e),
            },
        decreases data@.len() - p,
    {
        match try_get_fragment(data, p) {
            Ok((f, q)) => {
                proof {
                    lemma_fragments_step(data@, p as int, f@, q as int);
                }
                let ghost before = fragments_view(fragments@);
                fragments.push(f);
                assert(fragments_view(fragments@) =~= before + seq![f@]);
                proof {
                    match sp_fragments(data@, q as int) {
                        Ok(rest) => {
                            assert(before + (seq![f@] + rest) =~= (before + seq![f@]) + rest);
                        },
                        Err(_) => {},
                    }
                }
                p = q;
            },
            Err(e) => {
                return Err(e);
            },
        }
    }
    assert(fragments_view(fragments@) + Seq::<FragmentModel>::empty() =~= fragments_view(fragments@));
    Ok(fragments)
}

/// Reads a whole datagram: an acknowledgement with its optional arrival
/// rate and numbers, a negative acknowledgement with its numbers, or a
/// packet with its number, flags and the fragments up to the end.
pub fn try_get_datagram(data: &[u8]) -> (r: Result<Datagram, RukBytesError>)
    ensures
        match r {
            Ok(d) => sp_datagram(data@) == Ok::<DatagramModel, BytesFault>(d@),
            Err(e) => sp_datagram(data@) == Err::<DatagramModel, BytesFault>(e@),
        },
{
    let (bit_flags, p1) = match try_get_u8(data, 0) {
        Ok(x) => x,
        Err(e) => return Err(e),
    };
    let is_valid = bit_flags & Datagram::IS_VALID != 0;
    let is_ack = bit_flags & Datagram::IS_ACK != 0;
    let has_arrival_rate = bit_flags & Datagram::HAS_ARRIVAL_RATE != 0;
    let is_nak = bit_flags & Datagram::IS_NAK != 0;
    let is_packet_pair = bit_flags & Datagram::IS_PACKET_PAIR != 0;
    let is_continuous_send = bit_flags & Datagram::IS_CONTINUOUS_SEND != 0;
    let needs_arrival_rate = bit_flags & Datagram::NEEDS_ARRIVAL_RATE != 0;
    assert(is_valid == has_bit(bit_flags, 0x80) && is_ack == has_bit(bit_flags, 0x40) && is_nak
        == has_bit(bit_flags, 0x20) && has_arrival_rate == has_bit(bit_flags, 0x20)
        && is_packet_pair == has_bit(bit_flags, 0x10) && is_continuous_send == has_bit(
        bit_flags,
        0x08,
    ) && needs_arrival_rate == has_bit(bit_flags, 0x04)) by (bit_vector)
        requires
            is_valid == (bit_flags & 0x80u8 != 0u8),
            is_ack == (bit_flags & 0x40u8 != 0u8),
            is_nak == (bit_flags & 0x20u8 != 0u8),
            has_arrival_rate == (bit_flags & 0x20u8 != 0u8),
            is_packet_pair == (bit_flags & 0x10u8 != 0u8),
            is_continuous_send == (bit_flags & 0x08u8 != 0u8),
            needs_arrival_rate == (bit_flags & 0x04u8 != 0u8),
    ;
    if !is_valid {
        return Err(RukBytesError::invalid_data("Invalid datagram"));
    }
    if is_ack {
        let (arrival_rate, p2) = if has_arrival_rate {
            match try_get_u32(data, p1) {
                Ok((v, q)) => (Some(v), q),
                Err(e) => return Err(e),
            }
        } else {
            (None, p1)
        };
        let (seqs, _) = match try_get_seqs(data, p2) {
            Ok(x) => x,
            Err(e) => return Err(e),
        };
        return Ok(Datagram::Ack { arrival_rate, seqs });
    }
    if is_nak {
        let (seqs, _) = match try_get_seqs(data, p1) {
            Ok(x) => x,
            Err(e) => return Err(e),
        };
        return Ok(Datagram::Nak { seqs });
    }
    let (seq, p2) = match try_get_u24_le(data, p1) {
        Ok(x) => x,
        Err(e) => return Err(e),
    };
    let fragments = match try_get_fragments(data, p2) {
        Ok(x) => x,
        Err(e) => return Err(e),
    };
    Ok(Datagram::Packet { is_packet_pair, is_continuous_send, needs_arrival_rate, seq, fragments })
}

proof fn lemma_ser_fragments_push(fs: Seq<FragmentModel>, f: FragmentModel)
    ensures
        ser_fragments(fs.push(f)) == ser_fragments(fs) + ser_fragment(f),
    decreases fs.len(),
{
    if fs.len() == 0 {
        assert(fs.push(f).drop_first() =~= Seq::<FragmentModel>::empty());
        assert(fs.push(f)[0] == f);
        assert(ser_fragments(Seq::<FragmentModel>::empty()) =~= Seq::<u8>::empty());
        assert(ser_fragments(fs.push(f)) =~= ser_fragment(f));
        assert(ser_fragments(fs) =~= Seq::<u8>::empty());
    } else {
        assert(fs.push(f).drop_first() =~= fs.drop_first().push(f));
        lemma_ser_fragments_push(fs.drop_first(), f);
        assert(ser_fragments(fs.push(f)) =~= ser_fragments(fs) + ser_fragment(f));
    }
}

fn packet_flag_byte(pair: bool, cont: bool, needs: bool) -> (b: u8)
    ensures
        b == packet_flags(pair, cont, needs),
{
    let x: u8 = if pair { Datagram::IS_PACKET_PAIR } else { 0 };
    let y: u8 = if cont { Datagram::IS_CONTINUOUS_SEND } else { 0 };
    let z: u8 = if needs { Datagram::NEEDS_ARRIVAL_RATE } else { 0 };
    let bit_flags = Datagram::IS_VALID | x | y | z;
    assert(bit_flags == 0x80u8 + x + y + z) by (bit_vector)
        requires
            x == 0u8 || x == 0x10u8,
            y == 0u8 || y == 0x08u8,
            z == 0u8 || z == 0x04u8,
            bit_flags == ((0x80u8 | x) | y) | z,
    ;
    bit_flags
}

/// Writes a datagram in the form `try_get_datagram` reads. The numbers of
/// an acknowledgement are sorted in place first.
pub fn put_datagram(buf: &mut Vec<u8>, datagram: &mut Datagram)
    requires
        datagram_writable(old(datagram)@),
    ensures
        final(datagram)@ == normalized(old(datagram)@),
        final(buf)@ == old(buf)@ + ser_datagram(final(datagram)@),
{
    match datagram {
        Datagram::Ack { arrival_rate, seqs } => {
            match arrival_rate {
                Some(r) => {
                    put_u8(buf, 0xE0);
                    put_u32(buf, *r);
                },
                None => {
                    put_u8(buf, 0xC0);
                },
            }
            put_seqs(buf, seqs);
            assert(final(buf)@ =~= old(buf)@ + ser_datagram(final(datagram)@));
        },
        Datagram::Nak { seqs } => {
            put_u8(buf, 0xA0);
            put_seqs(buf, seqs);
            assert(final(buf)@ =~= old(buf)@ + ser_datagram(final(datagram)@));
        },
        Datagram::Packet {
            is_packet_pair,
            is_continuous_send,
            needs_arrival_rate,
            seq,
            fragments,
        } => {
            put_u8(buf, packet_flag_byte(*is_packet_pair, *is_continuous_send, *needs_arrival_rate));
            put_u24_le(buf, *seq);
            let ghost b1 = buf@;
            let mut j: usize = 0;
            while j < fragments.len()
                invariant
                    j <= fragments@.len(),
                    buf@ == b1 + ser_fragments(fragments_view(fragments@).take(j as int)),
                decreases fragments@.len() - j,
            {
                let ghost fv = fragments_view(fragments@);
                put_fragment(buf, &fragments[j]);
                proof {
                    assert(fv.take(j + 1) =~= fv.take(j as int).push(fv[j as int]));
                    lemma_ser_fragments_push(fv.take(j as int), fv[j as int]);
                }
                j += 1;
            }
            assert(fragments_view(fragments@).take(fragments@.len() as int) =~= fragments_view(fragments@));
            assert(final(buf)@ =~= old(buf)@ + ser_datagram(final(datagram)@));
        },
    }
}

proof fn lemma_fragments_roundtrip(s: Seq<u8>, p: int, fs: Seq<FragmentModel>)
    requires
        0 <= p,
        p + ser_fragments(fs).len() == s.len(),
        s.subrange(p, s.len() as int) == ser_fragments(fs),
        forall|i: int| 0 <= i < fs.len() ==> fragment_wf(#[trigger] fs[i]),
    ensures
        sp_fragments(s, p) == Ok::<Seq<FragmentModel>, BytesFault>(fs),
    decreases fs.len(),
{
    if fs.len() == 0 {
        assert(fs =~= Seq::<FragmentModel>::empty());
    } else {
        let f = fs[0];
        let rest = fs.drop_first();
        lemma_split_at(s, p, ser_fragment(f), ser_fragments(rest));
        lemma_fragment_roundtrip(s, p, f);
        let q = p + ser_fragment(f).len();
        assert(forall|i: int| 0 <= i < rest.len() ==> rest[i] == fs[i + 1]);
        lemma_fragments_roundtrip(s, q, rest);
        assert(seq![f] + rest =~= fs);
    }
}

proof fn lemma_ack_roundtrip(arrival_rate: Option<u32>, seqs: Seq<u32>)
    requires
        seqs_wf(seqs),
    ensures
        sp_datagram(ser_datagram(DatagramModel::Ack { arrival_rate, seqs }))
            == Ok::<DatagramModel, BytesFault>(DatagramModel::Ack { arrival_rate, seqs }),
{
    let s = ser_datagram(DatagramModel::Ack { arrival_rate, seqs });
    assert(s.subrange(0, s.len() as int) =~= s);
    match arrival_rate {
        Some(r) => {
            lemma_split_at(s, 0, ser_u8(0xE0), ser_u32(r) + ser_seq_list(seqs));
            lemma_split_at(s, 1, ser_u32(r), ser_seq_list(seqs));
            lemma_u8_roundtrip(s, 0, 0xE0);
            lemma_u32_roundtrip(s, 1, r);
            lemma_seq_list_roundtrip(s, 5, seqs);
        },
        None => {
            lemma_split_at(s, 0, ser_u8(0xC0), ser_seq_list(seqs));
            lemma_u8_roundtrip(s, 0, 0xC0);
            lemma_seq_list_roundtrip(s, 1, seqs);
        },
    }
}

proof fn lemma_nak_roundtrip(seqs: Seq<u32>)
    requires
        seqs_wf(seqs),
    ensures
        sp_datagram(ser_datagram(DatagramModel::Nak { seqs })) == Ok::<DatagramModel, BytesFault>(
            DatagramModel::Nak { seqs },
        ),
{
    let s = ser_datagram(DatagramModel::Nak { seqs });
    assert(s.subrange(0, s.len() as int) =~= s);
    lemma_split_at(s, 0, ser_u8(0xA0), ser_seq_list(seqs));
    lemma_u8_roundtrip(s, 0, 0xA0);
    lemma_seq_list_roundtrip(s, 1, seqs);
}

proof fn lemma_packet_flags(pair: bool, cont: bool, needs: bool)
    ensures
        has_bit(packet_flags(pair, cont, needs), 0x80),
        !has_bit(packet_flags(pair, cont, needs), 0x40),
        !has_bit(packet_flags(pair, cont, needs), 0x20),
        has_bit(packet_flags(pair, cont, needs), 0x10) == pair,
        has_bit(packet_flags(pair, cont, needs), 0x08) == cont,
        has_bit(packet_flags(pair, cont, needs), 0x04) == needs,
{
}

proof fn lemma_packet_roundtrip(d: DatagramModel)
    requires
        d is Packet,
        datagram_wf(d),
    ensures
        sp_datagram(ser_datagram(d)) == Ok::<DatagramModel, BytesFault>(d),
{
    let s = ser_datagram(d);
    if let DatagramModel::Packet {
        is_packet_pair,
        is_continuous_send,
        needs_arrival_rate,
        seq,
        fragments,
    } = d {
        let flags = packet_flags(is_packet_pair, is_continuous_send, needs_arrival_rate);
        assert(s.subrange(0, s.len() as int) =~= s);
        lemma_packet_flags(is_packet_pair, is_continuous_send, needs_arrival_rate);
        lemma_split_at(s, 0, ser_u8(flags), ser_u24_le(seq) + ser_fragments(fragments));
        lemma_split_at(s, 1, ser_u24_le(seq), ser_fragments(fragments));
        lemma_u8_roundtrip(s, 0, flags);
        lemma_u24_le_roundtrip(s, 1, seq);
        assert(s.subrange(4, s.len() as int) == ser_fragments(fragments));
        lemma_fragments_roundtrip(s, 4, fragments);
    }
}

/// A well-formed datagram, written and read back, gives itself back.
pub proof fn lemma_datagram_roundtrip(d: DatagramModel)
    requires
        datagram_wf(d),
    ensures
        sp_datagram(ser_datagram(d)) == Ok::<DatagramModel, BytesFault>(d),
{
    match d {
        DatagramModel::Ack { arrival_rate, seqs } => lemma_ack_roundtrip(arrival_rate, seqs),
        DatagramModel::Nak { seqs } => lemma_nak_roundtrip(seqs),
        DatagramModel::Packet { .. } => lemma_packet_roundtrip(d),
    }
}

/// What `put_datagram` writes reads back as the datagram with the numbers
/// of an acknowledgement sorted: the read gives back the write.
pub proof fn lemma_put_datagram_reads_back(d: DatagramModel)
    requires
        put_wf(d),
    ensures
        datagram_wf(normalized(d)),
        sp_datagram(ser_datagram(normalized(d))) == Ok::<DatagramModel, BytesFault>(normalized(d)),
{
    lemma_datagram_roundtrip(normalized(d));
}

/// A packet number read from the wire takes 24 bits.
pub proof fn lemma_packet_seq_bound(s: Seq<u8>)
    ensures
        sp_datagram(s) matches Ok(DatagramModel::Packet { seq, .. }) ==> seq < 0x1000000,
{
    if let Ok((flags, p1)) = sp_u8(s, 0) {
        if let Ok((seq, _)) = sp_u24_le(s, p1) {
            let b0 = s[p1];
            let b1 = s[p1 + 1];
            let b2 = s[p1 + 2];
            assert(b0 + b1 * 0x100 + b2 * 0x10000 < 0x1000000);
        }
    }
}

} // verus!
