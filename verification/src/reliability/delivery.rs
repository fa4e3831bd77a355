//! What one connection's layer sends, another's takes in: a short message
//! of any class queued on a new layer leaves in the first datagram of its
//! next turn, and a new layer that receives that datagram hands the
//! message out.
use vstd::prelude::*;

use crate::proto::datagram::{DatagramModel, FragmentModel, OrderingInfo};
use crate::proto::datagram_codec::{lemma_datagram_roundtrip, sp_datagram};
use crate::reliability::fragment::{Priority, Reliability};
use crate::reliability::layer::{
    fresh_layer, packet_bytes, packet_result, rto_asked, send_result, update_result, update_tail, ControllerAnswers,
    LayerModel, ORDERING_CHANNEL_SIZE,
};

verus! {

/// The fragment a short message leaves a new layer in: numbered first
/// among the reliable, sequenced and ordered ones, as its class asks.
pub open spec fn first_fragment(reliability: Reliability, channel: u8, data: Seq<u8>) -> FragmentModel {
    FragmentModel {
        reliability,
        reliable_index: if reliability.spec_is_reliable() {
            Some(0)
        } else {
            None
        },
        sequence_index: if reliability.spec_is_sequenced() {
            Some(0)
        } else {
            None
        },
        ordering_info: if reliability.spec_is_sequenced() || reliability.spec_is_ordered() {
            Some(OrderingInfo { index: 0, channel })
        } else {
            None
        },
        split_info: None,
        data,
    }
}

proof fn lemma_sender_side(
    now0: u64,
    mtu: usize,
    priority: Priority,
    reliability: Reliability,
    channel: u8,
    data: Seq<u8>,
    now1: u64,
    a: ControllerAnswers,
)
    requires
        32 <= mtu,
        channel < ORDERING_CHANNEL_SIZE,
        first_fragment(reliability, channel, data).full_size() <= mtu - 32,
        now1 >= now0,
        a.bandwidth >= first_fragment(reliability, channel, data).full_size(),
        a.seqs.len() >= 1,
        a.seqs[0] < 128,
    ensures
        ({
            let l1 = send_result(fresh_layer(now0, mtu), priority, reliability, channel, data);
            let (_, d, failed) = update_result(l1, now1, a);
            &&& !failed
            &&& d == seq![packet_bytes(a.seqs[0], a.slow_start, seq![first_fragment(reliability, channel, data)])]
        }),
{
    reveal(update_tail);
    reveal_with_fuel(crate::reliability::layer::pack_outgoing, 2);
    reveal_with_fuel(crate::reliability::layer::send_fold, 2);
    reveal_with_fuel(crate::reliability::layer::insert_pos, 2);
    reveal_with_fuel(crate::reliability::layer::reliable_only, 2);
    let f = first_fragment(reliability, channel, data);
    let l0 = fresh_layer(now0, mtu);
    let l1 = send_result(l0, priority, reliability, channel, data);
    assert(l0.send_ordering_index[channel as int] == 0);
    assert(l1.outgoing.len() == 1);
    assert(l1.outgoing[0].fragment == FragmentModel { reliable_index: None, ..f });
    assert(l1.cache == l0.cache);
    let c = l1.cache;
    assert(c.histories[crate::reliability::layer::slot_of_history(c.start)] is Invalid);
    assert(crate::reliability::retransmit_cache::invalidate_prefix(c.histories, c.start as int, 0) =~= c.histories);
    assert(c.queue + crate::reliability::retransmit_cache::fragments_below(c.histories, c.start as int, 0) =~= c.queue);
    assert(seq![FragmentModel { reliable_index: None, ..f }].drop_first().len() == 0);
    assert(l1.outgoing.drop_first() =~= Seq::empty());
    let (_, d, failed) = update_result(l1, now1, a);
    assert(d =~= seq![packet_bytes(a.seqs[0], a.slow_start, seq![f])]);
}

proof fn lemma_receiver_side(
    now2: u64,
    mtu2: usize,
    now3: u64,
    reliability: Reliability,
    channel: u8,
    data: Seq<u8>,
    seq: u32,
    needs: bool,
    rto: u64,
    size: usize,
    cont: bool,
)
    requires
        32 <= mtu2,
        channel < ORDERING_CHANNEL_SIZE,
        seq < 128,
        now3 >= now2,
    ensures
        ({
            let r1 = rto_asked(LayerModel { time_last_datagram_recved: now3, ..fresh_layer(now2, mtu2) }, rto);
            let (r2, fault) = packet_result(
                r1,
                now3,
                needs,
                seq,
                seq![first_fragment(reliability, channel, data)],
                rto,
                size,
                cont,
            );
            &&& fault is None
            &&& r2.output == seq![data]
        }),
{
    reveal_with_fuel(crate::reliability::layer::fragments_fold, 2);
    let r1 = rto_asked(LayerModel { time_last_datagram_recved: now3, ..fresh_layer(now2, mtu2) }, rto);
    let (r2, fault) = packet_result(
        r1,
        now3,
        needs,
        seq,
        seq![first_fragment(reliability, channel, data)],
        rto,
        size,
        cont,
    );
    assert(r2.output =~= seq![data]);
}

/// A short message (fewer than 8192 bytes, fitting a packet whole with its
/// header) of any class, queued on a new layer, leaves in the layer's next
/// turn in exactly one datagram when the congestion controller allows its
/// bytes and hands out one of the first packet numbers; a new layer that
/// receives that datagram, at any retransmission timeout, refuses nothing
/// and hands the message out, and nothing else.
pub proof fn lemma_message_crosses(
    now0: u64,
    mtu: usize,
    priority: Priority,
    reliability: Reliability,
    channel: u8,
    data: Seq<u8>,
    now1: u64,
    a: ControllerAnswers,
    now2: u64,
    mtu2: usize,
    now3: u64,
    rto: u64,
)
    requires
        32 <= mtu,
        32 <= mtu2,
        channel < ORDERING_CHANNEL_SIZE,
        data.len() < 8192,
        first_fragment(reliability, channel, data).full_size() <= mtu - 32,
        now1 >= now0,
        now3 >= now2,
        a.bandwidth >= first_fragment(reliability, channel, data).full_size(),
        a.seqs.len() >= 1,
        a.seqs[0] < 128,
    ensures
        ({
            let l1 = send_result(fresh_layer(now0, mtu), priority, reliability, channel, data);
            let (_, d, failed) = update_result(l1, now1, a);
            &&& !failed
            &&& d.len() == 1
            &&& match sp_datagram(d[0]) {
                Ok(DatagramModel::Packet { is_continuous_send, needs_arrival_rate, seq, fragments, .. }) => {
                    let r1 = rto_asked(LayerModel { time_last_datagram_recved: now3, ..fresh_layer(now2, mtu2) }, rto);
                    let (r2, fault) = packet_result(
                        r1,
                        now3,
                        needs_arrival_rate,
                        seq,
                        fragments,
                        rto,
                        d[0].len() as usize,
                        is_continuous_send,
                    );
                    fault is None && r2.output == seq![data]
                },
                _ => false,
            }
        }),
{
    lemma_sender_side(now0, mtu, priority, reliability, channel, data, now1, a);
    let f = first_fragment(reliability, channel, data);
    let d = DatagramModel::Packet {
        is_packet_pair: false,
        is_continuous_send: true,
        needs_arrival_rate: a.slow_start,
        seq: a.seqs[0],
        fragments: seq![f],
    };
    assert(crate::proto::datagram_codec::datagram_wf(d)) by {
        assert(crate::proto::fragment_codec::fragment_wf(f));
    }
    lemma_datagram_roundtrip(d);
    let out = update_result(send_result(fresh_layer(now0, mtu), priority, reliability, channel, data), now1, a).1;
    lemma_receiver_side(
        now2,
        mtu2,
        now3,
        reliability,
        channel,
        data,
        a.seqs[0],
        a.slow_start,
        rto,
        out[0].len() as usize,
        true,
    );
}

} // verus!
