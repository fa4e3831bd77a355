use ruknet::proto::ack_codec::{put_seqs, try_get_seqs};
use ruknet::proto::datagram::{Datagram, Fragment, OrderingInfo, SplitInfo};
use ruknet::proto::datagram_codec::{put_datagram, try_get_datagram};
use ruknet::proto::fragment_codec::{put_fragment, try_get_fragment};
use ruknet::proto::message::{OfflineMessageIDs, OnlineMessageIDs};
use ruknet::reliability::congestion_controller::sliding_window::SlidingWindowCore;
use ruknet::reliability::congestion_controller::udt::{LossStep, RateStep, UdtCore};
use ruknet::reliability::retransmit_cache::RetransmitCache;
use ruknet::reliability::window::Window;
use ruknet::{Priority, Reliability};

fn fragment(reliability: Reliability, data: Vec<u8>) -> Fragment {
    Fragment { reliability, reliable_index: None, sequence_index: None, ordering_info: None, split_info: None, data }
}

#[test]
fn reliability_codes_roundtrip() {
    for v in 0u8..8 {
        let r = Reliability::from_u8(v).unwrap();
        assert_eq!(r.to_u8(), v);
    }
    assert!(Reliability::from_u8(8).is_none());
    assert!(Reliability::Reliable.is_reliable());
    assert!(!Reliability::Unreliable.is_reliable());
    assert!(Reliability::UnreliableSequenced.is_sequenced());
    assert!(Reliability::ReliableOrderedWithAckReceipt.is_ordered());
    assert_eq!(Reliability::Unreliable.reliablize(), Reliability::Reliable);
    assert_eq!(Reliability::UnreliableSequenced.reliablize(), Reliability::ReliableSequenced);
    assert_eq!(Reliability::UnreliableWithAckReceipt.reliablize(), Reliability::ReliableWithAckReceipt);
    assert_eq!(Reliability::ReliableOrdered.reliablize(), Reliability::ReliableOrdered);
    assert_eq!(Priority::Low.index(), 3);
}

#[test]
fn message_ids_roundtrip() {
    for v in 0u8..=255 {
        if let Some(id) = OfflineMessageIDs::from_u8(v) {
            assert_eq!(id.to_u8(), v);
        }
        if let Some(id) = OnlineMessageIDs::from_u8(v) {
            assert_eq!(id.to_u8(), v);
        }
    }
    assert_eq!(OfflineMessageIDs::UnconnectedPong.to_u8(), 0x1c);
    assert_eq!(OnlineMessageIDs::DisconnectionNotification.to_u8(), 0x15);
    assert!(OnlineMessageIDs::from_u8(0xfe).is_none());
}

#[test]
fn header_sizes() {
    let mut f = fragment(Reliability::Unreliable, vec![0; 10]);
    assert_eq!(f.calc_header_size(), 3);
    assert_eq!(f.calc_full_size(), 13);
    f.reliability = Reliability::ReliableSequenced;
    assert_eq!(f.calc_header_size(), 13);
    f.reliability = Reliability::ReliableOrdered;
    f.split_info = Some(SplitInfo { size: 2, id: 1, index: 0 });
    assert_eq!(f.calc_header_size(), 20);
}

#[test]
fn fragment_roundtrip() {
    let f = Fragment {
        reliability: Reliability::ReliableSequenced,
        reliable_index: Some(0x0a0b0c),
        sequence_index: Some(7),
        ordering_info: Some(OrderingInfo { index: 3, channel: 5 }),
        split_info: Some(SplitInfo { size: 4, id: 9, index: 2 }),
        data: b"abc".to_vec(),
    };
    let mut buf = Vec::new();
    put_fragment(&mut buf, &f);
    assert_eq!(buf.len(), f.calc_full_size());
    let (g, end) = try_get_fragment(&buf, 0).unwrap();
    assert_eq!(end, buf.len());
    assert_eq!(g.reliability, f.reliability);
    assert_eq!(g.reliable_index, f.reliable_index);
    assert_eq!(g.sequence_index, f.sequence_index);
    assert_eq!(g.ordering_info, f.ordering_info);
    assert_eq!(g.split_info, f.split_info);
    assert_eq!(g.data, f.data);
}

#[test]
fn ack_numbers_are_sorted_and_ranged() {
    let mut seqs = vec![10, 4, 3, 5];
    let mut buf = Vec::new();
    put_seqs(&mut buf, &mut seqs);
    assert_eq!(seqs, vec![3, 4, 5, 10]);
    // two records: the range 3..=5 and the single 10
    assert_eq!(&buf[..2], &[0, 2]);
    let (back, end) = try_get_seqs(&buf, 0).unwrap();
    assert_eq!(back, vec![3, 4, 5, 10]);
    assert_eq!(end, buf.len());
}

#[test]
fn ack_datagram_roundtrip() {
    let mut d = Datagram::Ack { arrival_rate: Some(1.5f32.to_bits()), seqs: vec![2, 1] };
    let mut buf = Vec::new();
    put_datagram(&mut buf, &mut d);
    assert_eq!(buf[0], 0xE0);
    match try_get_datagram(&buf).unwrap() {
        Datagram::Ack { arrival_rate, seqs } => {
            assert_eq!(arrival_rate.map(f32::from_bits), Some(1.5));
            assert_eq!(seqs, vec![1, 2]);
        }
        other => panic!("unexpected {:?}", other),
    }
    let mut n = Datagram::Nak { seqs: vec![7] };
    let mut buf = Vec::new();
    put_datagram(&mut buf, &mut n);
    assert_eq!(buf[0], 0xA0);
    assert!(matches!(try_get_datagram(&buf).unwrap(), Datagram::Nak { seqs } if seqs == vec![7]));
}

#[test]
fn window_shifts_over_received_run() {
    let mut w: Window<u64, 8> = Window::new();
    assert_eq!(w.insert(1, 10).unwrap(), true);
    assert_eq!(w.insert(1, 11).unwrap(), false);
    assert_eq!(w.shift(), 0);
    assert_eq!(w.insert(0, 10).unwrap(), true);
    assert_eq!(w.shift(), 2);
    assert_eq!(w.start_index(), 2);
    assert!(w.insert(10, 1).is_err());
}

#[test]
fn window_reports_missing_below_timed_out() {
    let mut w: Window<u64, 8> = Window::new();
    w.insert(3, 100).unwrap();
    w.insert(5, 150).unwrap();
    assert_eq!(w.shift(), 0);
    // at 200 with a timeout of 60 the entry at 3 timed out, 5 did not
    let missing = w.collect_missing(200, 60);
    assert_eq!(missing, vec![2, 1, 0]);
    assert_eq!(w.start_index(), 4);
}

#[test]
fn retransmit_cache_marks_and_shifts() {
    let mut c = RetransmitCache::new();
    assert!(c.is_empty());
    c.insert(0, vec![fragment(Reliability::Reliable, vec![1])], 5).unwrap();
    c.insert(1, vec![fragment(Reliability::Reliable, vec![2])], 6).unwrap();
    assert!(!c.is_empty());
    assert!(c.insert(200, Vec::new(), 7).is_err());
    let (fs, t) = c.mark_as_used(1).unwrap();
    assert_eq!(t, 6);
    assert_eq!(fs[0].data, vec![2]);
    assert!(c.mark_as_used(1).is_none());
    assert_eq!(c.shift(), 0);
    c.mark_as_used(0).unwrap();
    assert_eq!(c.shift(), 2);
    assert_eq!(c.start_seq(), 2);
    assert!(c.is_empty());
}

#[test]
fn retransmit_cache_gives_up_on_old_packets() {
    let mut c = RetransmitCache::new();
    c.insert(0, vec![fragment(Reliability::Reliable, vec![1])], 5).unwrap();
    c.insert(1, vec![fragment(Reliability::Reliable, vec![2])], 50).unwrap();
    let q = c.get_retransmit_fragments(60, 20);
    assert_eq!(q.len(), 1);
    assert_eq!(q[0].data, vec![1]);
    assert_eq!(c.start_seq(), 1);
    c.extend_retransmit_fragments(vec![fragment(Reliability::Reliable, vec![3])]);
    let q = c.get_retransmit_fragments(100, 20);
    let data: Vec<Vec<u8>> = q.iter().map(|f| f.data.clone()).collect();
    assert_eq!(data, vec![vec![1], vec![3], vec![2]]);
}

#[test]
fn sliding_window_grows_in_slow_start_and_backs_off() {
    let mut w = SlidingWindowCore::new(1000);
    assert!(w.is_in_slow_start());
    assert_eq!(w.get_transmission_bandwidth(0, 0, true), 1000);
    assert_eq!(w.get_seq_and_increment(), 0);
    assert_eq!(w.get_seq_and_increment(), 1);
    w.on_recv_ack(20, 1, true);
    w.on_recv_ack(20, 1, true);
    assert_eq!(w.get_transmission_bandwidth(0, 0, true), 3000);
    // a resend while sending continuously halves the window into the threshold
    w.on_resend(30);
    assert_eq!(w.get_transmission_bandwidth(0, 0, true), 1000);
    assert!(w.is_in_slow_start());
    assert!(w.should_send_ack(10, 0));
    w.on_recv_packet(50, 100, true);
    assert!(!w.should_send_ack(55, 0));
    assert!(w.should_send_ack(60, 0));
}

#[test]
fn udt_slow_start_window_follows_acknowledged_bytes() {
    let mut c = UdtCore::new(100);
    assert!(c.is_in_slow_start());
    assert_eq!(c.window_bytes(), 200);
    assert!(!c.slow_start_window(50));
    assert_eq!(c.window_bytes(), 200);
    assert!(!c.slow_start_window(1000));
    assert_eq!(c.window_bytes(), 1000);
    assert!(c.slow_start_window(100 * 600));
    assert_eq!(c.window_bytes(), 512 * 100);
}

#[test]
fn udt_timeout_and_acknowledgement_timing() {
    let mut c = UdtCore::new(100);
    assert_eq!(c.get_rto(), 2000);
    assert!(!c.slow_start_ack(20, 3, 0));
    assert_eq!(c.get_rto(), 100);
    assert!(!c.slow_start_ack(9000, 4, 0));
    assert_eq!(c.get_rto(), 10000);
    c.note_ack(50);
    assert!(c.should_send_ack(60, 0));
    assert!(!c.should_send_ack(55, 10));
    assert!(c.should_send_ack(55, 1));
    c.acks_sent();
    c.note_ack(70);
    assert!(!c.should_send_ack(75, 10));
}

#[test]
fn udt_loss_ends_slow_start_then_backs_off_once_per_block() {
    let mut c = UdtCore::new(100);
    assert_eq!(c.on_loss(false), LossStep::Increase);
    assert_eq!(c.on_loss(false), LossStep::Keep);
    let mut d = UdtCore::new(100);
    assert_eq!(d.on_loss(true), LossStep::EndSlowStart);
    assert!(!d.is_in_slow_start());
    assert_eq!(d.on_loss(true), LossStep::Increase);
    assert_eq!(d.on_loss(true), LossStep::Keep);
}

#[test]
fn udt_block_of_round_trips_names_the_rate_step() {
    // rising round trips: the time between sends grows
    let mut c = UdtCore::new(100);
    c.end_slow_start();
    for i in 0..32u32 {
        assert_eq!(c.syn_step(100 + 10 * i as u64, i + 1, true), RateStep::Keep);
    }
    assert!(c.syn_step_fits(420, 40, true));
    assert_eq!(c.syn_step(420, 40, true), RateStep::Increase);
    // steady round trips: the time between sends shrinks
    let mut d = UdtCore::new(100);
    d.end_slow_start();
    for i in 0..32u32 {
        assert_eq!(d.syn_step(100, i + 1, true), RateStep::Keep);
    }
    assert_eq!(d.syn_step(100, 40, true), RateStep::Decrease);
    assert_eq!(d.get_rto(), 200);
    // a falling round trip leaves the block's unsigned sums
    let mut e = UdtCore::new(100);
    e.end_slow_start();
    for i in 0..32u32 {
        e.syn_step(200, i + 1, true);
    }
    assert!(!e.syn_step_fits(100, 40, true));
    // sending that is not continuous starts a new block
    assert_eq!(e.syn_step(100, 41, false), RateStep::Keep);
    assert!(e.syn_step_fits(100, 42, true));
}
