use ruknet::proto::datagram::{Datagram, Fragment};
use ruknet::proto::datagram_codec::{put_datagram, try_get_datagram};
use ruknet::reliability::congestion_controller::CongestionController;
use ruknet::reliability::layer::Layer;
use ruknet::{Priority, Reliability};

/// A controller that always acknowledges, allows plenty of bytes and
/// numbers packets from zero.
#[derive(Debug)]
struct Fixed {
    next_seq: u32,
    bandwidth: usize,
}

impl CongestionController for Fixed {
    fn new(_mtu: usize) -> Self {
        Fixed { next_seq: 0, bandwidth: 1 << 20 }
    }
    fn should_send_ack(&self, _now: u64, _since: u64) -> bool {
        true
    }
    fn is_in_slow_start(&self) -> bool {
        false
    }
    fn get_seq_and_increment(&mut self) -> u32 {
        let s = self.next_seq;
        self.next_seq += 1;
        s
    }
    fn get_transmission_bandwidth(&mut self, _now: u64, _since: u64, _cont: bool) -> usize {
        self.bandwidth
    }
    fn get_rto(&self) -> u64 {
        1000
    }
    fn on_resend(&mut self, _now: u64) {}
    fn on_recv_ack(&mut self, _now: u64, _rtt: u64, _rate: Option<u32>, _acked: usize, _seq: u32, _cont: bool) {}
    fn on_recv_nak(&mut self) {}
    fn on_recv_packet(&mut self, _now: u64, _size: usize, _cont: bool) {}
    fn on_send_ack(&mut self, _needs: bool, _rate: &mut Option<u32>) {}
    fn on_send_packet(&mut self, _size: usize) {}
}

fn deliver_all(to: &mut Layer<Fixed>, now: u64, datagrams: &[Vec<u8>]) {
    for d in datagrams {
        to.handle_datagram(now, d).unwrap();
    }
}

#[test]
fn hello_world_crosses_the_layer() {
    let mut a: Layer<Fixed> = Layer::new(0, 1492);
    let mut b: Layer<Fixed> = Layer::new(0, 1492);
    let mut data = vec![0xfe];
    data.extend_from_slice(b"Hello, world!");
    a.send(Priority::Immediate, Reliability::Reliable, 0, data.clone());
    let (out, res) = a.update(1);
    assert!(res.is_ok());
    assert_eq!(out.len(), 1);
    deliver_all(&mut b, 1, &out);
    assert_eq!(b.recv(), vec![data]);
    assert!(b.recv().is_empty());
    assert!(!a.is_retransmit_cache_empty());
    let (acks, res) = b.update(2);
    assert!(res.is_ok());
    assert_eq!(acks.len(), 1);
    deliver_all(&mut a, 2, &acks);
    assert!(a.is_retransmit_cache_empty());
}

#[test]
fn a_short_message_of_every_class_crosses_new_layers() {
    let classes = [
        Reliability::Unreliable,
        Reliability::UnreliableSequenced,
        Reliability::Reliable,
        Reliability::ReliableOrdered,
        Reliability::ReliableSequenced,
        Reliability::UnreliableWithAckReceipt,
        Reliability::ReliableWithAckReceipt,
        Reliability::ReliableOrderedWithAckReceipt,
    ];
    for r in classes {
        let mut a: Layer<Fixed> = Layer::new(0, 576);
        let mut b: Layer<Fixed> = Layer::new(0, 576);
        let data = vec![0x86, 7, 7, 7];
        a.send(Priority::Medium, r, 5, data.clone());
        let (out, res) = a.update(3);
        assert!(res.is_ok());
        assert_eq!(out.len(), 1);
        deliver_all(&mut b, 4, &out);
        assert_eq!(b.recv(), vec![data]);
        assert!(b.recv().is_empty());
    }
}

#[test]
fn packet_datagram_reads_back() {
    let mut a: Layer<Fixed> = Layer::new(0, 1492);
    a.send(Priority::High, Reliability::ReliableOrdered, 3, vec![1, 2, 3]);
    let (out, _) = a.update(5);
    let d = try_get_datagram(&out[0]).unwrap();
    match d {
        Datagram::Packet { seq, fragments, is_continuous_send, is_packet_pair, .. } => {
            assert_eq!(seq, 0);
            assert!(is_continuous_send);
            assert!(!is_packet_pair);
            assert_eq!(fragments.len(), 1);
            let f = &fragments[0];
            assert_eq!(f.reliability, Reliability::ReliableOrdered);
            assert_eq!(f.reliable_index, Some(0));
            assert_eq!(f.ordering_info.unwrap().channel, 3);
            assert_eq!(f.ordering_info.unwrap().index, 0);
            assert_eq!(f.data, vec![1, 2, 3]);
        }
        other => panic!("unexpected {:?}", other),
    }
}

#[test]
fn large_message_is_split_and_rejoined() {
    let mut a: Layer<Fixed> = Layer::new(0, 576);
    let mut b: Layer<Fixed> = Layer::new(0, 576);
    let data: Vec<u8> = (0..3000u32).map(|i| (i % 251) as u8).collect();
    a.send(Priority::Medium, Reliability::ReliableOrdered, 0, data.clone());
    let (out, res) = a.update(1);
    assert!(res.is_ok());
    assert!(out.len() > 5);
    for d in &out {
        assert!(d.len() <= 576 - 28);
    }
    // deliver in reverse order: the pieces still rejoin in order
    let mut rev = out.clone();
    rev.reverse();
    deliver_all(&mut b, 1, &rev);
    assert_eq!(b.recv(), vec![data]);
}

#[test]
fn ordered_messages_come_out_in_order() {
    let mut a: Layer<Fixed> = Layer::new(0, 1492);
    let mut b: Layer<Fixed> = Layer::new(0, 1492);
    let mut datagrams = Vec::new();
    for i in 0..3u8 {
        a.send(Priority::Immediate, Reliability::ReliableOrdered, 0, vec![0xfe, i]);
        let (out, _) = a.update(1 + i as u64);
        datagrams.extend(out);
    }
    assert_eq!(datagrams.len(), 3);
    b.handle_datagram(4, &datagrams[2]).unwrap();
    assert!(b.recv().is_empty());
    b.handle_datagram(4, &datagrams[1]).unwrap();
    assert!(b.recv().is_empty());
    b.handle_datagram(4, &datagrams[0]).unwrap();
    assert_eq!(b.recv(), vec![vec![0xfe, 0], vec![0xfe, 1], vec![0xfe, 2]]);
}

#[test]
fn duplicate_reliable_message_is_dropped_while_awaited() {
    let mut a: Layer<Fixed> = Layer::new(0, 1492);
    let mut b: Layer<Fixed> = Layer::new(0, 1492);
    a.send(Priority::Immediate, Reliability::Reliable, 0, vec![1]);
    let (first, _) = a.update(1);
    a.send(Priority::Immediate, Reliability::Reliable, 0, vec![2]);
    let (second, _) = a.update(2);
    // the second message arrives twice while the first is still awaited
    b.handle_datagram(2, &second[0]).unwrap();
    b.handle_datagram(2, &second[0]).unwrap();
    assert_eq!(b.recv(), vec![vec![2]]);
    b.handle_datagram(2, &first[0]).unwrap();
    assert_eq!(b.recv(), vec![vec![1]]);
}

#[test]
fn reliable_message_behind_the_window_is_taken_again() {
    let mut a: Layer<Fixed> = Layer::new(0, 1492);
    let mut b: Layer<Fixed> = Layer::new(0, 1492);
    a.send(Priority::Immediate, Reliability::Reliable, 0, vec![9, 9]);
    let (out, _) = a.update(1);
    b.handle_datagram(1, &out[0]).unwrap();
    b.handle_datagram(1, &out[0]).unwrap();
    // the window moved past the index, whose slot is free again
    assert_eq!(b.recv(), vec![vec![9, 9], vec![9, 9]]);
}

#[test]
fn stale_sequenced_message_is_dropped() {
    let mut a: Layer<Fixed> = Layer::new(0, 1492);
    let mut b: Layer<Fixed> = Layer::new(0, 1492);
    a.send(Priority::Immediate, Reliability::UnreliableSequenced, 0, vec![1]);
    let (first, _) = a.update(1);
    a.send(Priority::Immediate, Reliability::UnreliableSequenced, 0, vec![2]);
    let (second, _) = a.update(2);
    b.handle_datagram(2, &second[0]).unwrap();
    b.handle_datagram(2, &first[0]).unwrap();
    assert_eq!(b.recv(), vec![vec![2]]);
}

#[test]
fn unanswered_layer_dies_after_timeout() {
    let mut a: Layer<Fixed> = Layer::new(0, 1492);
    a.set_timeout(100);
    assert_eq!(a.get_timeout(), 100);
    a.send(Priority::Immediate, Reliability::Reliable, 0, vec![1]);
    let _ = a.update(1);
    assert!(!a.is_dead());
    let _ = a.update(50);
    assert!(!a.is_dead());
    let _ = a.update(200);
    assert!(a.is_dead());
}

#[test]
fn lost_packet_is_sent_again_after_timeout() {
    let mut a: Layer<Fixed> = Layer::new(0, 1492);
    let mut b: Layer<Fixed> = Layer::new(0, 1492);
    a.send(Priority::Immediate, Reliability::Reliable, 0, vec![7, 7, 7]);
    let (lost, _) = a.update(1);
    assert_eq!(lost.len(), 1);
    // nothing acknowledged: after the timeout the fragment goes out again
    let (again, _) = a.update(1500);
    assert_eq!(again.len(), 1);
    deliver_all(&mut b, 1500, &again);
    assert_eq!(b.recv(), vec![vec![7, 7, 7]]);
}

#[test]
fn garbage_is_refused_and_changes_nothing() {
    let mut b: Layer<Fixed> = Layer::new(0, 1492);
    assert!(b.handle_datagram(1, &[0x00, 1, 2]).is_err());
    assert!(b.handle_datagram(1, &[]).is_err());
    assert!(b.recv().is_empty());
}

#[test]
fn bad_ordering_channel_is_refused() {
    let mut buf = Vec::new();
    let mut d = Datagram::Packet {
        is_packet_pair: false,
        is_continuous_send: false,
        needs_arrival_rate: false,
        seq: 0,
        fragments: vec![Fragment {
            reliability: Reliability::ReliableOrdered,
            reliable_index: Some(0),
            sequence_index: None,
            ordering_info: Some(ruknet::proto::datagram::OrderingInfo { index: 0, channel: 40 }),
            split_info: None,
            data: vec![1],
        }],
    };
    put_datagram(&mut buf, &mut d);
    let mut b: Layer<Fixed> = Layer::new(0, 1492);
    assert!(b.handle_datagram(1, &buf).is_err());
}

fn packet_bytes(seq: u32, fragment: Fragment) -> Vec<u8> {
    let mut buf = Vec::new();
    let mut d = Datagram::Packet {
        is_packet_pair: false,
        is_continuous_send: false,
        needs_arrival_rate: false,
        seq,
        fragments: vec![fragment],
    };
    put_datagram(&mut buf, &mut d);
    buf
}

#[test]
fn repeated_reliable_index_on_a_bad_channel_is_dropped() {
    let mut b: Layer<Fixed> = Layer::new(0, 1492);
    let first = Fragment {
        reliability: Reliability::Reliable,
        reliable_index: Some(1),
        sequence_index: None,
        ordering_info: None,
        split_info: None,
        data: vec![7],
    };
    b.handle_datagram(1, &packet_bytes(0, first)).unwrap();
    assert_eq!(b.recv(), vec![vec![7]]);
    let repeat = Fragment {
        reliability: Reliability::ReliableOrdered,
        reliable_index: Some(1),
        sequence_index: None,
        ordering_info: Some(ruknet::proto::datagram::OrderingInfo { index: 0, channel: 40 }),
        split_info: None,
        data: vec![8],
    };
    assert!(b.handle_datagram(1, &packet_bytes(1, repeat)).is_ok());
    assert!(b.recv().is_empty());
}

#[test]
fn unfinished_piece_on_a_bad_channel_waits() {
    let mut b: Layer<Fixed> = Layer::new(0, 1492);
    let piece = Fragment {
        reliability: Reliability::ReliableOrdered,
        reliable_index: Some(0),
        sequence_index: None,
        ordering_info: Some(ruknet::proto::datagram::OrderingInfo { index: 0, channel: 40 }),
        split_info: Some(ruknet::proto::datagram::SplitInfo { size: 2, id: 3, index: 0 }),
        data: vec![8],
    };
    assert!(b.handle_datagram(1, &packet_bytes(0, piece)).is_ok());
    assert!(b.recv().is_empty());
}

#[test]
fn nak_resends_at_once() {
    let mut a: Layer<Fixed> = Layer::new(0, 1492);
    a.send(Priority::Immediate, Reliability::Reliable, 0, vec![5]);
    let (out, _) = a.update(1);
    assert_eq!(out.len(), 1);
    let mut nak = Vec::new();
    put_datagram(&mut nak, &mut Datagram::Nak { seqs: vec![0] });
    a.handle_datagram(2, &nak).unwrap();
    let (again, _) = a.update(3);
    assert_eq!(again.len(), 1);
}

#[test]
fn ordered_message_waiting_behind_a_gap_is_lost_when_the_gap_fills_in_order() {
    // Order of arrival 2, 0, 1: the empty slot that stopped the release
    // after 0 stays at the front, so 2 is counted one index too far.
    let mut a: Layer<Fixed> = Layer::new(0, 1492);
    let mut b: Layer<Fixed> = Layer::new(0, 1492);
    let mut datagrams = Vec::new();
    for i in 0..3u8 {
        a.send(Priority::Immediate, Reliability::ReliableOrdered, 0, vec![0xfe, i]);
        let (out, _) = a.update(1 + i as u64);
        datagrams.extend(out);
    }
    b.handle_datagram(4, &datagrams[2]).unwrap();
    b.handle_datagram(4, &datagrams[0]).unwrap();
    b.handle_datagram(4, &datagrams[1]).unwrap();
    assert_eq!(b.recv(), vec![vec![0xfe, 0], vec![0xfe, 1]]);
}

#[test]
fn packet_number_beyond_the_window_overflows() {
    let mut buf = Vec::new();
    let mut d = Datagram::Packet {
        is_packet_pair: false,
        is_continuous_send: false,
        needs_arrival_rate: false,
        seq: 128,
        fragments: vec![Fragment {
            reliability: Reliability::Unreliable,
            reliable_index: None,
            sequence_index: None,
            ordering_info: None,
            split_info: None,
            data: vec![1],
        }],
    };
    put_datagram(&mut buf, &mut d);
    let mut b: Layer<Fixed> = Layer::new(0, 1492);
    match b.handle_datagram(1, &buf) {
        Err(ruknet::error::LayerError::BufferOverflow(_)) => {}
        other => panic!("unexpected {:?}", other),
    }
    assert!(b.recv().is_empty());
}

#[test]
fn unreliable_message_is_not_kept_for_resending() {
    let mut a: Layer<Fixed> = Layer::new(0, 1492);
    a.send(Priority::Low, Reliability::Unreliable, 0, vec![1, 2]);
    let (out, _) = a.update(1);
    assert_eq!(out.len(), 1);
    // the packet is awaited, with nothing to send again
    assert!(!a.is_retransmit_cache_empty());
    let (again, _) = a.update(5000);
    assert!(again.is_empty());
    assert!(a.is_retransmit_cache_empty());
}

/// A controller that never lets acknowledgements out and numbers packets
/// from 7.
#[derive(Debug)]
struct Quiet {
    next_seq: u32,
}

impl CongestionController for Quiet {
    fn new(_mtu: usize) -> Self {
        Quiet { next_seq: 7 }
    }
    fn should_send_ack(&self, _now: u64, _since: u64) -> bool {
        false
    }
    fn is_in_slow_start(&self) -> bool {
        false
    }
    fn get_seq_and_increment(&mut self) -> u32 {
        let s = self.next_seq;
        self.next_seq += 1;
        s
    }
    fn get_transmission_bandwidth(&mut self, _now: u64, _since: u64, _cont: bool) -> usize {
        1 << 20
    }
    fn get_rto(&self) -> u64 {
        1000
    }
    fn on_resend(&mut self, _now: u64) {}
    fn on_recv_ack(&mut self, _now: u64, _rtt: u64, _rate: Option<u32>, _acked: usize, _seq: u32, _cont: bool) {}
    fn on_recv_nak(&mut self) {}
    fn on_recv_packet(&mut self, _now: u64, _size: usize, _cont: bool) {}
    fn on_send_ack(&mut self, _needs: bool, _rate: &mut Option<u32>) {}
    fn on_send_packet(&mut self, _size: usize) {}
}

#[test]
fn acknowledgements_wait_for_the_controller() {
    let mut a: Layer<Fixed> = Layer::new(0, 1492);
    let mut b: Layer<Quiet> = Layer::new(0, 1492);
    a.send(Priority::High, Reliability::Reliable, 0, vec![0x86, 1]);
    let (out, _) = a.update(1);
    for d in &out {
        b.handle_datagram(2, d).unwrap();
    }
    let (acks, res) = b.update(3);
    assert!(res.is_ok());
    assert!(acks.is_empty());
    b.send(Priority::High, Reliability::Reliable, 0, vec![0x86, 2]);
    let (out, _) = b.update(4);
    assert_eq!(out.len(), 1);
    match try_get_datagram(&out[0]).unwrap() {
        Datagram::Packet { seq, .. } => assert_eq!(seq, 7),
        _ => panic!("expected a packet"),
    }
}

#[test]
fn pieces_of_a_large_unreliable_message_stay_unreliable() {
    let mut a: Layer<Fixed> = Layer::new(0, 576);
    let mut b: Layer<Fixed> = Layer::new(0, 576);
    let data: Vec<u8> = (0..2000u32).map(|i| (i % 251) as u8).collect();
    a.send(Priority::Low, Reliability::Unreliable, 0, data.clone());
    let (out, res) = a.update(1);
    assert!(res.is_ok());
    assert!(out.len() > 1);
    for d in &out {
        match try_get_datagram(d).unwrap() {
            Datagram::Packet { fragments, .. } => {
                for f in fragments {
                    assert!(matches!(f.reliability, Reliability::Unreliable));
                    assert!(f.reliable_index.is_none());
                    assert!(f.split_info.is_some());
                }
            }
            _ => panic!("expected packets"),
        }
    }
    deliver_all(&mut b, 2, &out);
    assert_eq!(b.recv(), vec![data]);
}

/// A controller that allows 100 bytes a turn.
#[derive(Debug)]
struct Narrow {
    next_seq: u32,
}

impl CongestionController for Narrow {
    fn new(_mtu: usize) -> Self {
        Narrow { next_seq: 0 }
    }
    fn should_send_ack(&self, _now: u64, _since: u64) -> bool {
        true
    }
    fn is_in_slow_start(&self) -> bool {
        false
    }
    fn get_seq_and_increment(&mut self) -> u32 {
        let s = self.next_seq;
        self.next_seq += 1;
        s
    }
    fn get_transmission_bandwidth(&mut self, _now: u64, _since: u64, _cont: bool) -> usize {
        100
    }
    fn get_rto(&self) -> u64 {
        1000
    }
    fn on_resend(&mut self, _now: u64) {}
    fn on_recv_ack(&mut self, _now: u64, _rtt: u64, _rate: Option<u32>, _acked: usize, _seq: u32, _cont: bool) {}
    fn on_recv_nak(&mut self) {}
    fn on_recv_packet(&mut self, _now: u64, _size: usize, _cont: bool) {}
    fn on_send_ack(&mut self, _needs: bool, _rate: &mut Option<u32>) {}
    fn on_send_packet(&mut self, _size: usize) {}
}

#[test]
fn a_turn_sends_no_more_than_the_bandwidth() {
    let mut a: Layer<Narrow> = Layer::new(0, 1492);
    for i in 0..5u8 {
        a.send(Priority::Medium, Reliability::Reliable, 0, vec![i; 40]);
    }
    let (out, res) = a.update(1);
    assert!(res.is_ok());
    let mut total = 0;
    let mut count = 0;
    for d in &out {
        match try_get_datagram(d).unwrap() {
            Datagram::Packet { fragments, .. } => {
                for f in fragments {
                    total += f.calc_full_size();
                    count += 1;
                }
            }
            _ => panic!("expected packets"),
        }
    }
    assert_eq!(count, 2);
    assert_eq!(total, 92);
    // the rest goes out in later turns, in order
    let (out, _) = a.update(2);
    let mut firsts = Vec::new();
    for d in &out {
        if let Datagram::Packet { fragments, .. } = try_get_datagram(d).unwrap() {
            for f in fragments {
                firsts.push(f.data[0]);
            }
        }
    }
    assert_eq!(firsts, vec![2, 3]);
}
