//! The reliability layer of one connection. On the sending side it numbers
//! ordered and sequenced messages, splits messages too large for one packet,
//! and keeps the outgoing fragments ordered by a weight that interleaves the
//! priorities. On the receiving side it drops duplicates, reassembles split
//! messages and hands messages out in the order of their channel.
//! `update` packs fragments into packets within the bandwidth the congestion
//! controller allows and produces the datagrams to send.
use std::collections::{HashMap, VecDeque};

use vstd::prelude::*;

use crate::error::{BufferOverflowError, LayerError, RukBytesError};
use crate::proto::datagram::{Fragment, FragmentModel, OrderingInfo, SplitInfo};
use crate::proto::{IP_UDP_HEADER_SIZE, DEFAULT_TIMEOUT};
use crate::reliability::congestion_controller::{CongestionController, ControllerEvent};
use crate::reliability::fragment::{Priority, Reliability};
use crate::proto::datagram_codec::fragments_view;
use crate::reliability::retransmit_cache::{
    cache_shifted, expired_run, fragments_below, invalidate_prefix, mark_outcome, marked, queue_view,
    CacheModel, HistoryModel, RetransmitCache, PACKET_HISTORY_SIZE,
};
use crate::proto::datagram::{Datagram, DatagramModel};
use crate::proto::datagram_codec::{normalized, put_datagram, ser_datagram, sp_datagram, try_get_datagram};
use crate::reliability::window::{
    clear_prefix, collected, inserted, insert_outcome, shift_count, shifted, Window, WindowModel,
};


verus! {

pub const SEQ_WINDOW_SIZE: usize = 128;
pub const RELIABLE_WINDOW_SIZE: usize = 512;
pub const ORDERING_CHANNEL_SIZE: usize = 32;

/// A fragment waiting to be sent, with the weight that orders it.
#[derive(Debug)]
pub struct OutgoingFragment {
    pub weight: usize,
    pub priority: Priority,
    pub fragment: Fragment,
}

/// The mathematical value of an outgoing fragment.
pub struct OutgoingModel {
    pub weight: usize,
    pub priority: Priority,
    pub fragment: FragmentModel,
}

impl View for OutgoingFragment {
    type V = OutgoingModel;

    open spec fn view(&self) -> OutgoingModel {
        OutgoingModel { weight: self.weight, priority: self.priority, fragment: self.fragment@ }
    }
}

/// The mathematical value of a layer: its state, and the calls it made to
/// its congestion controller, oldest first.
#[verifier::ext_equal]
pub struct LayerModel {
    pub events: Seq<ControllerEvent>,
    pub max_size_of_packet: nat,
    pub bandwidth_exceeded: bool,
    pub needs_arrival_rate: bool,
    pub is_dead: bool,
    pub timeout: u64,
    pub last_update: u64,
    pub time_last_datagram_recved: u64,
    pub total_bytes_acked: usize,
    pub acks: Seq<u32>,
    pub naks: Seq<u32>,
    pub outgoing: Seq<OutgoingModel>,
    pub next_weight: Seq<usize>,
    pub output: Seq<Seq<u8>>,
    pub cache: CacheModel,
    pub seq_window: WindowModel<u64>,
    pub reliable_window: WindowModel<()>,
    pub split: Map<u16, Seq<Option<Seq<u8>>>>,
    pub ordered: Seq<Seq<Option<Seq<u8>>>>,
    pub send_split_id: u16,
    pub send_reliable_index: u32,
    pub send_sequence_index: u32,
    pub send_ordering_index: Seq<u32>,
    pub recv_sequence_index: Seq<u32>,
    pub recv_ordering_index: Seq<u32>,
}

pub struct Layer<T: CongestionController> {
    max_size_of_packet: usize,
    bandwidth_exceeded: bool,
    needs_arrival_rate: bool,
    is_dead: bool,
    timeout: u64,
    last_update: u64,
    time_last_datagram_recved: u64,
    total_bytes_acked: usize,
    acks: Vec<u32>,
    naks: Vec<u32>,
    outgoing_queue: Vec<OutgoingFragment>,
    outgoing_next_weight: [usize; 4],
    output_queue: Vec<Vec<u8>>,
    retransmit_cache: RetransmitCache,
    seq_window: Window<u64, SEQ_WINDOW_SIZE>,
    reliable_window: Window<(), RELIABLE_WINDOW_SIZE>,
    split_fragments: HashMap<u16, Vec<Option<Vec<u8>>>>,
    ordered_fragments: Vec<VecDeque<Option<Vec<u8>>>>,
    send_split_id: u16,
    send_reliable_index: u32,
    send_sequence_index: u32,
    send_ordering_index: [u32; 32],
    recv_sequence_index: [u32; 32],
    recv_ordering_index: [u32; 32],
    congestion_controller: T,
    events: Ghost<Seq<ControllerEvent>>,
}

pub open spec fn outgoing_view(q: Seq<OutgoingFragment>) -> Seq<OutgoingModel> {
    q.map_values(|e: OutgoingFragment| e@)
}

pub open spec fn parts_view(v: Seq<Option<Vec<u8>>>) -> Seq<Option<Seq<u8>>> {
    v.map_values(|o: Option<Vec<u8>>| match o {
        Some(d) => Some(d@),
        None => None,
    })
}

pub open spec fn split_view(m: Map<u16, Vec<Option<Vec<u8>>>>) -> Map<u16, Seq<Option<Seq<u8>>>> {
    m.map_values(|v: Vec<Option<Vec<u8>>>| parts_view(v@))
}

pub open spec fn ordered_view(v: Seq<VecDeque<Option<Vec<u8>>>>) -> Seq<Seq<Option<Seq<u8>>>> {
    v.map_values(|c: VecDeque<Option<Vec<u8>>>| parts_view(c@))
}

pub open spec fn output_view(v: Seq<Vec<u8>>) -> Seq<Seq<u8>> {
    v.map_values(|d: Vec<u8>| d@)
}

/// The spacing of the weights of a priority: `2^p * p + p`.
pub open spec fn priority_factor_of(p: nat) -> usize {
    if p == 0 {
        0
    } else if p == 1 {
        3
    } else if p == 2 {
        10
    } else if p == 3 {
        27
    } else {
        68
    }
}

/// The weights each priority starts from when the queue is empty.
pub open spec fn initial_weights() -> Seq<usize> {
    seq![0usize, 3, 10, 27]
}

pub open spec fn wrapping_add_usize(a: usize, b: usize) -> usize {
    vstd::wrapping::usize_specs::wrapping_add(a, b)
}

pub open spec fn wrapping_sub_usize(a: usize, b: usize) -> usize {
    vstd::wrapping::usize_specs::wrapping_sub(a, b)
}

/// The weight given to the next fragment of priority `p`, and the table
/// of next weights after it. An empty queue restarts the table; otherwise a
/// priority that fell behind the lightest queued fragment catches up to it.
pub open spec fn next_weight(nw: Seq<usize>, q: Seq<OutgoingModel>, p: Priority) -> (usize, Seq<usize>) {
    if q.len() == 0 {
        (initial_weights()[p.rank() as int], initial_weights())
    } else {
        let current = nw[p.rank() as int];
        let min_weight = wrapping_sub_usize(q[0].weight, priority_factor_of(q[0].priority.rank()));
        let next = if current < min_weight {
            wrapping_add_usize(min_weight, priority_factor_of(p.rank()))
        } else {
            current
        };
        (next, nw.update(p.rank() as int, wrapping_add_usize(next, priority_factor_of(p.rank() + 1))))
    }
}

/// How many queued fragments at the front weigh at most `w`.
pub open spec fn insert_pos(q: Seq<OutgoingModel>, w: usize) -> nat
    decreases q.len(),
{
    if q.len() == 0 || q[0].weight > w {
        0
    } else {
        1 + insert_pos(q.drop_first(), w)
    }
}

/// The queue with `e` placed after every fragment that weighs at most as
/// much.
pub open spec fn enqueue(q: Seq<OutgoingModel>, e: OutgoingModel) -> Seq<OutgoingModel> {
    let k = insert_pos(q, e.weight) as int;
    q.take(k) + seq![e] + q.skip(k)
}

/// The queue is ordered by weight, lightest first.
pub open spec fn sorted_by_weight(q: Seq<OutgoingModel>) -> bool {
    forall|i: int, j: int| 0 <= i < j < q.len() ==> q[i].weight <= q[j].weight
}

/// Queues fragment `f` with priority `p`.
pub open spec fn enqueue_fragment(l: LayerModel, p: Priority, f: FragmentModel) -> LayerModel {
    let (w, nw) = next_weight(l.next_weight, l.outgoing, p);
    LayerModel {
        outgoing: enqueue(l.outgoing, OutgoingModel { weight: w, priority: p, fragment: f }),
        next_weight: nw,
        ..l
    }
}

/// The number of pieces a payload of `len` bytes is split into.
pub open spec fn split_count(len: nat, allowed: nat) -> nat {
    ((len - 1) / allowed as int + 1) as nat
}

/// Piece `i` of a split payload: the header of `base` with split
/// information, and the `i`-th run of `allowed` bytes.
pub open spec fn split_piece(
    base: FragmentModel,
    data: Seq<u8>,
    allowed: nat,
    count: nat,
    id: u16,
    i: nat,
) -> FragmentModel {
    let end = if (i + 1) * allowed < data.len() {
        (i + 1) * allowed
    } else {
        data.len()
    };
    FragmentModel {
        split_info: Some(SplitInfo { size: count as u32, id, index: i as u32 }),
        data: data.subrange((i * allowed) as int, end as int),
        ..base
    }
}

/// The layer with the first `i` pieces queued, in order.
pub open spec fn enqueue_pieces(
    l: LayerModel,
    p: Priority,
    base: FragmentModel,
    data: Seq<u8>,
    allowed: nat,
    count: nat,
    id: u16,
    i: nat,
) -> LayerModel
    decreases i,
{
    if i == 0 {
        l
    } else {
        enqueue_fragment(
            enqueue_pieces(l, p, base, data, allowed, count, id, (i - 1) as nat),
            p,
            split_piece(base, data, allowed, count, id, (i - 1) as nat),
        )
    }
}

/// The fragment a message becomes before any splitting, numbered for its
/// ordering channel when ordered or sequenced.
pub open spec fn stamped_fragment(l: LayerModel, reliability: Reliability, channel: u8, data: Seq<u8>) -> FragmentModel {
    let seq = reliability.spec_is_sequenced();
    let ord = reliability.spec_is_ordered();
    FragmentModel {
        reliability,
        reliable_index: None,
        sequence_index: if seq {
            Some(l.send_sequence_index)
        } else {
            None
        },
        ordering_info: if seq || ord {
            Some(OrderingInfo { index: l.send_ordering_index[channel as int], channel })
        } else {
            None
        },
        split_info: None,
        data,
    }
}

/// The sending counters after stamping a message: a sequenced message
/// advances the sequence index; an ordered one restarts it and advances
/// the ordering index of its channel.
pub open spec fn stamped_counters(l: LayerModel, reliability: Reliability, channel: u8) -> LayerModel {
    if reliability.spec_is_sequenced() {
        LayerModel {
            send_sequence_index: vstd::wrapping::u32_specs::wrapping_add(l.send_sequence_index, 1),
            ..l
        }
    } else if reliability.spec_is_ordered() {
        LayerModel {
            send_sequence_index: 0,
            send_ordering_index: l.send_ordering_index.update(
                channel as int,
                vstd::wrapping::u32_specs::wrapping_add(l.send_ordering_index[channel as int], 1),
            ),
            ..l
        }
    } else {
        l
    }
}

/// The layer after `send`: the message is stamped, then queued whole when
/// it fits in a packet, or else split into pieces of its own class that
/// each fit with their split header, queued in order under a fresh split
/// id.
pub open spec fn send_result(
    l: LayerModel,
    priority: Priority,
    reliability: Reliability,
    channel: u8,
    data: Seq<u8>,
) -> LayerModel {
    let f = stamped_fragment(l, reliability, channel, data);
    let l1 = stamped_counters(l, reliability, channel);
    if f.full_size() > l.max_size_of_packet {
        let allowed = (l.max_size_of_packet - f.header_size() - 10) as nat;
        let count = split_count(data.len(), allowed);
        let l2 = enqueue_pieces(l1, priority, f, data, allowed, count, l1.send_split_id, count);
        LayerModel {
            send_split_id: vstd::wrapping::u16_specs::wrapping_add(l1.send_split_id, 1),
            ..l2
        }
    } else {
        enqueue_fragment(l1, priority, f)
    }
}

/// The bytes a message of class `reliability` takes in front of its
/// payload, unsplit.
pub open spec fn unsplit_header_size(reliability: Reliability) -> nat {
    3 + (if reliability.spec_is_reliable() {
        3nat
    } else {
        0nat
    }) + (if reliability.spec_is_sequenced() {
        7nat
    } else if reliability.spec_is_ordered() {
        4nat
    } else {
        0nat
    })
}

/// A message of `len` bytes can be queued: it fits a packet whole, or a
/// packet leaves room for at least one byte of it beside the header of a
/// piece.
pub open spec fn send_fits(l: LayerModel, reliability: Reliability, len: nat) -> bool {
    unsplit_header_size(reliability) + len <= l.max_size_of_packet || unsplit_header_size(reliability) + 10
        < l.max_size_of_packet
}

/// Every fragment of the sequence fits in a packet of `max` bytes.
pub open spec fn fragments_fit(fs: Seq<FragmentModel>, max: nat) -> bool {
    forall|i: int| 0 <= i < fs.len() ==> (#[trigger] fs[i]).data.len() <= max
}

/// The fragments the cache holds fit in a packet of `max` bytes, and the
/// packets it holds were sent no later than `clock`.
pub open spec fn cache_fits(c: CacheModel, max: nat, clock: u64) -> bool {
    &&& fragments_fit(c.queue, max)
    &&& forall|j: int|
        0 <= j < c.histories.len() ==> (#[trigger] c.histories[j] matches HistoryModel::Valid {
            fragments,
            time_sent,
        } ==> fragments_fit(fragments, max) && time_sent <= clock)
}

/// The layer of a new connection with datagrams of `mtu_size` bytes: its
/// packets leave room for the IP, UDP and datagram headers, its clocks
/// read `now`, and everything else is empty or zero.
pub open spec fn fresh_layer(now: u64, mtu_size: usize) -> LayerModel {
    LayerModel {
        events: Seq::empty(),
        max_size_of_packet: (mtu_size - 32) as nat,
        bandwidth_exceeded: false,
        needs_arrival_rate: false,
        is_dead: false,
        timeout: DEFAULT_TIMEOUT,
        last_update: now,
        time_last_datagram_recved: now,
        total_bytes_acked: 0,
        acks: Seq::empty(),
        naks: Seq::empty(),
        outgoing: Seq::empty(),
        next_weight: seq![0usize, 0, 0, 0],
        output: Seq::empty(),
        cache: CacheModel {
            histories: Seq::new(PACKET_HISTORY_SIZE as nat, |_j: int| HistoryModel::Invalid),
            start: 0,
            queue: Seq::empty(),
        },
        seq_window: WindowModel {
            slots: Seq::new(SEQ_WINDOW_SIZE as nat, |_j: int| None::<u64>),
            start: 0,
            furthest: None,
        },
        reliable_window: WindowModel {
            slots: Seq::new(RELIABLE_WINDOW_SIZE as nat, |_j: int| None::<()>),
            start: 0,
            furthest: None,
        },
        split: Map::empty(),
        ordered: Seq::new(ORDERING_CHANNEL_SIZE as nat, |_i: int| Seq::<Option<Seq<u8>>>::empty()),
        send_split_id: 0,
        send_reliable_index: 0,
        send_sequence_index: 0,
        send_ordering_index: Seq::new(ORDERING_CHANNEL_SIZE as nat, |_i: int| 0u32),
        recv_sequence_index: Seq::new(ORDERING_CHANNEL_SIZE as nat, |_i: int| 0u32),
        recv_ordering_index: Seq::new(ORDERING_CHANNEL_SIZE as nat, |_i: int| 0u32),
    }
}

impl<T: CongestionController> View for Layer<T> {
    type V = LayerModel;

    closed spec fn view(&self) -> LayerModel {
        LayerModel {
            events: self.events@,
            max_size_of_packet: self.max_size_of_packet as nat,
            bandwidth_exceeded: self.bandwidth_exceeded,
            needs_arrival_rate: self.needs_arrival_rate,
            is_dead: self.is_dead,
            timeout: self.timeout,
            last_update: self.last_update,
            time_last_datagram_recved: self.time_last_datagram_recved,
            total_bytes_acked: self.total_bytes_acked,
            acks: self.acks@,
            naks: self.naks@,
            outgoing: outgoing_view(self.outgoing_queue@),
            next_weight: self.outgoing_next_weight@,
            output: output_view(self.output_queue@),
            cache: self.retransmit_cache@,
            seq_window: self.seq_window@,
            reliable_window: self.reliable_window@,
            split: split_view(self.split_fragments@),
            ordered: ordered_view(self.ordered_fragments@),
            send_split_id: self.send_split_id,
            send_reliable_index: self.send_reliable_index,
            send_sequence_index: self.send_sequence_index,
            send_ordering_index: self.send_ordering_index@,
            recv_sequence_index: self.recv_sequence_index@,
            recv_ordering_index: self.recv_ordering_index@,
        }
    }
}

impl<T: CongestionController> Layer<T> {
    /// The invariant of the layer: its rings are well formed, its outgoing
    /// queue is ordered by weight, fragments it holds fit in a packet, and
    /// the arrival and send times it holds lie in the past of its clock.
    pub closed spec fn wf(&self) -> bool {
        &&& self.max_size_of_packet + 32 <= usize::MAX
        &&& self.retransmit_cache.wf()
        &&& self.seq_window.wf()
        &&& self.reliable_window.wf()
        &&& self.ordered_fragments@.len() == ORDERING_CHANNEL_SIZE
        &&& sorted_by_weight(self@.outgoing)
        &&& forall|i: int|
            0 <= i < self@.outgoing.len() ==> (#[trigger] self@.outgoing[i]).fragment.data.len()
                <= self.max_size_of_packet
        &&& forall|c: int|
            0 <= c < ORDERING_CHANNEL_SIZE ==> (#[trigger] self@.ordered[c]).len() <= u32::MAX
        &&& forall|i: int| 0 <= i < self@.acks.len() ==> #[trigger] self@.acks[i] < u32::MAX
        &&& forall|i: int| 0 <= i < self@.naks.len() ==> #[trigger] self@.naks[i] < u32::MAX
        &&& forall|j: int|
            0 <= j < self@.seq_window.slots.len() ==> (#[trigger] self@.seq_window.slots[j] matches Some(t)
                ==> t <= self.time_last_datagram_recved)
        &&& cache_fits(self@.cache, self.max_size_of_packet as nat, self.last_update)
    }

    /// A layer for a connection with datagrams of `mtu_size` bytes, its
    /// clock at `now` (see `fresh_layer`).
    pub fn new(now: u64, mtu_size: usize) -> (l: Self)
        requires
            32 <= mtu_size,
        ensures
            l.wf(),
            l@ == fresh_layer(now, mtu_size),
    {
        broadcast use vstd::std_specs::hash::group_hash_axioms;

        let mut ordered_fragments: Vec<VecDeque<Option<Vec<u8>>>> = Vec::new();
        let mut i: usize = 0;
        while i < ORDERING_CHANNEL_SIZE
            invariant
                i <= ORDERING_CHANNEL_SIZE,
                ordered_view(ordered_fragments@) == Seq::new(i as nat, |_i: int| Seq::<Option<Seq<u8>>>::empty()),
                ordered_fragments@.len() == i,
            decreases ORDERING_CHANNEL_SIZE - i,
        {
            let ghost before = ordered_fragments@;
            let channel: VecDeque<Option<Vec<u8>>> = VecDeque::new();
            assert(parts_view(channel@) =~= Seq::<Option<Seq<u8>>>::empty());
            ordered_fragments.push(channel);
            assert(ordered_fragments@ == before.push(channel));
            assert(ordered_view(ordered_fragments@) =~= ordered_view(before).push(Seq::<Option<Seq<u8>>>::empty()));
            i += 1;
            assert(ordered_view(ordered_fragments@) =~= Seq::new(i as nat, |_i: int| Seq::<Option<Seq<u8>>>::empty()));
        }
        proof {
            vstd::arithmetic::power2::lemma2_to64();
            assert(crate::reliability::window::ring_size_ok(SEQ_WINDOW_SIZE)) by {
                assert(SEQ_WINDOW_SIZE == vstd::arithmetic::power2::pow2(7));
            }
            assert(crate::reliability::window::ring_size_ok(RELIABLE_WINDOW_SIZE)) by {
                assert(RELIABLE_WINDOW_SIZE == vstd::arithmetic::power2::pow2(9));
            }
        }
        let l = Layer {
            max_size_of_packet: mtu_size - IP_UDP_HEADER_SIZE - 1 - 3,
            bandwidth_exceeded: false,
            needs_arrival_rate: false,
            is_dead: false,
            timeout: DEFAULT_TIMEOUT,
            last_update: now,
            time_last_datagram_recved: now,
            total_bytes_acked: 0,
            acks: Vec::with_capacity(64),
            naks: Vec::with_capacity(64),
            outgoing_queue: Vec::new(),
            outgoing_next_weight: [0; 4],
            output_queue: Vec::with_capacity(64),
            retransmit_cache: RetransmitCache::new(),
            seq_window: Window::new(),
            reliable_window: Window::new(),
            split_fragments: HashMap::new(),
            ordered_fragments,
            send_split_id: 0,
            send_reliable_index: 0,
            send_sequence_index: 0,
            send_ordering_index: [0; 32],
            recv_sequence_index: [0; 32],
            recv_ordering_index: [0; 32],
            congestion_controller: T::new(mtu_size - IP_UDP_HEADER_SIZE),
            events: Ghost(Seq::empty()),
        };
        assert(l@.next_weight =~= seq![0usize, 0, 0, 0]);
        assert(l@.send_ordering_index =~= Seq::new(32, |_i: int| 0u32));
        assert(l@.recv_sequence_index =~= Seq::new(32, |_i: int| 0u32));
        assert(l@.recv_ordering_index =~= Seq::new(32, |_i: int| 0u32));
        assert(l@.split =~= Map::<u16, Seq<Option<Seq<u8>>>>::empty());
        assert(l@.cache.queue =~= Seq::<FragmentModel>::empty());
        assert(l@.acks =~= Seq::<u32>::empty());
        assert(l@.naks =~= Seq::<u32>::empty());
        assert(l@.outgoing =~= Seq::<OutgoingModel>::empty());
        assert(l@.output =~= Seq::<Seq<u8>>::empty());
        assert(l@ =~= fresh_layer(now, mtu_size));
        l
    }

    pub fn is_dead(&self) -> (b: bool)
        ensures
            b == self@.is_dead,
    {
        self.is_dead
    }

    pub fn set_timeout(&mut self, timeout: u64)
        requires
            old(self).wf(),
        ensures
            final(self).wf(),
            final(self)@ == (LayerModel { timeout, ..old(self)@ }),
    {
        self.timeout = timeout;
    }

    pub fn get_timeout(&self) -> (t: u64)
        ensures
            t == self@.timeout,
    {
        self.timeout
    }

    /// The time of the last turn of the layer.
    pub fn last_update(&self) -> (t: u64)
        ensures
            t == self@.last_update,
    {
        self.last_update
    }

    /// The time the last datagram arrived.
    pub fn time_last_datagram_recved(&self) -> (t: u64)
        ensures
            t == self@.time_last_datagram_recved,
    {
        self.time_last_datagram_recved
    }

    /// Whether no sent packet awaits an acknowledgement at the start of the
    /// cache and no fragment waits to be sent again.
    pub fn is_retransmit_cache_empty(&self) -> (b: bool)
        requires
            self.wf(),
        ensures
            b == (self@.cache.histories[(self@.cache.start % 128) as int] is Invalid
                && self@.cache.queue.len() == 0),
    {
        self.retransmit_cache.is_empty()
    }

    /// Hands out the messages received so far, in order, and forgets them.
    pub fn recv(&mut self) -> (msgs: Vec<Vec<u8>>)
        requires
            old(self).wf(),
        ensures
            final(self).wf(),
            output_view(msgs@) == old(self)@.output,
            final(self)@ == (LayerModel { output: Seq::empty(), ..old(self)@ }),
    {
        let mut msgs: Vec<Vec<u8>> = Vec::new();
        std::mem::swap(&mut msgs, &mut self.output_queue);
        assert(self@.output =~= Seq::<Seq<u8>>::empty());
        msgs
    }

    fn priority_factor(p: usize) -> (f: usize)
        requires
            p <= 4,
        ensures
            f == priority_factor_of(p as nat),
    {
        let shifted: usize = 1usize << p;
        assert(shifted == (if p == 0 { 1usize } else if p == 1 { 2 } else if p == 2 { 4 } else if p == 3 { 8 } else { 16 })) by (bit_vector)
            requires
                p <= 4,
                shifted == 1usize << p,
        ;
        let m = shifted.wrapping_mul(p);
        assert(m == shifted * p) by {
            assert(shifted * p <= 64) by (nonlinear_arith)
                requires
                    shifted <= 16,
                    p <= 4,
            ;
            vstd::arithmetic::div_mod::lemma_small_mod(
                (shifted as nat * p as nat) as nat,
                (usize::MAX - usize::MIN + 1) as nat,
            );
        }
        assert(m + p == priority_factor_of(p as nat)) by (nonlinear_arith)
            requires
                m == shifted * p,
                p <= 4,
                shifted == (if p == 0 { 1usize } else if p == 1 { 2 } else if p == 2 { 4 } else if p == 3 { 8 } else { 16 }),
        ;
        m + p
    }

    fn init_next_weight(&mut self)
        requires
            old(self).wf(),
        ensures
            final(self)@ == (LayerModel { next_weight: initial_weights(), ..old(self)@ }),
            final(self).wf(),
    {
        let weights: [usize; 4] = [
            Self::priority_factor(0),
            Self::priority_factor(1),
            Self::priority_factor(2),
            Self::priority_factor(3),
        ];
        assert(weights@ =~= initial_weights());
        let ghost before = self@;
        self.outgoing_next_weight = weights;
        assert(self@.outgoing == before.outgoing);
        assert(self@.ordered == before.ordered);
        assert(self@.seq_window == before.seq_window);
        assert(self@.cache == before.cache);
    }

    fn get_next_weight(&mut self, priority: Priority) -> (w: usize)
        requires
            old(self).wf(),
        ensures
            final(self).wf(),
            (w, final(self)@.next_weight) == next_weight(old(self)@.next_weight, old(self)@.outgoing, priority),
            final(self)@ == (LayerModel { next_weight: final(self)@.next_weight, ..old(self)@ }),
    {
        let priority_idx = priority.index();
        if self.outgoing_queue.len() == 0 {
            self.init_next_weight();
            return self.outgoing_next_weight[priority_idx];
        }
        let current_weight = self.outgoing_next_weight[priority_idx];
        let peek = &self.outgoing_queue[0];
        let min_weight = peek.weight.wrapping_sub(Self::priority_factor(peek.priority.index()));
        let next_weight = if current_weight < min_weight {
            min_weight.wrapping_add(Self::priority_factor(priority_idx))
        } else {
            current_weight
        };
        self.outgoing_next_weight[priority_idx] = next_weight.wrapping_add(
            Self::priority_factor(priority_idx + 1),
        );
        next_weight
    }
}

proof fn lemma_insert_pos(q: Seq<OutgoingModel>, w: usize, k: int)
    requires
        0 <= k <= q.len(),
        forall|i: int| 0 <= i < k ==> q[i].weight <= w,
        k == q.len() || q[k].weight > w,
    ensures
        insert_pos(q, w) == k,
    decreases k,
{
    if k > 0 {
        let r = q.drop_first();
        assert forall|i: int| 0 <= i < k - 1 implies r[i].weight <= w by {
            assert(r[i] == q[i + 1]);
        }
        if k < q.len() {
            assert(r[k - 1] == q[k]);
        }
        lemma_insert_pos(r, w, k - 1);
    }
}

/// Placing a fragment after every fragment that weighs at most as much
/// keeps the queue ordered by weight.
pub proof fn lemma_enqueue_sorted(q: Seq<OutgoingModel>, e: OutgoingModel)
    requires
        sorted_by_weight(q),
    ensures
        sorted_by_weight(enqueue(q, e)),
        enqueue(q, e).len() == q.len() + 1,
{
    let k = insert_pos(q, e.weight) as int;
    lemma_insert_pos_bounds(q, e.weight);
    let r = enqueue(q, e);
    assert(r =~= q.insert(k, e));
    assert forall|i: int, j: int| 0 <= i < j < r.len() implies r[i].weight <= r[j].weight by {
        if j < k {
        } else if j == k {
        } else if i < k {
            assert(q[i].weight <= e.weight);
            assert(r[j] == q[j - 1]);
            assert(q[k].weight > e.weight);
        } else if i == k {
            assert(r[j] == q[j - 1]);
            assert(q[k].weight > e.weight);
        } else {
            assert(r[i] == q[i - 1]);
            assert(r[j] == q[j - 1]);
        }
    }
}

proof fn lemma_insert_pos_bounds(q: Seq<OutgoingModel>, w: usize)
    ensures
        insert_pos(q, w) <= q.len(),
        forall|i: int| 0 <= i < insert_pos(q, w) ==> q[i].weight <= w,
        insert_pos(q, w) < q.len() ==> q[insert_pos(q, w) as int].weight > w,
    decreases q.len(),
{
    if q.len() > 0 && q[0].weight <= w {
        let r = q.drop_first();
        lemma_insert_pos_bounds(r, w);
        assert forall|i: int| 0 <= i < insert_pos(q, w) implies q[i].weight <= w by {
            if i > 0 {
                assert(q[i] == r[i - 1]);
            }
        }
        if insert_pos(q, w) < q.len() {
            assert(q[insert_pos(q, w) as int] == r[insert_pos(r, w) as int]);
        }
    }
}

impl<T: CongestionController> Layer<T> {
    fn push_outgoing(&mut self, entry: OutgoingFragment)
        requires
            old(self).wf(),
            entry.fragment.data@.len() <= old(self).max_size_of_packet,
        ensures
            final(self).wf(),
            final(self)@ == (LayerModel { outgoing: enqueue(old(self)@.outgoing, entry@), ..old(self)@ }),
    {
        let w = entry.weight;
        let mut pos: usize = 0;
        while pos < self.outgoing_queue.len() && self.outgoing_queue[pos].weight <= w
            invariant
                pos <= self.outgoing_queue@.len(),
                self@ == old(self)@,
                self.wf(),
                forall|i: int| 0 <= i < pos ==> (#[trigger] self@.outgoing[i]).weight <= w,
            decreases self.outgoing_queue@.len() - pos,
        {
            pos += 1;
        }
        proof {
            lemma_insert_pos(self@.outgoing, w, pos as int);
            lemma_enqueue_sorted(self@.outgoing, entry@);
        }
        let ghost before = self.outgoing_queue@;
        self.outgoing_queue.insert(pos, entry);
        assert(outgoing_view(self.outgoing_queue@) =~= enqueue(outgoing_view(before), entry@));
    }

    /// Queues a message. A sequenced message takes the next sequence index
    /// and the current ordering index of its channel; an ordered one takes
    /// the ordering index of its channel, which then advances. A message
    /// too large for one packet is split into numbered pieces that each fit.
    pub fn send(&mut self, priority: Priority, reliability: Reliability, ordering_channel: u8, data: Vec<u8>)
        requires
            old(self).wf(),
            reliability.spec_is_sequenced() || reliability.spec_is_ordered() ==> ordering_channel
                < ORDERING_CHANNEL_SIZE,
            send_fits(old(self)@, reliability, data@.len()),
        ensures
            final(self).wf(),
            final(self)@ == send_result(old(self)@, priority, reliability, ordering_channel, data@),
    {
        let ghost l0 = self@;
        let ch = ordering_channel as usize;
        let mut sequence_index: Option<u32> = None;
        let mut ordering_info: Option<OrderingInfo> = None;
        if reliability.is_sequenced() {
            sequence_index = Some(self.send_sequence_index);
            self.send_sequence_index = self.send_sequence_index.wrapping_add(1);
            ordering_info = Some(OrderingInfo { index: self.send_ordering_index[ch], channel: ordering_channel });
        } else if reliability.is_ordered() {
            self.send_sequence_index = 0;
            ordering_info = Some(OrderingInfo { index: self.send_ordering_index[ch], channel: ordering_channel });
            self.send_ordering_index[ch] = self.send_ordering_index[ch].wrapping_add(1);
        }
        let fragment = Fragment {
            reliability,
            reliable_index: None,
            sequence_index,
            ordering_info,
            split_info: None,
            data,
        };
        assert(fragment@ == stamped_fragment(l0, reliability, ordering_channel, data@));
        assert(self@ =~= stamped_counters(l0, reliability, ordering_channel));
        let too_big = fragment.data.len() > self.max_size_of_packet
            || fragment.calc_full_size() > self.max_size_of_packet;
        if too_big {
            let _ = fragment.reliability.reliablize();
            self.split_fragment(priority, fragment);
        } else {
            let weight = self.get_next_weight(priority);
            self.push_outgoing(OutgoingFragment { weight, priority, fragment });
        }
    }

    /// Whether a message of class `reliability` and `len` bytes can be
    /// queued (see `send_fits`).
    pub fn can_send(&self, reliability: Reliability, len: usize) -> (r: bool)
        requires
            self.wf(),
        ensures
            r == send_fits(self@, reliability, len as nat),
    {
        let mut header: usize = 3;
        if reliability.is_reliable() {
            header += 3;
        }
        if reliability.is_sequenced() {
            header += 7;
        } else if reliability.is_ordered() {
            header += 4;
        }
        (len <= self.max_size_of_packet && header <= self.max_size_of_packet - len) || header + 10
            < self.max_size_of_packet
    }

    fn split_fragment(&mut self, priority: Priority, base_fragment: Fragment)
        requires
            old(self).wf(),
            base_fragment.split_info is None,
            base_fragment@.full_size() > old(self)@.max_size_of_packet,
            base_fragment@.header_size() + 10 < old(self)@.max_size_of_packet,
        ensures
            final(self).wf(),
            ({
                let l = old(self)@;
                let f = base_fragment@;
                let allowed = (l.max_size_of_packet - f.header_size() - 10) as nat;
                let count = split_count(f.data.len(), allowed);
                let l2 = enqueue_pieces(l, priority, f, f.data, allowed, count, l.send_split_id, count);
                final(self)@ == (LayerModel {
                    send_split_id: vstd::wrapping::u16_specs::wrapping_add(l.send_split_id, 1),
                    ..l2
                })
            }),
    {
        let ghost l = self@;
        let ghost f = base_fragment@;
        let header = base_fragment.calc_header_size();
        let allowed_size = self.max_size_of_packet - header - Fragment::SPLIT_INFO_SIZE;
        let Fragment { reliability, reliable_index, sequence_index, ordering_info, data, .. } = base_fragment;
        let len = data.len();
        let split_size = (len - 1) / allowed_size + 1;
        let id = self.send_split_id;
        let ghost count = split_count(len as nat, allowed_size as nat);
        assert(split_size == count);
        let mut i: usize = 0;
        let mut start: usize = 0;
        while i < split_size
            invariant
                self.wf(),
                i <= split_size,
                split_size == count,
                i < split_size ==> start == i * allowed_size,
                1 <= allowed_size <= self.max_size_of_packet,
                allowed_size == (l.max_size_of_packet - f.header_size() - 10),
                len == data@.len(),
                data@ == f.data,
                len > 0,
                count == split_count(len as nat, allowed_size as nat),
                id == l.send_split_id,
                reliability == f.reliability,
                reliable_index == f.reliable_index,
                sequence_index == f.sequence_index,
                ordering_info == f.ordering_info,
                f.split_info is None,
                self@ == enqueue_pieces(l, priority, f, f.data, allowed_size as nat, count, id, i as nat),
                self.max_size_of_packet == l.max_size_of_packet,
            decreases split_size - i,
        {
            proof {
                lemma_piece_start(len as int, allowed_size as int, i as int);
            }
            let end = if len - start > allowed_size {
                start + allowed_size
            } else {
                len
            };
            let piece = Fragment {
                reliability,
                reliable_index,
                sequence_index,
                ordering_info,
                split_info: Some(SplitInfo { size: split_size as u32, id, index: i as u32 }),
                data: crate::proto::codec::copy_range(data.as_slice(), start, end),
            };
            proof {
                assert((i + 1) * allowed_size == start + allowed_size) by (nonlinear_arith)
                    requires
                        start == i * allowed_size,
                ;
                assert(piece@ =~= split_piece(f, f.data, allowed_size as nat, count, id, i as nat));
            }
            let weight = self.get_next_weight(priority);
            self.push_outgoing(OutgoingFragment { weight, priority, fragment: piece });
            proof {
                if i + 1 < split_size {
                    lemma_piece_start(len as int, allowed_size as int, (i + 1) as int);
                }
            }
            i += 1;
            start = end;
        }
        assert(self@ == enqueue_pieces(l, priority, f, f.data, allowed_size as nat, count, id, count));
        let ghost l2 = self@;
        proof {
            lemma_enqueue_pieces_frame(l, priority, f, f.data, allowed_size as nat, count, id, count);
        }
        self.send_split_id = self.send_split_id.wrapping_add(1);
        assert(self@ =~= (LayerModel {
            send_split_id: vstd::wrapping::u16_specs::wrapping_add(l.send_split_id, 1),
            ..l2
        }));
    }
}

/// Queuing pieces changes only the queue and the table of next weights.
pub proof fn lemma_enqueue_pieces_frame(
    l: LayerModel,
    p: Priority,
    base: FragmentModel,
    data: Seq<u8>,
    allowed: nat,
    count: nat,
    id: u16,
    i: nat,
)
    ensures
        ({
            let r = enqueue_pieces(l, p, base, data, allowed, count, id, i);
            r == (LayerModel { outgoing: r.outgoing, next_weight: r.next_weight, ..l })
        }),
    decreases i,
{
    if i > 0 {
        lemma_enqueue_pieces_frame(l, p, base, data, allowed, count, id, (i - 1) as nat);
    }
}

/// The pieces of a split payload start inside it.
proof fn lemma_piece_start(len: int, allowed: int, i: int)
    requires
        len > 0,
        allowed > 0,
        0 <= i < (len - 1) / allowed + 1,
    ensures
        i * allowed <= len - 1,
{
    vstd::arithmetic::div_mod::lemma_fundamental_div_mod(len - 1, allowed);
    vstd::arithmetic::div_mod::lemma_mod_bound(len - 1, allowed);
    assert(i * allowed <= ((len - 1) / allowed) * allowed) by (nonlinear_arith)
        requires
            i <= (len - 1) / allowed,
            allowed > 0,
    ;
    assert(((len - 1) / allowed) * allowed == allowed * ((len - 1) / allowed)) by (nonlinear_arith);
}

/// The number of buffered messages in a row at the front of a channel.
pub open spec fn leading_ready(q: Seq<Option<Seq<u8>>>) -> nat
    decreases q.len(),
{
    if q.len() > 0 && q[0] is Some {
        1 + leading_ready(q.drop_first())
    } else {
        0
    }
}

/// The payloads of the first `k` buffered messages.
pub open spec fn ready_data(q: Seq<Option<Seq<u8>>>, k: nat) -> Seq<Seq<u8>> {
    Seq::new(
        k,
        |i: int|
            match q[i] {
                Some(d) => d,
                None => Seq::empty(),
            },
    )
}

/// The layer after a message that is whole reaches the ordering stage.
/// Unordered messages go straight out. An ordered or sequenced message
/// below the expected index of its channel is dropped; one above it waits
/// at its offset past the expected index. At the expected index, a
/// sequenced message goes out when its sequence index is not behind; an
/// ordered one goes out, the expected index advances, and the messages
/// waiting in a row at the front of the channel follow it out. The empty
/// slot that stopped them stays at the front of the queue, so what waits
/// behind it is counted one index further than it was.
pub open spec fn deliver(l: LayerModel, f: FragmentModel) -> LayerModel {
    match f.ordering_info {
        None => LayerModel { output: l.output.push(f.data), ..l },
        Some(oi) => {
            let ch = oi.channel as int;
            let current = l.recv_ordering_index[ch];
            if oi.index < current {
                l
            } else if oi.index > current {
                let idx = oi.index - current - 1;
                let q = l.ordered[ch];
                let grown = if q.len() > idx {
                    q
                } else {
                    q + Seq::new((idx + 1 - q.len()) as nat, |_i: int| None::<Seq<u8>>)
                };
                LayerModel { ordered: l.ordered.update(ch, grown.update(idx, Some(f.data))), ..l }
            } else {
                match f.sequence_index {
                    Some(si) => if si >= l.recv_sequence_index[ch] {
                        LayerModel {
                            recv_sequence_index: l.recv_sequence_index.update(
                                ch,
                                vstd::wrapping::u32_specs::wrapping_add(si, 1),
                            ),
                            output: l.output.push(f.data),
                            ..l
                        }
                    } else {
                        l
                    },
                    None => {
                        let q = l.ordered[ch];
                        let k = leading_ready(q);
                        LayerModel {
                            recv_ordering_index: l.recv_ordering_index.update(
                                ch,
                                (current + 1 + k) as u32,
                            ),
                            recv_sequence_index: l.recv_sequence_index.update(ch, 0),
                            output: l.output.push(f.data) + ready_data(q, k),
                            ordered: l.ordered.update(ch, q.skip(k as int)),
                            ..l
                        }
                    },
                }
            }
        },
    }
}

/// Every piece of a split message has arrived.
pub open spec fn all_ready(parts: Seq<Option<Seq<u8>>>) -> bool {
    forall|i: int| 0 <= i < parts.len() ==> (#[trigger] parts[i]) is Some
}

/// The payloads of the pieces, joined in order.
pub open spec fn concat_parts(parts: Seq<Option<Seq<u8>>>) -> Seq<u8>
    decreases parts.len(),
{
    if parts.len() == 0 {
        Seq::empty()
    } else {
        concat_parts(parts.drop_last()) + match parts.last() {
            Some(d) => d,
            None => Seq::empty(),
        }
    }
}

/// The layer after a piece of a split message arrives, and the whole
/// message when this piece completes it. A piece whose index is not below
/// the piece count, or beyond the pieces recorded for its id, is dropped.
/// The first piece of an id records the count; the message is complete
/// when a later piece fills the last gap, and then takes the payloads
/// joined in order and the header of the completing piece.
pub open spec fn assemble(l: LayerModel, f: FragmentModel) -> (LayerModel, Option<FragmentModel>) {
    let si = f.split_info->0;
    if si.index >= si.size {
        (l, None)
    } else if l.split.contains_key(si.id) {
        let parts = l.split[si.id];
        if si.index >= parts.len() {
            (l, None)
        } else {
            let filled = parts.update(si.index as int, Some(f.data));
            if all_ready(filled) {
                (
                    LayerModel { split: l.split.remove(si.id), ..l },
                    Some(FragmentModel { data: concat_parts(filled), ..f }),
                )
            } else {
                (LayerModel { split: l.split.insert(si.id, filled), ..l }, None)
            }
        }
    } else {
        (
            LayerModel {
                split: l.split.insert(
                    si.id,
                    Seq::new(si.size as nat, |_i: int| None::<Seq<u8>>).update(
                        si.index as int,
                        Some(f.data),
                    ),
                ),
                ..l
            },
            None,
        )
    }
}

/// Why a received fragment was refused.
pub enum FragmentFault {
    /// Its reliable index fell beyond the window of reliable indices.
    Overflow,
    /// Its ordering channel does not exist.
    BadChannel,
}

/// The error a fault is reported as.
pub open spec fn fault_matches(e: crate::error::LayerError, f: FragmentFault) -> bool {
    match f {
        FragmentFault::Overflow => e is BufferOverflow,
        FragmentFault::BadChannel => e matches crate::error::LayerError::RukBytes(b) && b@
            == crate::error::BytesFault::Invalid("Invalid ordering channel"@),
    }
}

/// The layer after a received fragment, or the fault it is refused for. A
/// reliable fragment is refused, the layer unchanged, when its index lies
/// beyond the window of reliable indices, or when that window starts within
/// its length of the end of 32-bit numbers, where moving it on could pass
/// the end; one whose slot in the window is taken was seen before and is
/// dropped. Otherwise its index is recorded and the window moves on. A
/// piece of a split message waits for the others. A whole message goes to
/// the ordering stage, which refuses an ordering channel that does not
/// exist, the index recorded and the pieces joined.
pub open spec fn fragment_result(l: LayerModel, f: FragmentModel) -> (LayerModel, Option<FragmentFault>) {
    let filtered: Option<Option<LayerModel>> = match f.reliable_index {
        None => Some(Some(l)),
        Some(ri) => if l.reliable_window.start + RELIABLE_WINDOW_SIZE > u32::MAX {
            None
        } else {
            match insert_outcome(l.reliable_window, ri, RELIABLE_WINDOW_SIZE as nat) {
                Err(_) => None,
                Ok(false) => Some(None),
                Ok(true) => Some(
                    Some(
                        LayerModel {
                            reliable_window: shifted(
                                inserted(l.reliable_window, ri, (), RELIABLE_WINDOW_SIZE as nat),
                                RELIABLE_WINDOW_SIZE as nat,
                            ),
                            ..l
                        },
                    ),
                ),
            }
        },
    };
    match filtered {
        None => (l, Some(FragmentFault::Overflow)),
        Some(None) => (l, None),
        Some(Some(l1)) => {
            let (l2, whole) = if f.split_info is Some {
                assemble(l1, f)
            } else {
                (l1, Some(f))
            };
            match whole {
                None => (l2, None),
                Some(g) => if g.ordering_info matches Some(oi) && oi.channel >= ORDERING_CHANNEL_SIZE {
                    (l2, Some(FragmentFault::BadChannel))
                } else {
                    (deliver(l2, g), None)
                },
            }
        },
    }
}

/// The layer after the first `i` fragments, stopping at the first one
/// refused.
pub open spec fn fragments_fold(l: LayerModel, fs: Seq<FragmentModel>, i: nat) -> (LayerModel, Option<FragmentFault>)
    decreases i,
{
    if i == 0 {
        (l, None)
    } else {
        let (l1, e1) = fragments_fold(l, fs, (i - 1) as nat);
        if e1 is Some {
            (l1, e1)
        } else {
            fragment_result(l1, fs[i - 1])
        }
    }
}

/// The run of buffered messages at the front of a channel: each of them is
/// present, and the next slot, if any, is empty.
proof fn lemma_leading_ready(q: Seq<Option<Seq<u8>>>)
    ensures
        leading_ready(q) <= q.len(),
        forall|i: int| 0 <= i < leading_ready(q) ==> (#[trigger] q[i]) is Some,
        leading_ready(q) < q.len() ==> q[leading_ready(q) as int] is None,
    decreases q.len(),
{
    if q.len() > 0 && q[0] is Some {
        let r = q.drop_first();
        lemma_leading_ready(r);
        assert forall|i: int| 0 <= i < leading_ready(q) implies (#[trigger] q[i]) is Some by {
            if i > 0 {
                assert(q[i] == r[i - 1]);
            }
        }
        if leading_ready(q) < q.len() {
            assert(q[leading_ready(q) as int] == r[leading_ready(r) as int]);
        }
    }
}

impl<T: CongestionController> Layer<T> {
    /// Hands a whole message to the ordering stage of its channel (see
    /// `deliver`).
    fn deliver(&mut self, fragment: Fragment)
        requires
            old(self).wf(),
            fragment.ordering_info matches Some(oi) ==> oi.channel < ORDERING_CHANNEL_SIZE,
        ensures
            final(self).wf(),
            final(self)@ == deliver(old(self)@, fragment@),
    {
        let ghost l = self@;
        let ghost f = fragment@;
        let Fragment { ordering_info, sequence_index, data, .. } = fragment;
        match ordering_info {
            None => {
                let ghost out0 = self.output_queue@;
                self.output_queue.push(data);
                assert(output_view(self.output_queue@) =~= output_view(out0).push(f.data));
                assert(self@ =~= deliver(l, f));
            },
            Some(oi) => {
                let ch = oi.channel as usize;
                let current = self.recv_ordering_index[ch];
                if oi.index < current {
                    return;
                } else if oi.index > current {
                    let idx = (oi.index - current - 1) as usize;
                    let ghost v0 = self.ordered_fragments@;
                    let mut q = self.ordered_fragments.remove(ch);
                    let ghost q0 = q@;
                    assert(parts_view(q0) == l.ordered[ch as int]);
                    while q.len() <= idx
                        invariant
                            q@.len() >= q0.len(),
                            q0.len() > idx ==> q@ == q0,
                            q0.len() <= idx ==> q@.len() <= idx + 1,
                            parts_view(q@) == parts_view(q0) + Seq::new(
                                (q@.len() - q0.len()) as nat,
                                |_i: int| None::<Seq<u8>>,
                            ),
                        decreases idx + 1 - q@.len(),
                    {
                        let ghost before = q@;
                        q.push_back(None);
                        assert(parts_view(q@) =~= parts_view(q0) + Seq::new(
                            (q@.len() - q0.len()) as nat,
                            |_i: int| None::<Seq<u8>>,
                        )) by {
                            assert(parts_view(q@) =~= parts_view(before).push(None));
                        }
                    }
                    let ghost grown = parts_view(q@);
                    let ghost qg = q@;
                    let _replaced = q.remove(idx);
                    q.insert(idx, Some(data));
                    assert(q@ =~= qg.update(idx as int, Some(data)));
                    assert(parts_view(q@) =~= grown.update(idx as int, Some(f.data)));
                    self.ordered_fragments.insert(ch, q);
                    assert(self.ordered_fragments@ =~= v0.update(ch as int, q));
                    assert(ordered_view(self.ordered_fragments@) =~= l.ordered.update(
                        ch as int,
                        grown.update(idx as int, Some(f.data)),
                    ));
                    assert(grown =~= (if parts_view(q0).len() > idx {
                        parts_view(q0)
                    } else {
                        parts_view(q0) + Seq::new((idx + 1 - parts_view(q0).len()) as nat, |_i: int| None::<Seq<u8>>)
                    }));
                    assert(self@ =~= deliver(l, f));
                } else {
                    match sequence_index {
                        Some(si) => {
                            if si >= self.recv_sequence_index[ch] {
                                let ghost out0 = self.output_queue@;
                                self.recv_sequence_index[ch] = si.wrapping_add(1);
                                self.output_queue.push(data);
                                assert(output_view(self.output_queue@) =~= output_view(out0).push(f.data));
                                assert(self@ =~= deliver(l, f));
                            }
                        },
                        None => {
                            let ghost out0 = self.output_queue@;
                            self.recv_sequence_index[ch] = 0;
                            self.output_queue.push(data);
                            assert(output_view(self.output_queue@) =~= output_view(out0).push(f.data));
                            let ghost v0 = self.ordered_fragments@;
                            let mut q = self.ordered_fragments.remove(ch);
                            let ghost pq = parts_view(q@);
                            assert(pq == l.ordered[ch as int]);
                            let ghost k = leading_ready(pq);
                            proof {
                                lemma_leading_ready(pq);
                            }
                            let mut released: Vec<Vec<u8>> = Vec::new();
                            let mut j: usize = 0;
                            while q.len() > 0 && q[0].is_some()
                                invariant
                                    j <= k,
                                    k <= pq.len(),
                                    pq.len() <= u32::MAX,
                                    forall|i: int| 0 <= i < k ==> (#[trigger] pq[i]) is Some,
                                    k < pq.len() ==> pq[k as int] is None,
                                    parts_view(q@) == pq.skip(j as int),
                                    output_view(released@) == ready_data(pq, j as nat),
                                decreases q@.len(),
                            {
                                let ghost before = q@;
                                assert(parts_view(before).len() == before.len());
                                assert(parts_view(before)[0] == pq.skip(j as int)[0]);
                                assert(pq[j as int] == parts_view(before)[0]);
                                assert(j < k) by {
                                    if j >= k {
                                        assert(j == k);
                                    }
                                }
                                let item = match q.pop_front() {
                                    Some(x) => x,
                                    None => None,
                                };
                                assert forall|i: int| 0 <= i < q@.len() implies #[trigger] parts_view(q@)[i]
                                    == pq.skip(j + 1)[i] by {
                                    assert(q@[i] == before[i + 1]);
                                    assert(parts_view(before)[i + 1] == pq.skip(j as int)[i + 1]);
                                }
                                assert(parts_view(q@) =~= pq.skip(j + 1));
                                let ghost out1 = released@;
                                match item {
                                    Some(d) => {
                                        released.push(d);
                                        assert(output_view(released@) =~= output_view(out1).push(d@));
                                    },
                                    None => {},
                                }
                                assert(output_view(released@) =~= ready_data(pq, (j + 1) as nat));
                                j += 1;
                            }
                            assert(j == k) by {
                                if j < k {
                                    assert(parts_view(q@)[0] == pq[j as int]);
                                }
                            }
                            let ghost out2 = self.output_queue@;
                            self.output_queue.append(&mut released);
                            assert(output_view(self.output_queue@) =~= output_view(out2) + ready_data(pq, k));
                            let total: u64 = current as u64 + 1 + j as u64;
                            self.recv_ordering_index[ch] = total as u32;
                            self.ordered_fragments.insert(ch, q);
                            assert(self.ordered_fragments@ =~= v0.update(ch as int, q));
                            assert(ordered_view(self.ordered_fragments@) =~= l.ordered.update(ch as int, pq.skip(k as int)));
                            assert(self@ =~= deliver(l, f));
                        },
                    }
                }
            },
        }
    }
}

/// Joining one more piece appends its payload.
proof fn lemma_concat_parts_step(parts: Seq<Option<Seq<u8>>>, i: int)
    requires
        0 <= i < parts.len(),
    ensures
        concat_parts(parts.take(i + 1)) == concat_parts(parts.take(i)) + match parts[i] {
            Some(d) => d,
            None => Seq::empty(),
        },
{
    assert(parts.take(i + 1).drop_last() =~= parts.take(i));
}

impl<T: CongestionController> Layer<T> {
    /// Records a piece of a split message, and returns the whole message
    /// once its last missing piece arrives (see `assemble`).
    fn build_split_fragment(&mut self, fragment: Fragment) -> (r: Option<Fragment>)
        requires
            old(self).wf(),
            fragment.split_info is Some,
        ensures
            final(self).wf(),
            ({
                let (l2, whole) = assemble(old(self)@, fragment@);
                &&& final(self)@ == l2
                &&& match r {
                    Some(g) => whole == Some(g@),
                    None => whole is None,
                }
            }),
    {
        broadcast use vstd::std_specs::hash::group_hash_axioms;

        let ghost l = self@;
        let ghost f = fragment@;
        let si = match fragment.split_info {
            Some(si) => si,
            None => {
                return None;
            },
        };
        if si.index >= si.size {
            return None;
        }
        let id = si.id;
        let ghost m0 = self.split_fragments@;
        assert(l.split == split_view(m0));
        let Fragment { reliability, reliable_index, sequence_index, ordering_info, split_info, data } = fragment;
        match self.split_fragments.remove(&id) {
            Some(mut parts) => {
                assert(m0.contains_key(id) && m0[id] == parts);
                assert(l.split.contains_key(id) && l.split[id] == parts_view(parts@));
                if si.index as usize >= parts.len() {
                    self.split_fragments.insert(id, parts);
                    assert(self.split_fragments@ =~= m0);
                    assert(self@ =~= l);
                    return None;
                }
                let ghost before = parts@;
                parts.set(si.index as usize, Some(data));
                let ghost filled = parts_view(parts@);
                assert(filled =~= parts_view(before).update(si.index as int, Some(f.data)));
                let mut complete = true;
                let mut i: usize = 0;
                while i < parts.len()
                    invariant
                        i <= parts@.len(),
                        filled == parts_view(parts@),
                        complete == (forall|j: int| 0 <= j < i ==> (#[trigger] filled[j]) is Some),
                    decreases parts@.len() - i,
                {
                    if parts[i].is_none() {
                        complete = false;
                    }
                    assert(filled[i as int] is Some <==> parts@[i as int] is Some);
                    i += 1;
                }
                assert(complete == all_ready(filled));
                if complete {
                    let mut joined: Vec<u8> = Vec::new();
                    let mut i: usize = 0;
                    while i < parts.len()
                        invariant
                            i <= parts@.len(),
                            filled == parts_view(parts@),
                            joined@ == concat_parts(filled.take(i as int)),
                        decreases parts@.len() - i,
                    {
                        proof {
                            lemma_concat_parts_step(filled, i as int);
                        }
                        match &parts[i] {
                            Some(d) => {
                                let mut piece = crate::proto::codec::copy_range(d.as_slice(), 0, d.len());
                                assert(piece@ =~= d@);
                                joined.append(&mut piece);
                            },
                            None => {},
                        }
                        i += 1;
                    }
                    assert(filled.take(filled.len() as int) =~= filled);
                    assert(self.split_fragments@ == m0.remove(id));
                    assert(split_view(self.split_fragments@) =~= l.split.remove(id));
                    assert(self@ =~= (LayerModel { split: l.split.remove(id), ..l }));
                    let whole = Fragment {
                        reliability,
                        reliable_index,
                        sequence_index,
                        ordering_info,
                        split_info,
                        data: joined,
                    };
                    assert(whole@ =~= (FragmentModel { data: concat_parts(filled), ..f }));
                    Some(whole)
                } else {
                    self.split_fragments.insert(id, parts);
                    assert(split_view(self.split_fragments@) =~= l.split.insert(id, filled));
                    assert(self@ =~= (LayerModel { split: l.split.insert(id, filled), ..l }));
                    None
                }
            },
            None => {
                assert(!m0.contains_key(id));
                assert(!l.split.contains_key(id));
                let mut parts: Vec<Option<Vec<u8>>> = Vec::new();
                let mut n: u32 = 0;
                while n < si.size
                    invariant
                        n <= si.size,
                        parts_view(parts@) == Seq::new(n as nat, |_i: int| None::<Seq<u8>>),
                    decreases si.size - n,
                {
                    let ghost before = parts@;
                    parts.push(None);
                    assert(parts_view(parts@) =~= parts_view(before).push(None));
                    n += 1;
                    assert(parts_view(parts@) =~= Seq::new(n as nat, |_i: int| None::<Seq<u8>>));
                }
                let ghost empty = parts_view(parts@);
                parts.set(si.index as usize, Some(data));
                assert(parts_view(parts@) =~= empty.update(si.index as int, Some(f.data)));
                self.split_fragments.insert(id, parts);
                assert(split_view(self.split_fragments@) =~= l.split.insert(id, empty.update(si.index as int, Some(f.data))));
                assert(self@ =~= assemble(l, f).0);
                None
            },
        }
    }
}

impl<T: CongestionController> Layer<T> {
    /// Takes in one received fragment (see `fragment_result`).
    fn handle_fragment(&mut self, fragment: Fragment) -> (r: Result<(), LayerError>)
        requires
            old(self).wf(),
        ensures
            final(self).wf(),
            ({
                let (l2, fault) = fragment_result(old(self)@, fragment@);
                &&& final(self)@ == l2
                &&& match r {
                    Ok(()) => fault is None,
                    Err(e) => fault matches Some(x) && fault_matches(e, x),
                }
            }),
    {
        let ghost l = self@;
        if let Some(ri) = fragment.reliable_index {
            if self.reliable_window.start_index() as u64 + RELIABLE_WINDOW_SIZE as u64 > u32::MAX as u64 {
                return Err(LayerError::BufferOverflow(BufferOverflowError));
            }
            match self.reliable_window.insert(ri, ()) {
                Err(e) => {
                    return Err(LayerError::BufferOverflow(e));
                },
                Ok(false) => {
                    return Ok(());
                },
                Ok(true) => {
                    self.reliable_window.shift();
                },
            }
        }
        let ghost l1 = self@;
        let whole = if fragment.split_info.is_some() {
            self.build_split_fragment(fragment)
        } else {
            Some(fragment)
        };
        match whole {
            None => Ok(()),
            Some(g) => {
                if let Some(oi) = g.ordering_info {
                    if oi.channel as usize >= ORDERING_CHANNEL_SIZE {
                        return Err(LayerError::RukBytes(RukBytesError::invalid_data("Invalid ordering channel")));
                    }
                }
                self.deliver(g);
                Ok(())
            },
        }
    }
}

/// The count of acknowledged bytes after the fragments `fs` are added to
/// it, wrapping round.
pub open spec fn acked_total(t: usize, fs: Seq<FragmentModel>) -> usize
    decreases fs.len(),
{
    if fs.len() == 0 {
        t
    } else {
        wrapping_add_usize(acked_total(t, fs.drop_last()), fs.last().full_size() as usize)
    }
}

/// The layer after the first `i` packet numbers of an acknowledgement
/// received at `now`: each packet still awaited is marked used, reported to
/// the congestion controller with its round trip, and its fragments are
/// counted as acknowledged bytes.
pub open spec fn acks_fold(l: LayerModel, seqs: Seq<u32>, now: u64, arrival_rate: Option<u32>, i: nat) -> LayerModel
    decreases i,
{
    if i == 0 {
        l
    } else {
        let l1 = acks_fold(l, seqs, now, arrival_rate, (i - 1) as nat);
        match mark_outcome(l1.cache, seqs[i - 1]) {
            Some((fs, t)) => LayerModel {
                cache: marked(l1.cache, seqs[i - 1]),
                total_bytes_acked: acked_total(l1.total_bytes_acked, fs),
                events: l1.events.push(
                    ControllerEvent::AckReceived {
                        now,
                        rtt: (now - t) as u64,
                        arrival_rate,
                        total_bytes_acked: l1.total_bytes_acked,
                        seq: seqs[i - 1],
                        is_continuous_send: l1.bandwidth_exceeded,
                    },
                ),
                ..l1
            },
            None => l1,
        }
    }
}

/// The layer after the first `i` packet numbers of a negative
/// acknowledgement: each packet still awaited is marked used, reported lost
/// to the congestion controller, and its fragments join the queue of
/// fragments to send again.
pub open spec fn naks_fold(l: LayerModel, seqs: Seq<u32>, i: nat) -> LayerModel
    decreases i,
{
    if i == 0 {
        l
    } else {
        let l1 = naks_fold(l, seqs, (i - 1) as nat);
        match mark_outcome(l1.cache, seqs[i - 1]) {
            Some((fs, _t)) => {
                let c = marked(l1.cache, seqs[i - 1]);
                LayerModel {
                    cache: CacheModel { queue: c.queue + fs, ..c },
                    events: l1.events.push(ControllerEvent::NakReceived),
                    ..l1
                }
            },
            None => l1,
        }
    }
}

/// The cache has room to move on within 32-bit packet numbers.
pub open spec fn cache_has_room(l: LayerModel) -> bool {
    l.cache.start + PACKET_HISTORY_SIZE <= u32::MAX
}

/// The layer after an acknowledgement of `seqs`, or `None` when the cache
/// has no room to move on.
pub open spec fn ack_result(l: LayerModel, seqs: Seq<u32>, now: u64, arrival_rate: Option<u32>) -> Option<
    LayerModel,
> {
    if !cache_has_room(l) {
        None
    } else {
        let l1 = acks_fold(l, seqs, now, arrival_rate, seqs.len());
        Some(LayerModel { cache: cache_shifted(l1.cache), ..l1 })
    }
}

/// The layer after a negative acknowledgement of `seqs`, or `None` when
/// the cache has no room to move on.
pub open spec fn nak_result(l: LayerModel, seqs: Seq<u32>) -> Option<LayerModel> {
    if !cache_has_room(l) {
        None
    } else {
        let l1 = naks_fold(l, seqs, seqs.len());
        Some(LayerModel { cache: cache_shifted(l1.cache), ..l1 })
    }
}

proof fn lemma_acked_total_step(t: usize, fs: Seq<FragmentModel>, j: int)
    requires
        0 <= j < fs.len(),
    ensures
        acked_total(t, fs.take(j + 1)) == wrapping_add_usize(acked_total(t, fs.take(j)), fs[j].full_size() as usize),
{
    assert(fs.take(j + 1).drop_last() =~= fs.take(j));
}

proof fn lemma_cache_fits_marked(c: CacheModel, seq: u32, max: nat, clock: u64)
    requires
        cache_fits(c, max, clock),
        c.histories.len() == PACKET_HISTORY_SIZE,
    ensures
        cache_fits(marked(c, seq), max, clock),
        mark_outcome(c, seq) matches Some((fs, t)) ==> fragments_fit(fs, max) && t <= clock,
{
    let slot = slot_of_history(seq);
    assert(0 <= slot < c.histories.len()) by {
        vstd::arithmetic::div_mod::lemma_mod_bound(seq as int, PACKET_HISTORY_SIZE as int);
    }
    if c.histories[slot] is Valid {
        let h = marked(c, seq).histories;
        assert forall|j: int| 0 <= j < h.len() implies (#[trigger] h[j] matches HistoryModel::Valid {
            fragments,
            time_sent,
        } ==> fragments_fit(fragments, max) && time_sent <= clock) by {
            if j != slot {
                assert(h[j] == c.histories[j]);
            }
        }
    }
}

pub open spec fn slot_of_history(seq: u32) -> int {
    crate::reliability::window::slot_of(seq as int, PACKET_HISTORY_SIZE as int)
}

impl<T: CongestionController> Layer<T> {
    /// Asks the controller whether acknowledgements are due, and records it.
    fn ask_ack(&mut self, now: u64, time_since_last_update: u64) -> (r: bool)
        requires
            old(self).wf(),
        ensures
            final(self).wf(),
            final(self)@ == (LayerModel {
                events: old(self)@.events.push(ControllerEvent::AckAsked { now, time_since_last_update, due: r }),
                ..old(self)@
            }),
    {
        let r = self.congestion_controller.should_send_ack(now, time_since_last_update);
        self.events = Ghost(self.events@.push(ControllerEvent::AckAsked { now, time_since_last_update, due: r }));
        r
    }

    /// Asks the controller whether it is in slow start, and records it.
    fn ask_slow_start(&mut self) -> (r: bool)
        requires
            old(self).wf(),
        ensures
            final(self).wf(),
            final(self)@ == (LayerModel {
                events: old(self)@.events.push(ControllerEvent::SlowStartAsked { slow_start: r }),
                ..old(self)@
            }),
    {
        let r = self.congestion_controller.is_in_slow_start();
        self.events = Ghost(self.events@.push(ControllerEvent::SlowStartAsked { slow_start: r }));
        r
    }

    /// Asks the controller for its retransmission timeout, and records it.
    fn ask_rto(&mut self) -> (r: u64)
        requires
            old(self).wf(),
        ensures
            final(self).wf(),
            final(self)@ == (LayerModel {
                events: old(self)@.events.push(ControllerEvent::RtoAsked { rto: r }),
                ..old(self)@
            }),
    {
        let r = self.congestion_controller.get_rto();
        self.events = Ghost(self.events@.push(ControllerEvent::RtoAsked { rto: r }));
        r
    }

    /// Takes the next packet number from the controller, and records it.
    fn take_seq(&mut self) -> (r: u32)
        requires
            old(self).wf(),
        ensures
            final(self).wf(),
            final(self)@ == (LayerModel {
                events: old(self)@.events.push(ControllerEvent::SeqTaken { seq: r }),
                ..old(self)@
            }),
    {
        let r = self.congestion_controller.get_seq_and_increment();
        self.events = Ghost(self.events@.push(ControllerEvent::SeqTaken { seq: r }));
        r
    }

    /// Asks the controller how many bytes may go out, and records it.
    fn ask_bandwidth(&mut self, now: u64, time_since_last_update: u64, is_continuous_send: bool) -> (r: usize)
        requires
            old(self).wf(),
        ensures
            final(self).wf(),
            final(self)@ == (LayerModel {
                events: old(self)@.events.push(
                    ControllerEvent::BandwidthGiven { now, time_since_last_update, is_continuous_send, bandwidth: r },
                ),
                ..old(self)@
            }),
    {
        let r = self.congestion_controller.get_transmission_bandwidth(now, time_since_last_update, is_continuous_send);
        self.events = Ghost(
            self.events@.push(
                ControllerEvent::BandwidthGiven { now, time_since_last_update, is_continuous_send, bandwidth: r },
            ),
        );
        r
    }

    /// Tells the controller a packet of `size` bytes went out, and records it.
    fn tell_packet_sent(&mut self, size: usize)
        requires
            old(self).wf(),
        ensures
            final(self).wf(),
            final(self)@ == (LayerModel {
                events: old(self)@.events.push(ControllerEvent::PacketSent { size }),
                ..old(self)@
            }),
    {
        self.congestion_controller.on_send_packet(size);
        self.events = Ghost(self.events@.push(ControllerEvent::PacketSent { size }));
    }

    /// Tells the controller acknowledgements go out, and records it; hands
    /// back the arrival rate it reports.
    fn tell_ack_sent(&mut self) -> (r: Option<u32>)
        requires
            old(self).wf(),
        ensures
            final(self).wf(),
            final(self)@ == (LayerModel {
                events: old(self)@.events.push(
                    ControllerEvent::AckSent {
                        needs_arrival_rate: old(self)@.needs_arrival_rate,
                        rate_in: None,
                        rate_out: r,
                    },
                ),
                ..old(self)@
            }),
    {
        let mut arrival_rate: Option<u32> = None;
        self.congestion_controller.on_send_ack(self.needs_arrival_rate, &mut arrival_rate);
        self.events = Ghost(
            self.events@.push(
                ControllerEvent::AckSent {
                    needs_arrival_rate: self.needs_arrival_rate,
                    rate_in: None,
                    rate_out: arrival_rate,
                },
            ),
        );
        arrival_rate
    }

    /// Takes in an acknowledgement of the packets `seqs` (see `ack_result`).
    /// Each packet still awaited reports its round trip to the congestion
    /// controller.
    fn handle_ack(&mut self, now: u64, arrival_rate: Option<u32>, seqs: Vec<u32>) -> (r: Result<(), LayerError>)
        requires
            old(self).wf(),
            now >= old(self)@.last_update,
        ensures
            final(self).wf(),
            match ack_result(old(self)@, seqs@, now, arrival_rate) {
                None => r matches Err(LayerError::BufferOverflow(_)) && final(self)@ == old(self)@,
                Some(l2) => r is Ok && final(self)@ == l2,
            },
    {
        if self.retransmit_cache.start_seq() as u64 + PACKET_HISTORY_SIZE as u64 > u32::MAX as u64 {
            return Err(LayerError::BufferOverflow(BufferOverflowError));
        }
        let ghost l0 = self@;
        let mut i: usize = 0;
        while i < seqs.len()
            invariant
                self.wf(),
                now >= self@.last_update,
                i <= seqs@.len(),
                self@ == acks_fold(l0, seqs@, now, arrival_rate, i as nat),
                self@.cache.start == l0.cache.start,
            decreases seqs@.len() - i,
        {
            let seq = seqs[i];
            let ghost li = self@;
            proof {
                self.retransmit_cache.lemma_wf_len();
                lemma_cache_fits_marked(li.cache, seq, li.max_size_of_packet, li.last_update);
            }
            match self.retransmit_cache.mark_as_used(seq) {
                Some((fragments, time_sent)) => {
                    let rtt = now - time_sent;
                    self.congestion_controller.on_recv_ack(
                        now,
                        rtt,
                        arrival_rate,
                        self.total_bytes_acked,
                        seq,
                        self.bandwidth_exceeded,
                    );
                    self.events = Ghost(
                        self.events@.push(
                            ControllerEvent::AckReceived {
                                now,
                                rtt,
                                arrival_rate,
                                total_bytes_acked: self.total_bytes_acked,
                                seq,
                                is_continuous_send: self.bandwidth_exceeded,
                            },
                        ),
                    );
                    let ghost fs = fragments_view(fragments@);
                    let mut total = self.total_bytes_acked;
                    let mut j: usize = 0;
                    while j < fragments.len()
                        invariant
                            j <= fragments@.len(),
                            fs == fragments_view(fragments@),
                            fragments_fit(fs, li.max_size_of_packet),
                            li.max_size_of_packet + 32 <= usize::MAX,
                            total == acked_total(li.total_bytes_acked, fs.take(j as int)),
                        decreases fragments@.len() - j,
                    {
                        proof {
                            lemma_acked_total_step(li.total_bytes_acked, fs, j as int);
                            assert(fs[j as int] == fragments@[j as int]@);
                        }
                        total = total.wrapping_add(fragments[j].calc_full_size());
                        j += 1;
                    }
                    assert(fs.take(fs.len() as int) =~= fs);
                    self.total_bytes_acked = total;
                },
                None => {},
            }
            assert(self@ =~= acks_fold(l0, seqs@, now, arrival_rate, (i + 1) as nat));
            i += 1;
        }
        self.retransmit_cache.shift();
        Ok(())
    }

    /// Takes in a negative acknowledgement of the packets `seqs` (see
    /// `nak_result`). Each packet still awaited is reported lost to the
    /// congestion controller.
    fn hanlde_nak(&mut self, seqs: Vec<u32>) -> (r: Result<(), LayerError>)
        requires
            old(self).wf(),
        ensures
            final(self).wf(),
            match nak_result(old(self)@, seqs@) {
                None => r matches Err(LayerError::BufferOverflow(_)) && final(self)@ == old(self)@,
                Some(l2) => r is Ok && final(self)@ == l2,
            },
    {
        if self.retransmit_cache.start_seq() as u64 + PACKET_HISTORY_SIZE as u64 > u32::MAX as u64 {
            return Err(LayerError::BufferOverflow(BufferOverflowError));
        }
        let ghost l0 = self@;
        let mut i: usize = 0;
        while i < seqs.len()
            invariant
                self.wf(),
                i <= seqs@.len(),
                self@ == naks_fold(l0, seqs@, i as nat),
                self@.cache.start == l0.cache.start,
            decreases seqs@.len() - i,
        {
            let seq = seqs[i];
            let ghost li = self@;
            proof {
                self.retransmit_cache.lemma_wf_len();
                lemma_cache_fits_marked(li.cache, seq, li.max_size_of_packet, li.last_update);
            }
            match self.retransmit_cache.mark_as_used(seq) {
                Some((fragments, _)) => {
                    self.congestion_controller.on_recv_nak();
                    self.events = Ghost(self.events@.push(ControllerEvent::NakReceived));
                    let ghost c1 = self@.cache;
                    self.retransmit_cache.extend_retransmit_fragments(fragments);
                    assert(self@.cache == (CacheModel { queue: c1.queue + fragments_view(fragments@), ..c1 }));
                    assert(fragments_fit(self@.cache.queue, li.max_size_of_packet)) by {
                        let q = self@.cache.queue;
                        assert forall|k: int| 0 <= k < q.len() implies (#[trigger] q[k]).data.len() <= li.max_size_of_packet by {
                            if k >= c1.queue.len() {
                                assert(q[k] == fragments_view(fragments@)[k - c1.queue.len()]);
                            }
                        }
                    }
                },
                None => {},
            }
            assert(self@ =~= naks_fold(l0, seqs@, (i + 1) as nat));
            i += 1;
        }
        self.retransmit_cache.shift();
        Ok(())
    }
}

/// The layer after a packet numbered `seq` carrying `fs` arrives at `now`,
/// or the fault it is refused for: a number beyond the window of packet
/// numbers, or a window starting within its length of the end of 32-bit
/// numbers, where moving it on could pass the end. The number is recorded
/// in the window of
/// packet numbers, which moves on past the numbers received in a row; when
/// it cannot move, the numbers missing below the latest one that arrived
/// more than `rto` ago are queued for a negative acknowledgement. The
/// packet, of `size` bytes, is reported to the congestion controller,
/// queued for acknowledgement, and its fragments are taken in
/// order, stopping at the first one refused.
pub open spec fn packet_result(
    l: LayerModel,
    now: u64,
    needs_arrival_rate: bool,
    seq: u32,
    fs: Seq<FragmentModel>,
    rto: u64,
    size: usize,
    is_continuous_send: bool,
) -> (LayerModel, Option<FragmentFault>) {
    let n = SEQ_WINDOW_SIZE as nat;
    if l.seq_window.start + n > u32::MAX {
        (l, Some(FragmentFault::Overflow))
    } else {
    match insert_outcome(l.seq_window, seq, n) {
        Err(_) => (l, Some(FragmentFault::Overflow)),
        Ok(_) => {
            let w1 = inserted(l.seq_window, seq, now, n);
            let w2 = shifted(w1, n);
            let (w3, missing) = if shift_count(w1, n) == 0 {
                collected(w2, now, rto, n)
            } else {
                (w2, Seq::empty())
            };
            let l1 = LayerModel {
                seq_window: w3,
                naks: l.naks + missing,
                needs_arrival_rate,
                acks: l.acks.push(seq),
                events: l.events.push(ControllerEvent::PacketReceived { now, size, is_continuous_send }),
                ..l
            };
            fragments_fold(l1, fs, fs.len())
        },
    }
    }
}

/// Once a fragment is refused, the later ones are not looked at.
proof fn lemma_fold_stops(l: LayerModel, fs: Seq<FragmentModel>, i: nat, j: nat)
    requires
        i <= j,
        fragments_fold(l, fs, i).1 is Some,
    ensures
        fragments_fold(l, fs, j) == fragments_fold(l, fs, i),
    decreases j - i,
{
    if i < j {
        lemma_fold_stops(l, fs, i, (j - 1) as nat);
    }
}

/// Every arrival time the slots hold is at most `t`.
pub open spec fn times_before(slots: Seq<Option<u64>>, t: u64) -> bool {
    forall|j: int| 0 <= j < slots.len() ==> (#[trigger] slots[j] matches Some(x) ==> x <= t)
}

proof fn lemma_times_before_cleared(slots: Seq<Option<u64>>, start: int, count: nat, t: u64)
    requires
        times_before(slots, t),
    ensures
        times_before(clear_prefix(slots, start, count), t),
{
    let c = clear_prefix(slots, start, count);
    assert forall|j: int| 0 <= j < c.len() implies (#[trigger] c[j] matches Some(x) ==> x <= t) by {
        assert(c[j] is None || c[j] == slots[j]);
    }
}

impl<T: CongestionController> Layer<T> {
    /// Takes in a packet (see `packet_result`), with `rto` the time after
    /// which a missing packet number is reported.
    fn handle_packet(
        &mut self,
        now: u64,
        size: usize,
        is_continuous_send: bool,
        needs_arrival_rate: bool,
        seq: u32,
        fragments: Vec<Fragment>,
        rto: u64,
    ) -> (r: Result<(), LayerError>)
        requires
            old(self).wf(),
            old(self)@.time_last_datagram_recved == now,
            seq < 0x1000000,
        ensures
            final(self).wf(),
            ({
                let (l2, fault) = packet_result(
                    old(self)@,
                    now,
                    needs_arrival_rate,
                    seq,
                    fragments_view(fragments@),
                    rto,
                    size,
                    is_continuous_send,
                );
                &&& final(self)@ == l2
                &&& match r {
                    Ok(()) => fault is None,
                    Err(e) => fault matches Some(x) && fault_matches(e, x),
                }
            }),
    {
        let ghost l0 = self@;
        let ghost fs = fragments_view(fragments@);
        let ghost n = SEQ_WINDOW_SIZE as nat;
        if self.seq_window.start_index() as u64 + SEQ_WINDOW_SIZE as u64 > u32::MAX as u64 {
            return Err(LayerError::BufferOverflow(BufferOverflowError));
        }
        match self.seq_window.insert(seq, now) {
            Err(e) => {
                return Err(LayerError::BufferOverflow(e));
            },
            Ok(_) => {},
        }
        let ghost w1 = self@.seq_window;
        assert(times_before(w1.slots, now)) by {
            assert forall|j: int| 0 <= j < w1.slots.len() implies (#[trigger] w1.slots[j] matches Some(x) ==> x <= now) by {
                if w1.slots[j] != l0.seq_window.slots[j] {
                    assert(w1.slots[j] == Some(now));
                } else {
                    assert(l0.seq_window.slots[j] matches Some(x) ==> x <= now);
                }
            }
        }
        let count = self.seq_window.shift();
        proof {
            lemma_times_before_cleared(w1.slots, w1.start as int, count as nat, now);
        }
        let ghost w2 = self@.seq_window;
        if count == 0 {
            let mut missing = self.seq_window.collect_missing(now, rto);
            proof {
                let k = crate::reliability::window::last_timeout(
                    w2.slots,
                    w2.start as int,
                    crate::reliability::window::shift_range(w2, n) as int,
                    now,
                    rto,
                );
                if k >= 0 {
                    lemma_times_before_cleared(w2.slots, w2.start as int, (k + 1) as nat, now);
                }
                crate::reliability::window::lemma_last_timeout(
                    w2.slots,
                    w2.start as int,
                    crate::reliability::window::shift_range(w2, n) as int,
                    now,
                    rto,
                );
                crate::reliability::window::lemma_missing_range_below(w2.slots, w2.start as int, 0, k);
            }
            let ghost naks0 = self.naks@;
            let ghost miss = missing@;
            self.naks.append(&mut missing);
            assert forall|i: int| 0 <= i < self.naks@.len() implies #[trigger] self.naks@[i] < u32::MAX by {
                if i >= naks0.len() {
                    assert(self.naks@[i] == miss[i - naks0.len()]);
                }
            }
        }
        self.congestion_controller.on_recv_packet(now, size, is_continuous_send);
        self.events = Ghost(self.events@.push(ControllerEvent::PacketReceived { now, size, is_continuous_send }));
        self.needs_arrival_rate = needs_arrival_rate;
        self.acks.push(seq);
        let ghost l1 = self@;
        assert(l1 =~= (LayerModel {
            seq_window: l1.seq_window,
            naks: l1.naks,
            needs_arrival_rate,
            acks: l0.acks.push(seq),
            events: l0.events.push(ControllerEvent::PacketReceived { now, size, is_continuous_send }),
            ..l0
        }));
        proof {
            let w1s = inserted(l0.seq_window, seq, now, n);
            let w2s = shifted(w1s, n);
            let (w3, missing) = if shift_count(w1s, n) == 0 {
                collected(w2s, now, rto, n)
            } else {
                (w2s, Seq::empty())
            };
            assert(w1 == w1s);
            assert(w2 == w2s);
            assert(l1.seq_window == w3);
            assert(l1.naks =~= l0.naks + missing);
            assert(packet_result(l0, now, needs_arrival_rate, seq, fs, rto, size, is_continuous_send) == fragments_fold(l1, fs, fs.len()));
        }
        assert(fragments_fold(l1, fs, 0) == (l1, None::<FragmentFault>));
        let total_len = fragments.len();
        assert(fs.len() == total_len);
        let mut rest = fragments;
        let mut i: usize = 0;
        while rest.len() > 0
            invariant
                self.wf(),
                i <= fs.len(),
                fs.len() == total_len,
                l0 == old(self)@,
                fs == fragments_view(fragments@),
                packet_result(l0, now, needs_arrival_rate, seq, fs, rto, size, is_continuous_send) == fragments_fold(l1, fs, fs.len()),
                fragments_view(rest@) == fs.skip(i as int),
                fragments_fold(l1, fs, i as nat) == (self@, None::<FragmentFault>),
            decreases rest@.len(),
        {
            let ghost before = rest@;
            let f = rest.remove(0);
            assert(f@ == fs[i as int]) by {
                assert(fragments_view(before).len() == before.len());
                assert(fragments_view(before)[0] == before[0]@);
                assert(fragments_view(before)[0] == fs.skip(i as int)[0]);
            }
            assert(fragments_view(rest@) =~= fs.skip(i + 1)) by {
                assert(fragments_view(before).len() == before.len());
                assert forall|k: int| 0 <= k < rest@.len() implies #[trigger] fragments_view(rest@)[k] == fs.skip(i + 1)[k] by {
                    assert(rest@[k] == before[k + 1]);
                    assert(fragments_view(rest@)[k] == rest@[k]@);
                    assert(fragments_view(before)[k + 1] == before[k + 1]@);
                    assert(fragments_view(before)[k + 1] == fs.skip(i as int)[k + 1]);
                }
            }
            assert(i < fs.len()) by {
                assert(fragments_view(before).len() == before.len());
            }
            let ghost li = self@;
            let res = self.handle_fragment(f);
            assert(fragments_fold(l1, fs, (i + 1) as nat) == fragment_result(li, fs[i as int]));
            match res {
                Err(e) => {
                    proof {
                        lemma_fold_stops(l1, fs, (i + 1) as nat, fs.len());
                        assert(packet_result(l0, now, needs_arrival_rate, seq, fs, rto, size, is_continuous_send) == fragment_result(li, fs[i as int]));
                        assert(self@ == fragment_result(li, f@).0);
                        assert(fragment_result(li, f@).1 matches Some(x) && fault_matches(e, x));
                    }
                    return Err(e);
                },
                Ok(()) => {},
            }
            i += 1;
        }
        assert(i == fs.len()) by {
            assert(fs.skip(i as int).len() == 0);
        }
        Ok(())
    }

    /// Takes in one datagram received at `now`: the bytes are decoded, the
    /// time of the last arrival becomes `now`, and the acknowledgement,
    /// negative acknowledgement or packet is handled (see `ack_result`,
    /// `nak_result` and `packet_result`; the time after which a missing
    /// packet number is reported comes from the congestion controller).
    /// Bytes that do not decode leave the layer unchanged, whatever the
    /// clock reads.
    pub fn handle_datagram(&mut self, now: u64, data: &[u8]) -> (r: Result<(), LayerError>)
        requires
            old(self).wf(),
            sp_datagram(data@) is Ok ==> now >= old(self)@.last_update && now >= old(self)@.time_last_datagram_recved,
        ensures
            final(self).wf(),
            match sp_datagram(data@) {
                Err(fault) => r matches Err(LayerError::RukBytes(e)) && e@ == fault && final(self)@ == old(self)@,
                Ok(d) => {
                    let l1 = LayerModel { time_last_datagram_recved: now, ..old(self)@ };
                    match d {
                        DatagramModel::Ack { arrival_rate, seqs } => match ack_result(l1, seqs, now, arrival_rate) {
                            None => r matches Err(LayerError::BufferOverflow(_)) && final(self)@ == l1,
                            Some(l2) => r is Ok && final(self)@ == l2,
                        },
                        DatagramModel::Nak { seqs } => match nak_result(l1, seqs) {
                            None => r matches Err(LayerError::BufferOverflow(_)) && final(self)@ == l1,
                            Some(l2) => r is Ok && final(self)@ == l2,
                        },
                        DatagramModel::Packet { is_continuous_send, needs_arrival_rate, seq, fragments, .. } => exists|
                            rto: u64,
                        |
                            #![trigger rto_asked(l1, rto)]
                            {
                                let (l2, fault) = packet_result(
                                    rto_asked(l1, rto),
                                    now,
                                    needs_arrival_rate,
                                    seq,
                                    fragments,
                                    rto,
                                    data@.len() as usize,
                                    is_continuous_send,
                                );
                                &&& final(self)@ == l2
                                &&& match r {
                                    Ok(()) => fault is None,
                                    Err(e) => fault matches Some(x) && fault_matches(e, x),
                                }
                            },
                    }
                },
            },
    {
        let size = data.len();
        let datagram = match try_get_datagram(data) {
            Ok(d) => d,
            Err(e) => {
                return Err(LayerError::RukBytes(e));
            },
        };
        let ghost l0 = self@;
        self.time_last_datagram_recved = now;
        assert(self@ =~= (LayerModel { time_last_datagram_recved: now, ..l0 }));
        let ghost l1 = self@;
        let ghost dv = datagram@;
        assert(sp_datagram(data@) == Ok::<DatagramModel, crate::error::BytesFault>(dv));
        let r = match datagram {
            Datagram::Ack { arrival_rate, seqs } => {
                let r = self.handle_ack(now, arrival_rate, seqs);
                assert(match ack_result(l1, seqs@, now, arrival_rate) {
                    None => r matches Err(LayerError::BufferOverflow(_)) && self@ == l1,
                    Some(l2) => r is Ok && self@ == l2,
                });
                r
            },
            Datagram::Nak { seqs } => {
                let r = self.hanlde_nak(seqs);
                assert(match nak_result(l1, seqs@) {
                    None => r matches Err(LayerError::BufferOverflow(_)) && self@ == l1,
                    Some(l2) => r is Ok && self@ == l2,
                });
                r
            },
            Datagram::Packet { is_packet_pair: _, is_continuous_send, needs_arrival_rate, seq, fragments } => {
                proof {
                    crate::proto::datagram_codec::lemma_packet_seq_bound(data@);
                }
                let rto = self.ask_rto();
                let ghost l1 = self@;
                let ghost fs = fragments_view(fragments@);
                assert(fragments@.map_values(|f: Fragment| f@) =~= fs);
                let r = self.handle_packet(now, size, is_continuous_send, needs_arrival_rate, seq, fragments, rto);
                proof {
                    let l1s = LayerModel { time_last_datagram_recved: now, ..l0 };
                    assert(rto_asked(l1s, rto) == l1);
                    let dfs = dv->fragments;
                    assert(dfs == fs);
                    let (l2, fault) = packet_result(
                        rto_asked(l1s, rto),
                        now,
                        needs_arrival_rate,
                        seq,
                        dfs,
                        rto,
                        size,
                        is_continuous_send,
                    );
                    assert(self@ == l2);
                }
                r
            },
        };
        r
    }
}

/// The layer once the congestion controller answered `rto` to a question
/// for its retransmission timeout.
pub open spec fn rto_asked(l: LayerModel, rto: u64) -> LayerModel {
    LayerModel { events: l.events.push(ControllerEvent::RtoAsked { rto }), ..l }
}

/// Fragments being gathered into packets: the packets closed so far, the
/// open packet and its size in bytes, and the bytes gathered in all.
pub struct Packing {
    pub packets: Seq<Seq<FragmentModel>>,
    pub current: Seq<FragmentModel>,
    pub current_size: nat,
    pub total: nat,
}

/// Nothing gathered yet.
pub open spec fn empty_packing() -> Packing {
    Packing { packets: Seq::empty(), current: Seq::empty(), current_size: 0, total: 0 }
}

/// Adds `f` to the open packet, first closing it when `f` would take it
/// past `max` bytes.
pub open spec fn place(p: Packing, f: FragmentModel, max: nat) -> Packing {
    let size = f.full_size();
    if p.current_size + size > max {
        Packing {
            packets: p.packets.push(p.current),
            current: seq![f],
            current_size: size,
            total: p.total + size,
        }
    } else {
        Packing {
            packets: p.packets,
            current: p.current.push(f),
            current_size: p.current_size + size,
            total: p.total + size,
        }
    }
}

/// Gathers fragments from the front of the queue `q` while the bytes
/// gathered stay within `bw`; returns what is left of the queue.
pub open spec fn pack_retransmits(q: Seq<FragmentModel>, p: Packing, max: nat, bw: nat) -> (Seq<FragmentModel>, Packing)
    decreases q.len(),
{
    if p.total >= bw || q.len() == 0 || p.total + q[0].full_size() > bw {
        (q, p)
    } else {
        pack_retransmits(q.drop_first(), place(p, q[0], max), max, bw)
    }
}

/// A fragment about to be sent for the first time: a reliable one takes
/// the next reliable index.
pub open spec fn stamp_reliable(f: FragmentModel, ri: u32) -> (FragmentModel, u32) {
    if f.reliability.spec_is_reliable() {
        (FragmentModel { reliable_index: Some(ri), ..f }, vstd::wrapping::u32_specs::wrapping_add(ri, 1))
    } else {
        (f, ri)
    }
}

/// Gathers fragments from the front of the outgoing queue `o`, numbering
/// the reliable ones from `ri`, while the bytes gathered stay within `bw`;
/// returns what is left of the queue and the next reliable index.
pub open spec fn pack_outgoing(o: Seq<OutgoingModel>, p: Packing, ri: u32, max: nat, bw: nat) -> (
    Seq<OutgoingModel>,
    Packing,
    u32,
)
    decreases o.len(),
{
    if p.total >= bw || o.len() == 0 || p.total + o[0].fragment.full_size() > bw {
        (o, p, ri)
    } else {
        let (f, ri2) = stamp_reliable(o[0].fragment, ri);
        pack_outgoing(o.drop_first(), place(p, f, max), ri2, max, bw)
    }
}

/// The packets gathered, the open one included when it holds anything.
pub open spec fn closed_packets(p: Packing) -> Seq<Seq<FragmentModel>> {
    if p.current.len() > 0 {
        p.packets.push(p.current)
    } else {
        p.packets
    }
}

/// The bytes the fragments of all the packets take on the wire.
pub open spec fn packets_size(ps: Seq<Seq<FragmentModel>>) -> nat
    decreases ps.len(),
{
    if ps.len() == 0 {
        0
    } else {
        packets_size(ps.drop_last()) + packet_size(ps.last())
    }
}

/// The bytes counted by a packing are those of its fragments.
pub open spec fn packing_counted(p: Packing) -> bool {
    &&& p.current_size == packet_size(p.current)
    &&& p.total == packets_size(p.packets) + p.current_size
}

proof fn lemma_place_counted(p: Packing, f: FragmentModel, max: nat)
    requires
        packing_counted(p),
    ensures
        packing_counted(place(p, f, max)),
{
    let r = place(p, f, max);
    if p.current_size + f.full_size() > max {
        assert(r.packets.drop_last() =~= p.packets);
        assert(r.packets.last() == p.current);
        assert(packets_size(r.packets) == packets_size(p.packets) + packet_size(p.current));
        assert(seq![f].drop_last() =~= Seq::<FragmentModel>::empty());
        assert(packet_size(Seq::<FragmentModel>::empty()) == 0);
        assert(packet_size(seq![f]) == f.full_size());
    } else {
        assert(r.current.drop_last() =~= p.current);
        assert(r.current.last() == f);
        assert(packet_size(r.current) == packet_size(p.current) + f.full_size());
    }
}

proof fn lemma_pack_retransmits_counted(q: Seq<FragmentModel>, p: Packing, max: nat, bw: nat)
    requires
        packing_counted(p),
        p.total <= bw,
    ensures
        packing_counted(pack_retransmits(q, p, max, bw).1),
        pack_retransmits(q, p, max, bw).1.total <= bw,
    decreases q.len(),
{
    if !(p.total >= bw || q.len() == 0 || p.total + q[0].full_size() > bw) {
        lemma_place_counted(p, q[0], max);
        lemma_pack_retransmits_counted(q.drop_first(), place(p, q[0], max), max, bw);
    }
}

proof fn lemma_pack_outgoing_counted(o: Seq<OutgoingModel>, p: Packing, ri: u32, max: nat, bw: nat)
    requires
        packing_counted(p),
        p.total <= bw,
    ensures
        packing_counted(pack_outgoing(o, p, ri, max, bw).1),
        pack_outgoing(o, p, ri, max, bw).1.total <= bw,
    decreases o.len(),
{
    if !(p.total >= bw || o.len() == 0 || p.total + o[0].fragment.full_size() > bw) {
        let (f, ri2) = stamp_reliable(o[0].fragment, ri);
        assert(f.full_size() == o[0].fragment.full_size());
        lemma_place_counted(p, f, max);
        lemma_pack_outgoing_counted(o.drop_first(), place(p, f, max), ri2, max, bw);
    }
}

/// The packets gathered in one turn take, all together, no more bytes than
/// the congestion controller allowed.
pub proof fn lemma_gathered_within_bandwidth(l: LayerModel, now: u64, bw: usize, rto: u64)
    ensures
        packets_size(gathered(l, now, bw, rto).1) <= bw,
{
    let c1 = fetched(l.cache, now, rto);
    let max = l.max_size_of_packet;
    let e = empty_packing();
    assert(e.packets =~= Seq::<Seq<FragmentModel>>::empty());
    assert(e.current =~= Seq::<FragmentModel>::empty());
    assert(packing_counted(e));
    let (q, p1) = pack_retransmits(c1.queue, e, max, bw as nat);
    lemma_pack_retransmits_counted(c1.queue, e, max, bw as nat);
    let (o, p2, ri) = pack_outgoing(l.outgoing, p1, l.send_reliable_index, max, bw as nat);
    lemma_pack_outgoing_counted(l.outgoing, p1, l.send_reliable_index, max, bw as nat);
    if p2.current.len() > 0 {
        assert(p2.packets.push(p2.current).drop_last() =~= p2.packets);
    }
}

struct Packer {
    packets: Vec<Vec<Fragment>>,
    sizes: Vec<usize>,
    current: Vec<Fragment>,
    current_size: usize,
    total: usize,
}

impl View for Packer {
    type V = Packing;

    closed spec fn view(&self) -> Packing {
        Packing {
            packets: self.packets@.map_values(|v: Vec<Fragment>| fragments_view(v@)),
            current: fragments_view(self.current@),
            current_size: self.current_size as nat,
            total: self.total as nat,
        }
    }
}

/// The bytes the fragments of a packet take on the wire.
pub open spec fn packet_size(fs: Seq<FragmentModel>) -> nat
    decreases fs.len(),
{
    if fs.len() == 0 {
        0
    } else {
        packet_size(fs.drop_last()) + fs.last().full_size()
    }
}

impl Packer {
    /// The sizes kept beside the closed packets, and the size of the packet
    /// being filled, are the bytes their fragments take.
    spec fn sized(&self) -> bool {
        &&& self.sizes@.len() == self.packets@.len()
        &&& forall|i: int| 0 <= i < self.sizes@.len() ==> self.sizes@[i] == packet_size(#[trigger] self@.packets[i])
        &&& self.current_size == packet_size(self@.current)
    }

    fn new() -> (p: Packer)
        ensures
            p@ == empty_packing(),
            p.sized(),
    {
        let p = Packer { packets: Vec::new(), sizes: Vec::new(), current: Vec::new(), current_size: 0, total: 0 };
        assert(p@.packets =~= Seq::<Seq<FragmentModel>>::empty());
        assert(p@.current =~= Seq::<FragmentModel>::empty());
        assert(p.sizes@ =~= Seq::<usize>::empty());
        p
    }

    fn place(&mut self, f: Fragment, size: usize, max: usize)
        requires
            size == f@.full_size(),
            old(self).total + size <= usize::MAX,
            old(self).current_size <= old(self).total,
            old(self).sized(),
        ensures
            final(self)@ == place(old(self)@, f@, max as nat),
            final(self).current_size <= final(self).total,
            final(self).sized(),
    {
        let ghost p0 = self@;
        let ghost s0 = self.sizes@;
        if self.current_size + size > max {
            let mut cur: Vec<Fragment> = Vec::new();
            std::mem::swap(&mut cur, &mut self.current);
            let ghost pk = self.packets@;
            self.packets.push(cur);
            assert(self.packets@.map_values(|v: Vec<Fragment>| fragments_view(v@)) =~= p0.packets.push(p0.current)) by {
                assert(self.packets@ == pk.push(cur));
            }
            self.sizes.push(self.current_size);
            self.current_size = 0;
            assert(fragments_view(self.current@) =~= Seq::<FragmentModel>::empty());
            assert(self@.packets == p0.packets.push(p0.current));
            assert(self.sizes@ == s0.push(packet_size(p0.current) as usize));
            assert forall|i: int| 0 <= i < self.sizes@.len() implies self.sizes@[i] == packet_size(
                #[trigger] self@.packets[i],
            ) by {
                if i < s0.len() {
                    assert(self@.packets[i] == p0.packets[i]);
                }
            }
        }
        let ghost c0 = self.current@;
        self.current.push(f);
        assert(fragments_view(self.current@) =~= fragments_view(c0).push(f@));
        assert(fragments_view(self.current@).drop_last() =~= fragments_view(c0));
        assert(fragments_view(self.current@).last() == f@);
        assert(packet_size(fragments_view(self.current@)) == packet_size(fragments_view(c0)) + size);
        assert(c0.len() == 0 ==> fragments_view(self.current@) =~= seq![f@]);
        self.current_size = self.current_size + size;
        self.total = self.total + size;
        assert(self@.packets == place(p0, f@, max as nat).packets);
        assert(self@.current =~= place(p0, f@, max as nat).current);
        assert(self@ =~= place(p0, f@, max as nat));
    }

    fn finish(self) -> (r: (Vec<Vec<Fragment>>, Vec<usize>))
        requires
            self.sized(),
        ensures
            r.0@.map_values(|v: Vec<Fragment>| fragments_view(v@)) == closed_packets(self@),
            r.1@.len() == r.0@.len(),
            forall|i: int| 0 <= i < r.1@.len() ==> r.1@[i] == packet_size(#[trigger] closed_packets(self@)[i]),
    {
        let Packer { mut packets, mut sizes, current, current_size, total: _ } = self;
        if current.len() > 0 {
            let ghost pk = packets@;
            packets.push(current);
            assert(packets@.map_values(|v: Vec<Fragment>| fragments_view(v@)) =~= closed_packets(self@)) by {
                assert(packets@ == pk.push(current));
            }
            sizes.push(current_size);
        } else {
            assert(packets@.map_values(|v: Vec<Fragment>| fragments_view(v@)) =~= closed_packets(self@));
        }
        (packets, sizes)
    }
}

/// Gathers fragments queued to be sent again (see `pack_retransmits`);
/// each one gathered is reported to the congestion controller as resent.
fn pack_retransmits_from<T: CongestionController>(
    q: &mut VecDeque<Fragment>,
    p: &mut Packer,
    cc: &mut T,
    events: &mut Ghost<Seq<ControllerEvent>>,
    now: u64,
    max: usize,
    bw: usize,
)
    requires
        old(p).total <= bw,
        old(p).current_size <= old(p).total,
        old(p).sized(),
        max + 32 <= usize::MAX,
        fragments_fit(queue_view(*old(q)), max as nat),
        packing_fits(old(p)@, max as nat),
    ensures
        final(p).sized(),
        packing_fits(final(p)@, max as nat),
        fragments_fit(queue_view(*final(q)), max as nat),
        (queue_view(*final(q)), final(p)@) == pack_retransmits(queue_view(*old(q)), old(p)@, max as nat, bw as nat),
        final(p).total <= bw,
        final(p).current_size <= final(p).total,
        queue_view(*final(q)).len() <= queue_view(*old(q)).len(),
        final(events)@ == old(events)@ + resends(
            (queue_view(*old(q)).len() - queue_view(*final(q)).len()) as nat,
            now,
        ),
{
    let ghost target = pack_retransmits(queue_view(*q), p@, max as nat, bw as nat);
    let ghost e0 = events@;
    let ghost n0 = queue_view(*q).len();
    while p.total < bw
        invariant
            queue_view(*q).len() <= n0,
            events@ == e0 + resends((n0 - queue_view(*q).len()) as nat, now),
            p.total <= bw,
            p.current_size <= p.total,
            p.sized(),
            max + 32 <= usize::MAX,
            fragments_fit(queue_view(*q), max as nat),
            packing_fits(p@, max as nat),
            pack_retransmits(queue_view(*q), p@, max as nat, bw as nat) == target,
        ensures
            p.sized(),
            packing_fits(p@, max as nat),
            fragments_fit(queue_view(*q), max as nat),
            p.total <= bw,
            p.current_size <= p.total,
            pack_retransmits(queue_view(*q), p@, max as nat, bw as nat) == (queue_view(*q), p@),
            (queue_view(*q), p@) == target,
            queue_view(*q).len() <= n0,
            events@ == e0 + resends((n0 - queue_view(*q).len()) as nat, now),
        decreases queue_view(*q).len(),
    {
        let ghost q0 = queue_view(*q);
        match q.pop_front() {
            Some(f) => {
                assert(q0[0] == f@);
                assert(queue_view(*q) =~= q0.drop_first());
                assert(f@.data.len() <= max);
                let size = f.calc_full_size();
                if size > bw - p.total {
                    q.push_front(f);
                    assert(queue_view(*q) =~= q0);
                    break;
                }
                assert(fragments_fit(queue_view(*q), max as nat)) by {
                    assert forall|i: int| 0 <= i < queue_view(*q).len() implies (#[trigger] queue_view(*q)[i]).data.len() <= max by {
                        assert(queue_view(*q)[i] == q0[i + 1]);
                    }
                }
                proof {
                    lemma_place_fits(p@, f@, max as nat);
                }
                cc.on_resend(now);
                let ghost e1 = events@;
                *events = Ghost(events@.push(ControllerEvent::Resent { now }));
                assert(events@ =~= e0 + resends((n0 - queue_view(*q).len()) as nat, now));
                p.place(f, size, max);
            },
            None => {
                assert(q0.len() == 0);
                break;
            },
        }
    }
}

/// The fragments of a packing fit in a packet of `max` bytes.
pub open spec fn packing_fits(p: Packing, max: nat) -> bool {
    &&& fragments_fit(p.current, max)
    &&& forall|i: int| 0 <= i < p.packets.len() ==> fragments_fit(#[trigger] p.packets[i], max)
}

proof fn lemma_place_fits(p: Packing, f: FragmentModel, max: nat)
    requires
        packing_fits(p, max),
        f.data.len() <= max,
    ensures
        packing_fits(place(p, f, max), max),
{
    let r = place(p, f, max);
    assert forall|i: int| 0 <= i < r.packets.len() implies fragments_fit(#[trigger] r.packets[i], max) by {
        if i < p.packets.len() {
            assert(r.packets[i] == p.packets[i]);
        }
    }
    assert forall|i: int| 0 <= i < r.current.len() implies (#[trigger] r.current[i]).data.len() <= max by {
        if i < p.current.len() && p.current_size + f.full_size() <= max {
            assert(r.current[i] == p.current[i]);
        }
    }
}

impl<T: CongestionController> Layer<T> {
    /// Gathers fragments waiting to be sent for the first time (see
    /// `pack_outgoing`).
    fn pack_outgoing_into(&mut self, p: &mut Packer, bw: usize)
        requires
            old(self).wf(),
            old(p).total <= bw,
            old(p).current_size <= old(p).total,
            old(p).sized(),
            packing_fits(old(p)@, old(self)@.max_size_of_packet),
        ensures
            final(self).wf(),
            final(p).total <= bw,
            final(p).current_size <= final(p).total,
            final(p).sized(),
            packing_fits(final(p)@, old(self)@.max_size_of_packet),
            ({
                let (o, pk, ri) = pack_outgoing(
                    old(self)@.outgoing,
                    old(p)@,
                    old(self)@.send_reliable_index,
                    old(self)@.max_size_of_packet,
                    bw as nat,
                );
                &&& final(p)@ == pk
                &&& final(self)@ == (LayerModel { outgoing: o, send_reliable_index: ri, ..old(self)@ })
            }),
    {
        let max = self.max_size_of_packet;
        let ghost l0 = self@;
        let ghost target = pack_outgoing(self@.outgoing, p@, self@.send_reliable_index, max as nat, bw as nat);
        while p.total < bw
            invariant
                self.wf(),
                self.max_size_of_packet == max,
                max == l0.max_size_of_packet,
                p.total <= bw,
                p.current_size <= p.total,
                p.sized(),
                packing_fits(p@, max as nat),
                pack_outgoing(self@.outgoing, p@, self@.send_reliable_index, max as nat, bw as nat) == target,
                self@ == (LayerModel { outgoing: self@.outgoing, send_reliable_index: self@.send_reliable_index, ..l0 }),
            ensures
                self.wf(),
                p.total <= bw,
                p.current_size <= p.total,
                p.sized(),
                packing_fits(p@, max as nat),
                (self@.outgoing, p@, self@.send_reliable_index) == target,
                self@ == (LayerModel { outgoing: self@.outgoing, send_reliable_index: self@.send_reliable_index, ..l0 }),
            decreases self@.outgoing.len(),
        {
            if self.outgoing_queue.len() == 0 {
                break;
            }
            let ghost o0 = self@.outgoing;
            let ghost l1 = self@;
            assert(o0[0] == self.outgoing_queue@[0]@);
            let size = self.outgoing_queue[0].fragment.calc_full_size();
            if size > bw - p.total {
                break;
            }
            let entry = self.outgoing_queue.remove(0);
            assert(outgoing_view(self.outgoing_queue@) =~= o0.drop_first());
            let mut fragment = entry.fragment;
            if fragment.reliability.is_reliable() {
                fragment.reliable_index = Some(self.send_reliable_index);
                self.send_reliable_index = self.send_reliable_index.wrapping_add(1);
            }
            assert((fragment@, self.send_reliable_index) == stamp_reliable(o0[0].fragment, l1.send_reliable_index));
            proof {
                lemma_place_fits(p@, fragment@, max as nat);
            }
            p.place(fragment, size, max);
            assert(self@ =~= (LayerModel { outgoing: o0.drop_first(), send_reliable_index: self.send_reliable_index, ..l0 }));
            assert(sorted_by_weight(self@.outgoing)) by {
                assert forall|i: int, j: int| 0 <= i < j < self@.outgoing.len() implies self@.outgoing[i].weight
                    <= self@.outgoing[j].weight by {
                    assert(self@.outgoing[i] == o0[i + 1]);
                    assert(self@.outgoing[j] == o0[j + 1]);
                }
            }
            assert forall|i: int| 0 <= i < self@.outgoing.len() implies (#[trigger] self@.outgoing[i]).fragment.data.len()
                <= self.max_size_of_packet by {
                assert(self@.outgoing[i] == o0[i + 1]);
            }
            assert(self@.ordered == l1.ordered);
            assert(self@.acks == l1.acks);
            assert(self@.naks == l1.naks);
        }
    }
}

/// The reliable fragments of a packet, in order.
pub open spec fn reliable_only(fs: Seq<FragmentModel>) -> Seq<FragmentModel>
    decreases fs.len(),
{
    if fs.len() == 0 {
        fs
    } else {
        let r = reliable_only(fs.drop_last());
        if fs.last().reliability.spec_is_reliable() {
            r.push(fs.last())
        } else {
            r
        }
    }
}

/// The bytes of packet `seq` carrying `fs`.
pub open spec fn packet_bytes(seq: u32, needs_arrival_rate: bool, fs: Seq<FragmentModel>) -> Seq<u8> {
    ser_datagram(
        DatagramModel::Packet {
            is_packet_pair: false,
            is_continuous_send: true,
            needs_arrival_rate,
            seq,
            fragments: fs,
        },
    )
}

/// The cache after recording that packet `seq` carried `fs` at `t`, or
/// `None` when `seq` lies beyond its ring.
pub open spec fn cache_recorded(c: CacheModel, seq: u32, fs: Seq<FragmentModel>, t: u64) -> Option<CacheModel> {
    if c.start + PACKET_HISTORY_SIZE <= seq {
        None
    } else {
        let slot = slot_of_history(seq);
        Some(
            CacheModel {
                histories: if c.histories[slot] is Invalid {
                    c.histories.update(slot, HistoryModel::Valid { fragments: fs, time_sent: t })
                } else {
                    c.histories
                },
                ..c
            },
        )
    }
}

/// The cache and the datagrams after the first `i` packets are sent with
/// the numbers `seqs`, and whether a packet number fell beyond the cache,
/// which stops the sending after that packet's datagram.
pub open spec fn send_fold(
    c: CacheModel,
    packets: Seq<Seq<FragmentModel>>,
    seqs: Seq<u32>,
    needs_arrival_rate: bool,
    now: u64,
    i: nat,
) -> (CacheModel, Seq<Seq<u8>>, bool)
    decreases i,
{
    if i == 0 {
        (c, Seq::empty(), false)
    } else {
        let (c1, d1, failed) = send_fold(c, packets, seqs, needs_arrival_rate, now, (i - 1) as nat);
        if failed {
            (c1, d1, true)
        } else {
            let d2 = d1.push(packet_bytes(seqs[i - 1], needs_arrival_rate, packets[i - 1]));
            match cache_recorded(c1, seqs[i - 1], reliable_only(packets[i - 1]), now) {
                None => (c1, d2, true),
                Some(c2) => (c2, d2, false),
            }
        }
    }
}

/// The calls to the controller while the first `i` packets are sent: each
/// packet takes a number and is reported with its size; none after the
/// first refused.
pub open spec fn send_events(
    c: CacheModel,
    packets: Seq<Seq<FragmentModel>>,
    seqs: Seq<u32>,
    needs_arrival_rate: bool,
    now: u64,
    i: nat,
) -> Seq<ControllerEvent>
    decreases i,
{
    if i == 0 {
        Seq::empty()
    } else {
        let e = send_events(c, packets, seqs, needs_arrival_rate, now, (i - 1) as nat);
        if send_fold(c, packets, seqs, needs_arrival_rate, now, (i - 1) as nat).2 {
            e
        } else {
            e.push(ControllerEvent::SeqTaken { seq: seqs[i - 1] }).push(
                ControllerEvent::PacketSent { size: packet_size(packets[i - 1]) as usize },
            )
        }
    }
}

proof fn lemma_send_fold_stops(
    c: CacheModel,
    packets: Seq<Seq<FragmentModel>>,
    seqs: Seq<u32>,
    needs_arrival_rate: bool,
    now: u64,
    i: nat,
    j: nat,
)
    requires
        i <= j,
        send_fold(c, packets, seqs, needs_arrival_rate, now, i).2,
    ensures
        send_fold(c, packets, seqs, needs_arrival_rate, now, j) == send_fold(c, packets, seqs, needs_arrival_rate, now, i),
    decreases j - i,
{
    if i < j {
        lemma_send_fold_stops(c, packets, seqs, needs_arrival_rate, now, i, (j - 1) as nat);
    }
}

proof fn lemma_reliable_only_fits(fs: Seq<FragmentModel>, max: nat)
    requires
        fragments_fit(fs, max),
    ensures
        fragments_fit(reliable_only(fs), max),
    decreases fs.len(),
{
    if fs.len() > 0 {
        lemma_reliable_only_fits(fs.drop_last(), max);
        let r = reliable_only(fs.drop_last());
        assert forall|i: int| 0 <= i < reliable_only(fs).len() implies (#[trigger] reliable_only(fs)[i]).data.len() <= max by {
            if i < r.len() {
                assert(reliable_only(fs)[i] == r[i]);
            }
        }
    }
}

/// The reliable fragments of `fragments`, in order.
fn keep_reliable(fragments: Vec<Fragment>) -> (r: Vec<Fragment>)
    ensures
        fragments_view(r@) == reliable_only(fragments_view(fragments@)),
{
    let ghost fs = fragments_view(fragments@);
    let total = fragments.len();
    let mut rest = fragments;
    let mut kept: Vec<Fragment> = Vec::new();
    let mut i: usize = 0;
    assert(fs.take(0) =~= Seq::<FragmentModel>::empty());
    while rest.len() > 0
        invariant
            i <= fs.len(),
            fs.len() == total,
            fragments_view(rest@) == fs.skip(i as int),
            fragments_view(kept@) == reliable_only(fs.take(i as int)),
        decreases rest@.len(),
    {
        let ghost before = rest@;
        assert(fragments_view(before).len() == before.len());
        let f = rest.remove(0);
        assert(f@ == fs[i as int]) by {
            assert(fragments_view(before)[0] == fs.skip(i as int)[0]);
        }
        assert(fragments_view(rest@) =~= fs.skip(i + 1)) by {
            assert forall|k: int| 0 <= k < rest@.len() implies #[trigger] fragments_view(rest@)[k] == fs.skip(i + 1)[k] by {
                assert(rest@[k] == before[k + 1]);
                assert(fragments_view(before)[k + 1] == fs.skip(i as int)[k + 1]);
            }
        }
        assert(fs.take(i + 1).drop_last() =~= fs.take(i as int));
        assert(fs.take(i + 1).last() == fs[i as int]);
        let ghost k0 = kept@;
        if f.reliability.is_reliable() {
            kept.push(f);
            assert(fragments_view(kept@) =~= fragments_view(k0).push(fs[i as int]));
        }
        i += 1;
    }
    assert(fs.skip(i as int).len() == 0);
    assert(fs.take(i as int) =~= fs);
    kept
}

impl<T: CongestionController> Layer<T> {
    /// Sends one packet: it takes the next number from the congestion
    /// controller, is written out, and has its reliable fragments recorded
    /// in the cache. Hands back its bytes, whether its number fell beyond
    /// the cache, and the number.
    fn send_packet(
        &mut self,
        fragments: Vec<Fragment>,
        size: usize,
        needs_arrival_rate: bool,
        now: u64,
    ) -> (r: (Vec<u8>, Result<(), LayerError>, Ghost<u32>))
        requires
            old(self).wf(),
            old(self)@.last_update == now,
            fragments_fit(fragments_view(fragments@), old(self)@.max_size_of_packet),
        ensures
            final(self).wf(),
            ({
                let fs = fragments_view(fragments@);
                let e = old(self)@.events.push(ControllerEvent::SeqTaken { seq: r.2@ }).push(
                    ControllerEvent::PacketSent { size },
                );
                &&& r.0@ == packet_bytes(r.2@, needs_arrival_rate, fs)
                &&& match cache_recorded(old(self)@.cache, r.2@, reliable_only(fs), now) {
                    None => r.1 matches Err(LayerError::BufferOverflow(_)) && final(self)@ == (LayerModel {
                        events: e,
                        ..old(self)@
                    }),
                    Some(c) => r.1 is Ok && final(self)@ == (LayerModel { cache: c, events: e, ..old(self)@ }),
                }
            }),
    {
        let ghost l0 = self@;
        let ghost fs = fragments_view(fragments@);
        let seq = self.take_seq();
        self.tell_packet_sent(size);
        let ghost l0e = self@;
        let mut datagram = Datagram::Packet {
            is_packet_pair: false,
            is_continuous_send: true,
            needs_arrival_rate,
            seq,
            fragments,
        };
        assert(datagram@ == DatagramModel::Packet {
            is_packet_pair: false,
            is_continuous_send: true,
            needs_arrival_rate,
            seq,
            fragments: fs,
        });
        let mut buf: Vec<u8> = Vec::new();
        put_datagram(&mut buf, &mut datagram);
        assert(buf@ =~= packet_bytes(seq, needs_arrival_rate, fs));
        let fragments = match datagram {
            Datagram::Packet { fragments, .. } => fragments,
            Datagram::Ack { .. } => Vec::new(),
            Datagram::Nak { .. } => Vec::new(),
        };
        assert(fragments_view(fragments@) == fs);
        let reliable = keep_reliable(fragments);
        proof {
            lemma_reliable_only_fits(fs, l0.max_size_of_packet);
            self.retransmit_cache.lemma_wf_len();
        }
        let res = self.retransmit_cache.insert(seq, reliable, now);
        match res {
            Err(e) => {
                return (buf, Err(LayerError::BufferOverflow(e)), Ghost(seq));
            },
            Ok(()) => {},
        }
        proof {
            let c = self@.cache;
            vstd::arithmetic::div_mod::lemma_mod_bound(seq as int, PACKET_HISTORY_SIZE as int);
            assert forall|j: int| 0 <= j < c.histories.len() implies (#[trigger] c.histories[j] matches HistoryModel::Valid {
                fragments,
                time_sent,
            } ==> fragments_fit(fragments, l0.max_size_of_packet) && time_sent <= now) by {
                if j != slot_of_history(seq) {
                    assert(c.histories[j] == l0.cache.histories[j]);
                }
            }
        }
        (buf, Ok(()), Ghost(seq))
    }

    /// Sends the gathered packets in order (see `send_fold`). Hands back the
    /// datagrams, whether a number fell beyond the cache, and the numbers
    /// taken.
    #[verifier::rlimit(40)]
    fn send_packets(
        &mut self,
        packets: Vec<Vec<Fragment>>,
        sizes: Vec<usize>,
        needs_arrival_rate: bool,
        now: u64,
    ) -> (r: (Vec<Vec<u8>>, Result<(), LayerError>, Ghost<Seq<u32>>))
        requires
            old(self).wf(),
            old(self)@.last_update == now,
            sizes@.len() == packets@.len(),
            forall|i: int| 0 <= i < sizes@.len() ==> sizes@[i] == packet_size(fragments_view(#[trigger] packets@[i]@)),
            forall|i: int|
                0 <= i < packets@.len() ==> fragments_fit(
                    fragments_view(#[trigger] packets@[i]@),
                    old(self)@.max_size_of_packet,
                ),
        ensures
            final(self).wf(),
            ({
                let pv = packets@.map_values(|v: Vec<Fragment>| fragments_view(v@));
                let (c, d, failed) = send_fold(old(self)@.cache, pv, r.2@, needs_arrival_rate, now, pv.len());
                let e = send_events(old(self)@.cache, pv, r.2@, needs_arrival_rate, now, pv.len());
                &&& final(self)@ == (LayerModel { cache: c, events: old(self)@.events + e, ..old(self)@ })
                &&& output_view(r.0@) == d
                &&& (r.1 is Err <==> failed)
                &&& (r.1 matches Err(e) ==> e is BufferOverflow)
            }),
    {
        let ghost l0 = self@;
        let ghost pv = packets@.map_values(|v: Vec<Fragment>| fragments_view(v@));
        let ghost mut seqs: Seq<u32> = Seq::empty();
        let mut out: Vec<Vec<u8>> = Vec::new();
        let mut rest = packets;
        let mut i: usize = 0;
        let n = rest.len();
        while i < n
            invariant
                self.wf(),
                n == pv.len(),
                i <= n,
                sizes@.len() == n,
                forall|k: int| 0 <= k < n ==> sizes@[k] == packet_size(#[trigger] pv[k]),
                rest@.len() == n - i,
                forall|k: int| 0 <= k < rest@.len() ==> fragments_view(#[trigger] rest@[k]@) == pv[k + i],
                forall|k: int| 0 <= k < pv.len() ==> fragments_fit(#[trigger] pv[k], l0.max_size_of_packet),
                self@.last_update == now,
                self@.max_size_of_packet == l0.max_size_of_packet,
                l0 == old(self)@,
                pv == packets@.map_values(|v: Vec<Fragment>| fragments_view(v@)),
                seqs.len() == i,
                ({
                    let (c, d, failed) = send_fold(l0.cache, pv, seqs, needs_arrival_rate, now, i as nat);
                    &&& !failed
                    &&& self@ == (LayerModel {
                        cache: c,
                        events: l0.events + send_events(l0.cache, pv, seqs, needs_arrival_rate, now, i as nat),
                        ..l0
                    })
                    &&& output_view(out@) == d
                }),
            decreases n - i,
        {
            let ghost rest0 = rest@;
            let fragments = rest.remove(0);
            let ghost fs = fragments_view(fragments@);
            assert(fs == pv[i as int]) by {
                assert(fragments_view(rest0[0]@) == pv[0 + i]);
            }
            assert forall|k: int| 0 <= k < rest@.len() implies fragments_view(#[trigger] rest@[k]@) == pv[k + (i + 1)] by {
                assert(rest@[k] == rest0[k + 1]);
                assert(fragments_view(rest0[k + 1]@) == pv[(k + 1) + i]);
            }
            let ghost out0 = out@;
            let ghost seqs0 = seqs;
            let (buf, res, Ghost(seq)) = self.send_packet(fragments, sizes[i], needs_arrival_rate, now);
            proof {
                seqs = seqs.push(seq);
                lemma_send_fold_prefix(l0.cache, pv, seqs0, seqs, needs_arrival_rate, now, i as nat);
                lemma_send_events_prefix(l0.cache, pv, seqs0, seqs, needs_arrival_rate, now, i as nat);
                let e0 = send_events(l0.cache, pv, seqs0, needs_arrival_rate, now, i as nat);
                assert(send_events(l0.cache, pv, seqs, needs_arrival_rate, now, (i + 1) as nat) == e0.push(
                    ControllerEvent::SeqTaken { seq },
                ).push(ControllerEvent::PacketSent { size: sizes@[i as int] }));
                assert(l0.events + send_events(l0.cache, pv, seqs, needs_arrival_rate, now, (i + 1) as nat)
                    =~= (l0.events + e0).push(ControllerEvent::SeqTaken { seq }).push(
                    ControllerEvent::PacketSent { size: sizes@[i as int] },
                ));
            }
            out.push(buf);
            assert(output_view(out@) =~= output_view(out0).push(packet_bytes(seq, needs_arrival_rate, fs)));
            proof {
                let (c0, d0, f0) = send_fold(l0.cache, pv, seqs0, needs_arrival_rate, now, i as nat);
                assert(seqs[i as int] == seq);
                assert(send_fold(l0.cache, pv, seqs, needs_arrival_rate, now, (i + 1) as nat) == match cache_recorded(
                    c0,
                    seq,
                    reliable_only(fs),
                    now,
                ) {
                    None => (c0, d0.push(packet_bytes(seq, needs_arrival_rate, fs)), true),
                    Some(c2) => (c2, d0.push(packet_bytes(seq, needs_arrival_rate, fs)), false),
                });
            }
            match res {
                Err(e) => {
                    proof {
                        lemma_send_fold_stops(l0.cache, pv, seqs, needs_arrival_rate, now, (i + 1) as nat, n as nat);
                        lemma_send_events_stops(l0.cache, pv, seqs, needs_arrival_rate, now, (i + 1) as nat, n as nat);
                    }
                    return (out, Err(e), Ghost(seqs));
                },
                Ok(()) => {},
            }
            i += 1;
        }
        (out, Ok(()), Ghost(seqs))
    }
}

proof fn lemma_send_events_prefix(
    c: CacheModel,
    packets: Seq<Seq<FragmentModel>>,
    s1: Seq<u32>,
    s2: Seq<u32>,
    needs_arrival_rate: bool,
    now: u64,
    i: nat,
)
    requires
        i <= s1.len(),
        i <= s2.len(),
        forall|k: int| 0 <= k < i ==> s1[k] == s2[k],
    ensures
        send_events(c, packets, s1, needs_arrival_rate, now, i) == send_events(
            c,
            packets,
            s2,
            needs_arrival_rate,
            now,
            i,
        ),
    decreases i,
{
    if i > 0 {
        lemma_send_events_prefix(c, packets, s1, s2, needs_arrival_rate, now, (i - 1) as nat);
        lemma_send_fold_prefix(c, packets, s1, s2, needs_arrival_rate, now, (i - 1) as nat);
    }
}

proof fn lemma_send_events_stops(
    c: CacheModel,
    packets: Seq<Seq<FragmentModel>>,
    seqs: Seq<u32>,
    needs_arrival_rate: bool,
    now: u64,
    i: nat,
    j: nat,
)
    requires
        i <= j,
        send_fold(c, packets, seqs, needs_arrival_rate, now, i).2,
    ensures
        send_events(c, packets, seqs, needs_arrival_rate, now, j) == send_events(
            c,
            packets,
            seqs,
            needs_arrival_rate,
            now,
            i,
        ),
    decreases j - i,
{
    if j > i {
        lemma_send_events_stops(c, packets, seqs, needs_arrival_rate, now, i, (j - 1) as nat);
        lemma_send_fold_stops(c, packets, seqs, needs_arrival_rate, now, i, (j - 1) as nat);
    }
}

/// Sending with numbers that agree on the packets looked at gives the same
/// result.
proof fn lemma_send_fold_prefix(
    c: CacheModel,
    packets: Seq<Seq<FragmentModel>>,
    s1: Seq<u32>,
    s2: Seq<u32>,
    needs_arrival_rate: bool,
    now: u64,
    i: nat,
)
    requires
        i <= s1.len(),
        i <= s2.len(),
        forall|k: int| 0 <= k < i ==> s1[k] == s2[k],
    ensures
        send_fold(c, packets, s1, needs_arrival_rate, now, i) == send_fold(c, packets, s2, needs_arrival_rate, now, i),
    decreases i,
{
    if i > 0 {
        lemma_send_fold_prefix(c, packets, s1, s2, needs_arrival_rate, now, (i - 1) as nat);
    }
}

/// What the congestion controller answered during one `update`: whether
/// to acknowledge now, the arrival rate to report with the
/// acknowledgement, whether it is in slow start, how many bytes it allows,
/// its retransmission timeout, and the packet numbers it handed out.
pub struct ControllerAnswers {
    pub send_ack: bool,
    pub arrival_rate: Option<u32>,
    pub slow_start: bool,
    pub bandwidth: usize,
    pub rto: u64,
    pub seqs: Seq<u32>,
}

/// Some packet awaits an acknowledgement at the start of the cache, or
/// some fragment waits to be sent again.
pub open spec fn cache_busy(c: CacheModel) -> bool {
    !(c.histories[slot_of_history(c.start)] is Invalid && c.queue.len() == 0)
}

/// The cache once the packets given up on at its start (used ones, and
/// ones sent at least `rto` before `now`) have their fragments queued to be
/// sent again and are forgotten. An idle cache is left as it is.
pub open spec fn fetched(c: CacheModel, now: u64, rto: u64) -> CacheModel {
    let count: nat = if cache_busy(c) {
        expired_run(c.histories, c.start as int, 0, now, rto)
    } else {
        0
    };
    CacheModel {
        histories: invalidate_prefix(c.histories, c.start as int, count as int),
        start: (c.start + count) as u32,
        queue: c.queue + fragments_below(c.histories, c.start as int, count as int),
    }
}

/// The start of `update`: the clock moves to `now`; a connection with
/// packets awaited and nothing heard for longer than its timeout is dead;
/// the acknowledgements, when the controller says so, and the negative
/// acknowledgements are written out and forgotten.
pub open spec fn update_head(l: LayerModel, now: u64, a: ControllerAnswers) -> (LayerModel, Seq<Seq<u8>>) {
    let dead = l.is_dead || (cache_busy(l.cache) && now - l.time_last_datagram_recved > l.timeout);
    let asked = ControllerEvent::AckAsked { now, time_since_last_update: (now - l.last_update) as u64, due: a.send_ack };
    let l1 = LayerModel { last_update: now, is_dead: dead, events: l.events.push(asked), ..l };
    let (l2, d1) = if a.send_ack && l.acks.len() > 0 {
        (
            LayerModel {
                acks: Seq::empty(),
                events: l1.events.push(
                    ControllerEvent::AckSent {
                        needs_arrival_rate: l.needs_arrival_rate,
                        rate_in: None,
                        rate_out: a.arrival_rate,
                    },
                ),
                ..l1
            },
            seq![ser_datagram(normalized(DatagramModel::Ack { arrival_rate: a.arrival_rate, seqs: l.acks }))],
        )
    } else {
        (l1, Seq::empty())
    };
    if l.naks.len() > 0 {
        (
            LayerModel { naks: Seq::empty(), ..l2 },
            d1.push(ser_datagram(normalized(DatagramModel::Nak { seqs: l.naks }))),
        )
    } else {
        (l2, d1)
    }
}

/// The controller told of `k` fragments sent again at `now`.
pub open spec fn resends(k: nat, now: u64) -> Seq<ControllerEvent> {
    Seq::new(k, |_i: int| ControllerEvent::Resent { now })
}

/// The packets gathered at `now` within `bw` bytes, and the layer once
/// they are taken: the fragments to send again come first, then the new
/// ones.
pub open spec fn gathered(l: LayerModel, now: u64, bw: usize, rto: u64) -> (LayerModel, Seq<Seq<FragmentModel>>) {
    let c1 = fetched(l.cache, now, rto);
    let max = l.max_size_of_packet;
    let (q, p1) = pack_retransmits(c1.queue, empty_packing(), max, bw as nat);
    let (o, p2, ri) = pack_outgoing(l.outgoing, p1, l.send_reliable_index, max, bw as nat);
    (
        LayerModel {
            cache: CacheModel { queue: q, ..c1 },
            outgoing: o,
            send_reliable_index: ri,
            events: l.events + resends((c1.queue.len() - q.len()) as nat, now),
            ..l
        },
        closed_packets(p2),
    )
}

/// The rest of `update`, once the acknowledgements are written out: when
/// packets are awaited or fragments wait, the packets gathered within the
/// bandwidth are numbered, written out and recorded.
#[verifier::opaque]
pub open spec fn update_tail(
    l: LayerModel,
    now: u64,
    time_since_last_update: u64,
    is_continuous_send: bool,
    slow_start: bool,
    bandwidth: usize,
    rto: u64,
    seqs: Seq<u32>,
) -> (LayerModel, Seq<Seq<u8>>, bool) {
    if !(cache_busy(l.cache) || l.bandwidth_exceeded) {
        (l, Seq::empty(), false)
    } else if !cache_has_room(l) {
        (l, Seq::empty(), true)
    } else {
        let asked = LayerModel {
            events: l.events.push(
                ControllerEvent::BandwidthGiven { now, time_since_last_update, is_continuous_send, bandwidth },
            ).push(ControllerEvent::RtoAsked { rto }),
            ..l
        };
        let (l1, packets) = gathered(asked, now, bandwidth, rto);
        let (c2, d2, failed) = send_fold(l1.cache, packets, seqs, slow_start, now, packets.len());
        (
            LayerModel {
                cache: c2,
                events: l1.events + send_events(l1.cache, packets, seqs, slow_start, now, packets.len()),
                bandwidth_exceeded: if failed {
                    l.bandwidth_exceeded
                } else {
                    l1.outgoing.len() > 0
                },
                ..l1
            },
            d2,
            failed,
        )
    }
}

/// The layer after `update` at `now` with the controller's answers `a`,
/// the datagrams to send in order, and whether it stopped because a
/// packet number fell beyond the reach of the cache. The calls made to
/// the controller, with their arguments and these answers, are recorded
/// in order.
pub open spec fn update_result(l: LayerModel, now: u64, a: ControllerAnswers) -> (LayerModel, Seq<Seq<u8>>, bool) {
    let (l3, d) = update_head(l, now, a);
    let (l5, d2, failed) = update_tail(
        LayerModel {
            bandwidth_exceeded: l.outgoing.len() > 0,
            events: l3.events.push(ControllerEvent::SlowStartAsked { slow_start: a.slow_start }),
            ..l3
        },
        now,
        (now - l.last_update) as u64,
        l.bandwidth_exceeded,
        a.slow_start,
        a.bandwidth,
        a.rto,
        a.seqs,
    );
    (l5, d + d2, failed)
}

proof fn lemma_fragments_below_fit(h: Seq<HistoryModel>, start: int, hi: int, max: nat)
    requires
        h.len() == PACKET_HISTORY_SIZE,
        forall|j: int| 0 <= j < h.len() ==> (#[trigger] h[j] matches HistoryModel::Valid { fragments, .. }
            ==> fragments_fit(fragments, max)),
    ensures
        fragments_fit(fragments_below(h, start, hi), max),
    decreases hi,
{
    if hi > 0 {
        lemma_fragments_below_fit(h, start, hi - 1, max);
        let slot = crate::reliability::window::slot_of(start + hi - 1, PACKET_HISTORY_SIZE as int);
        vstd::arithmetic::div_mod::lemma_mod_bound(start + hi - 1, PACKET_HISTORY_SIZE as int);
        let a = fragments_below(h, start, hi - 1);
        let r = fragments_below(h, start, hi);
        assert forall|i: int| 0 <= i < r.len() implies (#[trigger] r[i]).data.len() <= max by {
            if i < a.len() {
                assert(r[i] == a[i]);
            } else {
                assert(h[slot] matches HistoryModel::Valid { fragments, .. } ==> fragments_fit(fragments, max));
            }
        }
    }
}

proof fn lemma_cache_fits_fetched(c: CacheModel, now: u64, rto: u64, max: nat, clock: u64)
    requires
        cache_fits(c, max, clock),
        c.histories.len() == PACKET_HISTORY_SIZE,
    ensures
        cache_fits(fetched(c, now, rto), max, clock),
{
    let f = fetched(c, now, rto);
    let count: nat = if cache_busy(c) {
        expired_run(c.histories, c.start as int, 0, now, rto)
    } else {
        0
    };
    lemma_fragments_below_fit(c.histories, c.start as int, count as int, max);
    let b = fragments_below(c.histories, c.start as int, count as int);
    assert forall|i: int| 0 <= i < f.queue.len() implies (#[trigger] f.queue[i]).data.len() <= max by {
        if i < c.queue.len() {
            assert(f.queue[i] == c.queue[i]);
        } else {
            assert(f.queue[i] == b[i - c.queue.len()]);
        }
    }
    assert forall|j: int| 0 <= j < f.histories.len() implies (#[trigger] f.histories[j] matches HistoryModel::Valid {
        fragments,
        time_sent,
    } ==> fragments_fit(fragments, max) && time_sent <= clock) by {
        assert(f.histories[j] is Invalid || f.histories[j] == c.histories[j]);
    }
}

proof fn lemma_cache_fits_later(c: CacheModel, max: nat, clock: u64, later: u64)
    requires
        cache_fits(c, max, clock),
        clock <= later,
    ensures
        cache_fits(c, max, later),
{
}

proof fn lemma_pack_retransmits_keeps(q: Seq<FragmentModel>, p: Packing, max: nat, bw: nat)
    ensures
        pack_retransmits(q, p, max, bw).0.len() <= q.len(),
        forall|i: int|
            0 <= i < pack_retransmits(q, p, max, bw).0.len() ==> #[trigger] pack_retransmits(q, p, max, bw).0[i]
                == q[i + q.len() - pack_retransmits(q, p, max, bw).0.len()],
    decreases q.len(),
{
    if !(p.total >= bw || q.len() == 0 || p.total + q[0].full_size() > bw) {
        lemma_pack_retransmits_keeps(q.drop_first(), place(p, q[0], max), max, bw);
    }
}

impl<T: CongestionController> Layer<T> {
    /// The start of `update` (see `update_head`). Hands back the datagrams
    /// and the controller's answers about acknowledging.
    fn update_head(&mut self, now: u64) -> (r: (Vec<Vec<u8>>, bool, Option<u32>))
        requires
            old(self).wf(),
            now >= old(self)@.last_update,
            now >= old(self)@.time_last_datagram_recved,
        ensures
            final(self).wf(),
            ({
                let a = ControllerAnswers {
                    send_ack: r.1,
                    arrival_rate: r.2,
                    slow_start: false,
                    bandwidth: 0,
                    rto: 0,
                    seqs: Seq::empty(),
                };
                let (l, d) = update_head(old(self)@, now, a);
                &&& final(self)@ == l
                &&& output_view(r.0@) == d
            }),
    {
        let ghost l0 = self@;
        let time_since_last_update = now - self.last_update;
        self.last_update = now;
        proof {
            lemma_cache_fits_later(l0.cache, l0.max_size_of_packet, l0.last_update, now);
            self.retransmit_cache.lemma_wf_len();
        }
        if !self.retransmit_cache.is_empty() && now - self.time_last_datagram_recved > self.timeout {
            self.is_dead = true;
        }
        let mut out: Vec<Vec<u8>> = Vec::new();
        let send_ack = self.ask_ack(now, time_since_last_update);
        let mut arrival_rate: Option<u32> = None;
        let ghost l1 = self@;
        if send_ack && self.acks.len() > 0 {
            arrival_rate = self.tell_ack_sent();
            let ghost l1a = self@;
            let mut seqs: Vec<u32> = Vec::new();
            std::mem::swap(&mut seqs, &mut self.acks);
            let mut datagram = Datagram::Ack { arrival_rate, seqs };
            let mut buf: Vec<u8> = Vec::new();
            put_datagram(&mut buf, &mut datagram);
            out.push(buf);
            assert(output_view(out@) =~= seq![ser_datagram(normalized(DatagramModel::Ack { arrival_rate, seqs: l0.acks }))]);
            assert(self@ =~= (LayerModel { acks: Seq::empty(), ..l1a }));
        } else {
            assert(output_view(out@) =~= Seq::<Seq<u8>>::empty());
        }
        let ghost l2 = self@;
        let ghost d1 = output_view(out@);
        if self.naks.len() > 0 {
            let mut seqs: Vec<u32> = Vec::new();
            std::mem::swap(&mut seqs, &mut self.naks);
            let mut datagram = Datagram::Nak { seqs };
            let mut buf: Vec<u8> = Vec::new();
            put_datagram(&mut buf, &mut datagram);
            out.push(buf);
            assert(output_view(out@) =~= d1.push(ser_datagram(normalized(DatagramModel::Nak { seqs: l0.naks }))));
            assert(self@ =~= (LayerModel { naks: Seq::empty(), ..l2 }));
        }
        (out, send_ack, arrival_rate)
    }

    /// Gathers the packets to send at `now` within `bandwidth` bytes (see
    /// `gathered`); each fragment sent again is reported to the congestion
    /// controller. Hands back the packets and their sizes.
    fn gather(&mut self, now: u64, bandwidth: usize, rto: u64) -> (r: (Vec<Vec<Fragment>>, Vec<usize>))
        requires
            old(self).wf(),
            old(self)@.last_update == now,
            cache_has_room(old(self)@),
        ensures
            final(self).wf(),
            ({
                let (l, packets) = gathered(old(self)@, now, bandwidth, rto);
                &&& final(self)@ == l
                &&& r.0@.map_values(|v: Vec<Fragment>| fragments_view(v@)) == packets
            }),
            r.1@.len() == r.0@.len(),
            forall|i: int| 0 <= i < r.1@.len() ==> r.1@[i] == packet_size(fragments_view(#[trigger] r.0@[i]@)),
            forall|i: int|
                0 <= i < r.0@.len() ==> fragments_fit(
                    fragments_view(#[trigger] r.0@[i]@),
                    old(self)@.max_size_of_packet,
                ),
    {
        let ghost l4 = self@;
        let max = self.max_size_of_packet;
        let mut packer = Packer::new();
        proof {
            self.retransmit_cache.lemma_wf_len();
            lemma_cache_fits_fetched(l4.cache, now, rto, max as nat, now);
            assert(packing_fits(packer@, max as nat));
        }
        let ghost c1 = fetched(l4.cache, now, rto);
        {
            let q = self.retransmit_cache.get_retransmit_fragments(now, rto);
            assert(queue_view(*q) == c1.queue);
            pack_retransmits_from(q, &mut packer, &mut self.congestion_controller, &mut self.events, now, max, bandwidth);
        }
        let ghost (qrest, p1) = pack_retransmits(c1.queue, empty_packing(), max as nat, bandwidth as nat);
        proof {
            lemma_pack_retransmits_keeps(c1.queue, empty_packing(), max as nat, bandwidth as nat);
            assert(self@.cache == (CacheModel { queue: qrest, ..c1 }));
            let c = self@.cache;
            assert forall|i: int| 0 <= i < c.queue.len() implies (#[trigger] c.queue[i]).data.len() <= max by {
                assert(c.queue[i] == c1.queue[i + c1.queue.len() - c.queue.len()]);
            }
            assert(self@ =~= (LayerModel {
                cache: CacheModel { queue: qrest, ..c1 },
                events: l4.events + resends((c1.queue.len() - qrest.len()) as nat, now),
                ..l4
            }));
        }
        self.pack_outgoing_into(&mut packer, bandwidth);
        let ghost packed = packer@;
        let (packets, sizes) = packer.finish();
        proof {
            let pv = packets@.map_values(|v: Vec<Fragment>| fragments_view(v@));
            assert(pv == closed_packets(packed));
            assert forall|i: int| 0 <= i < packets@.len() implies fragments_fit(
                fragments_view(#[trigger] packets@[i]@),
                max as nat,
            ) by {
                assert(pv[i] == fragments_view(packets@[i]@));
                if i < packed.packets.len() {
                    assert(pv[i] == packed.packets[i]);
                } else {
                    assert(pv[i] == packed.current);
                }
            }
            assert forall|i: int| 0 <= i < sizes@.len() implies sizes@[i] == packet_size(
                fragments_view(#[trigger] packets@[i]@),
            ) by {
                assert(pv[i] == fragments_view(packets@[i]@));
            }
        }
        (packets, sizes)
    }

    /// The rest of `update` (see `update_tail`), with the controller in
    /// slow start or not as `needs_arrival_rate` says. Hands back the
    /// datagrams, the error that stopped it, and the controller's
    /// bandwidth, timeout and packet numbers.
    fn update_tail(
        &mut self,
        now: u64,
        time_since_last_update: u64,
        is_continuous_send: bool,
        needs_arrival_rate: bool,
    ) -> (r: (Vec<Vec<u8>>, Result<(), LayerError>, Ghost<(usize, u64, Seq<u32>)>))
        requires
            old(self).wf(),
            old(self)@.last_update == now,
        ensures
            final(self).wf(),
            ({
                let (l, d, failed) = update_tail(
                    old(self)@,
                    now,
                    time_since_last_update,
                    is_continuous_send,
                    needs_arrival_rate,
                    r.2@.0,
                    r.2@.1,
                    r.2@.2,
                );
                &&& final(self)@ == l
                &&& output_view(r.0@) == d
                &&& (r.1 is Err <==> failed)
                &&& (r.1 matches Err(e) ==> e is BufferOverflow)
            }),
    {
        reveal(update_tail);
        proof {
            self.retransmit_cache.lemma_wf_len();
        }
        let busy = !self.retransmit_cache.is_empty();
        if !(busy || self.bandwidth_exceeded) {
            let out: Vec<Vec<u8>> = Vec::new();
            assert(output_view(out@) =~= Seq::<Seq<u8>>::empty());
            return (out, Ok(()), Ghost((0usize, 0u64, Seq::empty())));
        }
        if self.retransmit_cache.start_seq() as u64 + PACKET_HISTORY_SIZE as u64 > u32::MAX as u64 {
            let out: Vec<Vec<u8>> = Vec::new();
            assert(output_view(out@) =~= Seq::<Seq<u8>>::empty());
            return (out, Err(LayerError::BufferOverflow(BufferOverflowError)), Ghost((0usize, 0u64, Seq::empty())));
        }
        let bandwidth = self.ask_bandwidth(now, time_since_last_update, is_continuous_send);
        let rto = self.ask_rto();
        let (packets, sizes) = self.gather(now, bandwidth, rto);
        let (out, res, Ghost(seqs)) = self.send_packets(packets, sizes, needs_arrival_rate, now);
        if res.is_ok() {
            self.bandwidth_exceeded = self.outgoing_queue.len() > 0;
        }
        (out, res, Ghost((bandwidth, rto, seqs)))
    }

    /// Gives the layer a turn at `now` (see `update_result`, over the
    /// answers the congestion controller gave during it). Hands back the
    /// datagrams to send, in order, and the error that stopped it, if any:
    /// a packet number beyond the reach of the cache.
    pub fn update(&mut self, now: u64) -> (r: (Vec<Vec<u8>>, Result<(), LayerError>))
        requires
            old(self).wf(),
            now >= old(self)@.last_update,
            now >= old(self)@.time_last_datagram_recved,
        ensures
            final(self).wf(),
            exists|a: ControllerAnswers|
                #![trigger update_result(old(self)@, now, a)]
                {
                    let (l, d, failed) = update_result(old(self)@, now, a);
                    &&& final(self)@ == l
                    &&& output_view(r.0@) == d
                    &&& (r.1 is Err <==> failed)
                    &&& (r.1 matches Err(e) ==> e is BufferOverflow)
                },
    {
        let ghost l0 = self@;
        let time_since_last_update = now - self.last_update;
        let (mut out, send_ack, arrival_rate) = self.update_head(now);
        let needs_arrival_rate = self.ask_slow_start();
        let is_continuous_send = self.bandwidth_exceeded;
        self.bandwidth_exceeded = self.outgoing_queue.len() > 0;
        let (mut sent, res, Ghost(answers)) = self.update_tail(
            now,
            time_since_last_update,
            is_continuous_send,
            needs_arrival_rate,
        );
        out.append(&mut sent);
        proof {
            let a = ControllerAnswers {
                send_ack,
                arrival_rate,
                slow_start: needs_arrival_rate,
                bandwidth: answers.0,
                rto: answers.1,
                seqs: answers.2,
            };
            let (lr, dr, failed) = update_result(l0, now, a);
            assert(output_view(out@) =~= dr);
            assert(self@ == lr);
        }
        (out, res)
    }
}

/// Queuing a message changes only the outgoing queue, the table of next
/// weights and the sending counters.
pub proof fn lemma_send_frame(l: LayerModel, priority: Priority, reliability: Reliability, channel: u8, data: Seq<u8>)
    ensures
        ({
            let r = send_result(l, priority, reliability, channel, data);
            r == (LayerModel {
                outgoing: r.outgoing,
                next_weight: r.next_weight,
                send_split_id: r.send_split_id,
                send_sequence_index: r.send_sequence_index,
                send_ordering_index: r.send_ordering_index,
                ..l
            })
        }),
{
    let f = stamped_fragment(l, reliability, channel, data);
    let l1 = stamped_counters(l, reliability, channel);
    if f.full_size() > l.max_size_of_packet {
        let allowed = (l.max_size_of_packet - f.header_size() - 10) as nat;
        let count = split_count(data.len(), allowed);
        lemma_enqueue_pieces_frame(l1, priority, f, data, allowed, count, l1.send_split_id, count);
    }
}

/// The payloads of the pieces a message is split into.
pub open spec fn split_parts(base: FragmentModel, data: Seq<u8>, allowed: nat, id: u16) -> Seq<Option<Seq<u8>>> {
    let count = split_count(data.len(), allowed);
    Seq::new(count, |i: int| Some(split_piece(base, data, allowed, count, id, i as nat).data))
}

#[verifier::spinoff_prover]
proof fn lemma_split_prefix(base: FragmentModel, data: Seq<u8>, allowed: nat, id: u16, k: nat)
    requires
        allowed > 0,
        data.len() > 0,
        k <= split_count(data.len(), allowed),
    ensures
        concat_parts(split_parts(base, data, allowed, id).take(k as int)) == data.subrange(
            0,
            if k * allowed < data.len() {
                (k * allowed) as int
            } else {
                data.len() as int
            },
        ),
    decreases k,
{
    let parts = split_parts(base, data, allowed, id);
    let count = split_count(data.len(), allowed);
    if k == 0 {
        assert(parts.take(0) =~= Seq::<Option<Seq<u8>>>::empty());
        assert(data.subrange(0, 0) =~= Seq::<u8>::empty());
    } else {
        let j = (k - 1) as nat;
        lemma_split_prefix(base, data, allowed, id, j);
        lemma_concat_parts_step(parts, j as int);
        lemma_piece_start(data.len() as int, allowed as int, j as int);
        assert(k * allowed == j * allowed + allowed) by (nonlinear_arith)
            requires
                k == j + 1,
        ;
        let e = if k * allowed < data.len() {
            (k * allowed) as int
        } else {
            data.len() as int
        };
        assert(parts[j as int] == Some(data.subrange((j * allowed) as int, e)));
        assert(data.subrange(0, (j * allowed) as int) + data.subrange((j * allowed) as int, e) =~= data.subrange(
            0,
            e,
        ));
    }
}

/// The pieces a message is split into, joined in order as a receiver
/// joins them, give the message back; each carries at most `allowed`
/// bytes, its place among the pieces, and the class and numbering of the
/// message.
pub proof fn lemma_split_rejoins(base: FragmentModel, data: Seq<u8>, allowed: nat, id: u16)
    requires
        allowed > 0,
        data.len() > 0,
    ensures
        all_ready(split_parts(base, data, allowed, id)),
        concat_parts(split_parts(base, data, allowed, id)) == data,
        forall|i: nat|
            i < split_count(data.len(), allowed) ==> {
                let piece = #[trigger] split_piece(base, data, allowed, split_count(data.len(), allowed), id, i);
                &&& piece.data.len() <= allowed
                &&& piece.split_info == Some(
                    SplitInfo { size: split_count(data.len(), allowed) as u32, id, index: i as u32 },
                )
                &&& piece.reliability == base.reliability
                &&& piece.reliable_index == base.reliable_index
                &&& piece.sequence_index == base.sequence_index
                &&& piece.ordering_info == base.ordering_info
            },
{
    let count = split_count(data.len(), allowed);
    let parts = split_parts(base, data, allowed, id);
    lemma_split_prefix(base, data, allowed, id, count);
    assert(parts.take(count as int) =~= parts);
    vstd::arithmetic::div_mod::lemma_fundamental_div_mod(data.len() - 1, allowed as int);
    vstd::arithmetic::div_mod::lemma_mod_bound(data.len() - 1, allowed as int);
    assert(count * allowed >= data.len()) by (nonlinear_arith)
        requires
            count == (data.len() - 1) / (allowed as int) + 1,
            data.len() - 1 == (allowed as int) * ((data.len() - 1) / (allowed as int)) + (data.len() - 1) % (
            allowed as int),
            (data.len() - 1) % (allowed as int) < allowed,
    ;
    assert(data.subrange(0, data.len() as int) =~= data);
    assert forall|i: nat| i < count implies {
        let piece = #[trigger] split_piece(base, data, allowed, count, id, i);
        &&& piece.data.len() <= allowed
        &&& piece.split_info == Some(SplitInfo { size: count as u32, id, index: i as u32 })
    } by {
        lemma_piece_start(data.len() as int, allowed as int, i as int);
        assert((i + 1) * allowed == i * allowed + allowed) by (nonlinear_arith);
    }
}

/// The messages waiting on ordering channel `c`, by ordering index: the
/// one at offset `i` of the channel's queue has the index `1 + i` past the
/// expected one.
pub open spec fn waiting(l: LayerModel, c: int) -> Map<int, Seq<u8>> {
    let cur = l.recv_ordering_index[c] as int;
    let q = l.ordered[c];
    Map::new(|j: int| cur < j && j - cur - 1 < q.len() && q[j - cur - 1] is Some, |j: int| q[j - cur - 1]->0)
}

/// Ordered messages come out in the order of their indices: a message of
/// an ordered channel below the expected index changes nothing; one above
/// it waits under its index; one at the expected index comes out, followed
/// by the waiting messages at the next indices as long as none is missing,
/// and the expected index moves past the last one out; when every waiting
/// message came out, none is left waiting.
pub proof fn lemma_ordered_delivery(l: LayerModel, f: FragmentModel)
    requires
        l.ordered.len() == ORDERING_CHANNEL_SIZE,
        l.recv_ordering_index.len() == ORDERING_CHANNEL_SIZE,
        l.recv_sequence_index.len() == ORDERING_CHANNEL_SIZE,
        f.ordering_info matches Some(oi) && oi.channel < ORDERING_CHANNEL_SIZE && l.recv_ordering_index[oi.channel as int]
            + 1 + l.ordered[oi.channel as int].len() <= u32::MAX && oi.index < u32::MAX,
        f.sequence_index is None,
    ensures
        ({
            let oi = f.ordering_info->0;
            let c = oi.channel as int;
            let cur = l.recv_ordering_index[c] as int;
            let l2 = deliver(l, f);
            &&& oi.index < cur ==> l2 == l
            &&& oi.index > cur ==> {
                &&& l2.output == l.output
                &&& l2.recv_ordering_index == l.recv_ordering_index
                &&& waiting(l2, c) == waiting(l, c).insert(oi.index as int, f.data)
            }
            &&& oi.index == cur ==> {
                    let k = leading_ready(l.ordered[c]);
                    &&& forall|t: int| cur < t <= cur + k ==> #[trigger] waiting(l, c).contains_key(t)
                    &&& !waiting(l, c).contains_key(cur + k + 1)
                    &&& l2.recv_ordering_index[c] == cur + k + 1
                    &&& l2.output == l.output.push(f.data) + Seq::new(
                        k,
                        |t: int| waiting(l, c)[cur + 1 + t],
                    )
                    &&& k == l.ordered[c].len() ==> waiting(l2, c) == Map::<int, Seq<u8>>::empty()
                }
        }),
{
    let oi = f.ordering_info->0;
    let c = oi.channel as int;
    let cur = l.recv_ordering_index[c] as int;
    let q = l.ordered[c];
    let l2 = deliver(l, f);
    if oi.index > cur {
        let idx = oi.index - cur - 1;
        let grown = if q.len() > idx {
            q
        } else {
            q + Seq::new((idx + 1 - q.len()) as nat, |_i: int| None::<Seq<u8>>)
        };
        assert(l2.ordered[c] == grown.update(idx, Some(f.data)));
        assert(l2.recv_ordering_index[c] == cur);
        assert forall|j: int| cur < j && j - cur - 1 < q.len() implies #[trigger] grown[j - cur - 1] == q[j - cur - 1] by {
        }
        assert(waiting(l2, c) =~= waiting(l, c).insert(oi.index as int, f.data));
    } else if oi.index == cur {
        let k = leading_ready(q);
        lemma_leading_ready(q);
        let q2 = q.skip(k as int);
        assert(l2.ordered[c] == q2);
        assert(l2.recv_ordering_index[c] == cur + k + 1);
        assert forall|t: int| cur < t <= cur + k implies #[trigger] waiting(l, c).contains_key(t) by {
            assert(q[t - cur - 1] is Some);
        }
        assert(l2.output =~= l.output.push(f.data) + Seq::new(k, |t: int| waiting(l, c)[cur + 1 + t])) by {
            assert forall|t: int| 0 <= t < k implies #[trigger] ready_data(q, k)[t] == waiting(l, c)[cur + 1 + t] by {
                assert(waiting(l, c).contains_key(cur + 1 + t));
            }
            assert(ready_data(q, k) =~= Seq::new(k, |t: int| waiting(l, c)[cur + 1 + t]));
        }
        if k == q.len() {
            assert(q2.len() == 0);
            assert(waiting(l2, c) =~= Map::<int, Seq<u8>>::empty());
        }
        assert(!waiting(l, c).contains_key(cur + k + 1));
    }
}

/// The layer after whole messages `fs[..i]` reach the ordering stage in
/// turn.
pub open spec fn delivered_all(l: LayerModel, fs: Seq<FragmentModel>, i: nat) -> LayerModel
    decreases i,
{
    if i == 0 {
        l
    } else {
        deliver(delivered_all(l, fs, (i - 1) as nat), fs[i - 1])
    }
}

/// Ordered messages of one channel arriving in the order of their indices,
/// from the expected one on and with none waiting, come out each once, in
/// that order; the expected index moves past the last and none is left
/// waiting.
pub proof fn lemma_in_order_arrivals(l: LayerModel, c: u8, fs: Seq<FragmentModel>)
    requires
        l.ordered.len() == ORDERING_CHANNEL_SIZE,
        l.recv_ordering_index.len() == ORDERING_CHANNEL_SIZE,
        l.recv_sequence_index.len() == ORDERING_CHANNEL_SIZE,
        c < ORDERING_CHANNEL_SIZE,
        l.ordered[c as int].len() == 0,
        l.recv_ordering_index[c as int] + fs.len() <= u32::MAX,
        forall|t: int|
            0 <= t < fs.len() ==> (#[trigger] fs[t]).ordering_info == Some(
                OrderingInfo { index: (l.recv_ordering_index[c as int] + t) as u32, channel: c },
            ) && fs[t].sequence_index is None,
    ensures
        delivered_all(l, fs, fs.len()).output == l.output + fs.map_values(|f: FragmentModel| f.data),
        delivered_all(l, fs, fs.len()).recv_ordering_index[c as int] == l.recv_ordering_index[c as int] + fs.len(),
        delivered_all(l, fs, fs.len()).ordered[c as int].len() == 0,
        delivered_all(l, fs, fs.len()).ordered.len() == ORDERING_CHANNEL_SIZE,
        delivered_all(l, fs, fs.len()).recv_ordering_index.len() == ORDERING_CHANNEL_SIZE,
        delivered_all(l, fs, fs.len()).recv_sequence_index.len() == ORDERING_CHANNEL_SIZE,
    decreases fs.len(),
{
    if fs.len() > 0 {
        let k = (fs.len() - 1) as nat;
        let init = fs.take(k as int);
        lemma_in_order_arrivals(l, c, init);
        lemma_delivered_prefix(l, fs, init, k);
        let lk = delivered_all(l, fs, k);
        let f = fs[k as int];
        assert(f.ordering_info == Some(OrderingInfo { index: (l.recv_ordering_index[c as int] + k) as u32, channel: c }));
        assert(lk.recv_ordering_index[c as int] == l.recv_ordering_index[c as int] + k);
        assert(delivered_all(l, fs, fs.len()) == deliver(lk, f));
        assert(leading_ready(lk.ordered[c as int]) == 0);
        assert(lk.ordered[c as int].skip(0) =~= lk.ordered[c as int]);
        let d = fs.map_values(|g: FragmentModel| g.data);
        assert(d =~= init.map_values(|g: FragmentModel| g.data).push(f.data));
        assert(ready_data(lk.ordered[c as int], 0) =~= Seq::<Seq<u8>>::empty());
        assert(lk.output + ready_data(lk.ordered[c as int], 0) =~= lk.output);
    }
}

proof fn lemma_delivered_prefix(l: LayerModel, fs: Seq<FragmentModel>, gs: Seq<FragmentModel>, i: nat)
    requires
        i <= fs.len(),
        i <= gs.len(),
        forall|t: int| 0 <= t < i ==> fs[t] == gs[t],
    ensures
        delivered_all(l, fs, i) == delivered_all(l, gs, i),
    decreases i,
{
    if i > 0 {
        lemma_delivered_prefix(l, fs, gs, (i - 1) as nat);
    }
}

proof fn lemma_run_from_bound<T>(slots: Seq<Option<T>>, start: int, i: nat, limit: nat)
    requires
        i <= limit,
    ensures
        crate::reliability::window::run_from(slots, start, i, limit) <= limit,
    decreases limit - i,
{
    if i < limit {
        lemma_run_from_bound(slots, start, i + 1, limit);
    }
}

/// A reliable fragment is taken in at most once while the window of
/// reliable indices has not moved past its index: once a fragment with a
/// reliable index has been taken in, or dropped as a repeat, and the
/// window still reaches its index, the same fragment arriving again leaves
/// the layer as it is.
pub proof fn lemma_reliable_taken_once(l: LayerModel, f: FragmentModel)
    requires
        l.reliable_window.slots.len() == RELIABLE_WINDOW_SIZE,
        l.reliable_window.furthest matches Some(x) ==> x < l.reliable_window.start + RELIABLE_WINDOW_SIZE,
        f.reliable_index is Some,
        fragment_result(l, f).1 is None,
        f.reliable_index->0 >= fragment_result(l, f).0.reliable_window.start,
    ensures
        fragment_result(fragment_result(l, f).0, f).0 == fragment_result(l, f).0,
{
    let w = l.reliable_window;
    let ri = f.reliable_index->0;
    let n = RELIABLE_WINDOW_SIZE as nat;
    let l2 = fragment_result(l, f).0;
    if insert_outcome(w, ri, n) == Ok::<bool, ()>(true) {
        let w1 = inserted(w, ri, (), n);
        let count = shift_count(w1, n);
        let slot = crate::reliability::window::slot_of(ri as int, n as int);
        let w2 = shifted(w1, n);
        lemma_run_from_bound(w1.slots, w.start as int, 0, crate::reliability::window::shift_range(w1, n));
        assert(l2.reliable_window == w2);
        assert(w2.start == w.start + count);
        crate::reliability::window::lemma_ring_offset(w.start as int, ri - w.start, n as int);
        if w2.start + n <= u32::MAX {
            assert(w2.slots[slot] is Some);
            assert(insert_outcome(w2, ri, n) == Ok::<bool, ()>(false));
            assert(fragment_result(l2, f).0 == l2);
        }
    } else {
        assert(l2 == l);
    }
}

/// An acknowledgement of a packet settles it: the packet is no longer
/// awaited, and the bytes of its fragments are counted as acknowledged.
pub proof fn lemma_ack_settles(l: LayerModel, seq: u32, now: u64, arrival_rate: Option<u32>)
    requires
        cache_has_room(l),
        l.cache.histories.len() == PACKET_HISTORY_SIZE,
    ensures
        ack_result(l, seq![seq], now, arrival_rate) matches Some(l2) && {
            &&& !(l2.cache.histories[slot_of_history(seq)] is Valid)
            &&& match mark_outcome(l.cache, seq) {
                Some((fs, _)) => l2.total_bytes_acked == acked_total(l.total_bytes_acked, fs),
                None => l2.total_bytes_acked == l.total_bytes_acked,
            }
        },
{
    reveal_with_fuel(acks_fold, 2);
    vstd::arithmetic::div_mod::lemma_mod_bound(seq as int, PACKET_HISTORY_SIZE as int);
}

/// A negative acknowledgement of an awaited packet queues its fragments to
/// be sent again, after those already waiting, and the packet is no longer
/// awaited.
pub proof fn lemma_nak_requeues(l: LayerModel, seq: u32)
    requires
        cache_has_room(l),
        l.cache.histories.len() == PACKET_HISTORY_SIZE,
    ensures
        nak_result(l, seq![seq]) matches Some(l2) && {
            &&& !(l2.cache.histories[slot_of_history(seq)] is Valid)
            &&& match mark_outcome(l.cache, seq) {
                Some((fs, _)) => l2.cache.queue == l.cache.queue + fs,
                None => l2.cache.queue == l.cache.queue,
            }
        },
{
    reveal_with_fuel(naks_fold, 2);
    vstd::arithmetic::div_mod::lemma_mod_bound(seq as int, PACKET_HISTORY_SIZE as int);
}


/// Placing a fragment in the queue keeps every queued fragment, in order,
/// and puts the new one at its insertion position.
proof fn lemma_enqueue_places(q: Seq<OutgoingModel>, e: OutgoingModel)
    ensures
        insert_pos(q, e.weight) <= q.len(),
        enqueue(q, e).len() == q.len() + 1,
        enqueue(q, e)[insert_pos(q, e.weight) as int] == e,
        forall|j: int|
            0 <= j < q.len() ==> enqueue(q, e)[if j < insert_pos(q, e.weight) {
                j
            } else {
                j + 1
            }] == #[trigger] q[j],
{
    lemma_insert_pos_bounds(q, e.weight);
    let k = insert_pos(q, e.weight) as int;
    assert(enqueue(q, e) =~= q.insert(k, e));
}

/// Queuing a message numbers it from the counters of its class and moves
/// only those. An ordered message takes the ordering index of its channel,
/// which then advances by one while every other channel keeps its own, and
/// the sequence index restarts; a sequenced message takes the next sequence
/// index and the current ordering index of its channel, and no ordering
/// index moves; any other message moves no counter. A message that fits a
/// packet is queued whole, with that numbering.
pub proof fn lemma_send_numbering(
    l: LayerModel,
    priority: Priority,
    reliability: Reliability,
    channel: u8,
    data: Seq<u8>,
)
    requires
        channel < ORDERING_CHANNEL_SIZE,
        l.send_ordering_index.len() == ORDERING_CHANNEL_SIZE,
    ensures
        ({
            let r = send_result(l, priority, reliability, channel, data);
            let c = channel as int;
            let seq = reliability.spec_is_sequenced();
            let ord = reliability.spec_is_ordered();
            &&& r.send_ordering_index.len() == ORDERING_CHANNEL_SIZE
            &&& forall|d: int|
                0 <= d < ORDERING_CHANNEL_SIZE && d != c ==> #[trigger] r.send_ordering_index[d]
                    == l.send_ordering_index[d]
            &&& r.send_ordering_index[c] == (if ord {
                vstd::wrapping::u32_specs::wrapping_add(l.send_ordering_index[c], 1)
            } else {
                l.send_ordering_index[c]
            })
            &&& r.send_sequence_index == (if seq {
                vstd::wrapping::u32_specs::wrapping_add(l.send_sequence_index, 1)
            } else if ord {
                0
            } else {
                l.send_sequence_index
            })
            &&& unsplit_header_size(reliability) + data.len() <= l.max_size_of_packet ==> {
                &&& r.outgoing.len() == l.outgoing.len() + 1
                &&& exists|i: int|
                    0 <= i < r.outgoing.len() && (#[trigger] r.outgoing[i]).priority == priority
                        && r.outgoing[i].fragment == (FragmentModel {
                        reliability,
                        reliable_index: None,
                        sequence_index: if seq {
                            Some(l.send_sequence_index)
                        } else {
                            None
                        },
                        ordering_info: if seq || ord {
                            Some(OrderingInfo { index: l.send_ordering_index[c], channel })
                        } else {
                            None
                        },
                        split_info: None,
                        data,
                    })
            }
        }),
{
    let f = stamped_fragment(l, reliability, channel, data);
    let l1 = stamped_counters(l, reliability, channel);
    let r = send_result(l, priority, reliability, channel, data);
    lemma_send_frame(l, priority, reliability, channel, data);
    if f.full_size() > l.max_size_of_packet {
        let allowed = (l.max_size_of_packet - f.header_size() - 10) as nat;
        let count = split_count(data.len(), allowed);
        lemma_enqueue_pieces_frame(l1, priority, f, data, allowed, count, l1.send_split_id, count);
    }
    assert(r.send_ordering_index == l1.send_ordering_index);
    assert(r.send_sequence_index == l1.send_sequence_index);
    if f.full_size() <= l.max_size_of_packet {
        let (w, nw) = next_weight(l1.next_weight, l1.outgoing, priority);
        let e = OutgoingModel { weight: w, priority, fragment: f };
        lemma_enqueue_places(l1.outgoing, e);
        assert(r.outgoing == enqueue(l.outgoing, e));
        assert(r.outgoing[insert_pos(l.outgoing, w) as int] == e);
    }
}

/// Ordered messages queued one after the other on one channel carry
/// consecutive ordering indices of that channel.
pub proof fn lemma_consecutive_ordered(
    l: LayerModel,
    p1: Priority,
    r1: Reliability,
    d1: Seq<u8>,
    p2: Priority,
    r2: Reliability,
    d2: Seq<u8>,
    channel: u8,
)
    requires
        channel < ORDERING_CHANNEL_SIZE,
        l.send_ordering_index.len() == ORDERING_CHANNEL_SIZE,
        r1.spec_is_ordered(),
        r2.spec_is_ordered(),
        unsplit_header_size(r1) + d1.len() <= l.max_size_of_packet,
        unsplit_header_size(r2) + d2.len() <= l.max_size_of_packet,
    ensures
        ({
            let l1 = send_result(l, p1, r1, channel, d1);
            let l2 = send_result(l1, p2, r2, channel, d2);
            let c = channel as int;
            &&& exists|i: int|
                0 <= i < l1.outgoing.len() && (#[trigger] l1.outgoing[i]).fragment.data == d1
                    && l1.outgoing[i].fragment.ordering_info == Some(
                    OrderingInfo { index: l.send_ordering_index[c], channel },
                )
            &&& exists|j: int|
                0 <= j < l2.outgoing.len() && (#[trigger] l2.outgoing[j]).fragment.data == d2
                    && l2.outgoing[j].fragment.ordering_info == Some(
                    OrderingInfo {
                        index: vstd::wrapping::u32_specs::wrapping_add(l.send_ordering_index[c], 1),
                        channel,
                    },
                )
            &&& l2.send_ordering_index[c] == vstd::wrapping::u32_specs::wrapping_add(
                vstd::wrapping::u32_specs::wrapping_add(l.send_ordering_index[c], 1),
                1,
            )
        }),
{
    let l1 = send_result(l, p1, r1, channel, d1);
    lemma_send_numbering(l, p1, r1, channel, d1);
    lemma_send_frame(l, p1, r1, channel, d1);
    lemma_send_numbering(l1, p2, r2, channel, d2);
}

/// Into an empty queue, a message of priority `p1` and then one of
/// priority `p2`, each fitting a packet: the second goes ahead of the first
/// exactly when it is more urgent, so it is packed first; at equal
/// priority they keep the order they came in.
pub proof fn lemma_urgent_first(
    l: LayerModel,
    p1: Priority,
    r1: Reliability,
    c1: u8,
    d1: Seq<u8>,
    p2: Priority,
    r2: Reliability,
    c2: u8,
    d2: Seq<u8>,
)
    requires
        l.outgoing.len() == 0,
        unsplit_header_size(r1) + d1.len() <= l.max_size_of_packet,
        unsplit_header_size(r2) + d2.len() <= l.max_size_of_packet,
    ensures
        ({
            let l2 = send_result(send_result(l, p1, r1, c1, d1), p2, r2, c2, d2);
            let urgent = p2.rank() < p1.rank();
            &&& l2.outgoing.len() == 2
            &&& l2.outgoing[0].priority == (if urgent {
                p2
            } else {
                p1
            })
            &&& l2.outgoing[0].fragment.data == (if urgent {
                d2
            } else {
                d1
            })
            &&& l2.outgoing[1].priority == (if urgent {
                p1
            } else {
                p2
            })
            &&& l2.outgoing[1].fragment.data == (if urgent {
                d1
            } else {
                d2
            })
        }),
{
    let l1 = send_result(l, p1, r1, c1, d1);
    lemma_send_frame(l, p1, r1, c1, d1);
    let f1 = stamped_fragment(l, r1, c1, d1);
    let e1 = OutgoingModel { weight: initial_weights()[p1.rank() as int], priority: p1, fragment: f1 };
    assert(l1.outgoing =~= seq![e1]);
    assert(l1.next_weight == initial_weights());
    let f2 = stamped_fragment(l1, r2, c2, d2);
    let w2 = initial_weights()[p2.rank() as int];
    assert(priority_factor_of(p1.rank()) == initial_weights()[p1.rank() as int]);
    assert(wrapping_sub_usize(e1.weight, priority_factor_of(p1.rank())) == 0) by {
        assert(vstd::wrapping::usize_specs::wrapping_sub(e1.weight, e1.weight) == 0);
    }
    assert(next_weight(l1.next_weight, l1.outgoing, p2).0 == w2);
    let e2 = OutgoingModel { weight: w2, priority: p2, fragment: f2 };
    let l2 = send_result(l1, p2, r2, c2, d2);
    assert(l2.outgoing == enqueue(seq![e1], e2));
    if p2.rank() < p1.rank() {
        assert(w2 < e1.weight);
        assert(insert_pos(seq![e1], w2) == 0);
        assert(l2.outgoing =~= seq![e2, e1]);
    } else {
        assert(w2 >= e1.weight);
        assert(seq![e1].drop_first().len() == 0);
        reveal_with_fuel(insert_pos, 2);
        assert(insert_pos(seq![e1], w2) == 1);
        assert(l2.outgoing =~= seq![e1, e2]);
    }
}

/// A sequenced message at the expected ordering index of its channel comes
/// out exactly when its sequence index is not behind the one that channel
/// expects, which then moves past it; the other channels keep their
/// sequence indices, and the ordering state stays as it was.
pub proof fn lemma_sequenced_delivery(l: LayerModel, f: FragmentModel)
    requires
        l.recv_sequence_index.len() == ORDERING_CHANNEL_SIZE,
        f.ordering_info matches Some(oi) && oi.channel < ORDERING_CHANNEL_SIZE && oi.index
            == l.recv_ordering_index[oi.channel as int],
        f.sequence_index is Some,
    ensures
        ({
            let c = f.ordering_info->0.channel as int;
            let si = f.sequence_index->0;
            let fresh = si >= l.recv_sequence_index[c];
            let l2 = deliver(l, f);
            &&& l2.output == (if fresh {
                l.output.push(f.data)
            } else {
                l.output
            })
            &&& l2.recv_sequence_index.len() == ORDERING_CHANNEL_SIZE
            &&& forall|d: int|
                0 <= d < ORDERING_CHANNEL_SIZE && d != c ==> #[trigger] l2.recv_sequence_index[d]
                    == l.recv_sequence_index[d]
            &&& l2.recv_sequence_index[c] == (if fresh {
                vstd::wrapping::u32_specs::wrapping_add(si, 1)
            } else {
                l.recv_sequence_index[c]
            })
            &&& l2.recv_ordering_index == l.recv_ordering_index
            &&& l2.ordered == l.ordered
        }),
{
}

/// The ordering channels are independent: a message on channel `c` leaves
/// the expected ordering and sequence indices and the waiting messages of
/// every other channel as they were. An ordered message at the expected
/// index of its channel restarts that channel's sequence index.
pub proof fn lemma_delivery_per_channel(l: LayerModel, f: FragmentModel)
    requires
        l.ordered.len() == ORDERING_CHANNEL_SIZE,
        l.recv_ordering_index.len() == ORDERING_CHANNEL_SIZE,
        l.recv_sequence_index.len() == ORDERING_CHANNEL_SIZE,
        f.ordering_info matches Some(oi) && oi.channel < ORDERING_CHANNEL_SIZE,
    ensures
        ({
            let oi = f.ordering_info->0;
            let c = oi.channel as int;
            let l2 = deliver(l, f);
            &&& l2.ordered.len() == ORDERING_CHANNEL_SIZE
            &&& l2.recv_ordering_index.len() == ORDERING_CHANNEL_SIZE
            &&& l2.recv_sequence_index.len() == ORDERING_CHANNEL_SIZE
            &&& forall|d: int|
                0 <= d < ORDERING_CHANNEL_SIZE && d != c ==> {
                    &&& #[trigger] l2.recv_ordering_index[d] == l.recv_ordering_index[d]
                    &&& l2.recv_sequence_index[d] == l.recv_sequence_index[d]
                    &&& l2.ordered[d] == l.ordered[d]
                }
            &&& oi.index == l.recv_ordering_index[c] && f.sequence_index is None ==> l2.recv_sequence_index[c] == 0
        }),
{
}

proof fn lemma_flatten_push(s: Seq<Seq<FragmentModel>>, x: Seq<FragmentModel>)
    ensures
        s.push(x).flatten_alt() == s.flatten_alt() + x,
{
    assert(s.push(x).drop_last() =~= s);
}

/// The packets of a packing, read one after the other, hold the fragments
/// of its closed packets and then those of its open one.
proof fn lemma_closed_flat(p: Packing)
    ensures
        closed_packets(p).flatten_alt() == p.packets.flatten_alt() + p.current,
{
    if p.current.len() > 0 {
        lemma_flatten_push(p.packets, p.current);
    } else {
        assert(p.packets.flatten_alt() + p.current =~= p.packets.flatten_alt());
    }
}

/// Placing a fragment adds it after all the fragments already placed.
proof fn lemma_place_appends(p: Packing, f: FragmentModel, max: nat)
    ensures
        closed_packets(place(p, f, max)).flatten_alt() == closed_packets(p).flatten_alt().push(f),
{
    let q = place(p, f, max);
    lemma_closed_flat(p);
    lemma_closed_flat(q);
    if p.current_size + f.full_size() > max {
        lemma_flatten_push(p.packets, p.current);
        assert(q.packets.flatten_alt() + q.current =~= p.packets.flatten_alt() + p.current + seq![f]);
    } else {
        assert(q.packets.flatten_alt() + q.current =~= (p.packets.flatten_alt() + p.current).push(f));
    }
}

proof fn lemma_resends_in_order_from(q: Seq<FragmentModel>, p: Packing, max: nat, bw: nat)
    ensures
        ({
            let (rest, p2) = pack_retransmits(q, p, max, bw);
            closed_packets(p2).flatten_alt() + rest == closed_packets(p).flatten_alt() + q
        }),
    decreases q.len(),
{
    if !(p.total >= bw || q.len() == 0 || p.total + q[0].full_size() > bw) {
        let p1 = place(p, q[0], max);
        lemma_place_appends(p, q[0], max);
        lemma_resends_in_order_from(q.drop_first(), p1, max, bw);
        assert(closed_packets(p).flatten_alt().push(q[0]) + q.drop_first() =~= closed_packets(p).flatten_alt() + q);
    }
}

/// Fragments sent again are taken from the front of their queue in order:
/// the packets gathered, read one after the other, hold exactly the
/// fragments taken, and the queue keeps the rest.
pub proof fn lemma_resends_in_order(q: Seq<FragmentModel>, max: nat, bw: nat)
    ensures
        ({
            let (rest, p) = pack_retransmits(q, empty_packing(), max, bw);
            closed_packets(p).flatten_alt() + rest == q
        }),
{
    lemma_resends_in_order_from(q, empty_packing(), max, bw);
    assert(closed_packets(empty_packing()).flatten_alt() + q =~= q);
}

/// How many of the first `k` queued fragments are reliable.
pub open spec fn reliable_count(o: Seq<OutgoingModel>, k: nat) -> nat
    decreases k,
{
    if k == 0 || o.len() == 0 {
        0
    } else {
        (if o[0].fragment.reliability.spec_is_reliable() {
            1nat
        } else {
            0nat
        }) + reliable_count(o.drop_first(), (k - 1) as nat)
    }
}

/// The `i`-th queued fragment as it is first sent, when the reliable ones
/// are numbered in turn from `ri`: a reliable one takes `ri` plus the
/// number of reliable fragments ahead of it, modulo 2^32.
pub open spec fn first_sent(o: Seq<OutgoingModel>, ri: u32, i: int) -> FragmentModel {
    if o[i].fragment.reliability.spec_is_reliable() {
        FragmentModel {
            reliable_index: Some(((ri + reliable_count(o, i as nat)) % 0x1_0000_0000) as u32),
            ..o[i].fragment
        }
    } else {
        o[i].fragment
    }
}

proof fn lemma_wrapping_step(r: u32, c: nat)
    ensures
        (vstd::wrapping::u32_specs::wrapping_add(r, 1) + c) % 0x1_0000_0000 == (r + 1 + c) % 0x1_0000_0000,
{
    if r == u32::MAX {
        vstd::arithmetic::div_mod::lemma_mod_add_multiples_vanish(c as int, 0x1_0000_0000);
    }
}

#[verifier::spinoff_prover]
proof fn lemma_first_sends_from(o: Seq<OutgoingModel>, p: Packing, ri: u32, max: nat, bw: nat)
    ensures
        ({
            let (rest, p2, ri2) = pack_outgoing(o, p, ri, max, bw);
            let before = closed_packets(p).flatten_alt();
            let sent = closed_packets(p2).flatten_alt();
            let k = sent.len() - before.len();
            &&& before.len() <= sent.len() <= before.len() + o.len()
            &&& sent.subrange(0, before.len() as int) == before
            &&& rest == o.skip(k)
            &&& forall|i: int| 0 <= i < k ==> #[trigger] sent[before.len() + i] == first_sent(o, ri, i)
            &&& ri2 == ((ri + reliable_count(o, k as nat)) % 0x1_0000_0000) as u32
        }),
    decreases o.len(),
{
    let before = closed_packets(p).flatten_alt();
    if p.total >= bw || o.len() == 0 || p.total + o[0].fragment.full_size() > bw {
        assert(before.subrange(0, before.len() as int) =~= before);
        assert(o.skip(0) =~= o);
        vstd::arithmetic::div_mod::lemma_small_mod(ri as nat, 0x1_0000_0000);
    } else {
        let (f, ri1) = stamp_reliable(o[0].fragment, ri);
        let p1 = place(p, f, max);
        let o1 = o.drop_first();
        lemma_place_appends(p, f, max);
        lemma_first_sends_from(o1, p1, ri1, max, bw);
        let (rest, p2, ri2) = pack_outgoing(o1, p1, ri1, max, bw);
        let mid = closed_packets(p1).flatten_alt();
        let sent = closed_packets(p2).flatten_alt();
        let k1 = sent.len() - mid.len();
        assert(mid == before.push(f));
        assert(sent.subrange(0, before.len() as int) =~= before) by {
            assert(sent.subrange(0, mid.len() as int) == mid);
            assert forall|j: int| 0 <= j < before.len() implies sent[j] == before[j] by {
                assert(sent.subrange(0, mid.len() as int)[j] == sent[j]);
            }
        }
        assert(o1.skip(k1) =~= o.skip(k1 + 1));
        let rel = o[0].fragment.reliability.spec_is_reliable();
        assert forall|c: nat| #![trigger reliable_count(o, c + 1)]
            (ri1 + reliable_count(o1, c)) % 0x1_0000_0000 == (ri + reliable_count(o, c + 1)) % 0x1_0000_0000 by {
            assert(reliable_count(o, c + 1) == (if rel {
                1nat
            } else {
                0nat
            }) + reliable_count(o1, c));
            if rel {
                lemma_wrapping_step(ri, reliable_count(o1, c));
            }
        }
        assert(reliable_count(o, 0) == 0);
        vstd::arithmetic::div_mod::lemma_small_mod(ri as nat, 0x1_0000_0000);
        assert(sent[before.len() as int] == first_sent(o, ri, 0)) by {
            assert(sent.subrange(0, mid.len() as int)[before.len() as int] == sent[before.len() as int]);
        }
        assert forall|i: int| 0 <= i < k1 + 1 implies #[trigger] sent[before.len() + i] == first_sent(o, ri, i) by {
            if i > 0 {
                assert(sent[mid.len() + (i - 1)] == first_sent(o1, ri1, i - 1));
                assert(o1[i - 1] == o[i]);
                assert(reliable_count(o, ((i - 1) as nat) + 1) == reliable_count(o, i as nat));
            }
        }
        assert(reliable_count(o, (k1 as nat) + 1) == reliable_count(o, (k1 + 1) as nat));
    }
}

/// New fragments are taken from the front of the outgoing queue in order:
/// the packets gathered, read one after the other, hold the first `k`
/// queued fragments, the queue keeps the rest, and the reliable ones among
/// them are numbered in turn from the next reliable index, which moves past
/// the last one.
pub proof fn lemma_first_sends_in_order(o: Seq<OutgoingModel>, ri: u32, max: nat, bw: nat)
    ensures
        ({
            let (rest, p, ri2) = pack_outgoing(o, empty_packing(), ri, max, bw);
            let sent = closed_packets(p).flatten_alt();
            &&& sent.len() <= o.len()
            &&& rest == o.skip(sent.len() as int)
            &&& forall|i: int| 0 <= i < sent.len() ==> #[trigger] sent[i] == first_sent(o, ri, i)
            &&& ri2 == ((ri + reliable_count(o, sent.len())) % 0x1_0000_0000) as u32
        }),
{
    lemma_first_sends_from(o, empty_packing(), ri, max, bw);
    let (rest, p, ri2) = pack_outgoing(o, empty_packing(), ri, max, bw);
    let sent = closed_packets(p).flatten_alt();
    assert(closed_packets(empty_packing()).flatten_alt().len() == 0);
    assert forall|i: int| 0 <= i < sent.len() implies #[trigger] sent[i] == first_sent(o, ri, i) by {
        assert(sent[0int + i] == first_sent(o, ri, i));
    }
}

proof fn lemma_fold_keeps_acks(l: LayerModel, fs: Seq<FragmentModel>, i: nat)
    ensures
        fragments_fold(l, fs, i).0.acks == l.acks,
        fragments_fold(l, fs, i).0.naks == l.naks,
    decreases i,
{
    if i > 0 {
        lemma_fold_keeps_acks(l, fs, (i - 1) as nat);
        let l1 = fragments_fold(l, fs, (i - 1) as nat).0;
        let f = fs[i - 1];
        if f.split_info is Some {
            let l2 = match f.reliable_index {
                None => l1,
                Some(ri) => LayerModel {
                    reliable_window: shifted(
                        inserted(l1.reliable_window, ri, (), RELIABLE_WINDOW_SIZE as nat),
                        RELIABLE_WINDOW_SIZE as nat,
                    ),
                    ..l1
                },
            };
            let (l3, whole) = assemble(l2, f);
            assert(l3.acks == l1.acks && l3.naks == l1.naks);
        }
    }
}

/// Every packet within the window of packet numbers is acknowledged, a
/// repeated one too, and its number is added after those already waiting
/// to be acknowledged; the numbers waiting for a negative acknowledgement
/// stay, followed by any found missing. A packet beyond the window is
/// refused and changes nothing.
pub proof fn lemma_packet_acked(
    l: LayerModel,
    now: u64,
    needs_arrival_rate: bool,
    seq: u32,
    fs: Seq<FragmentModel>,
    rto: u64,
    size: usize,
    is_continuous_send: bool,
)
    requires
        l.seq_window.start + SEQ_WINDOW_SIZE <= u32::MAX,
    ensures
        ({
            let (l2, fault) = packet_result(l, now, needs_arrival_rate, seq, fs, rto, size, is_continuous_send);
            if seq >= l.seq_window.start + SEQ_WINDOW_SIZE {
                l2 == l && fault == Some(FragmentFault::Overflow)
            } else {
                &&& l2.acks == l.acks.push(seq)
                &&& l2.naks.subrange(0, l.naks.len() as int) == l.naks
            }
        }),
{
    let n = SEQ_WINDOW_SIZE as nat;
    if seq < l.seq_window.start + SEQ_WINDOW_SIZE {
        let w1 = inserted(l.seq_window, seq, now, n);
        let w2 = shifted(w1, n);
        let (w3, missing) = if shift_count(w1, n) == 0 {
            collected(w2, now, rto, n)
        } else {
            (w2, Seq::empty())
        };
        let l1 = LayerModel {
            seq_window: w3,
            naks: l.naks + missing,
            needs_arrival_rate,
            acks: l.acks.push(seq),
            events: l.events.push(ControllerEvent::PacketReceived { now, size, is_continuous_send }),
            ..l
        };
        lemma_fold_keeps_acks(l1, fs, fs.len());
        assert((l.naks + missing).subrange(0, l.naks.len() as int) =~= l.naks);
    }
}

/// A turn of `update` writes out what the peer is owed: when an
/// acknowledgement is due, every packet number waiting for one goes out in
/// a first datagram and none is left waiting; the numbers waiting for a
/// negative acknowledgement go out next and none is left waiting. A
/// connection declared dead stays dead; one that awaits acknowledgements
/// and heard nothing for longer than its timeout is declared dead; one
/// that awaits nothing is not.
pub proof fn lemma_update_flushes(l: LayerModel, now: u64, a: ControllerAnswers)
    ensures
        ({
            let (l2, d, _) = update_result(l, now, a);
            let acked = a.send_ack && l.acks.len() > 0;
            &&& l2.acks == (if a.send_ack {
                Seq::<u32>::empty()
            } else {
                l.acks
            })
            &&& l2.naks.len() == 0
            &&& acked ==> d[0] == ser_datagram(
                normalized(DatagramModel::Ack { arrival_rate: a.arrival_rate, seqs: l.acks }),
            )
            &&& l.naks.len() > 0 ==> d[if acked {
                1int
            } else {
                0int
            }] == ser_datagram(normalized(DatagramModel::Nak { seqs: l.naks }))
            &&& l.is_dead ==> l2.is_dead
            &&& cache_busy(l.cache) && now - l.time_last_datagram_recved > l.timeout ==> l2.is_dead
            &&& !l.is_dead && !cache_busy(l.cache) ==> !l2.is_dead
        }),
{
    reveal(update_tail);
    let (l3, d) = update_head(l, now, a);
    let l4 = LayerModel {
        bandwidth_exceeded: l.outgoing.len() > 0,
        events: l3.events.push(ControllerEvent::SlowStartAsked { slow_start: a.slow_start }),
        ..l3
    };
    let (l5, d2, failed) = update_tail(
        l4,
        now,
        (now - l.last_update) as u64,
        l.bandwidth_exceeded,
        a.slow_start,
        a.bandwidth,
        a.rto,
        a.seqs,
    );
    assert(l5.acks == l4.acks && l5.naks == l4.naks && l5.is_dead == l4.is_dead);
    if a.send_ack && l.acks.len() > 0 {
        assert(d[0] == ser_datagram(normalized(DatagramModel::Ack { arrival_rate: a.arrival_rate, seqs: l.acks })));
        assert((d + d2)[0] == d[0]);
        if l.naks.len() > 0 {
            assert((d + d2)[1] == d[1]);
        }
    } else {
        if l.naks.len() > 0 {
            assert((d + d2)[0] == d[0]);
        }
    }
}

} // verus!
