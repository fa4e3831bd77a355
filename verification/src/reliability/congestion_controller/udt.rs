//! The integer rules of the UDT congestion controller: the window of slow
//! start, when acknowledgements are due, the retransmission timeout, which
//! way a loss moves the controller, and, past slow start, whether the round
//! trips of a block of packets call for a longer or a shorter time between
//! sends. The time between sends itself, and the arrival rates it is drawn
//! from, are kept outside, in floating point; the rules here name the
//! change to make.
use std::collections::VecDeque;

use vstd::prelude::*;

use crate::reliability::congestion_controller::sliding_window::SYN;

verus! {

/// The smallest window of slow start, in datagrams.
pub const MIN_CWND: usize = 2;

/// The largest window of slow start, in datagrams.
pub const MAX_CWND: usize = 512;

/// The number of round trips a block of packets is judged on.
pub const INTERVAL_SIZE: usize = 33;

/// What the round trips of a block call for.
#[derive(Debug, Clone, Copy, PartialEq, Eq, Structural)]
pub enum RateStep {
    /// Nothing changes.
    Keep,
    /// The time between sends grows: round trips are rising.
    Increase,
    /// The time between sends shrinks: round trips are steady.
    Decrease,
}

/// What a lost packet calls for.
#[derive(Debug, Clone, Copy, PartialEq, Eq, Structural)]
pub enum LossStep {
    /// Nothing changes.
    Keep,
    /// Slow start ends; the time between sends comes from the arrival rate.
    EndSlowStart,
    /// The time between sends grows, once for this block.
    Increase,
}

/// The mathematical value of the integer state.
pub struct UdtModel {
    pub cwnd: nat,
    pub mtu: nat,
    pub next_seq: u32,
    pub pings: Seq<u64>,
    pub last_rtt: u64,
    pub oldest_unsent_ack: u64,
    pub next_block: u32,
    pub loss_this_block: bool,
    pub slow_start: bool,
}

/// The integer state of the UDT controller.
#[derive(Debug)]
pub struct UdtCore {
    cwnd: usize,
    mtu_size_excluding_header: usize,
    next_seq: u32,
    pings_last_interval: VecDeque<u64>,
    last_rtt_on_increase_send_rate: u64,
    oldest_unsent_ack: u64,
    next_congestion_control_block: u32,
    had_packet_loss_this_block: bool,
    is_in_slow_start: bool,
}

impl View for UdtCore {
    type V = UdtModel;

    closed spec fn view(&self) -> UdtModel {
        UdtModel {
            cwnd: self.cwnd as nat,
            mtu: self.mtu_size_excluding_header as nat,
            next_seq: self.next_seq,
            pings: self.pings_last_interval@,
            last_rtt: self.last_rtt_on_increase_send_rate,
            oldest_unsent_ack: self.oldest_unsent_ack,
            next_block: self.next_congestion_control_block,
            loss_this_block: self.had_packet_loss_this_block,
            slow_start: self.is_in_slow_start,
        }
    }
}

/// The sum of the round trips.
pub open spec fn sum_u64(s: Seq<u64>) -> int
    decreases s.len(),
{
    if s.len() == 0 {
        0
    } else {
        sum_u64(s.drop_last()) + s.last()
    }
}

/// The round trips never fall from one to the next.
pub open spec fn non_decreasing(s: Seq<u64>) -> bool {
    forall|i: int| 1 <= i < s.len() ==> s[i - 1] <= #[trigger] s[i]
}

/// The window of slow start after `total_bytes_acked` bytes were
/// acknowledged: that many datagrams, at least `MIN_CWND` and at most
/// `MAX_CWND`.
pub open spec fn slow_start_cwnd(total_bytes_acked: nat, mtu: nat) -> nat {
    let w = total_bytes_acked / mtu;
    if w < MIN_CWND {
        MIN_CWND as nat
    } else if w > MAX_CWND {
        MAX_CWND as nat
    } else {
        w
    }
}

/// The round trips kept once `rtt` joins them: the last `INTERVAL_SIZE`.
pub open spec fn pings_with(pings: Seq<u64>, rtt: u64) -> Seq<u64> {
    let p = pings.push(rtt);
    if p.len() > INTERVAL_SIZE {
        p.drop_first()
    } else {
        p
    }
}

/// A block is judged: sending is continuous, packet `seq` lies at least
/// `INTERVAL_SIZE` past the start of the block, and a full interval of
/// round trips is at hand.
pub open spec fn block_due(m: UdtModel, rtt: u64, seq: u32, is_continuous_send: bool) -> bool {
    &&& is_continuous_send
    &&& seq > m.next_block
    &&& seq - m.next_block >= INTERVAL_SIZE
    &&& pings_with(m.pings, rtt).len() == INTERVAL_SIZE
}

/// What a judged block calls for: the rise of the round trips over the
/// interval (its slope, the last minus the first) against a tenth of their
/// average.
pub open spec fn block_step(p: Seq<u64>) -> RateStep {
    let slope = p.last() - p[0];
    let average = sum_u64(p) / (p.len() as int);
    if slope > average / 10 {
        RateStep::Increase
    } else {
        RateStep::Decrease
    }
}

/// The state and the step after an acknowledgement past slow start, with
/// round trip `rtt`, of packet `seq`. Sending that is not continuous starts
/// a new block at the next packet number and forgets the round trips.
/// Otherwise the round trip is kept; a judged block names the step, takes
/// `rtt` as the round trip of the last change when it shrinks the time
/// between sends, forgets the round trips and its losses, and starts the
/// next block at `seq`.
pub open spec fn syn_result(m: UdtModel, rtt: u64, seq: u32, is_continuous_send: bool) -> (UdtModel, RateStep) {
    if !is_continuous_send {
        (UdtModel { next_block: m.next_seq, pings: Seq::empty(), ..m }, RateStep::Keep)
    } else {
        let p = pings_with(m.pings, rtt);
        if block_due(m, rtt, seq, is_continuous_send) {
            let step = block_step(p);
            (
                UdtModel {
                    last_rtt: if step == RateStep::Decrease {
                        rtt
                    } else {
                        m.last_rtt
                    },
                    pings: Seq::empty(),
                    loss_this_block: false,
                    next_block: seq,
                    ..m
                },
                step,
            )
        } else {
            (UdtModel { pings: p, ..m }, RateStep::Keep)
        }
    }
}

/// The sums over a judged block stay within 64 bits: the round trips never
/// fall and add up to at most `u64::MAX`. Outside these, the unsigned sums
/// of the block overflow.
pub open spec fn block_sums_fit(m: UdtModel, rtt: u64, seq: u32, is_continuous_send: bool) -> bool {
    block_due(m, rtt, seq, is_continuous_send) ==> {
        let p = pings_with(m.pings, rtt);
        non_decreasing(p) && sum_u64(p) <= u64::MAX
    }
}

/// The state and the step after a resend or a negative acknowledgement: in
/// slow start with an arrival rate known, slow start ends; else, the first
/// loss of a block makes the time between sends grow; later ones change
/// nothing.
pub open spec fn loss_result(m: UdtModel, has_arrival_rate: bool) -> (UdtModel, LossStep) {
    if m.slow_start && has_arrival_rate {
        (UdtModel { slow_start: false, ..m }, LossStep::EndSlowStart)
    } else if !m.loss_this_block {
        (UdtModel { loss_this_block: true, ..m }, LossStep::Increase)
    } else {
        (m, LossStep::Keep)
    }
}

/// The window of slow start stays between `MIN_CWND` and `MAX_CWND`
/// datagrams and never shrinks as more bytes are acknowledged.
pub proof fn lemma_slow_start_window(acked: nat, more: nat, mtu: nat)
    requires
        mtu > 0,
        acked <= more,
    ensures
        MIN_CWND <= slow_start_cwnd(acked, mtu) <= MAX_CWND,
        slow_start_cwnd(acked, mtu) <= slow_start_cwnd(more, mtu),
{
    vstd::arithmetic::div_mod::lemma_div_is_ordered(acked as int, more as int, mtu as int);
}

/// The round trips kept are the last `INTERVAL_SIZE` at most, the newest
/// last.
pub proof fn lemma_pings_kept(pings: Seq<u64>, rtt: u64)
    requires
        pings.len() <= INTERVAL_SIZE,
    ensures
        pings_with(pings, rtt).len() <= INTERVAL_SIZE,
        pings_with(pings, rtt).last() == rtt,
        pings.len() < INTERVAL_SIZE ==> pings_with(pings, rtt) == pings.push(rtt),
        pings.len() == INTERVAL_SIZE ==> pings_with(pings, rtt) == pings.drop_first().push(rtt),
{
    if pings.len() == INTERVAL_SIZE {
        assert(pings.push(rtt).drop_first() =~= pings.drop_first().push(rtt));
    }
}

proof fn lemma_sum_nonneg(s: Seq<u64>)
    ensures
        sum_u64(s) >= 0,
    decreases s.len(),
{
    if s.len() > 0 {
        lemma_sum_nonneg(s.drop_last());
    }
}

/// A judged block whose round trips end no higher than they began calls
/// for a shorter time between sends; one whose round trips rise by more
/// than a tenth of their average calls for a longer one.
pub proof fn lemma_block_direction(p: Seq<u64>)
    requires
        p.len() > 0,
    ensures
        p.last() <= p[0] ==> block_step(p) == RateStep::Decrease,
        p.last() - p[0] > sum_u64(p) / (p.len() as int) / 10 ==> block_step(p) == RateStep::Increase,
{
    lemma_sum_nonneg(p);
    vstd::arithmetic::div_mod::lemma_div_pos_is_pos(sum_u64(p), p.len() as int);
    vstd::arithmetic::div_mod::lemma_div_pos_is_pos(sum_u64(p) / (p.len() as int), 10);
}

/// Past slow start, losses slow the sending down at most once per block: a
/// second loss in the same block changes nothing, and once a block is
/// judged (see `syn_result`), the next loss slows it down again.
pub proof fn lemma_loss_once_per_block(m: UdtModel, r1: bool, r2: bool, rtt: u64, seq: u32)
    requires
        !m.slow_start,
    ensures
        loss_result(m, r1).1 != LossStep::EndSlowStart,
        loss_result(loss_result(m, r1).0, r2) == (loss_result(m, r1).0, LossStep::Keep),
        block_due(loss_result(m, r1).0, rtt, seq, true) ==> loss_result(
            syn_result(loss_result(m, r1).0, rtt, seq, true).0,
            r2,
        ).1 == LossStep::Increase,
{
}

impl UdtCore {
    /// The datagram size is positive, the window stays within its bounds and
    /// at most a full interval of round trips is kept.
    pub closed spec fn wf(&self) -> bool {
        &&& self.mtu_size_excluding_header > 0
        &&& self.cwnd <= MAX_CWND
        &&& self.pings_last_interval@.len() <= INTERVAL_SIZE
    }

    /// A controller in slow start with the smallest window, a round trip of
    /// a second, and no packet numbered yet.
    pub fn new(mtu_size_excluding_header: usize) -> (c: Self)
        requires
            mtu_size_excluding_header > 0,
        ensures
            c.wf(),
            c@ == (UdtModel {
                cwnd: MIN_CWND as nat,
                mtu: mtu_size_excluding_header as nat,
                next_seq: 0,
                pings: Seq::empty(),
                last_rtt: 1000,
                oldest_unsent_ack: 0,
                next_block: 0,
                loss_this_block: false,
                slow_start: true,
            }),
    {
        UdtCore {
            cwnd: MIN_CWND,
            mtu_size_excluding_header,
            next_seq: 0,
            pings_last_interval: VecDeque::new(),
            last_rtt_on_increase_send_rate: 1000,
            oldest_unsent_ack: 0,
            next_congestion_control_block: 0,
            had_packet_loss_this_block: false,
            is_in_slow_start: true,
        }
    }

    /// Whether acknowledgements are due: the oldest one waiting is `SYN`
    /// milliseconds old, or the next turn, `time_since_last_update` from
    /// now, would come before it is.
    pub fn should_send_ack(&self, now: u64, time_since_last_update: u64) -> (b: bool)
        requires
            now >= self@.oldest_unsent_ack,
            now - self@.oldest_unsent_ack < SYN ==> now + time_since_last_update <= u64::MAX
                && self@.oldest_unsent_ack + SYN <= u64::MAX,
        ensures
            b == (now - self@.oldest_unsent_ack >= SYN || now + time_since_last_update < self@.oldest_unsent_ack
                + SYN),
    {
        now - self.oldest_unsent_ack >= SYN || now + time_since_last_update < self.oldest_unsent_ack + SYN
    }

    /// Whether `should_send_ack` can be asked at `now` without its sums
    /// leaving 64 bits.
    pub fn ack_check_fits(&self, now: u64, time_since_last_update: u64) -> (b: bool)
        ensures
            b == (now >= self@.oldest_unsent_ack && (now - self@.oldest_unsent_ack < SYN ==> now
                + time_since_last_update <= u64::MAX && self@.oldest_unsent_ack + SYN <= u64::MAX)),
    {
        now >= self.oldest_unsent_ack && (now - self.oldest_unsent_ack >= SYN || (time_since_last_update
            <= u64::MAX - now && self.oldest_unsent_ack <= u64::MAX - SYN))
    }

    pub fn is_in_slow_start(&self) -> (b: bool)
        ensures
            b == self@.slow_start,
    {
        self.is_in_slow_start
    }

    /// Hands out the next packet number.
    pub fn get_seq_and_increment(&mut self) -> (seq: u32)
        requires
            old(self).wf(),
            old(self)@.next_seq < u32::MAX,
        ensures
            final(self).wf(),
            seq == old(self)@.next_seq,
            final(self)@ == (UdtModel { next_seq: (seq + 1) as u32, ..old(self)@ }),
    {
        let current = self.next_seq;
        self.next_seq = self.next_seq + 1;
        current
    }

    /// Whether another packet number can be handed out.
    pub fn has_next_seq(&self) -> (b: bool)
        ensures
            b == (self@.next_seq < u32::MAX),
    {
        self.next_seq < u32::MAX
    }

    /// The bytes slow start allows: the window of datagrams.
    pub fn window_bytes(&self) -> (bw: usize)
        requires
            self.wf(),
            self@.cwnd * self@.mtu <= usize::MAX,
        ensures
            bw == self@.cwnd * self@.mtu,
    {
        self.cwnd * self.mtu_size_excluding_header
    }

    /// Whether the window of slow start, in bytes, fits a `usize`.
    pub fn window_bytes_fit(&self) -> (b: bool)
        requires
            self.wf(),
        ensures
            b == (self@.cwnd * self@.mtu <= usize::MAX),
    {
        if self.cwnd == 0 {
            true
        } else {
            let c = self.cwnd;
            let m = self.mtu_size_excluding_header;
            assert((m <= usize::MAX / c) == (c * m <= usize::MAX)) by (nonlinear_arith)
                requires
                    c > 0,
            ;
            m <= usize::MAX / c
        }
    }

    /// The retransmission timeout: twice the round trip of the last change
    /// of rate, at least 100 and at most 10000 milliseconds.
    pub fn get_rto(&self) -> (r: u64)
        requires
            self@.last_rtt * 2 <= u64::MAX,
        ensures
            r == (if self@.last_rtt * 2 < 100 {
                100
            } else if self@.last_rtt * 2 > 10000 {
                10000
            } else {
                self@.last_rtt * 2
            }),
    {
        let r = self.last_rtt_on_increase_send_rate * 2;
        if r < 100 {
            100
        } else if r > 10000 {
            10000
        } else {
            r
        }
    }

    /// Whether `get_rto` can double the round trip within 64 bits.
    pub fn rto_fits(&self) -> (b: bool)
        ensures
            b == (self@.last_rtt * 2 <= u64::MAX),
    {
        self.last_rtt_on_increase_send_rate <= u64::MAX / 2
    }

    /// What a resend or a negative acknowledgement calls for: in slow start
    /// with an arrival rate known, slow start ends; else, once per block,
    /// the time between sends grows.
    pub fn on_loss(&mut self, has_arrival_rate: bool) -> (r: LossStep)
        requires
            old(self).wf(),
        ensures
            final(self).wf(),
            (final(self)@, r) == loss_result(old(self)@, has_arrival_rate),
    {
        if self.is_in_slow_start && has_arrival_rate {
            self.is_in_slow_start = false;
            LossStep::EndSlowStart
        } else if !self.had_packet_loss_this_block {
            self.had_packet_loss_this_block = true;
            LossStep::Increase
        } else {
            LossStep::Keep
        }
    }

    /// Notes that an acknowledgement arrived at `now`: the first one since
    /// acknowledgements last went out starts the wait.
    pub fn note_ack(&mut self, now: u64)
        requires
            old(self).wf(),
        ensures
            final(self).wf(),
            final(self)@ == (if old(self)@.oldest_unsent_ack == 0 {
                UdtModel { oldest_unsent_ack: now, ..old(self)@ }
            } else {
                old(self)@
            }),
    {
        if self.oldest_unsent_ack == 0 {
            self.oldest_unsent_ack = now;
        }
    }

    /// Acknowledgements went out: nothing waits any more.
    pub fn acks_sent(&mut self)
        requires
            old(self).wf(),
        ensures
            final(self).wf(),
            final(self)@ == (UdtModel { oldest_unsent_ack: 0, ..old(self)@ }),
    {
        self.oldest_unsent_ack = 0;
    }

    /// Slow start ends.
    pub fn end_slow_start(&mut self)
        requires
            old(self).wf(),
        ensures
            final(self).wf(),
            final(self)@ == (UdtModel { slow_start: false, ..old(self)@ }),
    {
        self.is_in_slow_start = false;
    }

    /// The window of slow start after `total_bytes_acked` bytes were
    /// acknowledged (see `slow_start_cwnd`); tells whether the acknowledged
    /// datagrams went past `MAX_CWND`, where slow start may end.
    pub fn slow_start_window(&mut self, total_bytes_acked: usize) -> (reached_max: bool)
        requires
            old(self).wf(),
        ensures
            final(self).wf(),
            final(self)@ == (UdtModel {
                cwnd: slow_start_cwnd(total_bytes_acked as nat, old(self)@.mtu),
                ..old(self)@
            }),
            reached_max <==> total_bytes_acked as nat / old(self)@.mtu > MAX_CWND,
    {
        let w = total_bytes_acked / self.mtu_size_excluding_header;
        if w < MIN_CWND {
            self.cwnd = MIN_CWND;
            false
        } else if w > MAX_CWND {
            self.cwnd = MAX_CWND;
            true
        } else {
            self.cwnd = w;
            false
        }
    }

    /// An acknowledgement in slow start, with round trip `rtt`, of packet
    /// `seq`: the block starts at `seq`, the round trip is kept as that of
    /// the last change, and the window follows the acknowledged bytes (see
    /// `slow_start_window`).
    pub fn slow_start_ack(&mut self, rtt: u64, seq: u32, total_bytes_acked: usize) -> (reached_max: bool)
        requires
            old(self).wf(),
        ensures
            final(self).wf(),
            final(self)@ == (UdtModel {
                cwnd: slow_start_cwnd(total_bytes_acked as nat, old(self)@.mtu),
                next_block: seq,
                last_rtt: rtt,
                ..old(self)@
            }),
            reached_max <==> total_bytes_acked as nat / old(self)@.mtu > MAX_CWND,
    {
        self.next_congestion_control_block = seq;
        self.last_rtt_on_increase_send_rate = rtt;
        self.slow_start_window(total_bytes_acked)
    }

    /// An acknowledgement past slow start, with round trip `rtt`, of packet
    /// `seq` (see `syn_result`). Hands back the change of the time between
    /// sends that it calls for.
    #[verifier::spinoff_prover]
    #[verifier::rlimit(40)]
    pub fn syn_step(&mut self, rtt: u64, seq: u32, is_continuous_send: bool) -> (r: RateStep)
        requires
            old(self).wf(),
            block_sums_fit(old(self)@, rtt, seq, is_continuous_send),
        ensures
            final(self).wf(),
            (final(self)@, r) == syn_result(old(self)@, rtt, seq, is_continuous_send),
    {
        let ghost m = self@;
        if !is_continuous_send {
            self.next_congestion_control_block = self.next_seq;
            self.pings_last_interval.clear();
            assert(self@ =~= syn_result(m, rtt, seq, is_continuous_send).0);
            return RateStep::Keep;
        }
        self.pings_last_interval.push_back(rtt);
        if self.pings_last_interval.len() > INTERVAL_SIZE {
            let _ = self.pings_last_interval.pop_front();
        }
        let ghost p = self.pings_last_interval@;
        assert(p =~= pings_with(m.pings, rtt));
        if seq > self.next_congestion_control_block && seq - self.next_congestion_control_block
            >= INTERVAL_SIZE as u32 && self.pings_last_interval.len() == INTERVAL_SIZE {
            let size = self.pings_last_interval.len();
            let mut slope_sum: u64 = 0;
            let mut average: u64 = self.pings_last_interval[0];
            let mut i: usize = 1;
            proof {
                lemma_sum_prefix(p, 1);
            }
            while i < size
                invariant
                    p == self.pings_last_interval@,
                    size == p.len(),
                    size == INTERVAL_SIZE,
                    1 <= i <= size,
                    non_decreasing(p),
                    sum_u64(p) <= u64::MAX,
                    slope_sum == p[i - 1] - p[0],
                    average == sum_u64(p.take(i as int)),
                decreases size - i,
            {
                proof {
                    lemma_sum_prefix(p, i as nat + 1);
                    lemma_sum_take_le(p, i as nat + 1);
                }
                slope_sum = slope_sum + (self.pings_last_interval[i] - self.pings_last_interval[i - 1]);
                average = average + self.pings_last_interval[i];
                i = i + 1;
            }
            assert(p.take(size as int) =~= p);
            average = average / size as u64;
            let step = if slope_sum > average / 10 {
                RateStep::Increase
            } else {
                self.last_rtt_on_increase_send_rate = rtt;
                RateStep::Decrease
            };
            self.pings_last_interval.clear();
            self.had_packet_loss_this_block = false;
            self.next_congestion_control_block = seq;
            assert(self@ =~= syn_result(m, rtt, seq, is_continuous_send).0);
            step
        } else {
            assert(self@ =~= syn_result(m, rtt, seq, is_continuous_send).0);
            RateStep::Keep
        }
    }

    /// Whether `syn_step` can judge a block within 64 bits (see
    /// `block_sums_fit`).
    pub fn syn_step_fits(&self, rtt: u64, seq: u32, is_continuous_send: bool) -> (b: bool)
        requires
            self.wf(),
        ensures
            b == block_sums_fit(self@, rtt, seq, is_continuous_send),
    {
        let ghost m = self@;
        let ghost p = pings_with(m.pings, rtt);
        let len = self.pings_last_interval.len();
        let new_len = if len + 1 > INTERVAL_SIZE {
            INTERVAL_SIZE
        } else {
            len + 1
        };
        if !(is_continuous_send && seq > self.next_congestion_control_block && seq
            - self.next_congestion_control_block >= INTERVAL_SIZE as u32 && new_len == INTERVAL_SIZE) {
            return true;
        }
        assert(p.len() == INTERVAL_SIZE);
        assert(block_due(m, rtt, seq, is_continuous_send));
        let skip: usize = if len + 1 > INTERVAL_SIZE {
            1
        } else {
            0
        };
        let mut i: usize = 0;
        let mut sum: u64 = 0;
        let mut prev: u64 = 0;
        while i < INTERVAL_SIZE
            invariant
                p == pings_with(m.pings, rtt),
                m == self@,
                p.len() == INTERVAL_SIZE,
                len == m.pings.len(),
                skip == (if len + 1 > INTERVAL_SIZE {
                    1usize
                } else {
                    0usize
                }),
                i <= INTERVAL_SIZE,
                forall|j: int| 1 <= j < i ==> p[j - 1] <= #[trigger] p[j],
                sum == sum_u64(p.take(i as int)),
                i > 0 ==> prev == p[i - 1],
                block_due(m, rtt, seq, is_continuous_send),
            decreases INTERVAL_SIZE - i,
        {
            let k = i + skip;
            let x = if k < len {
                self.pings_last_interval[k]
            } else {
                rtt
            };
            assert(x == p[i as int]);
            if i > 0 && x < prev {
                assert(!non_decreasing(p)) by {
                    assert(p[i - 1] > p[i as int]);
                }
                return false;
            }
            proof {
                lemma_sum_prefix(p, i as nat + 1);
            }
            if x > u64::MAX - sum {
                proof {
                    lemma_sum_take_mono(p, i as nat + 1, INTERVAL_SIZE as nat);
                    assert(p.take(INTERVAL_SIZE as int) =~= p);
                    assert(sum_u64(p) > u64::MAX);
                }
                return false;
            }
            sum = sum + x;
            prev = x;
            i = i + 1;
        }
        assert(p.take(INTERVAL_SIZE as int) =~= p);
        assert(non_decreasing(p));
        true
    }
}

/// The sum over the first `k` round trips is that over the first `k - 1`
/// plus the `k`-th.
proof fn lemma_sum_prefix(p: Seq<u64>, k: nat)
    requires
        1 <= k <= p.len(),
    ensures
        sum_u64(p.take(k as int)) == sum_u64(p.take(k - 1)) + p[k - 1],
{
    assert(p.take(k as int).drop_last() =~= p.take(k - 1));
}

/// The sum over a prefix grows with the prefix.
proof fn lemma_sum_take_mono(p: Seq<u64>, i: nat, j: nat)
    requires
        i <= j <= p.len(),
    ensures
        sum_u64(p.take(i as int)) <= sum_u64(p.take(j as int)),
    decreases j - i,
{
    if i < j {
        lemma_sum_take_mono(p, i, (j - 1) as nat);
        lemma_sum_prefix(p, j);
    }
}

/// The sum over a prefix is at most the whole sum.
proof fn lemma_sum_take_le(p: Seq<u64>, k: nat)
    requires
        k <= p.len(),
    ensures
        sum_u64(p.take(k as int)) <= sum_u64(p),
{
    lemma_sum_take_mono(p, k, p.len());
    assert(p.take(p.len() as int) =~= p);
}

} // verus!
