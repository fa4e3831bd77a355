//! The window-based congestion control rules: a congestion window that
//! grows by one datagram per acknowledgement in slow start and is cut on
//! loss, at most once per block of packets. The round-trip time estimate
//! that fixes the retransmission timeout is kept outside, in floating
//! point.
use vstd::prelude::*;

verus! {

/// Milliseconds an acknowledgement may wait.
pub const SYN: u64 = 10;

/// Upper bound of the retransmission timeout, in milliseconds.
pub const MAX_RTO: u64 = 2000;

/// The mathematical value of the window state.
pub struct SlidingWindowModel {
    pub cwnd: nat,
    pub ss_thresh: nat,
    pub mtu: nat,
    pub next_seq: u32,
    pub last_rtt: u64,
    pub oldest_unsent_ack: u64,
    pub next_congestion_control_block: u32,
    pub backoff_this_block: bool,
    pub speedup_this_block: bool,
    pub is_continuous_send: bool,
}

/// The integer state of the window-based controller.
#[derive(Debug)]
pub struct SlidingWindowCore {
    cwnd: usize,
    ss_thresh: usize,
    mtu_size_excluding_header: usize,
    next_seq: u32,
    last_rtt: u64,
    oldest_unsent_ack: u64,
    next_congestion_control_block: u32,
    backoff_this_block: bool,
    speedup_this_block: bool,
    is_continuous_send: bool,
}

impl View for SlidingWindowCore {
    type V = SlidingWindowModel;

    closed spec fn view(&self) -> SlidingWindowModel {
        SlidingWindowModel {
            cwnd: self.cwnd as nat,
            ss_thresh: self.ss_thresh as nat,
            mtu: self.mtu_size_excluding_header as nat,
            next_seq: self.next_seq,
            last_rtt: self.last_rtt,
            oldest_unsent_ack: self.oldest_unsent_ack,
            next_congestion_control_block: self.next_congestion_control_block,
            backoff_this_block: self.backoff_this_block,
            speedup_this_block: self.speedup_this_block,
            is_continuous_send: self.is_continuous_send,
        }
    }
}

impl SlidingWindowModel {
    pub open spec fn in_slow_start(self) -> bool {
        self.cwnd <= self.ss_thresh || self.ss_thresh == 0
    }

    /// The window after an acknowledgement of packet `seq`.
    pub open spec fn after_ack(self, rtt: u64, seq: u32, is_continuous_send: bool) -> SlidingWindowModel {
        let base = SlidingWindowModel { last_rtt: rtt, is_continuous_send, ..self };
        if !is_continuous_send {
            base
        } else {
            let new_period = seq > self.next_congestion_control_block;
            let s = if new_period {
                SlidingWindowModel {
                    backoff_this_block: false,
                    speedup_this_block: true,
                    next_congestion_control_block: self.next_seq,
                    ..base
                }
            } else {
                base
            };
            if s.in_slow_start() {
                let grown = s.cwnd + s.mtu;
                let cwnd = if grown > s.ss_thresh && s.ss_thresh != 0 {
                    s.ss_thresh + (s.mtu * s.mtu) / grown
                } else {
                    grown
                };
                SlidingWindowModel { cwnd, ..s }
            } else if new_period {
                SlidingWindowModel { cwnd: (s.mtu * s.mtu) / s.cwnd, ..s }
            } else {
                s
            }
        }
    }

    /// The window after a resend: on continuous sending, once per block and
    /// only when the window exceeds two datagrams, the threshold drops to
    /// half the window (at least one datagram) and the window to one
    /// datagram.
    pub open spec fn after_resend(self) -> SlidingWindowModel {
        if self.is_continuous_send && !self.backoff_this_block && self.cwnd > self.mtu * 2 {
            let half = self.cwnd / 2;
            SlidingWindowModel {
                ss_thresh: if half < self.mtu {
                    self.mtu
                } else {
                    half
                },
                cwnd: self.mtu,
                next_congestion_control_block: self.next_seq,
                backoff_this_block: true,
                ..self
            }
        } else {
            self
        }
    }
}

impl SlidingWindowCore {
    /// The datagram size is positive and its square, which the window rules
    /// compute, fits a `usize`; the window is positive when outside slow
    /// start.
    pub closed spec fn wf(&self) -> bool {
        &&& 0 < self.mtu_size_excluding_header
        &&& self.mtu_size_excluding_header * self.mtu_size_excluding_header <= usize::MAX
        &&& (self.cwnd > self.ss_thresh && self.ss_thresh != 0) ==> self.cwnd > 0
    }

    pub fn new(mtu_size_excluding_header: usize) -> (s: Self)
        requires
            0 < mtu_size_excluding_header,
            mtu_size_excluding_header * mtu_size_excluding_header <= usize::MAX,
        ensures
            s.wf(),
            s@ == (SlidingWindowModel {
                cwnd: mtu_size_excluding_header as nat,
                ss_thresh: 0,
                mtu: mtu_size_excluding_header as nat,
                next_seq: 0,
                last_rtt: 0,
                oldest_unsent_ack: 0,
                next_congestion_control_block: 0,
                backoff_this_block: false,
                speedup_this_block: false,
                is_continuous_send: false,
            }),
    {
        SlidingWindowCore {
            cwnd: mtu_size_excluding_header,
            ss_thresh: 0,
            mtu_size_excluding_header,
            next_seq: 0,
            last_rtt: 0,
            oldest_unsent_ack: 0,
            next_congestion_control_block: 0,
            backoff_this_block: false,
            speedup_this_block: false,
            is_continuous_send: false,
        }
    }

    /// Whether the oldest unacknowledged arrival is at least `SYN`
    /// milliseconds old.
    pub fn should_send_ack(&self, now: u64, time_since_last_update: u64) -> (b: bool)
        requires
            now >= self@.oldest_unsent_ack,
        ensures
            b == (now - self@.oldest_unsent_ack >= SYN),
    {
        now - self.oldest_unsent_ack >= SYN
    }

    pub fn is_in_slow_start(&self) -> (b: bool)
        ensures
            b == self@.in_slow_start(),
    {
        self.cwnd <= self.ss_thresh || self.ss_thresh == 0
    }

    /// Hands out the next packet number.
    pub fn get_seq_and_increment(&mut self) -> (seq: u32)
        requires
            old(self)@.next_seq < u32::MAX,
        ensures
            final(self).wf() == old(self).wf(),
            seq == old(self)@.next_seq,
            final(self)@ == (SlidingWindowModel { next_seq: (seq + 1) as u32, ..old(self)@ }),
    {
        let current = self.next_seq;
        self.next_seq += 1;
        current
    }

    /// Records whether sending is continuous and returns the window.
    pub fn get_transmission_bandwidth(&mut self, now: u64, time_since_last_update: u64, is_continuous_send: bool) -> (bw: usize)
        ensures
            final(self).wf() == old(self).wf(),
            bw == old(self)@.cwnd,
            final(self)@ == (SlidingWindowModel { is_continuous_send, ..old(self)@ }),
    {
        self.is_continuous_send = is_continuous_send;
        self.cwnd
    }

    pub fn on_resend(&mut self, now: u64)
        requires
            old(self).wf(),
        ensures
            final(self).wf(),
            final(self)@ == old(self)@.after_resend(),
    {
        let m = self.mtu_size_excluding_header;
        assert(m * 2 <= usize::MAX) by (nonlinear_arith)
            requires
                0 < m,
                m * m <= usize::MAX,
        ;
        if self.is_continuous_send && !self.backoff_this_block && self.cwnd
            > self.mtu_size_excluding_header * 2 {
            let mut ss_thresh = self.cwnd / 2;
            if ss_thresh < self.mtu_size_excluding_header {
                ss_thresh = self.mtu_size_excluding_header;
            }
            self.ss_thresh = ss_thresh;
            self.cwnd = self.mtu_size_excluding_header;
            self.next_congestion_control_block = self.next_seq;
            self.backoff_this_block = true;
        }
    }

    /// The window rules on an acknowledgement with round trip `rtt` of
    /// packet `seq`.
    pub fn on_recv_ack(&mut self, rtt: u64, seq: u32, is_continuous_send: bool)
        requires
            old(self).wf(),
            old(self)@.cwnd + old(self)@.mtu <= usize::MAX,
        ensures
            final(self).wf(),
            final(self)@ == old(self)@.after_ack(rtt, seq, is_continuous_send),
    {
        self.last_rtt = rtt;
        self.is_continuous_send = is_continuous_send;

        if is_continuous_send {
            let is_new_congestion_control_period = seq > self.next_congestion_control_block;

            if is_new_congestion_control_period {
                self.backoff_this_block = false;
                self.speedup_this_block = true;
                self.next_congestion_control_block = self.next_seq;
            }
            let mtu = self.mtu_size_excluding_header;
            if self.is_in_slow_start() {
                let mut cwnd = self.cwnd + mtu;
                if cwnd > self.ss_thresh && self.ss_thresh != 0 {
                    proof {
                        lemma_threshold_sum(self.ss_thresh as int, cwnd as int, (mtu * mtu) as int);
                    }
                    cwnd = self.ss_thresh + (mtu * mtu / cwnd);
                }
                self.cwnd = cwnd;
            } else if is_new_congestion_control_period {
                self.cwnd = mtu * mtu / self.cwnd;
            }
        }
    }

    /// On a negative acknowledgement while sending continuously and not yet
    /// backed off this block, the threshold drops to half the window.
    pub fn on_recv_nak(&mut self)
        requires
            old(self).wf(),
        ensures
            final(self).wf(),
            final(self)@ == if old(self)@.is_continuous_send && !old(self)@.backoff_this_block {
                SlidingWindowModel { ss_thresh: old(self)@.cwnd / 2, ..old(self)@ }
            } else {
                old(self)@
            },
    {
        if self.is_continuous_send && !self.backoff_this_block {
            self.ss_thresh = self.cwnd / 2;
        }
    }

    /// Remembers the arrival time of the oldest unacknowledged packet.
    pub fn on_recv_packet(&mut self, now: u64, size: usize, is_continuous_send: bool)
        ensures
            final(self).wf() == old(self).wf(),
            final(self)@ == if old(self)@.oldest_unsent_ack == 0 {
                SlidingWindowModel { oldest_unsent_ack: now, ..old(self)@ }
            } else {
                old(self)@
            },
    {
        if self.oldest_unsent_ack == 0 {
            self.oldest_unsent_ack = now;
        }
    }

    /// Whether a datagram size can be used: positive, with a square that
    /// fits a `usize`.
    pub fn mtu_fits(mtu_size_excluding_header: usize) -> (b: bool)
        ensures
            b == (0 < mtu_size_excluding_header && mtu_size_excluding_header * mtu_size_excluding_header
                <= usize::MAX),
    {
        if mtu_size_excluding_header == 0 {
            false
        } else {
            let m = mtu_size_excluding_header;
            assert((m <= usize::MAX / m) == (m * m <= usize::MAX)) by (nonlinear_arith)
                requires
                    m > 0,
            ;
            m <= usize::MAX / m
        }
    }

    /// The largest window at which another acknowledgement still fits.
    pub fn has_room_to_grow(&self) -> (b: bool)
        ensures
            b == (self@.cwnd + self@.mtu <= usize::MAX),
    {
        self.cwnd <= usize::MAX - self.mtu_size_excluding_header
    }

    /// The arrival time of the oldest packet not yet acknowledged, or zero.
    pub fn oldest_unsent_ack(&self) -> (t: u64)
        ensures
            t == self@.oldest_unsent_ack,
    {
        self.oldest_unsent_ack
    }

    /// Whether another packet number can be handed out.
    pub fn has_next_seq(&self) -> (b: bool)
        ensures
            b == (self@.next_seq < u32::MAX),
    {
        self.next_seq < u32::MAX
    }
}

/// A resend backs off only on continuous sending, once per block, and
/// when the window exceeds two datagrams. Then the slow-start threshold
/// becomes the larger of half the old window and one datagram, the window
/// shrinks to one datagram, below that threshold, and the block is marked
/// as backed off; otherwise the resend changes nothing.
pub proof fn lemma_resend_backoff(m: SlidingWindowModel)
    ensures
        m.is_continuous_send && !m.backoff_this_block && m.cwnd > 2 * m.mtu ==> {
            let r = m.after_resend();
            &&& r.ss_thresh == (if m.cwnd / 2 >= m.mtu {
                m.cwnd / 2
            } else {
                m.mtu
            })
            &&& r.cwnd == m.mtu
            &&& r.cwnd <= r.ss_thresh
            &&& r.backoff_this_block
            &&& r.mtu == m.mtu
            &&& r.next_seq == m.next_seq
        },
        !(m.is_continuous_send && !m.backoff_this_block && m.cwnd > 2 * m.mtu) ==> m.after_resend() == m,
{
}

/// An acknowledgement never moves the slow-start threshold. When not
/// sending continuously it leaves the window as it is; while sending
/// continuously with no threshold set, it grows the window by one datagram;
/// past slow start, the window changes only on the first acknowledgement
/// of a packet beyond the current block.
pub proof fn lemma_ack_window(m: SlidingWindowModel, rtt: u64, seq: u32, is_continuous_send: bool)
    ensures
        m.after_ack(rtt, seq, is_continuous_send).ss_thresh == m.ss_thresh,
        m.after_ack(rtt, seq, is_continuous_send).mtu == m.mtu,
        !is_continuous_send ==> m.after_ack(rtt, seq, is_continuous_send).cwnd == m.cwnd,
        is_continuous_send && m.ss_thresh == 0 ==> m.after_ack(rtt, seq, is_continuous_send).cwnd == m.cwnd + m.mtu,
        !m.in_slow_start() && seq <= m.next_congestion_control_block ==> m.after_ack(
            rtt,
            seq,
            is_continuous_send,
        ).cwnd == m.cwnd,
{
}

/// Past the threshold, the threshold plus the square of the datagram size
/// over the window stays below the larger of the threshold and that square.
proof fn lemma_threshold_sum(ss: int, cwnd: int, m: int)
    requires
        0 < ss < cwnd,
        0 <= m,
    ensures
        ss + m / cwnd <= if ss >= m { ss } else { m },
{
    if ss >= m {
        vstd::arithmetic::div_mod::lemma_basic_div(m, cwnd);
    } else {
        vstd::arithmetic::div_mod::lemma_div_is_ordered_by_denominator(m, ss + 1, cwnd);
        assert((m - ss) * (ss + 1) >= m) by (nonlinear_arith)
            requires
                0 < ss < m,
        ;
        vstd::arithmetic::div_mod::lemma_div_is_ordered(m, (m - ss) * (ss + 1), ss + 1);
        vstd::arithmetic::div_mod::lemma_div_multiples_vanish(m - ss, ss + 1);
        assert((m - ss) * (ss + 1) / (ss + 1) == m - ss) by (nonlinear_arith)
            requires
                (ss + 1) * (m - ss) / (ss + 1) == m - ss,
        ;
    }
}

} // verus!
