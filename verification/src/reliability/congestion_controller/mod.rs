//! The congestion control interface of the reliability layer. The layer
//! asks its controller when to acknowledge, how many bytes it may send,
//! how long to wait before resending, and which number the next packet
//! takes, and tells it what was sent and received. Arrival rates travel as
//! the bit patterns of IEEE-754 singles.
use vstd::prelude::*;

pub mod sliding_window;
pub mod udt;

verus! {

/// One call a reliability layer makes to its congestion controller, with
/// the arguments it passes and the answer it gets back.
pub enum ControllerEvent {
    /// `should_send_ack(now, time_since_last_update)` answered `due`.
    AckAsked { now: u64, time_since_last_update: u64, due: bool },
    /// `is_in_slow_start()` answered `slow_start`.
    SlowStartAsked { slow_start: bool },
    /// `get_rto()` answered `rto`.
    RtoAsked { rto: u64 },
    /// `get_seq_and_increment()` handed out `seq`.
    SeqTaken { seq: u32 },
    /// `get_transmission_bandwidth(now, time_since_last_update,
    /// is_continuous_send)` allowed `bandwidth` bytes.
    BandwidthGiven { now: u64, time_since_last_update: u64, is_continuous_send: bool, bandwidth: usize },
    /// `on_resend(now)`.
    Resent { now: u64 },
    /// `on_recv_ack` with these arguments.
    AckReceived {
        now: u64,
        rtt: u64,
        arrival_rate: Option<u32>,
        total_bytes_acked: usize,
        seq: u32,
        is_continuous_send: bool,
    },
    /// `on_recv_nak()`.
    NakReceived,
    /// `on_recv_packet(now, size, is_continuous_send)`.
    PacketReceived { now: u64, size: usize, is_continuous_send: bool },
    /// `on_send_ack(needs_arrival_rate, ..)`, handed an arrival rate of
    /// `rate_in`, which it left as `rate_out`.
    AckSent { needs_arrival_rate: bool, rate_in: Option<u32>, rate_out: Option<u32> },
    /// `on_send_packet(size)`.
    PacketSent { size: usize },
}

pub trait CongestionController: Sized {
    fn new(mtu_size_excluding_header: usize) -> Self;

    fn should_send_ack(&self, now: u64, time_since_last_update: u64) -> bool;

    fn is_in_slow_start(&self) -> bool;

    fn get_seq_and_increment(&mut self) -> u32;

    fn get_transmission_bandwidth(
        &mut self,
        now: u64,
        time_since_last_update: u64,
        is_continuous_send: bool,
    ) -> usize;

    fn get_rto(&self) -> u64;

    fn on_resend(&mut self, now: u64);

    fn on_recv_ack(
        &mut self,
        now: u64,
        rtt: u64,
        arrival_rate: Option<u32>,
        total_bytes_acked: usize,
        seq: u32,
        is_continuous_send: bool,
    );

    fn on_recv_nak(&mut self);

    fn on_recv_packet(&mut self, now: u64, size: usize, is_continuous_send: bool);

    fn on_send_ack(&mut self, needs_arrival_rate: bool, arrival_rate: &mut Option<u32>);

    fn on_send_packet(&mut self, size: usize);
}

} // verus!
