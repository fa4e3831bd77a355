use vstd::prelude::*;

use crate::reliability::fragment::Reliability;

verus! {

/// Position of a fragment in the order of its ordering channel.
#[derive(Debug, Clone, Copy, PartialEq, Eq, Structural)]
pub struct OrderingInfo {
    pub index: u32,
    pub channel: u8,
}

/// Where a fragment stands among the pieces of a split message.
#[derive(Debug, Clone, Copy, PartialEq, Eq, Structural)]
pub struct SplitInfo {
    pub size: u32,
    pub id: u16,
    pub index: u32,
}

/// One message, or one piece of a split message, inside a packet.
#[derive(Debug)]
pub struct Fragment {
    pub reliability: Reliability,
    pub reliable_index: Option<u32>,
    pub sequence_index: Option<u32>,
    pub ordering_info: Option<OrderingInfo>,
    pub split_info: Option<SplitInfo>,
    pub data: Vec<u8>,
}

/// The mathematical value of a fragment: its header fields and its payload.
#[verifier::ext_equal]
pub struct FragmentModel {
    pub reliability: Reliability,
    pub reliable_index: Option<u32>,
    pub sequence_index: Option<u32>,
    pub ordering_info: Option<OrderingInfo>,
    pub split_info: Option<SplitInfo>,
    pub data: Seq<u8>,
}

impl View for Fragment {
    type V = FragmentModel;

    open spec fn view(&self) -> FragmentModel {
        FragmentModel {
            reliability: self.reliability,
            reliable_index: self.reliable_index,
            sequence_index: self.sequence_index,
            ordering_info: self.ordering_info,
            split_info: self.split_info,
            data: self.data@,
        }
    }
}

/// One datagram on the wire: an acknowledgement, a negative
/// acknowledgement, or a numbered packet of fragments. The arrival rate of
/// an acknowledgement is carried as the bit pattern of its IEEE-754 single.
#[derive(Debug)]
pub enum Datagram {
    Ack { arrival_rate: Option<u32>, seqs: Vec<u32> },
    Nak { seqs: Vec<u32> },
    Packet {
        is_packet_pair: bool,
        is_continuous_send: bool,
        needs_arrival_rate: bool,
        seq: u32,
        fragments: Vec<Fragment>,
    },
}

/// The mathematical value of a datagram.
pub enum DatagramModel {
    Ack { arrival_rate: Option<u32>, seqs: Seq<u32> },
    Nak { seqs: Seq<u32> },
    Packet {
        is_packet_pair: bool,
        is_continuous_send: bool,
        needs_arrival_rate: bool,
        seq: u32,
        fragments: Seq<FragmentModel>,
    },
}

impl View for Datagram {
    type V = DatagramModel;

    open spec fn view(&self) -> DatagramModel {
        match self {
            Datagram::Ack { arrival_rate, seqs } => DatagramModel::Ack {
                arrival_rate: *arrival_rate,
                seqs: seqs@,
            },
            Datagram::Nak { seqs } => DatagramModel::Nak { seqs: seqs@ },
            Datagram::Packet {
                is_packet_pair,
                is_continuous_send,
                needs_arrival_rate,
                seq,
                fragments,
            } => DatagramModel::Packet {
                is_packet_pair: *is_packet_pair,
                is_continuous_send: *is_continuous_send,
                needs_arrival_rate: *needs_arrival_rate,
                seq: *seq,
                fragments: fragments@.map_values(|f: Fragment| f@),
            },
        }
    }
}

impl Datagram {
    pub const HEADER_SIZE: usize = 1;
    pub const PACKET_HEADER_SIZE: usize = 3;

    pub const IS_VALID: u8 = 0b1000_0000;
    pub const IS_ACK: u8 = 0b0100_0000;
    pub const IS_NAK: u8 = 0b0010_0000;
    pub const HAS_ARRIVAL_RATE: u8 = 0b0010_0000;
    pub const IS_PACKET_PAIR: u8 = 0b0001_0000;
    pub const IS_CONTINUOUS_SEND: u8 = 0b0000_1000;
    pub const NEEDS_ARRIVAL_RATE: u8 = 0b0000_0100;
}

impl FragmentModel {
    /// Number of header bytes that precede the payload on the wire.
    pub open spec fn header_size(self) -> nat {
        3 + (if self.reliability.spec_is_reliable() { 3nat } else { 0nat }) + (if self
            .reliability
            .spec_is_sequenced() {
            7nat
        } else if self.reliability.spec_is_ordered() {
            4nat
        } else {
            0nat
        }) + (if self.split_info is Some { 10nat } else { 0nat })
    }

    /// Number of bytes the fragment takes on the wire.
    pub open spec fn full_size(self) -> nat {
        self.header_size() + self.data.len()
    }
}

impl Fragment {
    pub const SPLIT_INFO_SIZE: usize = 10;

    pub const RELIABILITY_MASK: u8 = 0b1110_0000;
    pub const IS_SPLIT: u8 = 0b0001_0000;

    pub fn calc_header_size(&self) -> (size: usize)
        ensures
            size == self@.header_size(),
    {
        let mut size: usize = 1 + 2;

        if self.reliability.is_reliable() {
            size += 3;
        }
        if self.reliability.is_sequenced() {
            size += 3;
            size += 4;
        } else if self.reliability.is_ordered() {
            size += 4;
        }
        if self.split_info.is_some() {
            size += 10;
        }

        size
    }

    pub fn calc_full_size(&self) -> (size: usize)
        requires
            self.data.len() + 23 <= usize::MAX,
        ensures
            size == self@.full_size(),
    {
        self.calc_header_size() + self.data.len()
    }
}

} // verus!
