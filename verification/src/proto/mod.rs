pub mod ack_codec;
pub mod address;
pub mod codec;
pub mod datagram;
pub mod datagram_codec;
pub mod fragment_codec;
pub mod message;

use vstd::prelude::*;

verus! {

pub const PROTOCOL_VERSION: u8 = 11;

pub const MAX_MTU_SIZE: usize = 1492;
pub const MIN_MTU_SIZE: usize = 576;
pub const IP_UDP_HEADER_SIZE: usize = 28;
pub const MTU_SIZE_MIDDLE: usize = 1200;
pub const MTU_SIZE_COUNT: usize = 3;

pub const MIN_ONLINE_PACKET_SIZE: usize = 6;
pub const MIN_PACKET_SIZE: usize = 6;
pub const MIN_OFFLINE_PACKET_SIZE: usize = 25;

/// Length of the magic sequence that marks offline messages.
pub const OFFLINE_MESSAGE_DATA_ID_LEN: usize = 16;

pub const DEFAULT_TIMEOUT: u64 = 10000;

/// The magic sequence that marks offline messages.
pub open spec fn offline_message_data_id() -> Seq<u8> {
    seq![0x00u8, 0xFF, 0xFF, 0x00, 0xFE, 0xFE, 0xFE, 0xFE, 0xFD, 0xFD, 0xFD, 0xFD, 0x12, 0x34, 0x56, 0x78]
}

/// The magic sequence that marks offline messages.
pub fn offline_message_data_id_bytes() -> (v: Vec<u8>)
    ensures
        v@ == offline_message_data_id(),
{
    let v: Vec<u8> = vec![0x00u8, 0xFF, 0xFF, 0x00, 0xFE, 0xFE, 0xFE, 0xFE, 0xFD, 0xFD, 0xFD, 0xFD, 0x12, 0x34, 0x56, 0x78];
    assert(v@ =~= offline_message_data_id());
    v
}

/// The datagram sizes tried, largest first, when opening a connection.
pub open spec fn mtu_size_at(i: int) -> usize {
    if i == 0 {
        MAX_MTU_SIZE
    } else if i == 1 {
        MTU_SIZE_MIDDLE
    } else {
        MIN_MTU_SIZE
    }
}

/// The datagram size tried at position `i` of the list of sizes.
pub fn mtu_sizes(i: usize) -> (s: usize)
    requires
        i < MTU_SIZE_COUNT,
    ensures
        s == mtu_size_at(i as int),
{
    if i == 0 {
        MAX_MTU_SIZE
    } else if i == 1 {
        MTU_SIZE_MIDDLE
    } else {
        MIN_MTU_SIZE
    }
}

} // verus!
