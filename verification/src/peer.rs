//! The decisions a peer takes: what to answer a packet from an address
//! without a connection, what a message inside a connection calls for,
//! when to ping, when to give up, and how a pending connection request is
//! sent again. The socket, the queues, the clock and the tasks that run
//! these decisions stand outside the library.
use vstd::prelude::*;

use crate::conn::{fresh_conn, Conn, ConnModel, ConnectMode, ReqConn};
use crate::error::{BytesFault, PeerError, PeerFault, RukBytesError};
use crate::messages::{ContextModel, RukMessage, RukMessageContext};
use crate::proto::address::{
    address_wf, lemma_addr_roundtrip, lemma_string_roundtrip, put_addr, put_string, ser_addr, ser_string, sp_addr, sp_string, try_get_addr,
    try_get_string, AddressModel, SocketAddress,
};
use crate::proto::codec::{
    copy_range, lemma_u16_roundtrip, lemma_u32_roundtrip, lemma_u64_roundtrip, lemma_u8_roundtrip, put_bytes, put_slice, put_u16, put_u32, put_u64,
    put_u8, ser_u16, ser_u32, ser_u64, ser_u8, sp_advance, sp_u16, sp_u32, sp_u64, sp_u8, try_advance,
    try_get_u16, try_get_u32, try_get_u64, try_get_u8,
};
use crate::proto::message::{OfflineMessageIDs, OnlineMessageIDs};
use crate::proto::{
    mtu_size_at, mtu_sizes, offline_message_data_id, offline_message_data_id_bytes,
    IP_UDP_HEADER_SIZE, MAX_MTU_SIZE, MIN_OFFLINE_PACKET_SIZE, MTU_SIZE_COUNT, OFFLINE_MESSAGE_DATA_ID_LEN,
    PROTOCOL_VERSION,
};
use crate::reliability::congestion_controller::CongestionController;
use crate::reliability::fragment::{Priority, Reliability};
use crate::reliability::layer::{
    cache_busy, output_view, send_fits, send_result, update_result, ControllerAnswers, LayerModel,
    ORDERING_CHANNEL_SIZE,
};

verus! {

/// A connection after a message is queued on it: a reliable message marks
/// the time of the last reliable send. A message that its packets cannot
/// hold, even in pieces, is dropped and changes nothing.
pub open spec fn sent_on_conn(
    c: ConnModel,
    now: u64,
    priority: Priority,
    reliability: Reliability,
    channel: u8,
    data: Seq<u8>,
) -> ConnModel {
    if send_fits(c.layer, reliability, data.len()) {
        ConnModel {
            last_reliable_send: if reliability.spec_is_reliable() {
                now
            } else {
                c.last_reliable_send
            },
            layer: send_result(c.layer, priority, reliability, channel, data),
            ..c
        }
    } else {
        c
    }
}

/// The bytes of a ping inside a connection sent at `now`.
pub open spec fn ping_bytes(now: u64) -> Seq<u8> {
    ser_u8(OnlineMessageIDs::ConnectedPing.code()) + ser_u64(now)
}

/// Queues `data` on the connection (see `sent_on_conn`).
pub fn send_to_conn<T: CongestionController>(
    now: u64,
    conn: &mut Conn<T>,
    priority: Priority,
    reliability: Reliability,
    ordering_channel: u8,
    data: Vec<u8>,
)
    requires
        old(conn).wf(),
        reliability.spec_is_sequenced() || reliability.spec_is_ordered() ==> ordering_channel
            < ORDERING_CHANNEL_SIZE,
    ensures
        final(conn).wf(),
        final(conn)@ == sent_on_conn(old(conn)@, now, priority, reliability, ordering_channel, data@),
{
    if !conn.layer.can_send(reliability, data.len()) {
        return;
    }
    if reliability.is_reliable() {
        conn.last_reliable_send = now;
    }
    conn.layer.send(priority, reliability, ordering_channel, data);
}

/// Queues a ping stamped `now` on the connection, at the highest priority
/// on channel 0.
pub fn send_ping_to_conn<T: CongestionController>(now: u64, conn: &mut Conn<T>, reliability: Reliability)
    requires
        old(conn).wf(),
    ensures
        final(conn).wf(),
        final(conn)@ == sent_on_conn(old(conn)@, now, Priority::Immediate, reliability, 0, ping_bytes(now)),
{
    let mut data: Vec<u8> = Vec::with_capacity(9);
    put_u8(&mut data, OnlineMessageIDs::ConnectedPing.to_u8());
    put_u64(&mut data, now);
    assert(data@ =~= ping_bytes(now));
    send_to_conn(now, conn, Priority::Immediate, reliability, 0, data);
}

/// A connection for the peer `guid` that asked to connect from `_addr`:
/// always granted.
pub fn register_conn<T: CongestionController>(
    now: u64,
    _addr: SocketAddress,
    guid: u64,
    _binding_addr: SocketAddress,
    connect_mode: ConnectMode,
    mtu_size: usize,
    _use_security: bool,
) -> (r: Option<Conn<T>>)
    requires
        32 <= mtu_size,
    ensures
        r matches Some(c) && c.wf() && c@ == fresh_conn(now, guid, connect_mode, mtu_size),
{
    Some(Conn::new(now, guid, connect_mode, mtu_size))
}

/// The bytes of a refusal to a banned address.
pub open spec fn banned_bytes(guid: u64) -> Seq<u8> {
    ser_u8(OfflineMessageIDs::ConnectionBanned.code()) + offline_message_data_id() + ser_u64(guid)
}

/// What a packet from an address without a connection meets at the ban
/// list.
#[derive(Debug)]
pub enum BanCheck {
    /// The address is not banned: the packet goes on.
    Pass,
    /// The ban ran out: it is lifted and the packet goes on.
    Lift,
    /// The address is banned: the packet is answered with these bytes
    /// and dropped.
    Refuse(Vec<u8>),
}

/// Checks the ban of an address, banned until `ban_time` if at all: a ban
/// whose time lies before `now` is lifted.
pub fn check_ban(now: u64, ban_time: Option<u64>, guid: u64) -> (r: BanCheck)
    ensures
        match ban_time {
            None => r is Pass,
            Some(t) => if t < now {
                r is Lift
            } else {
                r matches BanCheck::Refuse(b) && b@ == banned_bytes(guid)
            },
        },
{
    match ban_time {
        None => BanCheck::Pass,
        Some(t) => {
            if t < now {
                BanCheck::Lift
            } else {
                let mut reply: Vec<u8> = Vec::with_capacity(25);
                put_u8(&mut reply, OfflineMessageIDs::ConnectionBanned.to_u8());
                let magic = offline_message_data_id_bytes();
                put_slice(&mut reply, magic.as_slice());
                put_u64(&mut reply, guid);
                assert(reply@ =~= banned_bytes(guid));
                BanCheck::Refuse(reply)
            }
        },
    }
}

/// The bytes of a connection request of `mtu` bytes: its identifier, the
/// magic sequence, the protocol version, and zeros up to the size.
pub open spec fn open_request_bytes(mtu: usize) -> Seq<u8> {
    ser_u8(OfflineMessageIDs::OpenConnectionRequest1.code()) + offline_message_data_id() + ser_u8(
        PROTOCOL_VERSION,
    ) + Seq::new((mtu - IP_UDP_HEADER_SIZE - 18) as nat, |_i: int| 0u8)
}

/// The position in the list of datagram sizes for attempt `count` out of
/// `max`: the attempts are shared out evenly, largest size first.
pub open spec fn mtu_index(count: usize, max: usize) -> int {
    let i = count as int / (max as int / MTU_SIZE_COUNT as int);
    if i < MTU_SIZE_COUNT - 1 {
        i
    } else {
        MTU_SIZE_COUNT - 1
    }
}

/// The datagram size of a connection request never grows as attempts
/// fail: the first attempt tries the largest size, and later attempts step
/// down the list of sizes, never past its end.
pub proof fn lemma_request_sizes_step_down(count: usize, later: usize, max: usize)
    requires
        max >= MTU_SIZE_COUNT,
        count <= later,
    ensures
        mtu_index(0, max) == 0,
        0 <= mtu_index(count, max) <= mtu_index(later, max) < MTU_SIZE_COUNT,
        mtu_size_at(mtu_index(later, max)) <= mtu_size_at(mtu_index(count, max)),
{
    let d = max as int / MTU_SIZE_COUNT as int;
    assert(d >= 1) by {
        vstd::arithmetic::div_mod::lemma_div_is_ordered(MTU_SIZE_COUNT as int, max as int, MTU_SIZE_COUNT as int);
    }
    vstd::arithmetic::div_mod::lemma_div_is_ordered(count as int, later as int, d);
    vstd::arithmetic::div_mod::lemma_div_pos_is_pos(count as int, d);
}

/// What a pending connection request calls for at a turn of the peer.
#[derive(Debug)]
pub enum ReqStep {
    /// Not due yet.
    Wait,
    /// Sent too often: the attempt failed and the request is dropped.
    GiveUp,
    /// Send these bytes to the address.
    Send(Vec<u8>),
}

/// A turn of a pending connection request at `now`. When it is due, it
/// gives up after `max_req_count` attempts; otherwise it counts one more
/// attempt, becomes due again after its interval, and sends a request
/// whose size steps down the list of datagram sizes as attempts fail.
pub fn req_conn_step(now: u64, req: &mut ReqConn) -> (r: ReqStep)
    requires
        now > old(req).next_req_time && old(req).req_count < old(req).max_req_count ==> {
            &&& old(req).max_req_count >= MTU_SIZE_COUNT
            &&& now + old(req).req_interval <= u64::MAX
        },
    ensures
        final(req).addr == old(req).addr,
        final(req).max_req_count == old(req).max_req_count,
        final(req).req_interval == old(req).req_interval,
        final(req).timeout == old(req).timeout,
        if now <= old(req).next_req_time {
            r is Wait && final(req).req_count == old(req).req_count && final(req).next_req_time
                == old(req).next_req_time
        } else if old(req).req_count >= old(req).max_req_count {
            r is GiveUp && final(req).req_count == old(req).req_count && final(req).next_req_time
                == old(req).next_req_time
        } else {
            &&& final(req).req_count == old(req).req_count + 1
            &&& final(req).next_req_time == now + old(req).req_interval
            &&& r matches ReqStep::Send(b) && b@ == open_request_bytes(
                mtu_size_at(mtu_index(old(req).req_count, old(req).max_req_count)),
            )
        },
{
    if now <= req.next_req_time {
        return ReqStep::Wait;
    }
    if req.req_count >= req.max_req_count {
        return ReqStep::GiveUp;
    }
    let i = req.req_count / (req.max_req_count / MTU_SIZE_COUNT);
    let index = if i < MTU_SIZE_COUNT - 1 {
        i
    } else {
        MTU_SIZE_COUNT - 1
    };
    req.req_count = req.req_count + 1;
    req.next_req_time = now + req.req_interval;
    let mtu = mtu_sizes(index);
    let mut bytes: Vec<u8> = Vec::with_capacity(mtu);
    put_u8(&mut bytes, OfflineMessageIDs::OpenConnectionRequest1.to_u8());
    let magic = offline_message_data_id_bytes();
    put_slice(&mut bytes, magic.as_slice());
    put_u8(&mut bytes, PROTOCOL_VERSION);
    put_bytes(&mut bytes, 0, mtu - IP_UDP_HEADER_SIZE - 18);
    assert(bytes@ =~= open_request_bytes(mtu));
    ReqStep::Send(bytes)
}

/// What a packet from an address without a connection calls for: bytes
/// to send back to the address, a message for the application, a new
/// connection to keep under the address, and whether the pending request
/// to connect to the address is settled.
pub struct OfflineOutcome<T: CongestionController> {
    pub reply: Option<Vec<u8>>,
    pub message: Option<RukMessage>,
    pub conn: Option<Conn<T>>,
    pub req_conn_done: bool,
}

/// The mathematical value of an offline outcome; the message is given by
/// the identity of its sender and what it says.
pub struct OfflineModel {
    pub reply: Option<Seq<u8>>,
    pub message: Option<(u64, ContextModel)>,
    pub conn: Option<ConnModel>,
    pub req_conn_done: bool,
}

/// Nothing to do.
pub open spec fn no_outcome() -> OfflineModel {
    OfflineModel { reply: None, message: None, conn: None, req_conn_done: false }
}

/// Only a message from the peer `guid`.
pub open spec fn message_outcome(guid: u64, context: ContextModel) -> OfflineModel {
    OfflineModel { reply: None, message: Some((guid, context)), conn: None, req_conn_done: false }
}

/// Only bytes to send back.
pub open spec fn reply_outcome(reply: Seq<u8>) -> OfflineModel {
    OfflineModel { reply: Some(reply), message: None, conn: None, req_conn_done: false }
}

impl<T: CongestionController> OfflineOutcome<T> {
    /// The outcome is well formed: its connection is, and its message comes
    /// from `addr`.
    pub open spec fn wf(&self, addr: SocketAddress) -> bool {
        &&& (self.conn matches Some(c) ==> c.wf())
        &&& (self.message matches Some(m) ==> m.addr == addr)
    }

    pub open spec fn model(&self) -> OfflineModel {
        OfflineModel {
            reply: match self.reply {
                Some(b) => Some(b@),
                None => None,
            },
            message: match self.message {
                Some(m) => Some((m.guid, m.context@)),
                None => None,
            },
            conn: match self.conn {
                Some(c) => Some(c@),
                None => None,
            },
            req_conn_done: self.req_conn_done,
        }
    }
}

/// The message that the magic sequence and the sender's identity, read
/// from `p`, carry: the message says `context`.
pub open spec fn notice_case(s: Seq<u8>, p: int, context: ContextModel) -> Result<OfflineModel, PeerFault> {
    match sp_advance(s, p, OFFLINE_MESSAGE_DATA_ID_LEN as nat) {
        Err(e) => Err(PeerFault::RukBytes(e)),
        Ok(p2) => match sp_u64(s, p2) {
            Err(e) => Err(PeerFault::RukBytes(e)),
            Ok((guid, _)) => Ok(message_outcome(guid, context)),
        },
    }
}

/// An unconnected ping, read from `p`: when there is room for another
/// connection, answered with a pong carrying the ping's time, this
/// peer's identity, the magic sequence and the ping response, and
/// reported to the application.
pub open spec fn ping_case(
    s: Seq<u8>,
    p: int,
    guid: u64,
    ping_res: Seq<char>,
    conn_count: usize,
    max_conn_count: usize,
) -> Result<OfflineModel, PeerFault> {
    if conn_count >= max_conn_count {
        Ok(no_outcome())
    } else {
        match sp_u64(s, p) {
            Err(e) => Err(PeerFault::RukBytes(e)),
            Ok((ping_time, p2)) => match sp_advance(s, p2, OFFLINE_MESSAGE_DATA_ID_LEN as nat) {
                Err(e) => Err(PeerFault::RukBytes(e)),
                Ok(p3) => match sp_u64(s, p3) {
                    Err(e) => Err(PeerFault::RukBytes(e)),
                    Ok((remote_guid, _)) => Ok(
                        OfflineModel {
                            reply: Some(
                                ser_u8(OfflineMessageIDs::UnconnectedPong.code()) + ser_u64(ping_time)
                                    + ser_u64(guid) + offline_message_data_id() + ser_string(ping_res),
                            ),
                            message: Some((remote_guid, ContextModel::UnconnectedPing)),
                            conn: None,
                            req_conn_done: false,
                        },
                    ),
                },
            },
        }
    }
}

/// An unconnected pong, read from `p`: reported to the application with
/// the time it took, never below zero, and the peer's ping response.
pub open spec fn pong_case(s: Seq<u8>, p: int, now: u64) -> Result<OfflineModel, PeerFault> {
    match sp_u64(s, p) {
        Err(e) => Err(PeerFault::RukBytes(e)),
        Ok((ping_time, p2)) => match sp_u64(s, p2) {
            Err(e) => Err(PeerFault::RukBytes(e)),
            Ok((remote_guid, p3)) => match sp_advance(s, p3, OFFLINE_MESSAGE_DATA_ID_LEN as nat) {
                Err(e) => Err(PeerFault::RukBytes(e)),
                Ok(p4) => match sp_string(s, p4) {
                    Err(e) => Err(PeerFault::RukBytes(e)),
                    Ok((ping_res, _)) => Ok(
                        message_outcome(
                            remote_guid,
                            ContextModel::UnconnectedPong {
                                ping: if now >= ping_time {
                                    (now - ping_time) as u64
                                } else {
                                    0
                                },
                                ping_res,
                            },
                        ),
                    ),
                },
            },
        },
    }
}

/// The first request to connect, read from `p`: a peer of another protocol
/// version is told this peer's version; otherwise it is answered with this
/// peer's identity and the datagram size it reached, at most the largest.
pub open spec fn request1_case(s: Seq<u8>, p: int, guid: u64) -> Result<OfflineModel, PeerFault> {
    match sp_advance(s, p, OFFLINE_MESSAGE_DATA_ID_LEN as nat) {
        Err(e) => Err(PeerFault::RukBytes(e)),
        Ok(p2) => match sp_u8(s, p2) {
            Err(e) => Err(PeerFault::RukBytes(e)),
            Ok((version, p3)) => if version != PROTOCOL_VERSION {
                Ok(
                    reply_outcome(
                        ser_u8(OfflineMessageIDs::IncompatibleProtocolVersion.code()) + ser_u8(
                            PROTOCOL_VERSION,
                        ) + offline_message_data_id() + ser_u64(guid),
                    ),
                )
            } else {
                let size = s.len() - p3 + 18 + IP_UDP_HEADER_SIZE;
                let mtu = if size < MAX_MTU_SIZE {
                    size
                } else {
                    MAX_MTU_SIZE as int
                };
                Ok(
                    reply_outcome(
                        ser_u8(OfflineMessageIDs::OpenConnectionReply1.code()) + offline_message_data_id()
                            + ser_u64(guid) + ser_u8(0) + ser_u16(mtu as u16),
                    ),
                )
            },
        },
    }
}

/// The first answer to a request to connect, read from `p`: when this
/// peer asked to connect to the sender, it sends its second request,
/// with the cookie it was given, the address it asked for, the datagram
/// size offered and its identity; otherwise nothing is done.
pub open spec fn reply1_case(
    s: Seq<u8>,
    p: int,
    guid: u64,
    req_addr: Option<AddressModel>,
) -> Result<OfflineModel, PeerFault> {
    match sp_advance(s, p, OFFLINE_MESSAGE_DATA_ID_LEN as nat) {
        Err(e) => Err(PeerFault::RukBytes(e)),
        Ok(p2) => match sp_u64(s, p2) {
            Err(e) => Err(PeerFault::RukBytes(e)),
            Ok((_remote_guid, p3)) => match sp_u8(s, p3) {
                Err(e) => Err(PeerFault::RukBytes(e)),
                Ok((flag, p4)) => {
                    let cookie: Result<(Option<u32>, int), BytesFault> = if flag == 1 {
                        match sp_u32(s, p4) {
                            Err(e) => Err(e),
                            Ok((c, p5)) => Ok((Some(c), p5)),
                        }
                    } else {
                        Ok((None, p4))
                    };
                    match cookie {
                        Err(e) => Err(PeerFault::RukBytes(e)),
                        Ok((cookie, p5)) => match req_addr {
                            None => Ok(no_outcome()),
                            Some(a) => match sp_u16(s, p5) {
                                Err(e) => Err(PeerFault::RukBytes(e)),
                                Ok((mtu, _)) => Ok(
                                    reply_outcome(
                                        ser_u8(OfflineMessageIDs::OpenConnectionRequest2.code())
                                            + offline_message_data_id() + match cookie {
                                            Some(c) => ser_u32(c) + ser_u8(0),
                                            None => Seq::empty(),
                                        } + ser_addr(a) + ser_u16(mtu) + ser_u64(guid),
                                    ),
                                ),
                            },
                        },
                    }
                },
            },
        },
    }
}

/// The second request to connect, read from `p`: without room for another
/// connection the sender is told so; a datagram size too small for the
/// IP and UDP headers is refused; otherwise a connection waiting for the sender's
/// connection request is opened and the sender is answered with this
/// peer's identity, its own address and the datagram size.
pub open spec fn request2_case(
    now: u64,
    addr: AddressModel,
    s: Seq<u8>,
    p: int,
    guid: u64,
    conn_count: usize,
    max_conn_count: usize,
) -> Result<OfflineModel, PeerFault> {
    match sp_advance(s, p, OFFLINE_MESSAGE_DATA_ID_LEN as nat) {
        Err(e) => Err(PeerFault::RukBytes(e)),
        Ok(p2) => match sp_addr(s, p2) {
            Err(e) => Err(PeerFault::RukBytes(e)),
            Ok((_binding, p3)) => match sp_u16(s, p3) {
                Err(e) => Err(PeerFault::RukBytes(e)),
                Ok((mtu, p4)) => match sp_u64(s, p4) {
                    Err(e) => Err(PeerFault::RukBytes(e)),
                    Ok((remote_guid, _)) => if conn_count >= max_conn_count {
                        Ok(
                            reply_outcome(
                                ser_u8(OfflineMessageIDs::NoFreeIncomingConnections.code())
                                    + offline_message_data_id() + ser_u64(guid),
                            ),
                        )
                    } else if mtu < 32 {
                        Err(PeerFault::InvalidPacket("MTU size is too small."@))
                    } else {
                        Ok(
                            OfflineModel {
                                reply: Some(
                                    ser_u8(OfflineMessageIDs::OpenConnectionReply2.code())
                                        + offline_message_data_id() + ser_u64(guid) + ser_addr(addr)
                                        + ser_u16(mtu) + ser_u8(0),
                                ),
                                message: None,
                                conn: Some(fresh_conn(now, remote_guid, ConnectMode::UnverfiedSender, mtu as usize)),
                                req_conn_done: false,
                            },
                        )
                    },
                },
            },
        },
    }
}

/// The bytes of a connection request from the peer `guid` at `now`.
pub open spec fn connection_request_bytes(guid: u64, now: u64) -> Seq<u8> {
    ser_u8(OnlineMessageIDs::ConnectionRequest.code()) + ser_u64(guid) + ser_u64(now) + ser_u8(0)
}

/// The second answer to a request to connect, read from `p`: when this
/// peer asked to connect to the sender, the request is settled; a peer at
/// its limit of connections opens none and reports the attempt failed;
/// otherwise a connection is opened, with the timeout asked for if any, on
/// which a connection request goes out reliably at the highest priority
/// (when its packets can hold it). A datagram size too small for the IP
/// and UDP headers is refused.
pub open spec fn reply2_case(
    now: u64,
    s: Seq<u8>,
    p: int,
    guid: u64,
    req: Option<(AddressModel, Option<u64>)>,
    conn_count: usize,
    max_conn_count: usize,
) -> Result<OfflineModel, PeerFault> {
    match sp_advance(s, p, OFFLINE_MESSAGE_DATA_ID_LEN as nat) {
        Err(e) => Err(PeerFault::RukBytes(e)),
        Ok(p2) => match sp_u64(s, p2) {
            Err(e) => Err(PeerFault::RukBytes(e)),
            Ok((remote_guid, p3)) => match sp_addr(s, p3) {
                Err(e) => Err(PeerFault::RukBytes(e)),
                Ok((_binding, p4)) => match sp_u16(s, p4) {
                    Err(e) => Err(PeerFault::RukBytes(e)),
                    Ok((mtu, p5)) => match sp_u8(s, p5) {
                        Err(e) => Err(PeerFault::RukBytes(e)),
                        Ok((_security, _)) => match req {
                            None => Ok(no_outcome()),
                            Some((_, timeout)) => if conn_count >= max_conn_count {
                                Ok(
                                    OfflineModel {
                                        reply: None,
                                        message: Some((remote_guid, ContextModel::ConnectionAttemptFailed)),
                                        conn: None,
                                        req_conn_done: true,
                                    },
                                )
                            } else if mtu < 32 {
                                Err(PeerFault::InvalidPacket("MTU size is too small."@))
                            } else {
                                let c0 = fresh_conn(now, remote_guid, ConnectMode::RequestedConnection, mtu as usize);
                                let c1 = match timeout {
                                    Some(t) => ConnModel { layer: LayerModel { timeout: t, ..c0.layer }, ..c0 },
                                    None => c0,
                                };
                                Ok(
                                    OfflineModel {
                                        reply: None,
                                        message: None,
                                        conn: Some(
                                            sent_on_conn(
                                                c1,
                                                now,
                                                Priority::Immediate,
                                                Reliability::Reliable,
                                                0,
                                                connection_request_bytes(guid, now),
                                            ),
                                        ),
                                        req_conn_done: true,
                                    },
                                )
                            },
                        },
                    },
                },
            },
        },
    }
}

/// What a packet `s` from `addr`, without a connection, calls for, or the
/// error it is refused with: a packet shorter than an offline message or
/// with an unknown identifier is invalid; otherwise its identifier picks
/// the case.
#[verifier::opaque]
pub open spec fn offline_result(
    now: u64,
    addr: AddressModel,
    s: Seq<u8>,
    guid: u64,
    ping_res: Seq<char>,
    conn_count: usize,
    max_conn_count: usize,
    req: Option<(AddressModel, Option<u64>)>,
) -> Result<OfflineModel, PeerFault> {
    if s.len() < MIN_OFFLINE_PACKET_SIZE {
        Err(PeerFault::InvalidPacket("packet is too small."@))
    } else {
        match OfflineMessageIDs::from_code(s[0]) {
            None => Err(PeerFault::InvalidPacket("invalid offline message id."@)),
            Some(id) => match id {
                OfflineMessageIDs::UnconnectedPing => ping_case(s, 1, guid, ping_res, conn_count, max_conn_count),
                OfflineMessageIDs::UnconnectedPong => pong_case(s, 1, now),
                OfflineMessageIDs::OpenConnectionRequest1 => request1_case(s, 1, guid),
                OfflineMessageIDs::OpenConnectionReply1 => reply1_case(
                    s,
                    1,
                    guid,
                    match req {
                        Some((a, _)) => Some(a),
                        None => None,
                    },
                ),
                OfflineMessageIDs::OpenConnectionRequest2 => request2_case(
                    now,
                    addr,
                    s,
                    1,
                    guid,
                    conn_count,
                    max_conn_count,
                ),
                OfflineMessageIDs::OpenConnectionReply2 => reply2_case(
                    now,
                    s,
                    1,
                    guid,
                    req,
                    conn_count,
                    max_conn_count,
                ),
                OfflineMessageIDs::IncompatibleProtocolVersion => match sp_advance(
                    s,
                    1,
                    OFFLINE_MESSAGE_DATA_ID_LEN as nat,
                ) {
                    Err(e) => Err(PeerFault::RukBytes(e)),
                    Ok(p2) => match sp_u8(s, p2) {
                        Err(e) => Err(PeerFault::RukBytes(e)),
                        Ok((v, p3)) => match sp_u64(s, p3) {
                            Err(e) => Err(PeerFault::RukBytes(e)),
                            Ok((remote_guid, _)) => Ok(
                                message_outcome(
                                    remote_guid,
                                    ContextModel::IncompatibleProtocolVersion { remote_proto_version: v },
                                ),
                            ),
                        },
                    },
                },
                OfflineMessageIDs::AlreadyConnected => notice_case(s, 1, ContextModel::AlreadyConnected),
                OfflineMessageIDs::NoFreeIncomingConnections => notice_case(
                    s,
                    1,
                    ContextModel::NoFreeIncomingConnections,
                ),
                OfflineMessageIDs::ConnectionBanned => notice_case(s, 1, ContextModel::ConnectionBanned),
                OfflineMessageIDs::IpRecentlyConnected => notice_case(
                    s,
                    1,
                    ContextModel::IpRecentlyConnected,
                ),
            },
        }
    }
}

/// Whether an offline outcome agrees with its model or its error.
pub open spec fn offline_matches<T: CongestionController>(
    r: Result<OfflineOutcome<T>, PeerError>,
    addr: SocketAddress,
    expected: Result<OfflineModel, PeerFault>,
) -> bool {
    match r {
        Ok(o) => o.wf(addr) && expected == Ok::<OfflineModel, PeerFault>(o.model()),
        Err(e) => expected == Err::<OfflineModel, PeerFault>(e@),
    }
}

fn offline_message<T: CongestionController>(addr: SocketAddress, guid: u64, context: RukMessageContext) -> (r:
    OfflineOutcome<T>)
    ensures
        r.wf(addr),
        r.model() == message_outcome(guid, context@),
{
    OfflineOutcome {
        reply: None,
        message: Some(RukMessage { addr, guid, context }),
        conn: None,
        req_conn_done: false,
    }
}

fn offline_reply<T: CongestionController>(reply: Vec<u8>) -> (r: OfflineOutcome<T>)
    ensures
        r.model() == reply_outcome(reply@),
        r.message is None,
        r.conn is None,
{
    OfflineOutcome { reply: Some(reply), message: None, conn: None, req_conn_done: false }
}

fn notice_exec<T: CongestionController>(
    addr: SocketAddress,
    data: &[u8],
    p: usize,
    context: RukMessageContext,
) -> (r: Result<OfflineOutcome<T>, PeerError>)
    requires
        p <= data@.len(),
    ensures
        offline_matches(r, addr, notice_case(data@, p as int, context@)),
{
    let p2 = match try_advance(data, p, OFFLINE_MESSAGE_DATA_ID_LEN) {
        Ok(x) => x,
        Err(e) => return Err(PeerError::RukBytes(e)),
    };
    let (remote_guid, _) = match try_get_u64(data, p2) {
        Ok(x) => x,
        Err(e) => return Err(PeerError::RukBytes(e)),
    };
    Ok(offline_message(addr, remote_guid, context))
}

fn ping_exec<T: CongestionController>(
    addr: SocketAddress,
    data: &[u8],
    p: usize,
    guid: u64,
    ping_res: &String,
    conn_count: usize,
    max_conn_count: usize,
) -> (r: Result<OfflineOutcome<T>, PeerError>)
    requires
        p <= data@.len(),
    ensures
        offline_matches(r, addr, ping_case(data@, p as int, guid, ping_res@, conn_count, max_conn_count)),
{
    if conn_count >= max_conn_count {
        return Ok(OfflineOutcome { reply: None, message: None, conn: None, req_conn_done: false });
    }
    let (ping_time, p2) = match try_get_u64(data, p) {
        Ok(x) => x,
        Err(e) => return Err(PeerError::RukBytes(e)),
    };
    let p3 = match try_advance(data, p2, OFFLINE_MESSAGE_DATA_ID_LEN) {
        Ok(x) => x,
        Err(e) => return Err(PeerError::RukBytes(e)),
    };
    let (remote_guid, _) = match try_get_u64(data, p3) {
        Ok(x) => x,
        Err(e) => return Err(PeerError::RukBytes(e)),
    };
    let mut reply: Vec<u8> = Vec::with_capacity(50);
    put_u8(&mut reply, OfflineMessageIDs::UnconnectedPong.to_u8());
    put_u64(&mut reply, ping_time);
    put_u64(&mut reply, guid);
    let magic = offline_message_data_id_bytes();
    put_slice(&mut reply, magic.as_slice());
    put_string(&mut reply, ping_res);
    assert(reply@ =~= ser_u8(OfflineMessageIDs::UnconnectedPong.code()) + ser_u64(ping_time) + ser_u64(guid)
        + offline_message_data_id() + ser_string(ping_res@));
    Ok(
        OfflineOutcome {
            reply: Some(reply),
            message: Some(RukMessage { addr, guid: remote_guid, context: RukMessageContext::UnconnectedPing }),
            conn: None,
            req_conn_done: false,
        },
    )
}

fn pong_exec<T: CongestionController>(addr: SocketAddress, data: &[u8], p: usize, now: u64) -> (r: Result<
    OfflineOutcome<T>,
    PeerError,
>)
    requires
        p <= data@.len(),
    ensures
        offline_matches(r, addr, pong_case(data@, p as int, now)),
{
    let (ping_time, p2) = match try_get_u64(data, p) {
        Ok(x) => x,
        Err(e) => return Err(PeerError::RukBytes(e)),
    };
    let (remote_guid, p3) = match try_get_u64(data, p2) {
        Ok(x) => x,
        Err(e) => return Err(PeerError::RukBytes(e)),
    };
    let p4 = match try_advance(data, p3, OFFLINE_MESSAGE_DATA_ID_LEN) {
        Ok(x) => x,
        Err(e) => return Err(PeerError::RukBytes(e)),
    };
    let (ping_res, _) = match try_get_string(data, p4) {
        Ok(x) => x,
        Err(e) => return Err(PeerError::RukBytes(e)),
    };
    let ping = now.saturating_sub(ping_time);
    Ok(offline_message(addr, remote_guid, RukMessageContext::UnconnectedPong { ping, ping_res }))
}

fn request1_exec<T: CongestionController>(addr: SocketAddress, data: &[u8], p: usize, guid: u64) -> (r: Result<
    OfflineOutcome<T>,
    PeerError,
>)
    requires
        p <= data@.len(),
    ensures
        offline_matches(r, addr, request1_case(data@, p as int, guid)),
{
    let p2 = match try_advance(data, p, OFFLINE_MESSAGE_DATA_ID_LEN) {
        Ok(x) => x,
        Err(e) => return Err(PeerError::RukBytes(e)),
    };
    let (version, p3) = match try_get_u8(data, p2) {
        Ok(x) => x,
        Err(e) => return Err(PeerError::RukBytes(e)),
    };
    let magic = offline_message_data_id_bytes();
    let mut reply: Vec<u8> = Vec::with_capacity(50);
    if version != PROTOCOL_VERSION {
        put_u8(&mut reply, OfflineMessageIDs::IncompatibleProtocolVersion.to_u8());
        put_u8(&mut reply, PROTOCOL_VERSION);
        put_slice(&mut reply, magic.as_slice());
        put_u64(&mut reply, guid);
        assert(reply@ =~= ser_u8(OfflineMessageIDs::IncompatibleProtocolVersion.code()) + ser_u8(
            PROTOCOL_VERSION,
        ) + offline_message_data_id() + ser_u64(guid));
        return Ok(offline_reply(reply));
    }
    let rest = data.len() - p3;
    let mtu: u16 = if rest < MAX_MTU_SIZE - 18 - IP_UDP_HEADER_SIZE {
        (rest + 18 + IP_UDP_HEADER_SIZE) as u16
    } else {
        MAX_MTU_SIZE as u16
    };
    put_u8(&mut reply, OfflineMessageIDs::OpenConnectionReply1.to_u8());
    put_slice(&mut reply, magic.as_slice());
    put_u64(&mut reply, guid);
    put_u8(&mut reply, 0);
    put_u16(&mut reply, mtu);
    proof {
        let size = data@.len() - p3 + 18 + IP_UDP_HEADER_SIZE;
        let m = if size < MAX_MTU_SIZE {
            size
        } else {
            MAX_MTU_SIZE as int
        };
        assert(mtu == m as u16);
    }
    assert(reply@ =~= ser_u8(OfflineMessageIDs::OpenConnectionReply1.code()) + offline_message_data_id()
        + ser_u64(guid) + ser_u8(0) + ser_u16(mtu));
    Ok(offline_reply(reply))
}

fn reply1_exec<T: CongestionController>(
    addr: SocketAddress,
    data: &[u8],
    p: usize,
    guid: u64,
    req_addr: Option<SocketAddress>,
) -> (r: Result<OfflineOutcome<T>, PeerError>)
    requires
        p <= data@.len(),
    ensures
        offline_matches(
            r,
            addr,
            reply1_case(
                data@,
                p as int,
                guid,
                match req_addr {
                    Some(a) => Some(a@),
                    None => None,
                },
            ),
        ),
{
    let p2 = match try_advance(data, p, OFFLINE_MESSAGE_DATA_ID_LEN) {
        Ok(x) => x,
        Err(e) => return Err(PeerError::RukBytes(e)),
    };
    let (_remote_guid, p3) = match try_get_u64(data, p2) {
        Ok(x) => x,
        Err(e) => return Err(PeerError::RukBytes(e)),
    };
    let (flag, p4) = match try_get_u8(data, p3) {
        Ok(x) => x,
        Err(e) => return Err(PeerError::RukBytes(e)),
    };
    let (cookie, p5) = if flag == 1 {
        match try_get_u32(data, p4) {
            Ok((c, q)) => (Some(c), q),
            Err(e) => return Err(PeerError::RukBytes(e)),
        }
    } else {
        (None, p4)
    };
    let mut reply: Vec<u8> = Vec::with_capacity(50);
    put_u8(&mut reply, OfflineMessageIDs::OpenConnectionRequest2.to_u8());
    let magic = offline_message_data_id_bytes();
    put_slice(&mut reply, magic.as_slice());
    if let Some(c) = cookie {
        put_u32(&mut reply, c);
    }
    match req_addr {
        None => Ok(OfflineOutcome { reply: None, message: None, conn: None, req_conn_done: false }),
        Some(a) => {
            if let Some(_) = cookie {
                put_u8(&mut reply, 0);
            }
            let (mtu, _) = match try_get_u16(data, p5) {
                Ok(x) => x,
                Err(e) => return Err(PeerError::RukBytes(e)),
            };
            put_addr(&mut reply, &a);
            put_u16(&mut reply, mtu);
            put_u64(&mut reply, guid);
            assert(reply@ =~= ser_u8(OfflineMessageIDs::OpenConnectionRequest2.code()) + offline_message_data_id()
                + match cookie {
                Some(c) => ser_u32(c) + ser_u8(0),
                None => Seq::empty(),
            } + ser_addr(a@) + ser_u16(mtu) + ser_u64(guid));
            Ok(offline_reply(reply))
        },
    }
}

fn request2_exec<T: CongestionController>(
    now: u64,
    addr: SocketAddress,
    data: &[u8],
    p: usize,
    guid: u64,
    conn_count: usize,
    max_conn_count: usize,
) -> (r: Result<OfflineOutcome<T>, PeerError>)
    requires
        p <= data@.len(),
    ensures
        offline_matches(r, addr, request2_case(now, addr@, data@, p as int, guid, conn_count, max_conn_count)),
{
    let p2 = match try_advance(data, p, OFFLINE_MESSAGE_DATA_ID_LEN) {
        Ok(x) => x,
        Err(e) => return Err(PeerError::RukBytes(e)),
    };
    let (binding_addr, p3) = match try_get_addr(data, p2) {
        Ok(x) => x,
        Err(e) => return Err(PeerError::RukBytes(e)),
    };
    let (mtu, p4) = match try_get_u16(data, p3) {
        Ok(x) => x,
        Err(e) => return Err(PeerError::RukBytes(e)),
    };
    let (remote_guid, _) = match try_get_u64(data, p4) {
        Ok(x) => x,
        Err(e) => return Err(PeerError::RukBytes(e)),
    };
    let magic = offline_message_data_id_bytes();
    let mut reply: Vec<u8> = Vec::with_capacity(50);
    if conn_count >= max_conn_count {
        put_u8(&mut reply, OfflineMessageIDs::NoFreeIncomingConnections.to_u8());
        put_slice(&mut reply, magic.as_slice());
        put_u64(&mut reply, guid);
        assert(reply@ =~= ser_u8(OfflineMessageIDs::NoFreeIncomingConnections.code()) + offline_message_data_id()
            + ser_u64(guid));
        return Ok(offline_reply(reply));
    }
    if mtu < 32 {
        return Err(PeerError::invalid_packet("MTU size is too small."));
    }
    let conn = match register_conn(
        now,
        addr,
        remote_guid,
        binding_addr,
        ConnectMode::UnverfiedSender,
        mtu as usize,
        false,
    ) {
        Some(c) => c,
        None => return Err(PeerError::invalid_packet("MTU size is too small.")),
    };
    put_u8(&mut reply, OfflineMessageIDs::OpenConnectionReply2.to_u8());
    put_slice(&mut reply, magic.as_slice());
    put_u64(&mut reply, guid);
    put_addr(&mut reply, &addr);
    put_u16(&mut reply, mtu);
    put_u8(&mut reply, 0);
    assert(reply@ =~= ser_u8(OfflineMessageIDs::OpenConnectionReply2.code()) + offline_message_data_id()
        + ser_u64(guid) + ser_addr(addr@) + ser_u16(mtu) + ser_u8(0));
    Ok(OfflineOutcome { reply: Some(reply), message: None, conn: Some(conn), req_conn_done: false })
}

fn reply2_exec<T: CongestionController>(
    now: u64,
    addr: SocketAddress,
    data: &[u8],
    p: usize,
    guid: u64,
    req: Option<(SocketAddress, Option<u64>)>,
    conn_count: usize,
    max_conn_count: usize,
) -> (r: Result<OfflineOutcome<T>, PeerError>)
    requires
        p <= data@.len(),
    ensures
        offline_matches(
            r,
            addr,
            reply2_case(
                now,
                data@,
                p as int,
                guid,
                match req {
                    Some((a, t)) => Some((a@, t)),
                    None => None,
                },
                conn_count,
                max_conn_count,
            ),
        ),
{
    let p2 = match try_advance(data, p, OFFLINE_MESSAGE_DATA_ID_LEN) {
        Ok(x) => x,
        Err(e) => return Err(PeerError::RukBytes(e)),
    };
    let (remote_guid, p3) = match try_get_u64(data, p2) {
        Ok(x) => x,
        Err(e) => return Err(PeerError::RukBytes(e)),
    };
    let (binding_addr, p4) = match try_get_addr(data, p3) {
        Ok(x) => x,
        Err(e) => return Err(PeerError::RukBytes(e)),
    };
    let (mtu, p5) = match try_get_u16(data, p4) {
        Ok(x) => x,
        Err(e) => return Err(PeerError::RukBytes(e)),
    };
    let (security, _) = match try_get_u8(data, p5) {
        Ok(x) => x,
        Err(e) => return Err(PeerError::RukBytes(e)),
    };
    match req {
        None => Ok(OfflineOutcome { reply: None, message: None, conn: None, req_conn_done: false }),
        Some((_, timeout)) => {
            if conn_count >= max_conn_count {
                let message = offline_message::<T>(addr, remote_guid, RukMessageContext::ConnectionAttemptFailed);
                return Ok(OfflineOutcome { reply: None, message: message.message, conn: None, req_conn_done: true });
            }
            if mtu < 32 {
                return Err(PeerError::invalid_packet("MTU size is too small."));
            }
            let mut conn: Conn<T> = match register_conn(
                now,
                addr,
                remote_guid,
                binding_addr,
                ConnectMode::UnverfiedSender,
                mtu as usize,
                security == 1,
            ) {
                Some(c) => c,
                None => return Err(PeerError::invalid_packet("MTU size is too small.")),
            };
            conn.connect_mode = ConnectMode::RequestedConnection;
            if let Some(t) = timeout {
                conn.layer.set_timeout(t);
            }
            proof {
                let c0 = fresh_conn(now, remote_guid, ConnectMode::RequestedConnection, mtu as usize);
                let c1 = match timeout {
                    Some(t) => ConnModel { layer: LayerModel { timeout: t, ..c0.layer }, ..c0 },
                    None => c0,
                };
                assert(conn@ == c1);
            }
            let mut request: Vec<u8> = Vec::with_capacity(18);
            put_u8(&mut request, OnlineMessageIDs::ConnectionRequest.to_u8());
            put_u64(&mut request, guid);
            put_u64(&mut request, now);
            put_u8(&mut request, 0);
            assert(request@ =~= connection_request_bytes(guid, now));
            send_to_conn(now, &mut conn, Priority::Immediate, Reliability::Reliable, 0, request);
            Ok(OfflineOutcome { reply: None, message: None, conn: Some(conn), req_conn_done: true })
        },
    }
}

/// Handles a packet `data` from `addr`, which has no connection (see
/// `offline_result`): `guid` is this peer's identity, `ping_res` its
/// answer to pings, `conn_count` and `max_conn_count` the connections it
/// has and allows, and `req_conn` its pending request to connect to
/// `addr`, if any.
pub fn process_offline_packet<T: CongestionController>(
    now: u64,
    addr: SocketAddress,
    data: &[u8],
    guid: u64,
    ping_res: &String,
    conn_count: usize,
    max_conn_count: usize,
    req_conn: Option<&ReqConn>,
) -> (r: Result<OfflineOutcome<T>, PeerError>)
    ensures
        offline_matches(
            r,
            addr,
            offline_result(
                now,
                addr@,
                data@,
                guid,
                ping_res@,
                conn_count,
                max_conn_count,
                match req_conn {
                    Some(q) => Some((q.addr@, q.timeout)),
                    None => None,
                },
            ),
        ),
{
    reveal(offline_result);
    if data.len() < MIN_OFFLINE_PACKET_SIZE {
        return Err(PeerError::invalid_packet("packet is too small."));
    }
    let id = match OfflineMessageIDs::from_u8(data[0]) {
        Some(id) => id,
        None => return Err(PeerError::invalid_packet("invalid offline message id.")),
    };
    match id {
        OfflineMessageIDs::UnconnectedPing => ping_exec(addr, data, 1, guid, ping_res, conn_count, max_conn_count),
        OfflineMessageIDs::UnconnectedPong => pong_exec(addr, data, 1, now),
        OfflineMessageIDs::OpenConnectionRequest1 => request1_exec(addr, data, 1, guid),
        OfflineMessageIDs::OpenConnectionReply1 => reply1_exec(
            addr,
            data,
            1,
            guid,
            match req_conn {
                Some(q) => Some(q.addr),
                None => None,
            },
        ),
        OfflineMessageIDs::OpenConnectionRequest2 => request2_exec(
            now,
            addr,
            data,
            1,
            guid,
            conn_count,
            max_conn_count,
        ),
        OfflineMessageIDs::OpenConnectionReply2 => reply2_exec(
            now,
            addr,
            data,
            1,
            guid,
            match req_conn {
                Some(q) => Some((q.addr, q.timeout)),
                None => None,
            },
            conn_count,
            max_conn_count,
        ),
        OfflineMessageIDs::IncompatibleProtocolVersion => {
            let p2 = match try_advance(data, 1, OFFLINE_MESSAGE_DATA_ID_LEN) {
                Ok(x) => x,
                Err(e) => return Err(PeerError::RukBytes(e)),
            };
            let (remote_proto_version, p3) = match try_get_u8(data, p2) {
                Ok(x) => x,
                Err(e) => return Err(PeerError::RukBytes(e)),
            };
            let (remote_guid, _) = match try_get_u64(data, p3) {
                Ok(x) => x,
                Err(e) => return Err(PeerError::RukBytes(e)),
            };
            Ok(
                offline_message(
                    addr,
                    remote_guid,
                    RukMessageContext::IncompatibleProtocolVersion { remote_proto_version },
                ),
            )
        },
        OfflineMessageIDs::AlreadyConnected => notice_exec(addr, data, 1, RukMessageContext::AlreadyConnected),
        OfflineMessageIDs::NoFreeIncomingConnections => notice_exec(
            addr,
            data,
            1,
            RukMessageContext::NoFreeIncomingConnections,
        ),
        OfflineMessageIDs::ConnectionBanned => notice_exec(addr, data, 1, RukMessageContext::ConnectionBanned),
        OfflineMessageIDs::IpRecentlyConnected => notice_exec(
            addr,
            data,
            1,
            RukMessageContext::IpRecentlyConnected,
        ),
    }
}

/// What a message inside a connection calls for besides the change to
/// the connection: a message for the application, and whether the
/// connection is to be closed.
pub struct MessageOutcome {
    pub message: Option<RukMessage>,
    pub close: bool,
}

/// The mathematical value of a message outcome; the message is given by
/// the identity of its sender and what it says.
pub struct MessageOutcomeModel {
    pub message: Option<(u64, ContextModel)>,
    pub close: bool,
}

impl MessageOutcome {
    pub open spec fn model(&self) -> MessageOutcomeModel {
        MessageOutcomeModel {
            message: match self.message {
                Some(m) => Some((m.guid, m.context@)),
                None => None,
            },
            close: self.close,
        }
    }
}

/// The bytes of `n` unspecified IPv4 addresses.
pub open spec fn zero_addrs(n: nat) -> Seq<u8>
    decreases n,
{
    if n == 0 {
        Seq::empty()
    } else {
        zero_addrs((n - 1) as nat) + ser_addr(AddressModel::V4 { ip: seq![0u8, 0, 0, 0], port: 0 })
    }
}

/// The position after `n` addresses read from `p`.
pub open spec fn sp_addrs(s: Seq<u8>, p: int, n: nat) -> Result<int, BytesFault>
    decreases n,
{
    if n == 0 {
        Ok(p)
    } else {
        match sp_addrs(s, p, (n - 1) as nat) {
            Err(e) => Err(e),
            Ok(q) => match sp_addr(s, q) {
                Err(e) => Err(e),
                Ok((_, q2)) => Ok(q2),
            },
        }
    }
}

/// The time since `then`, never below zero.
pub open spec fn elapsed(now: u64, then: u64) -> u64 {
    if now >= then {
        (now - then) as u64
    } else {
        0
    }
}

/// The bytes accepting a connection request from `addr` made at
/// `ping_time`.
pub open spec fn accepted_bytes(addr: AddressModel, ping_time: u64, now: u64) -> Seq<u8> {
    ser_u8(OnlineMessageIDs::ConnectionRequestAccepted.code()) + ser_addr(addr) + ser_u16(0) + zero_addrs(10)
        + ser_u64(ping_time) + ser_u64(now)
}

/// The bytes confirming a connection to the peer that sees this one at
/// `remote_addr`.
pub open spec fn new_incoming_bytes(remote_addr: AddressModel, pong_time: u64, now: u64) -> Seq<u8> {
    ser_u8(OnlineMessageIDs::NewIncomingConnection.code()) + ser_addr(remote_addr) + zero_addrs(20) + ser_u64(
        pong_time,
    ) + ser_u64(now)
}

/// The bytes answering a ping made at `ping_time`.
pub open spec fn pong_bytes(ping_time: u64, now: u64) -> Seq<u8> {
    ser_u8(OnlineMessageIDs::ConnectedPong.code()) + ser_u64(ping_time) + ser_u64(now)
}

/// A message with nothing for the application.
pub open spec fn quiet() -> MessageOutcomeModel {
    MessageOutcomeModel { message: None, close: false }
}

/// The connection after the message `s` arrives on it from `addr`, and
/// what the message calls for or the error it is refused with. An empty
/// message is invalid, and so is anything but a connection request from a
/// sender not yet verified. A message whose first byte is no identifier
/// goes whole to the application. A connection request is accepted; the
/// acceptance of this side's request connects it, is reported, and is
/// confirmed with a ping after it; the confirmation of an accepted request
/// connects the other side, which pings and then reads it; pings are
/// answered; pongs measure the round trip; a disconnection closes the
/// connection.
pub open spec fn message_result(now: u64, c: ConnModel, addr: AddressModel, s: Seq<u8>) -> (
    ConnModel,
    Result<MessageOutcomeModel, PeerFault>,
) {
    if s.len() == 0 {
        (c, Err(PeerFault::InvalidPacket("message is too small."@)))
    } else if c.connect_mode == ConnectMode::UnverfiedSender && s[0] != OnlineMessageIDs::ConnectionRequest.code() {
        (c, Err(PeerFault::InvalidPacket("unverified sender can only send connection request."@)))
    } else {
        match OnlineMessageIDs::from_code(s[0]) {
            None => (c, Ok(MessageOutcomeModel { message: Some((c.guid, ContextModel::App { data: s })), close: false })),
            Some(OnlineMessageIDs::ConnectionRequest) => match sp_u64(s, 1) {
                Err(e) => (c, Err(PeerFault::RukBytes(e))),
                Ok((_remote_guid, p2)) => match sp_u64(s, p2) {
                    Err(e) => (c, Err(PeerFault::RukBytes(e))),
                    Ok((ping_time, p3)) => match sp_u8(s, p3) {
                        Err(e) => (c, Err(PeerFault::RukBytes(e))),
                        Ok(_) => (
                            sent_on_conn(
                                ConnModel { connect_mode: ConnectMode::HandlingConnectionRequest, ..c },
                                now,
                                Priority::Immediate,
                                Reliability::ReliableOrdered,
                                0,
                                accepted_bytes(addr, ping_time, now),
                            ),
                            Ok(quiet()),
                        ),
                    },
                },
            },
            Some(OnlineMessageIDs::ConnectionRequestAccepted) => if c.connect_mode
                != ConnectMode::RequestedConnection {
                (c, Err(PeerFault::InvalidPacket("connection request accepted is not expected."@)))
            } else {
                match sp_addr(s, 1) {
                    Err(e) => (c, Err(PeerFault::RukBytes(e))),
                    Ok((remote_addr, p2)) => match sp_u16(s, p2) {
                        Err(e) => (c, Err(PeerFault::RukBytes(e))),
                        Ok((_index, p3)) => match sp_addrs(s, p3, 10) {
                            Err(e) => (c, Err(PeerFault::RukBytes(e))),
                            Ok(p4) => match sp_u64(s, p4) {
                                Err(e) => (c, Err(PeerFault::RukBytes(e))),
                                Ok((ping_time, p5)) => match sp_u64(s, p5) {
                                    Err(e) => (c, Err(PeerFault::RukBytes(e))),
                                    Ok((pong_time, _)) => {
                                        let c1 = ConnModel {
                                            ping: elapsed(now, ping_time),
                                            connect_mode: ConnectMode::Connected,
                                            ..c
                                        };
                                        let c2 = sent_on_conn(
                                            c1,
                                            now,
                                            Priority::Immediate,
                                            Reliability::ReliableOrdered,
                                            0,
                                            new_incoming_bytes(remote_addr, pong_time, now),
                                        );
                                        (
                                            sent_on_conn(
                                                c2,
                                                now,
                                                Priority::Immediate,
                                                Reliability::Unreliable,
                                                0,
                                                ping_bytes(now),
                                            ),
                                            Ok(
                                                MessageOutcomeModel {
                                                    message: Some((c.guid, ContextModel::ConnectionRequestAccepted)),
                                                    close: false,
                                                },
                                            ),
                                        )
                                    },
                                },
                            },
                        },
                    },
                }
            },
            Some(OnlineMessageIDs::NewIncomingConnection) => if c.connect_mode
                != ConnectMode::HandlingConnectionRequest {
                (c, Err(PeerFault::InvalidPacket("new incoming connection is not expected."@)))
            } else {
                let c1 = sent_on_conn(
                    ConnModel { connect_mode: ConnectMode::Connected, ..c },
                    now,
                    Priority::Immediate,
                    Reliability::Unreliable,
                    0,
                    ping_bytes(now),
                );
                match sp_addr(s, 1) {
                    Err(e) => (c1, Err(PeerFault::RukBytes(e))),
                    Ok((_remote_addr, p2)) => match sp_addrs(s, p2, 20) {
                        Err(e) => (c1, Err(PeerFault::RukBytes(e))),
                        Ok(p3) => match sp_u64(s, p3) {
                            Err(e) => (c1, Err(PeerFault::RukBytes(e))),
                            Ok((ping_time, p4)) => match sp_u64(s, p4) {
                                Err(e) => (c1, Err(PeerFault::RukBytes(e))),
                                Ok(_) => (
                                    ConnModel { ping: elapsed(now, ping_time), ..c1 },
                                    Ok(
                                        MessageOutcomeModel {
                                            message: Some((c.guid, ContextModel::NewIncomingConnection)),
                                            close: false,
                                        },
                                    ),
                                ),
                            },
                        },
                    },
                }
            },
            Some(OnlineMessageIDs::ConnectedPing) => match sp_u64(s, 1) {
                Err(e) => (c, Err(PeerFault::RukBytes(e))),
                Ok((ping_time, _)) => (
                    sent_on_conn(
                        c,
                        now,
                        Priority::Immediate,
                        Reliability::Unreliable,
                        0,
                        pong_bytes(ping_time, now),
                    ),
                    Ok(quiet()),
                ),
            },
            Some(OnlineMessageIDs::ConnectedPong) => match sp_u64(s, 1) {
                Err(e) => (c, Err(PeerFault::RukBytes(e))),
                Ok((ping_time, p2)) => match sp_u64(s, p2) {
                    Err(e) => (c, Err(PeerFault::RukBytes(e))),
                    Ok(_) => (ConnModel { ping: elapsed(now, ping_time), ..c }, Ok(quiet())),
                },
            },
            Some(OnlineMessageIDs::DisconnectionNotification) => (
                c,
                Ok(MessageOutcomeModel { message: None, close: true }),
            ),
        }
    }
}

fn put_zero_addrs(buf: &mut Vec<u8>, n: usize)
    ensures
        final(buf)@ == old(buf)@ + zero_addrs(n as nat),
{
    let zero = SocketAddress::unspecified_v4();
    let mut i: usize = 0;
    while i < n
        invariant
            i <= n,
            zero@ == (AddressModel::V4 { ip: seq![0u8, 0, 0, 0], port: 0 }),
            buf@ == old(buf)@ + zero_addrs(i as nat),
        decreases n - i,
    {
        put_addr(buf, &zero);
        i += 1;
        assert(buf@ =~= old(buf)@ + zero_addrs(i as nat));
    }
}

fn skip_addrs(data: &[u8], p: usize, n: usize) -> (r: Result<usize, RukBytesError>)
    requires
        p <= data@.len(),
    ensures
        match r {
            Ok(q) => sp_addrs(data@, p as int, n as nat) == Ok::<int, BytesFault>(q as int) && q <= data@.len(),
            Err(e) => sp_addrs(data@, p as int, n as nat) == Err::<int, BytesFault>(e@),
        },
{
    let mut q = p;
    let mut i: usize = 0;
    while i < n
        invariant
            i <= n,
            q <= data@.len(),
            sp_addrs(data@, p as int, i as nat) == Ok::<int, BytesFault>(q as int),
        decreases n - i,
    {
        match try_get_addr(data, q) {
            Ok((_, q2)) => {
                q = q2;
            },
            Err(e) => {
                proof {
                    lemma_sp_addrs_fails(data@, p as int, (i + 1) as nat, n as nat);
                }
                return Err(e);
            },
        }
        i += 1;
    }
    Ok(q)
}

proof fn lemma_sp_addrs_fails(s: Seq<u8>, p: int, i: nat, n: nat)
    requires
        i <= n,
        sp_addrs(s, p, i) is Err,
    ensures
        sp_addrs(s, p, n) == sp_addrs(s, p, i),
    decreases n - i,
{
    if i < n {
        lemma_sp_addrs_fails(s, p, i, (n - 1) as nat);
    }
}

/// Whether a message outcome and the connection agree with the model.
pub open spec fn message_matches<T: CongestionController>(
    r: Result<MessageOutcome, PeerError>,
    conn: Conn<T>,
    addr: SocketAddress,
    expected: (ConnModel, Result<MessageOutcomeModel, PeerFault>),
) -> bool {
    &&& conn@ == expected.0
    &&& match r {
        Ok(o) => expected.1 == Ok::<MessageOutcomeModel, PeerFault>(o.model()) && (o.message matches Some(m)
            ==> m.addr == addr),
        Err(e) => expected.1 == Err::<MessageOutcomeModel, PeerFault>(e@),
    }
}

fn outcome_message(addr: SocketAddress, guid: u64, context: RukMessageContext) -> (r: MessageOutcome)
    ensures
        r.model() == (MessageOutcomeModel { message: Some((guid, context@)), close: false }),
        r.message matches Some(m) && m.addr == addr,
{
    MessageOutcome { message: Some(RukMessage { addr, guid, context }), close: false }
}

fn outcome_quiet() -> (r: MessageOutcome)
    ensures
        r.model() == quiet(),
        r.message is None,
{
    MessageOutcome { message: None, close: false }
}

fn accept_request<T: CongestionController>(now: u64, conn: &mut Conn<T>, addr: SocketAddress, msg: &[u8]) -> (r:
    Result<MessageOutcome, PeerError>)
    requires
        old(conn).wf(),
        msg@.len() > 0,
        OnlineMessageIDs::from_code(msg@[0]) == Some(OnlineMessageIDs::ConnectionRequest),
    ensures
        final(conn).wf(),
        message_matches(r, *final(conn), addr, message_result(now, old(conn)@, addr@, msg@)),
{
    let (_remote_guid, p2) = match try_get_u64(msg, 1) {
        Ok(x) => x,
        Err(e) => return Err(PeerError::RukBytes(e)),
    };
    let (ping_time, p3) = match try_get_u64(msg, p2) {
        Ok(x) => x,
        Err(e) => return Err(PeerError::RukBytes(e)),
    };
    let (_needs_security, _) = match try_get_u8(msg, p3) {
        Ok(x) => x,
        Err(e) => return Err(PeerError::RukBytes(e)),
    };
    conn.connect_mode = ConnectMode::HandlingConnectionRequest;
    let mut reply: Vec<u8> = Vec::with_capacity(300);
    put_u8(&mut reply, OnlineMessageIDs::ConnectionRequestAccepted.to_u8());
    put_addr(&mut reply, &addr);
    put_u16(&mut reply, 0);
    put_zero_addrs(&mut reply, 10);
    put_u64(&mut reply, ping_time);
    put_u64(&mut reply, now);
    assert(reply@ =~= accepted_bytes(addr@, ping_time, now));
    send_to_conn(now, conn, Priority::Immediate, Reliability::ReliableOrdered, 0, reply);
    Ok(outcome_quiet())
}

fn request_accepted<T: CongestionController>(now: u64, conn: &mut Conn<T>, addr: SocketAddress, msg: &[u8]) -> (r:
    Result<MessageOutcome, PeerError>)
    requires
        old(conn).wf(),
        msg@.len() > 0,
        old(conn).connect_mode != ConnectMode::UnverfiedSender,
        OnlineMessageIDs::from_code(msg@[0]) == Some(OnlineMessageIDs::ConnectionRequestAccepted),
    ensures
        final(conn).wf(),
        message_matches(r, *final(conn), addr, message_result(now, old(conn)@, addr@, msg@)),
{
    if conn.connect_mode != ConnectMode::RequestedConnection {
        return Err(PeerError::invalid_packet("connection request accepted is not expected."));
    }
    let (remote_addr, p2) = match try_get_addr(msg, 1) {
        Ok(x) => x,
        Err(e) => return Err(PeerError::RukBytes(e)),
    };
    let (_system_index, p3) = match try_get_u16(msg, p2) {
        Ok(x) => x,
        Err(e) => return Err(PeerError::RukBytes(e)),
    };
    let p4 = match skip_addrs(msg, p3, 10) {
        Ok(x) => x,
        Err(e) => return Err(PeerError::RukBytes(e)),
    };
    let (ping_time, p5) = match try_get_u64(msg, p4) {
        Ok(x) => x,
        Err(e) => return Err(PeerError::RukBytes(e)),
    };
    let (pong_time, _) = match try_get_u64(msg, p5) {
        Ok(x) => x,
        Err(e) => return Err(PeerError::RukBytes(e)),
    };
    conn.ping = now.saturating_sub(ping_time);
    conn.connect_mode = ConnectMode::Connected;
    let outcome = outcome_message(addr, conn.guid, RukMessageContext::ConnectionRequestAccepted);
    let mut reply: Vec<u8> = Vec::with_capacity(300);
    put_u8(&mut reply, OnlineMessageIDs::NewIncomingConnection.to_u8());
    put_addr(&mut reply, &remote_addr);
    put_zero_addrs(&mut reply, 20);
    put_u64(&mut reply, pong_time);
    put_u64(&mut reply, now);
    assert(reply@ =~= new_incoming_bytes(remote_addr@, pong_time, now));
    send_to_conn(now, conn, Priority::Immediate, Reliability::ReliableOrdered, 0, reply);
    send_ping_to_conn(now, conn, Reliability::Unreliable);
    Ok(outcome)
}

fn new_incoming<T: CongestionController>(now: u64, conn: &mut Conn<T>, addr: SocketAddress, msg: &[u8]) -> (r:
    Result<MessageOutcome, PeerError>)
    requires
        old(conn).wf(),
        msg@.len() > 0,
        old(conn).connect_mode != ConnectMode::UnverfiedSender,
        OnlineMessageIDs::from_code(msg@[0]) == Some(OnlineMessageIDs::NewIncomingConnection),
    ensures
        final(conn).wf(),
        message_matches(r, *final(conn), addr, message_result(now, old(conn)@, addr@, msg@)),
{
    if conn.connect_mode != ConnectMode::HandlingConnectionRequest {
        return Err(PeerError::invalid_packet("new incoming connection is not expected."));
    }
    conn.connect_mode = ConnectMode::Connected;
    send_ping_to_conn(now, conn, Reliability::Unreliable);
    let (_remote_addr, p2) = match try_get_addr(msg, 1) {
        Ok(x) => x,
        Err(e) => return Err(PeerError::RukBytes(e)),
    };
    let p3 = match skip_addrs(msg, p2, 20) {
        Ok(x) => x,
        Err(e) => return Err(PeerError::RukBytes(e)),
    };
    let (ping_time, p4) = match try_get_u64(msg, p3) {
        Ok(x) => x,
        Err(e) => return Err(PeerError::RukBytes(e)),
    };
    let (_pong_time, _) = match try_get_u64(msg, p4) {
        Ok(x) => x,
        Err(e) => return Err(PeerError::RukBytes(e)),
    };
    conn.ping = now.saturating_sub(ping_time);
    Ok(outcome_message(addr, conn.guid, RukMessageContext::NewIncomingConnection))
}

/// Handles the message `msg` that arrived on the connection with `addr`
/// (see `message_result`).
pub fn process_message<T: CongestionController>(
    now: u64,
    conn: &mut Conn<T>,
    addr: SocketAddress,
    msg: &[u8],
) -> (r: Result<MessageOutcome, PeerError>)
    requires
        old(conn).wf(),
    ensures
        final(conn).wf(),
        message_matches(r, *final(conn), addr, message_result(now, old(conn)@, addr@, msg@)),
{
    if msg.len() == 0 {
        return Err(PeerError::invalid_packet("message is too small."));
    }
    if conn.connect_mode == ConnectMode::UnverfiedSender && msg[0] != OnlineMessageIDs::ConnectionRequest.to_u8() {
        return Err(PeerError::invalid_packet("unverified sender can only send connection request."));
    }
    match OnlineMessageIDs::from_u8(msg[0]) {
        None => {
            let data = copy_range(msg, 0, msg.len());
            assert(data@ =~= msg@);
            Ok(outcome_message(addr, conn.guid, RukMessageContext::App { data }))
        },
        Some(OnlineMessageIDs::ConnectionRequest) => accept_request(now, conn, addr, msg),
        Some(OnlineMessageIDs::ConnectionRequestAccepted) => request_accepted(now, conn, addr, msg),
        Some(OnlineMessageIDs::NewIncomingConnection) => new_incoming(now, conn, addr, msg),
        Some(OnlineMessageIDs::ConnectedPing) => {
            let (ping_time, _) = match try_get_u64(msg, 1) {
                Ok(x) => x,
                Err(e) => return Err(PeerError::RukBytes(e)),
            };
            let mut reply: Vec<u8> = Vec::with_capacity(17);
            put_u8(&mut reply, OnlineMessageIDs::ConnectedPong.to_u8());
            put_u64(&mut reply, ping_time);
            put_u64(&mut reply, now);
            assert(reply@ =~= pong_bytes(ping_time, now));
            send_to_conn(now, conn, Priority::Immediate, Reliability::Unreliable, 0, reply);
            Ok(outcome_quiet())
        },
        Some(OnlineMessageIDs::ConnectedPong) => {
            let (ping_time, p2) = match try_get_u64(msg, 1) {
                Ok(x) => x,
                Err(e) => return Err(PeerError::RukBytes(e)),
            };
            let (_pong_time, _) = match try_get_u64(msg, p2) {
                Ok(x) => x,
                Err(e) => return Err(PeerError::RukBytes(e)),
            };
            conn.ping = now.saturating_sub(ping_time);
            Ok(outcome_quiet())
        },
        Some(OnlineMessageIDs::DisconnectionNotification) => Ok(MessageOutcome { message: None, close: true }),
    }
}

/// How long a connection may take to be established, in milliseconds.
pub const CONNECT_TIMEOUT: u64 = 10000;

/// How often a connection is pinged, in milliseconds.
pub const PING_INTERVAL: u64 = 5000;

/// A turn of a connection at `now`, with the congestion controller's
/// answers `a`: the connection after it, the datagrams to send, and
/// whether to close it. A connected connection that sent nothing reliable
/// for half its timeout and awaits no acknowledgement is pinged reliably
/// first. The layer then takes its turn; the connection is closed when the
/// layer fails, dies, or the connection is still not established after
/// the time allowed. A connected connection due for a ping is pinged.
pub open spec fn conn_tick(c: ConnModel, now: u64, a: ControllerAnswers) -> (ConnModel, Seq<Seq<u8>>, bool) {
    let c1 = if c.connect_mode == ConnectMode::Connected && now - c.last_reliable_send > c.layer.timeout / 2
        && !cache_busy(c.layer.cache) {
        sent_on_conn(c, now, Priority::Immediate, Reliability::Reliable, 0, ping_bytes(now))
    } else {
        c
    };
    let (l2, d, failed) = update_result(c1.layer, now, a);
    let c2 = ConnModel { layer: l2, ..c1 };
    if failed {
        (c2, d, true)
    } else if l2.is_dead || (c2.connect_mode != ConnectMode::Connected && now - c2.create_time
        > CONNECT_TIMEOUT) {
        (c2, d, true)
    } else if c2.connect_mode == ConnectMode::Connected && now > c2.next_ping_time {
        (
            sent_on_conn(
                ConnModel { next_ping_time: (now + PING_INTERVAL) as u64, ..c2 },
                now,
                Priority::Immediate,
                Reliability::Unreliable,
                0,
                ping_bytes(now),
            ),
            d,
            false,
        )
    } else {
        (c2, d, false)
    }
}

/// What a turn calls for on one connection: the datagrams to send to the
/// peer, and whether to close the connection.
pub struct ConnTick {
    pub datagrams: Vec<Vec<u8>>,
    pub close: bool,
}

/// Gives the connection a turn at `now` (see `conn_tick`, over the answers
/// its congestion controller gave during it).
pub fn update_conn<T: CongestionController>(now: u64, conn: &mut Conn<T>) -> (r: ConnTick)
    requires
        old(conn).wf(),
        now >= old(conn)@.layer.last_update,
        now >= old(conn)@.layer.time_last_datagram_recved,
        now >= old(conn).last_reliable_send,
        now >= old(conn).create_time,
        now + PING_INTERVAL <= u64::MAX,
    ensures
        final(conn).wf(),
        exists|a: ControllerAnswers|
            #![trigger conn_tick(old(conn)@, now, a)]
            {
                let (c, d, close) = conn_tick(old(conn)@, now, a);
                &&& final(conn)@ == c
                &&& output_view(r.datagrams@) == d
                &&& r.close == close
            },
{
    let ghost c0 = conn@;
    if conn.connect_mode == ConnectMode::Connected && now - conn.last_reliable_send > conn.layer.get_timeout() / 2
        && conn.layer.is_retransmit_cache_empty() {
        proof {
            crate::reliability::layer::lemma_send_frame(
                c0.layer,
                Priority::Immediate,
                Reliability::Reliable,
                0,
                ping_bytes(now),
            );
        }
        send_ping_to_conn(now, conn, Reliability::Reliable);
    }
    let ghost c1 = conn@;
    let (datagrams, res) = conn.layer.update(now);
    let ghost a = choose|a: ControllerAnswers|
        #![trigger update_result(c1.layer, now, a)]
        {
            let (l, d, failed) = update_result(c1.layer, now, a);
            &&& conn.layer@ == l
            &&& output_view(datagrams@) == d
            &&& (res is Err <==> failed)
        };
    if res.is_err() {
        assert(conn_tick(c0, now, a).0 == conn@);
        return ConnTick { datagrams, close: true };
    }
    if conn.layer.is_dead() || (conn.connect_mode != ConnectMode::Connected && now - conn.create_time
        > CONNECT_TIMEOUT) {
        assert(conn_tick(c0, now, a).0 == conn@);
        return ConnTick { datagrams, close: true };
    }
    if conn.connect_mode == ConnectMode::Connected && now > conn.next_ping_time {
        conn.next_ping_time = now + PING_INTERVAL;
        send_ping_to_conn(now, conn, Reliability::Unreliable);
    }
    assert(conn_tick(c0, now, a).0 == conn@);
    ConnTick { datagrams, close: false }
}

/// The connection after the first `i` messages of `msgs` arrive on it from
/// `addr`, and what each called for; with `stop_at_error`, nothing after
/// the first message refused is looked at.
pub open spec fn messages_fold(
    now: u64,
    c: ConnModel,
    addr: AddressModel,
    msgs: Seq<Seq<u8>>,
    stop_at_error: bool,
    i: nat,
) -> (ConnModel, Seq<Result<MessageOutcomeModel, PeerFault>>)
    decreases i,
{
    if i == 0 {
        (c, Seq::empty())
    } else {
        let (c1, rs) = messages_fold(now, c, addr, msgs, stop_at_error, (i - 1) as nat);
        if stop_at_error && rs.len() > 0 && rs.last() is Err {
            (c1, rs)
        } else {
            let (c2, r) = message_result(now, c1, addr, msgs[i - 1]);
            (c2, rs.push(r))
        }
    }
}

/// Handles the messages `msgs` that arrived on the connection with `addr`,
/// in order (see `messages_fold`); with `stop_at_error`, stops at the
/// first message refused. Hands back what each message handled called for.
#[verifier::spinoff_prover]
#[verifier::rlimit(40)]
pub fn process_messages<T: CongestionController>(
    now: u64,
    conn: &mut Conn<T>,
    addr: SocketAddress,
    msgs: Vec<Vec<u8>>,
    stop_at_error: bool,
) -> (r: Vec<Result<MessageOutcome, PeerError>>)
    requires
        old(conn).wf(),
    ensures
        final(conn).wf(),
        ({
            let (c, rs) = messages_fold(now, old(conn)@, addr@, output_view(msgs@), stop_at_error, msgs@.len());
            &&& final(conn)@ == c
            &&& r@.len() == rs.len()
            &&& forall|i: int|
                0 <= i < rs.len() ==> match #[trigger] r@[i] {
                    Ok(o) => rs[i] == Ok::<MessageOutcomeModel, PeerFault>(o.model()) && (o.message matches Some(m)
                        ==> m.addr == addr),
                    Err(e) => rs[i] == Err::<MessageOutcomeModel, PeerFault>(e@),
                }
        }),
{
    let ghost ms = output_view(msgs@);
    let ghost c0 = conn@;
    let mut results: Vec<Result<MessageOutcome, PeerError>> = Vec::new();
    let n = msgs.len();
    let mut i: usize = 0;
    let mut stopped = false;
    while i < n
        invariant
            conn.wf(),
            n == msgs@.len(),
            ms == output_view(msgs@),
            i <= n,
            c0 == old(conn)@,
            stopped == (stop_at_error && results@.len() > 0 && results@.last() is Err),
            ({
                let (c, rs) = messages_fold(now, c0, addr@, ms, stop_at_error, i as nat);
                &&& conn@ == c
                &&& results@.len() == rs.len()
                &&& forall|k: int|
                    0 <= k < rs.len() ==> match #[trigger] results@[k] {
                        Ok(o) => rs[k] == Ok::<MessageOutcomeModel, PeerFault>(o.model()) && (o.message matches Some(
                            m,
                        ) ==> m.addr == addr),
                        Err(e) => rs[k] == Err::<MessageOutcomeModel, PeerFault>(e@),
                    }
            }),
        decreases n - i,
    {
        let ghost ri = results@;
        proof {
            let (c, rs) = messages_fold(now, c0, addr@, ms, stop_at_error, i as nat);
            if rs.len() > 0 {
                assert(rs.last() is Err <==> ri.last() is Err);
            }
        }
        if !stopped {
            let res = process_message(now, conn, addr, msgs[i].as_slice());
            let is_err = res.is_err();
            results.push(res);
            stopped = stop_at_error && is_err;
            proof {
                let (c, rs) = messages_fold(now, c0, addr@, ms, stop_at_error, i as nat);
                let (c2, r) = message_result(now, c, addr@, ms[i as int]);
                assert(ms[i as int] == msgs@[i as int]@);
                assert(messages_fold(now, c0, addr@, ms, stop_at_error, (i + 1) as nat) == (c2, rs.push(r)));
                assert forall|k: int| 0 <= k < rs.push(r).len() implies match #[trigger] results@[k] {
                    Ok(o) => rs.push(r)[k] == Ok::<MessageOutcomeModel, PeerFault>(o.model()) && (o.message matches Some(
                        m,
                    ) ==> m.addr == addr),
                    Err(e) => rs.push(r)[k] == Err::<MessageOutcomeModel, PeerFault>(e@),
                } by {
                    if k < rs.len() {
                        assert(results@[k] == ri[k]);
                    }
                }
            }
        }
        i += 1;
    }
    results
}

/// The bytes of an unconnected ping sent at `now` by the peer `guid`.
pub open spec fn unconnected_ping_bytes(now: u64, guid: u64) -> Seq<u8> {
    ser_u8(OfflineMessageIDs::UnconnectedPing.code()) + ser_u64(now) + offline_message_data_id() + ser_u64(guid)
}

/// The bytes of an unconnected ping sent at `now` by the peer `guid`.
pub fn unconnected_ping(now: u64, guid: u64) -> (b: Vec<u8>)
    ensures
        b@ == unconnected_ping_bytes(now, guid),
{
    let mut b: Vec<u8> = Vec::with_capacity(33);
    put_u8(&mut b, OfflineMessageIDs::UnconnectedPing.to_u8());
    put_u64(&mut b, now);
    let magic = offline_message_data_id_bytes();
    put_slice(&mut b, magic.as_slice());
    put_u64(&mut b, guid);
    assert(b@ =~= unconnected_ping_bytes(now, guid));
    b
}

/// The bytes of the notice that closes a connection.
pub open spec fn disconnection_bytes() -> Seq<u8> {
    ser_u8(OnlineMessageIDs::DisconnectionNotification.code())
}

/// The bytes of the notice that closes a connection.
pub fn disconnection_notification() -> (b: Vec<u8>)
    ensures
        b@ == disconnection_bytes(),
{
    let mut b: Vec<u8> = Vec::with_capacity(1);
    put_u8(&mut b, OnlineMessageIDs::DisconnectionNotification.to_u8());
    assert(b@ =~= disconnection_bytes());
    b
}

/// A peer with room for a connection answers an unconnected ping with a
/// pong that the pinger reads back as the responder's identity, the time
/// since the ping, and the responder's ping response; the ping itself is
/// reported with the pinger's identity.
#[verifier::rlimit(80)]
pub proof fn lemma_pong_answers_ping(
    now: u64,
    addr: AddressModel,
    ping_time: u64,
    pinger_guid: u64,
    guid: u64,
    ping_res: Seq<char>,
    conn_count: usize,
    max_conn_count: usize,
    req: Option<(AddressModel, Option<u64>)>,
    later: u64,
    addr2: AddressModel,
    guid2: u64,
    ping_res2: Seq<char>,
    conn_count2: usize,
    max_conn_count2: usize,
    req2: Option<(AddressModel, Option<u64>)>,
)
    requires
        conn_count < max_conn_count,
        vstd::utf8::encode_utf8(ping_res).len() < 0x10000,
    ensures
        ({
            let ping = unconnected_ping_bytes(ping_time, pinger_guid);
            match offline_result(now, addr, ping, guid, ping_res, conn_count, max_conn_count, req) {
                Ok(o) => {
                    &&& o.message == Some((pinger_guid, ContextModel::UnconnectedPing))
                    &&& o.reply matches Some(reply) && offline_result(
                        later,
                        addr2,
                        reply,
                        guid2,
                        ping_res2,
                        conn_count2,
                        max_conn_count2,
                        req2,
                    ) == Ok::<OfflineModel, PeerFault>(
                        message_outcome(
                            guid,
                            ContextModel::UnconnectedPong { ping: elapsed(later, ping_time), ping_res },
                        ),
                    )
                },
                Err(_) => false,
            }
        }),
{
    let ping = unconnected_ping_bytes(ping_time, pinger_guid);
    let reply = pong_bytes_for(ping_time, guid, ping_res);
    lemma_ping_case(ping_time, pinger_guid, guid, ping_res, conn_count, max_conn_count);
    lemma_pong_case(ping_time, guid, ping_res, later);
    assert(ping.len() == 33);
    assert(ping[0] == OfflineMessageIDs::UnconnectedPing.code());
    assert(reply.len() >= 33);
    assert(reply[0] == OfflineMessageIDs::UnconnectedPong.code());
    lemma_offline_dispatch(now, addr, ping, guid, ping_res, conn_count, max_conn_count, req);
    lemma_offline_dispatch(later, addr2, reply, guid2, ping_res2, conn_count2, max_conn_count2, req2);
}

/// The cases of the first three identifiers.
proof fn lemma_offline_dispatch(
    now: u64,
    addr: AddressModel,
    s: Seq<u8>,
    guid: u64,
    ping_res: Seq<char>,
    conn_count: usize,
    max_conn_count: usize,
    req: Option<(AddressModel, Option<u64>)>,
)
    requires
        s.len() >= MIN_OFFLINE_PACKET_SIZE,
    ensures
        s[0] == OfflineMessageIDs::UnconnectedPing.code() ==> offline_result(
            now,
            addr,
            s,
            guid,
            ping_res,
            conn_count,
            max_conn_count,
            req,
        ) == ping_case(s, 1, guid, ping_res, conn_count, max_conn_count),
        s[0] == OfflineMessageIDs::UnconnectedPong.code() ==> offline_result(
            now,
            addr,
            s,
            guid,
            ping_res,
            conn_count,
            max_conn_count,
            req,
        ) == pong_case(s, 1, now),
        s[0] == OfflineMessageIDs::OpenConnectionRequest1.code() ==> offline_result(
            now,
            addr,
            s,
            guid,
            ping_res,
            conn_count,
            max_conn_count,
            req,
        ) == request1_case(s, 1, guid),
        s[0] == OfflineMessageIDs::OpenConnectionRequest2.code() ==> offline_result(
            now,
            addr,
            s,
            guid,
            ping_res,
            conn_count,
            max_conn_count,
            req,
        ) == request2_case(now, addr, s, 1, guid, conn_count, max_conn_count),
        s[0] == OfflineMessageIDs::OpenConnectionReply2.code() ==> offline_result(
            now,
            addr,
            s,
            guid,
            ping_res,
            conn_count,
            max_conn_count,
            req,
        ) == reply2_case(now, s, 1, guid, req, conn_count, max_conn_count),
{
    reveal(offline_result);
}

/// The pong answering a ping made at `ping_time`, from the peer `guid`
/// with the ping response `ping_res`.
pub open spec fn pong_bytes_for(ping_time: u64, guid: u64, ping_res: Seq<char>) -> Seq<u8> {
    ser_u8(OfflineMessageIDs::UnconnectedPong.code()) + ser_u64(ping_time) + ser_u64(guid)
        + offline_message_data_id() + ser_string(ping_res)
}

proof fn lemma_ping_case(
    ping_time: u64,
    pinger_guid: u64,
    guid: u64,
    ping_res: Seq<char>,
    conn_count: usize,
    max_conn_count: usize,
)
    requires
        conn_count < max_conn_count,
    ensures
        ping_case(unconnected_ping_bytes(ping_time, pinger_guid), 1, guid, ping_res, conn_count, max_conn_count)
            == Ok::<OfflineModel, PeerFault>(
            OfflineModel {
                reply: Some(pong_bytes_for(ping_time, guid, ping_res)),
                message: Some((pinger_guid, ContextModel::UnconnectedPing)),
                conn: None,
                req_conn_done: false,
            },
        ),
{
    let ping = unconnected_ping_bytes(ping_time, pinger_guid);
    assert(ping.len() == 33);
    assert(ping.subrange(1, 9) =~= ser_u64(ping_time));
    lemma_u64_roundtrip(ping, 1, ping_time);
    assert(ping.subrange(25, 33) =~= ser_u64(pinger_guid));
    lemma_u64_roundtrip(ping, 25, pinger_guid);
}

#[verifier::spinoff_prover]
#[verifier::rlimit(40)]
proof fn lemma_pong_case(ping_time: u64, guid: u64, ping_res: Seq<char>, later: u64)
    requires
        vstd::utf8::encode_utf8(ping_res).len() < 0x10000,
    ensures
        pong_case(pong_bytes_for(ping_time, guid, ping_res), 1, later) == Ok::<OfflineModel, PeerFault>(
            message_outcome(guid, ContextModel::UnconnectedPong { ping: elapsed(later, ping_time), ping_res }),
        ),
{
    let reply = pong_bytes_for(ping_time, guid, ping_res);
    let n = ser_string(ping_res).len();
    assert(reply.len() == 33 + n);
    assert(reply.subrange(1, 9) =~= ser_u64(ping_time));
    lemma_u64_roundtrip(reply, 1, ping_time);
    assert(reply.subrange(9, 17) =~= ser_u64(guid));
    lemma_u64_roundtrip(reply, 9, guid);
    assert(reply.subrange(33, 33 + n as int) =~= ser_string(ping_res));
    lemma_string_roundtrip(reply, 33, ping_res);
}

/// A peer answers a first request to connect of its own protocol version,
/// sent as a datagram of `mtu` bytes, with a reply that reports that size.
pub proof fn lemma_request1_reports_size(
    mtu: usize,
    now: u64,
    addr: AddressModel,
    guid: u64,
    ping_res: Seq<char>,
    conn_count: usize,
    max_conn_count: usize,
    req: Option<(AddressModel, Option<u64>)>,
)
    requires
        53 <= mtu <= MAX_MTU_SIZE,
    ensures
        offline_result(now, addr, open_request_bytes(mtu), guid, ping_res, conn_count, max_conn_count, req)
            == Ok::<OfflineModel, PeerFault>(
            reply_outcome(
                ser_u8(OfflineMessageIDs::OpenConnectionReply1.code()) + offline_message_data_id() + ser_u64(guid)
                    + ser_u8(0) + ser_u16(mtu as u16),
            ),
        ),
{
    let s = open_request_bytes(mtu);
    assert(s.len() == mtu - IP_UDP_HEADER_SIZE);
    assert(s[0] == OfflineMessageIDs::OpenConnectionRequest1.code());
    lemma_offline_dispatch(now, addr, s, guid, ping_res, conn_count, max_conn_count, req);
    assert(s.subrange(17, 18) =~= ser_u8(PROTOCOL_VERSION));
    lemma_u8_roundtrip(s, 17, PROTOCOL_VERSION);
}

/// The bytes of a second request to connect to `server_addr` with
/// datagrams of `mtu` bytes, from the peer `guid`, without a cookie.
pub open spec fn request2_bytes(server_addr: AddressModel, mtu: u16, guid: u64) -> Seq<u8> {
    ser_u8(OfflineMessageIDs::OpenConnectionRequest2.code()) + offline_message_data_id() + ser_addr(server_addr)
        + ser_u16(mtu) + ser_u64(guid)
}

/// The bytes answering a second request from `client_addr`, by the peer
/// `guid`.
pub open spec fn reply2_bytes(guid: u64, client_addr: AddressModel, mtu: u16) -> Seq<u8> {
    ser_u8(OfflineMessageIDs::OpenConnectionReply2.code()) + offline_message_data_id() + ser_u64(guid) + ser_addr(
        client_addr,
    ) + ser_u16(mtu) + ser_u8(0)
}

/// The bytes of a first reply to a request to connect, from the peer
/// `server_guid`, offering datagrams of `mtu` bytes, with the cookie to
/// send back if the sender asks for one.
pub open spec fn reply1_bytes(server_guid: u64, cookie: Option<u32>, mtu: u16) -> Seq<u8> {
    ser_u8(OfflineMessageIDs::OpenConnectionReply1.code()) + offline_message_data_id() + ser_u64(server_guid)
        + match cookie {
        Some(c) => ser_u8(1) + ser_u32(c),
        None => ser_u8(0),
    } + ser_u16(mtu)
}

/// A peer that asked to connect to `server_addr` answers the first reply,
/// which offers datagrams of `mtu` bytes, with its second request to that
/// address, which sends back the cookie it was given, if any, and asks for
/// exactly the size offered. A peer that asked for nothing does nothing.
#[verifier::spinoff_prover]
#[verifier::rlimit(40)]
pub proof fn lemma_reply1_keeps_size(
    now: u64,
    addr: AddressModel,
    server_guid: u64,
    cookie: Option<u32>,
    mtu: u16,
    guid: u64,
    ping_res: Seq<char>,
    conn_count: usize,
    max_conn_count: usize,
    req: Option<(AddressModel, Option<u64>)>,
)
    ensures
        offline_result(
            now,
            addr,
            reply1_bytes(server_guid, cookie, mtu),
            guid,
            ping_res,
            conn_count,
            max_conn_count,
            req,
        ) == match req {
            Some((server_addr, _)) => Ok::<OfflineModel, PeerFault>(
                reply_outcome(
                    ser_u8(OfflineMessageIDs::OpenConnectionRequest2.code()) + offline_message_data_id() + match cookie {
                        Some(c) => ser_u32(c) + ser_u8(0),
                        None => Seq::empty(),
                    } + ser_addr(server_addr) + ser_u16(mtu) + ser_u64(guid),
                ),
            ),
            None => Ok::<OfflineModel, PeerFault>(no_outcome()),
        },
        req matches Some((server_addr, _)) ==> cookie is None ==> offline_result(
            now,
            addr,
            reply1_bytes(server_guid, cookie, mtu),
            guid,
            ping_res,
            conn_count,
            max_conn_count,
            req,
        ) == Ok::<OfflineModel, PeerFault>(reply_outcome(request2_bytes(server_addr, mtu, guid))),
{
    reveal(offline_result);
    let s = reply1_bytes(server_guid, cookie, mtu);
    assert(s[0] == OfflineMessageIDs::OpenConnectionReply1.code());
    assert(s.subrange(17, 25) =~= ser_u64(server_guid));
    lemma_u64_roundtrip(s, 17, server_guid);
    match cookie {
        Some(c) => {
            assert(s.len() == 32);
            assert(s.subrange(25, 26) =~= ser_u8(1));
            lemma_u8_roundtrip(s, 25, 1);
            assert(s.subrange(26, 30) =~= ser_u32(c));
            lemma_u32_roundtrip(s, 26, c);
            assert(s.subrange(30, 32) =~= ser_u16(mtu));
            lemma_u16_roundtrip(s, 30, mtu);
        },
        None => {
            assert(s.len() == 28);
            assert(s.subrange(25, 26) =~= ser_u8(0));
            lemma_u8_roundtrip(s, 25, 0);
            assert(s.subrange(26, 28) =~= ser_u16(mtu));
            lemma_u16_roundtrip(s, 26, mtu);
            if let Some((server_addr, _)) = req {
                assert(ser_u8(OfflineMessageIDs::OpenConnectionRequest2.code()) + offline_message_data_id()
                    + Seq::<u8>::empty() + ser_addr(server_addr) + ser_u16(mtu) + ser_u64(guid) =~= request2_bytes(
                    server_addr,
                    mtu,
                    guid,
                ));
            }
        },
    }
}

/// A peer at its limit of connections opens none, whatever packet comes
/// in without a connection, and leaves unconnected pings unanswered.
#[verifier::spinoff_prover]
#[verifier::rlimit(40)]
pub proof fn lemma_full_peer_opens_nothing(
    now: u64,
    addr: AddressModel,
    s: Seq<u8>,
    guid: u64,
    ping_res: Seq<char>,
    conn_count: usize,
    max_conn_count: usize,
    req: Option<(AddressModel, Option<u64>)>,
)
    requires
        conn_count >= max_conn_count,
    ensures
        offline_result(now, addr, s, guid, ping_res, conn_count, max_conn_count, req) matches Ok(o) ==> o.conn is None,
        s.len() >= MIN_OFFLINE_PACKET_SIZE && s[0] == OfflineMessageIDs::UnconnectedPing.code() ==> offline_result(
            now,
            addr,
            s,
            guid,
            ping_res,
            conn_count,
            max_conn_count,
            req,
        ) == Ok::<OfflineModel, PeerFault>(no_outcome()),
{
    reveal(offline_result);
}

/// Where each part of a message of four parts lies.
proof fn lemma_parts4(a: Seq<u8>, b: Seq<u8>, c: Seq<u8>, d: Seq<u8>)
    ensures
        (a + b + c + d).len() == a.len() + b.len() + c.len() + d.len(),
        (a + b + c + d).subrange(0, a.len() as int) == a,
        (a + b + c + d).subrange(a.len() as int, (a.len() + b.len()) as int) == b,
        (a + b + c + d).subrange((a.len() + b.len()) as int, (a.len() + b.len() + c.len()) as int) == c,
        (a + b + c + d).subrange(
            (a.len() + b.len() + c.len()) as int,
            (a.len() + b.len() + c.len() + d.len()) as int,
        ) == d,
{
    let s = a + b + c + d;
    let i = a.len() as int;
    let j = i + b.len();
    let k = j + c.len();
    assert(s.subrange(0, i) =~= a);
    assert(s.subrange(i, j) =~= b);
    assert(s.subrange(j, k) =~= c);
    assert(s.subrange(k, k + d.len()) =~= d);
}

proof fn lemma_request2_case(
    now: u64,
    client_addr: AddressModel,
    server_addr: AddressModel,
    mtu: u16,
    client_guid: u64,
    guid: u64,
    conn_count: usize,
    max_conn_count: usize,
)
    requires
        address_wf(server_addr),
        32 <= mtu,
        conn_count < max_conn_count,
    ensures
        request2_case(now, client_addr, request2_bytes(server_addr, mtu, client_guid), 1, guid, conn_count, max_conn_count)
            == Ok::<OfflineModel, PeerFault>(
            OfflineModel {
                reply: Some(reply2_bytes(guid, client_addr, mtu)),
                message: None,
                conn: Some(fresh_conn(now, client_guid, ConnectMode::UnverfiedSender, mtu as usize)),
                req_conn_done: false,
            },
        ),
{
    let head = ser_u8(OfflineMessageIDs::OpenConnectionRequest2.code()) + offline_message_data_id();
    let a = ser_addr(server_addr);
    let n = a.len() as int;
    let s = request2_bytes(server_addr, mtu, client_guid);
    assert(head.len() == 17);
    assert(ser_u16(mtu).len() == 2);
    assert(ser_u64(client_guid).len() == 8);
    lemma_parts4(head, a, ser_u16(mtu), ser_u64(client_guid));
    assert(s == head + a + ser_u16(mtu) + ser_u64(client_guid));
    lemma_addr_roundtrip(s, 17, server_addr);
    lemma_u16_roundtrip(s, 17 + n, mtu);
    lemma_u64_roundtrip(s, 19 + n, client_guid);
    assert(sp_advance(s, 1, OFFLINE_MESSAGE_DATA_ID_LEN as nat) == Ok::<int, BytesFault>(17));
}

#[verifier::rlimit(60)]
proof fn lemma_reply2_parse(server_guid: u64, client_addr: AddressModel, mtu: u16)
    requires
        address_wf(client_addr),
    ensures
        ({
            let s = reply2_bytes(server_guid, client_addr, mtu);
            let n = ser_addr(client_addr).len() as int;
            &&& sp_advance(s, 1, OFFLINE_MESSAGE_DATA_ID_LEN as nat) == Ok::<int, BytesFault>(17)
            &&& sp_u64(s, 17) == Ok::<(u64, int), BytesFault>((server_guid, 25))
            &&& sp_addr(s, 25) == Ok::<(AddressModel, int), BytesFault>((client_addr, 25 + n))
            &&& sp_u16(s, 25 + n) == Ok::<(u16, int), BytesFault>((mtu, 27 + n))
            &&& sp_u8(s, 27 + n) == Ok::<(u8, int), BytesFault>((0, 28 + n))
        }),
{
    let head = ser_u8(OfflineMessageIDs::OpenConnectionReply2.code()) + offline_message_data_id() + ser_u64(server_guid);
    let a = ser_addr(client_addr);
    let n = a.len() as int;
    let s = reply2_bytes(server_guid, client_addr, mtu);
    let pre = ser_u8(OfflineMessageIDs::OpenConnectionReply2.code()) + offline_message_data_id();
    assert(pre.len() == 17);
    assert(ser_u64(server_guid).len() == 8);
    assert(head.len() == 25);
    assert(ser_u16(mtu).len() == 2);
    assert(ser_u8(0).len() == 1);
    lemma_parts4(head, a, ser_u16(mtu), ser_u8(0));
    assert(s == head + a + ser_u16(mtu) + ser_u8(0));
    assert(head.subrange(17, 25) =~= ser_u64(server_guid));
    assert(s.subrange(17, 25) =~= head.subrange(17, 25));
    lemma_u64_roundtrip(s, 17, server_guid);
    lemma_addr_roundtrip(s, 25, client_addr);
    lemma_u16_roundtrip(s, 25 + n, mtu);
    lemma_u8_roundtrip(s, 27 + n, 0);
}

#[verifier::rlimit(60)]
proof fn lemma_reply2_case(
    now: u64,
    server_addr: AddressModel,
    client_addr: AddressModel,
    mtu: u16,
    server_guid: u64,
    client_guid: u64,
    timeout: Option<u64>,
    conn_count: usize,
    max_conn_count: usize,
)
    requires
        conn_count < max_conn_count,
        address_wf(client_addr),
        32 <= mtu,
    ensures
        ({
            let c0 = fresh_conn(now, server_guid, ConnectMode::RequestedConnection, mtu as usize);
            let c1 = match timeout {
                Some(t) => ConnModel { layer: LayerModel { timeout: t, ..c0.layer }, ..c0 },
                None => c0,
            };
            reply2_case(
                now,
                reply2_bytes(server_guid, client_addr, mtu),
                1,
                client_guid,
                Some((server_addr, timeout)),
                conn_count,
                max_conn_count,
            )
                == Ok::<OfflineModel, PeerFault>(
                OfflineModel {
                    reply: None,
                    message: None,
                    conn: Some(
                        sent_on_conn(
                            c1,
                            now,
                            Priority::Immediate,
                            Reliability::Reliable,
                            0,
                            connection_request_bytes(client_guid, now),
                        ),
                    ),
                    req_conn_done: true,
                },
            )
        }),
{
    lemma_reply2_parse(server_guid, client_addr, mtu);
}

/// A peer with room answers a second request to connect (without a
/// cookie) by opening a connection that waits for the requester's
/// connection request; the requester, with room too, reading that answer
/// while its own request is pending, settles the request and opens its
/// connection, with the timeout it asked for, on which its connection request goes out
/// reliably at the highest priority.
#[verifier::rlimit(80)]
pub proof fn lemma_second_request_opens_both_ends(
    now: u64,
    now2: u64,
    server_addr: AddressModel,
    client_addr: AddressModel,
    mtu: u16,
    server_guid: u64,
    client_guid: u64,
    ping_res: Seq<char>,
    conn_count: usize,
    max_conn_count: usize,
    ping_res2: Seq<char>,
    conn_count2: usize,
    max_conn_count2: usize,
    timeout: Option<u64>,
)
    requires
        address_wf(server_addr),
        address_wf(client_addr),
        32 <= mtu,
        conn_count < max_conn_count,
        conn_count2 < max_conn_count2,
    ensures
        offline_result(
            now,
            client_addr,
            request2_bytes(server_addr, mtu, client_guid),
            server_guid,
            ping_res,
            conn_count,
            max_conn_count,
            None,
        ) == Ok::<OfflineModel, PeerFault>(
            OfflineModel {
                reply: Some(reply2_bytes(server_guid, client_addr, mtu)),
                message: None,
                conn: Some(fresh_conn(now, client_guid, ConnectMode::UnverfiedSender, mtu as usize)),
                req_conn_done: false,
            },
        ),
        ({
            let c0 = fresh_conn(now2, server_guid, ConnectMode::RequestedConnection, mtu as usize);
            let c1 = match timeout {
                Some(t) => ConnModel { layer: LayerModel { timeout: t, ..c0.layer }, ..c0 },
                None => c0,
            };
            offline_result(
                now2,
                server_addr,
                reply2_bytes(server_guid, client_addr, mtu),
                client_guid,
                ping_res2,
                conn_count2,
                max_conn_count2,
                Some((server_addr, timeout)),
            ) == Ok::<OfflineModel, PeerFault>(
                OfflineModel {
                    reply: None,
                    message: None,
                    conn: Some(
                        sent_on_conn(
                            c1,
                            now2,
                            Priority::Immediate,
                            Reliability::Reliable,
                            0,
                            connection_request_bytes(client_guid, now2),
                        ),
                    ),
                    req_conn_done: true,
                },
            )
        }),
{
    let s1 = request2_bytes(server_addr, mtu, client_guid);
    let s2 = reply2_bytes(server_guid, client_addr, mtu);
    assert(s1.len() >= 25 && s1[0] == OfflineMessageIDs::OpenConnectionRequest2.code());
    assert(s2.len() >= 25 && s2[0] == OfflineMessageIDs::OpenConnectionReply2.code());
    lemma_request2_case(now, client_addr, server_addr, mtu, client_guid, server_guid, conn_count, max_conn_count);
    lemma_reply2_case(now2, server_addr, client_addr, mtu, server_guid, client_guid, timeout, conn_count2, max_conn_count2);
    lemma_offline_dispatch(now, client_addr, s1, server_guid, ping_res, conn_count, max_conn_count, None);
    lemma_offline_dispatch(
        now2,
        server_addr,
        s2,
        client_guid,
        ping_res2,
        conn_count2,
        max_conn_count2,
        Some((server_addr, timeout)),
    );
}

} // verus!
