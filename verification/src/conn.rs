//! The state kept for a peer: a pending request to connect to it, or a
//! connection with it.
use vstd::prelude::*;

use crate::proto::address::SocketAddress;
use crate::reliability::congestion_controller::CongestionController;
use crate::reliability::layer::{fresh_layer, Layer, LayerModel};

verus! {

/// A request to connect to `addr`, sent again every `req_interval`
/// milliseconds until it has been sent `max_req_count` times.
#[derive(Debug)]
pub struct ReqConn {
    pub addr: SocketAddress,
    pub next_req_time: u64,
    pub req_count: usize,
    pub max_req_count: usize,
    pub req_interval: u64,
    pub timeout: Option<u64>,
}

impl ReqConn {
    /// A request to connect to `addr`, due at once.
    pub fn new(
        now: u64,
        addr: SocketAddress,
        req_interval: u64,
        max_req_count: usize,
        timeout: Option<u64>,
    ) -> (r: Self)
        ensures
            r.addr == addr,
            r.next_req_time == now,
            r.req_count == 0,
            r.max_req_count == max_req_count,
            r.req_interval == req_interval,
            r.timeout == timeout,
    {
        ReqConn { addr, next_req_time: now, req_count: 0, max_req_count, req_interval, timeout }
    }
}

/// How far a connection has come.
#[derive(Debug, Clone, Copy, PartialEq, Eq, Structural)]
pub enum ConnectMode {
    /// The peer asked to connect and has not yet sent its connection
    /// request.
    UnverfiedSender,
    /// This side asked to connect and waits for the acceptance.
    RequestedConnection,
    /// The peer's connection request was accepted; its confirmation is
    /// awaited.
    HandlingConnectionRequest,
    Connected,
}

/// A connection with one peer.
pub struct Conn<T: CongestionController> {
    pub guid: u64,
    pub create_time: u64,
    pub next_ping_time: u64,
    pub ping: u64,
    pub connect_mode: ConnectMode,
    pub layer: Layer<T>,
    pub last_reliable_send: u64,
}

/// The mathematical value of a connection, its congestion controller aside.
pub struct ConnModel {
    pub guid: u64,
    pub create_time: u64,
    pub next_ping_time: u64,
    pub ping: u64,
    pub connect_mode: ConnectMode,
    pub layer: LayerModel,
    pub last_reliable_send: u64,
}

impl<T: CongestionController> View for Conn<T> {
    type V = ConnModel;

    open spec fn view(&self) -> ConnModel {
        ConnModel {
            guid: self.guid,
            create_time: self.create_time,
            next_ping_time: self.next_ping_time,
            ping: self.ping,
            connect_mode: self.connect_mode,
            layer: self.layer@,
            last_reliable_send: self.last_reliable_send,
        }
    }
}

/// A new connection with the peer `guid` at `now`.
pub open spec fn fresh_conn(now: u64, guid: u64, connect_mode: ConnectMode, mtu_size: usize) -> ConnModel {
    ConnModel {
        guid,
        create_time: now,
        next_ping_time: now,
        ping: 0,
        connect_mode,
        layer: fresh_layer(now, mtu_size),
        last_reliable_send: now,
    }
}

impl<T: CongestionController> Conn<T> {
    /// The connection is well formed: its layer is.
    pub open spec fn wf(&self) -> bool {
        self.layer.wf()
    }

    /// A new connection with the peer `guid`, with datagrams of `mtu_size`
    /// bytes.
    pub fn new(now: u64, guid: u64, connect_mode: ConnectMode, mtu_size: usize) -> (c: Self)
        requires
            32 <= mtu_size,
        ensures
            c.wf(),
            c@ == fresh_conn(now, guid, connect_mode, mtu_size),
    {
        Conn {
            guid,
            create_time: now,
            next_ping_time: now,
            ping: 0,
            connect_mode,
            layer: Layer::new(now, mtu_size),
            last_reliable_send: now,
        }
    }
}

} // verus!
