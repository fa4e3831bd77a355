use ruknet::conn::{Conn, ConnectMode, ReqConn};
use ruknet::error::PeerError;
use ruknet::peer::{
    check_ban, disconnection_notification, process_message, process_messages, process_offline_packet,
    req_conn_step, send_ping_to_conn, unconnected_ping, update_conn, BanCheck, OfflineOutcome, ReqStep,
};
use ruknet::proto::address::SocketAddress;
use ruknet::reliability::congestion_controller::CongestionController;
use ruknet::{Priority, Reliability, RukMessageContext};

#[derive(Debug)]
struct Fixed {
    next_seq: u32,
}

impl CongestionController for Fixed {
    fn new(_mtu: usize) -> Self {
        Fixed { next_seq: 0 }
    }
    fn should_send_ack(&self, _now: u64, _since: u64) -> bool {
        true
    }
    fn is_in_slow_start(&self) -> bool {
        false
    }
    fn get_seq_and_increment(&mut self) -> u32 {
        let s = self.next_seq;
        self.next_seq += 1;
        s
    }
    fn get_transmission_bandwidth(&mut self, _now: u64, _since: u64, _cont: bool) -> usize {
        1 << 20
    }
    fn get_rto(&self) -> u64 {
        1000
    }
    fn on_resend(&mut self, _now: u64) {}
    fn on_recv_ack(&mut self, _now: u64, _rtt: u64, _rate: Option<u32>, _acked: usize, _seq: u32, _cont: bool) {}
    fn on_recv_nak(&mut self) {}
    fn on_recv_packet(&mut self, _now: u64, _size: usize, _cont: bool) {}
    fn on_send_ack(&mut self, _needs: bool, _rate: &mut Option<u32>) {}
    fn on_send_packet(&mut self, _size: usize) {}
}

const SERVER: SocketAddress = SocketAddress::V4 { ip: [127, 0, 0, 1], port: 19132 };
const CLIENT: SocketAddress = SocketAddress::V4 { ip: [127, 0, 0, 1], port: 19134 };

fn offline(
    now: u64,
    from: SocketAddress,
    data: &[u8],
    guid: u64,
    ping_res: &str,
    req: Option<&ReqConn>,
) -> Result<OfflineOutcome<Fixed>, PeerError> {
    process_offline_packet(now, from, data, guid, &ping_res.to_string(), 0, 10, req)
}

#[test]
fn ping_is_answered_with_the_ping_response() {
    let ping = unconnected_ping(1234, 77);
    assert_eq!(ping.len(), 33);
    assert_eq!(ping[0], 0x01);
    let o = offline(2000, CLIENT, &ping, 5, "ping response", None).unwrap();
    let msg = o.message.unwrap();
    assert_eq!(msg.guid, 77);
    assert_eq!(msg.addr, CLIENT);
    assert!(matches!(msg.context, RukMessageContext::UnconnectedPing));
    let pong = o.reply.unwrap();
    assert_eq!(pong[0], 0x1c);
    let o2 = offline(1300, SERVER, &pong, 77, "", None).unwrap();
    assert!(o2.reply.is_none());
    let msg2 = o2.message.unwrap();
    assert_eq!(msg2.guid, 5);
    match msg2.context {
        RukMessageContext::UnconnectedPong { ping, ping_res } => {
            assert_eq!(ping, 66);
            assert_eq!(ping_res, "ping response");
        }
        other => panic!("unexpected {:?}", other),
    }
}

#[test]
fn pong_from_the_future_counts_zero() {
    let ping = unconnected_ping(5000, 1);
    let o = offline(6000, CLIENT, &ping, 2, "x", None).unwrap();
    let pong = o.reply.unwrap();
    let o2 = offline(10, SERVER, &pong, 1, "", None).unwrap();
    match o2.message.unwrap().context {
        RukMessageContext::UnconnectedPong { ping, .. } => assert_eq!(ping, 0),
        other => panic!("unexpected {:?}", other),
    }
}

#[test]
fn full_peer_ignores_pings() {
    let ping = unconnected_ping(1, 1);
    let o: OfflineOutcome<Fixed> =
        process_offline_packet(1, CLIENT, &ping, 2, &"x".to_string(), 3, 3, None).unwrap();
    assert!(o.reply.is_none());
    assert!(o.message.is_none());
    assert!(o.conn.is_none());
}

#[test]
fn short_or_unknown_offline_packets_are_invalid() {
    match offline(1, CLIENT, &[0x01; 10], 1, "", None) {
        Err(PeerError::InvalidPacket(m)) => assert_eq!(m, "packet is too small."),
        _ => panic!("expected an invalid packet"),
    }
    match offline(1, CLIENT, &[0x02; 30], 1, "", None) {
        Err(PeerError::InvalidPacket(m)) => assert_eq!(m, "invalid offline message id."),
        _ => panic!("expected an invalid packet"),
    }
}

#[test]
fn incompatible_version_is_reported() {
    let mut req = ReqConn::new(0, SERVER, 100, 3, None);
    let bytes = match req_conn_step(1, &mut req) {
        ReqStep::Send(b) => b,
        other => panic!("unexpected {:?}", other),
    };
    let mut wrong = bytes.clone();
    wrong[17] = 10;
    let o = offline(1, CLIENT, &wrong, 9, "", None).unwrap();
    let reply = o.reply.unwrap();
    assert_eq!(reply[0], 0x19);
    assert_eq!(reply[1], 11);
    let o2 = offline(2, SERVER, &reply, 1, "", None).unwrap();
    match o2.message.unwrap().context {
        // the version is written before the magic sequence but read after
        // it, so the last byte of the magic sequence comes back
        RukMessageContext::IncompatibleProtocolVersion { remote_proto_version } => {
            assert_eq!(remote_proto_version, 0x78)
        }
        other => panic!("unexpected {:?}", other),
    }
}

#[test]
fn connection_request_steps_down_sizes_then_gives_up() {
    let mut req = ReqConn::new(0, SERVER, 100, 6, Some(5000));
    assert!(matches!(req_conn_step(0, &mut req), ReqStep::Wait));
    let mut sizes = Vec::new();
    let mut now = 1;
    loop {
        match req_conn_step(now, &mut req) {
            ReqStep::Send(b) => sizes.push(b.len() + 28),
            ReqStep::GiveUp => break,
            ReqStep::Wait => {}
        }
        now += 50;
    }
    assert_eq!(sizes, vec![1492, 1492, 1200, 1200, 576, 576]);
    assert_eq!(req.req_count, 6);
}

#[test]
fn ban_is_checked() {
    assert!(matches!(check_ban(10, None, 1), BanCheck::Pass));
    assert!(matches!(check_ban(10, Some(5), 1), BanCheck::Lift));
    match check_ban(10, Some(10), 0x0102030405060708) {
        BanCheck::Refuse(b) => {
            assert_eq!(b.len(), 25);
            assert_eq!(b[0], 0x17);
            assert_eq!(&b[17..], &[1, 2, 3, 4, 5, 6, 7, 8]);
        }
        other => panic!("unexpected {:?}", other),
    }
}

fn exchange(from: &mut Conn<Fixed>, to: &mut Conn<Fixed>, to_addr_of_from: SocketAddress, now: u64) -> Vec<RukMessageContext> {
    let tick = update_conn(now, from);
    assert!(!tick.close);
    let mut contexts = Vec::new();
    for d in tick.datagrams {
        to.layer.handle_datagram(now, &d).unwrap();
        let msgs = to.layer.recv();
        for r in process_messages(now, to, to_addr_of_from, msgs, true) {
            let o = r.unwrap();
            assert!(!o.close);
            if let Some(m) = o.message {
                contexts.push(m.context);
            }
        }
    }
    contexts
}

#[test]
fn handshake_then_hello_world() {
    // client asks to connect
    let mut req = ReqConn::new(0, SERVER, 100, 3, None);
    let request1 = match req_conn_step(1, &mut req) {
        ReqStep::Send(b) => b,
        other => panic!("unexpected {:?}", other),
    };
    // server answers with the size it saw
    let o = offline(2, CLIENT, &request1, 100, "", None).unwrap();
    let reply1 = o.reply.unwrap();
    assert_eq!(reply1[0], 0x06);
    assert_eq!(&reply1[reply1.len() - 2..], &[0x05, 0xd4]);
    // client sends the second request
    let o = offline(3, SERVER, &reply1, 200, "", Some(&req)).unwrap();
    let request2 = o.reply.unwrap();
    assert_eq!(request2[0], 0x07);
    // server opens a connection
    let o = offline(4, CLIENT, &request2, 100, "", None).unwrap();
    let reply2 = o.reply.unwrap();
    assert_eq!(reply2[0], 0x08);
    let mut server_conn = o.conn.unwrap();
    assert_eq!(server_conn.guid, 200);
    assert_eq!(server_conn.connect_mode, ConnectMode::UnverfiedSender);
    // client opens its connection, with the connection request queued
    let o = offline(5, SERVER, &reply2, 200, "", Some(&req)).unwrap();
    assert!(o.req_conn_done);
    let mut client_conn = o.conn.unwrap();
    assert_eq!(client_conn.guid, 100);
    assert_eq!(client_conn.connect_mode, ConnectMode::RequestedConnection);
    assert_eq!(client_conn.last_reliable_send, 5);
    // connection request, acceptance, confirmation
    let got = exchange(&mut client_conn, &mut server_conn, CLIENT, 6);
    assert!(got.is_empty());
    assert_eq!(server_conn.connect_mode, ConnectMode::HandlingConnectionRequest);
    let got = exchange(&mut server_conn, &mut client_conn, SERVER, 7);
    assert!(matches!(got[0], RukMessageContext::ConnectionRequestAccepted));
    assert_eq!(client_conn.connect_mode, ConnectMode::Connected);
    let got = exchange(&mut client_conn, &mut server_conn, CLIENT, 8);
    assert!(matches!(got[0], RukMessageContext::NewIncomingConnection));
    assert_eq!(server_conn.connect_mode, ConnectMode::Connected);
    // application data both ways
    let mut hello = vec![0xfe];
    hello.extend_from_slice(b"Hello, world!");
    ruknet::peer::send_to_conn(9, &mut client_conn, Priority::Immediate, Reliability::Reliable, 0, hello.clone());
    let got = exchange(&mut client_conn, &mut server_conn, CLIENT, 9);
    let data = got
        .into_iter()
        .find_map(|c| match c {
            RukMessageContext::App { data } => Some(data),
            _ => None,
        })
        .unwrap();
    assert_eq!(data, hello);
}

#[test]
fn unverified_sender_may_only_request() {
    let mut conn: Conn<Fixed> = Conn::new(0, 1, ConnectMode::UnverfiedSender, 1492);
    match process_message(1, &mut conn, CLIENT, &[0x00, 0, 0, 0, 0, 0, 0, 0, 1]) {
        Err(PeerError::InvalidPacket(m)) => assert_eq!(m, "unverified sender can only send connection request."),
        _ => panic!("expected a refusal"),
    }
    match process_message(1, &mut conn, CLIENT, &[]) {
        Err(PeerError::InvalidPacket(m)) => assert_eq!(m, "message is too small."),
        _ => panic!("expected a refusal"),
    }
}

#[test]
fn ping_is_answered_and_pong_measures() {
    let mut conn: Conn<Fixed> = Conn::new(0, 1, ConnectMode::Connected, 1492);
    let mut ping = vec![0x00];
    ping.extend_from_slice(&1000u64.to_be_bytes());
    let o = process_message(1500, &mut conn, CLIENT, &ping).unwrap();
    assert!(o.message.is_none());
    let mut pong = vec![0x03];
    pong.extend_from_slice(&1000u64.to_be_bytes());
    pong.extend_from_slice(&1200u64.to_be_bytes());
    let _ = process_message(1600, &mut conn, CLIENT, &pong).unwrap();
    assert_eq!(conn.ping, 600);
}

#[test]
fn disconnection_closes() {
    let mut conn: Conn<Fixed> = Conn::new(0, 1, ConnectMode::Connected, 1492);
    let bye = disconnection_notification();
    assert_eq!(bye, vec![0x15]);
    let o = process_message(1, &mut conn, CLIENT, &bye).unwrap();
    assert!(o.close);
}

#[test]
fn app_message_keeps_its_first_byte() {
    let mut conn: Conn<Fixed> = Conn::new(0, 42, ConnectMode::Connected, 1492);
    let o = process_message(1, &mut conn, CLIENT, &[0xfe, 1, 2]).unwrap();
    let m = o.message.unwrap();
    assert_eq!(m.guid, 42);
    match m.context {
        RukMessageContext::App { data } => assert_eq!(data, vec![0xfe, 1, 2]),
        other => panic!("unexpected {:?}", other),
    }
}

#[test]
fn stop_at_error_skips_later_messages() {
    let mut conn: Conn<Fixed> = Conn::new(0, 42, ConnectMode::Connected, 1492);
    let msgs = vec![vec![0xfe], vec![], vec![0xfe, 1]];
    let rs = process_messages(1, &mut conn, CLIENT, msgs.clone(), true);
    assert_eq!(rs.len(), 2);
    assert!(rs[1].is_err());
    let rs = process_messages(1, &mut conn, CLIENT, msgs, false);
    assert_eq!(rs.len(), 3);
}

#[test]
fn idle_connection_is_pinged_and_slow_handshake_closed() {
    let mut conn: Conn<Fixed> = Conn::new(0, 1, ConnectMode::Connected, 1492);
    let tick = update_conn(100, &mut conn);
    assert!(!tick.close);
    assert_eq!(conn.next_ping_time, 5100);
    assert_eq!(tick.datagrams.len(), 0);
    let tick = update_conn(200, &mut conn);
    assert_eq!(tick.datagrams.len(), 1);
    assert_eq!(conn.next_ping_time, 5100);
    let mut pending: Conn<Fixed> = Conn::new(0, 1, ConnectMode::RequestedConnection, 1492);
    assert!(!update_conn(5000, &mut pending).close);
    assert!(update_conn(10001, &mut pending).close);
    send_ping_to_conn(300, &mut conn, Reliability::Unreliable);
    assert_eq!(conn.last_reliable_send, 0);
    send_ping_to_conn(300, &mut conn, Reliability::Reliable);
    assert_eq!(conn.last_reliable_send, 300);
}

#[test]
fn truncated_ping_is_a_read_error() {
    let ping = unconnected_ping(1, 2);
    match offline(1, CLIENT, &ping[..25], 3, "", None) {
        Err(PeerError::RukBytes(ruknet::error::RukBytesError::TryGet(e))) => {
            assert_eq!(e.requested, 8);
            assert_eq!(e.available, 0);
        }
        _ => panic!("expected a read error"),
    }
}

#[test]
fn tiny_mtu_is_refused() {
    let mut request2 = vec![0x07];
    request2.extend_from_slice(&ruknet::proto::offline_message_data_id_bytes());
    request2.extend_from_slice(&[4, 127, 0, 0, 1, 0x4a, 0xbc]);
    request2.extend_from_slice(&20u16.to_be_bytes());
    request2.extend_from_slice(&9u64.to_be_bytes());
    match offline(1, CLIENT, &request2, 3, "", None) {
        Err(PeerError::InvalidPacket(m)) => assert_eq!(m, "MTU size is too small."),
        _ => panic!("expected a refusal"),
    }
}

#[test]
fn small_mtu_above_the_headers_opens_a_connection() {
    let mut request2 = vec![0x07];
    request2.extend_from_slice(&ruknet::proto::offline_message_data_id_bytes());
    request2.extend_from_slice(&[4, 127, 0, 0, 1, 0x4a, 0xbc]);
    request2.extend_from_slice(&40u16.to_be_bytes());
    request2.extend_from_slice(&9u64.to_be_bytes());
    let o = offline(1, CLIENT, &request2, 3, "", None).unwrap();
    assert_eq!(o.reply.unwrap()[0], 0x08);
    assert_eq!(o.conn.unwrap().guid, 9);
}

#[test]
fn second_reply_at_the_connection_limit_opens_nothing() {
    let req = ReqConn::new(0, SERVER, 100, 3, None);
    let mut reply2 = vec![0x08];
    reply2.extend_from_slice(&ruknet::proto::offline_message_data_id_bytes());
    reply2.extend_from_slice(&100u64.to_be_bytes());
    reply2.extend_from_slice(&[4, 127, 0, 0, 1, 0x4a, 0xbe]);
    reply2.extend_from_slice(&1400u16.to_be_bytes());
    reply2.push(0);
    let o: OfflineOutcome<Fixed> =
        process_offline_packet(5, SERVER, &reply2, 200, &String::new(), 4, 4, Some(&req)).unwrap();
    assert!(o.conn.is_none());
    assert!(o.req_conn_done);
    let m = o.message.unwrap();
    assert_eq!(m.guid, 100);
    assert!(matches!(m.context, RukMessageContext::ConnectionAttemptFailed));
    let o: OfflineOutcome<Fixed> =
        process_offline_packet(5, SERVER, &reply2, 200, &String::new(), 3, 4, Some(&req)).unwrap();
    assert!(o.conn.is_some());
}

#[test]
fn full_server_refuses_second_request() {
    let mut request2 = vec![0x07];
    request2.extend_from_slice(&ruknet::proto::offline_message_data_id_bytes());
    request2.extend_from_slice(&[4, 127, 0, 0, 1, 0x4a, 0xbc]);
    request2.extend_from_slice(&1400u16.to_be_bytes());
    request2.extend_from_slice(&9u64.to_be_bytes());
    let o: OfflineOutcome<Fixed> =
        process_offline_packet(1, CLIENT, &request2, 3, &String::new(), 10, 10, None).unwrap();
    assert!(o.conn.is_none());
    let reply = o.reply.unwrap();
    assert_eq!(reply[0], 0x14);
    assert_eq!(reply.len(), 25);
}

#[test]
fn answers_without_a_pending_request_are_ignored() {
    let mut req = ReqConn::new(0, SERVER, 100, 3, None);
    let request1 = match req_conn_step(1, &mut req) {
        ReqStep::Send(b) => b,
        other => panic!("unexpected {:?}", other),
    };
    let reply1 = offline(2, CLIENT, &request1, 100, "", None).unwrap().reply.unwrap();
    let o = offline(3, SERVER, &reply1, 200, "", None).unwrap();
    assert!(o.reply.is_none());
    assert!(o.message.is_none());
    assert!(o.conn.is_none());
    assert!(!o.req_conn_done);
}
