use ruknet::error::RukBytesError;
use ruknet::proto::address::{put_addr, put_string, try_get_addr, try_get_string, SocketAddress};
use ruknet::proto::codec::{
    put_u16, put_u24_le, put_u32, put_u64, put_u8, try_advance, try_get_u16, try_get_u24_le, try_get_u32,
    try_get_u64, try_get_u8,
};
use ruknet::proto::{offline_message_data_id_bytes, mtu_sizes};

#[test]
fn integers_are_big_endian() {
    let mut buf = Vec::new();
    put_u8(&mut buf, 0xab);
    put_u16(&mut buf, 0x1234);
    put_u32(&mut buf, 0x0102_0304);
    put_u64(&mut buf, 0x1122_3344_5566_7788);
    assert_eq!(
        buf,
        vec![0xab, 0x12, 0x34, 0x01, 0x02, 0x03, 0x04, 0x11, 0x22, 0x33, 0x44, 0x55, 0x66, 0x77, 0x88]
    );
    assert_eq!(try_get_u8(&buf, 0).unwrap(), (0xab, 1));
    assert_eq!(try_get_u16(&buf, 1).unwrap(), (0x1234, 3));
    assert_eq!(try_get_u32(&buf, 3).unwrap(), (0x0102_0304, 7));
    assert_eq!(try_get_u64(&buf, 7).unwrap(), (0x1122_3344_5566_7788, 15));
}

#[test]
fn u24_is_little_endian() {
    let mut buf = Vec::new();
    put_u24_le(&mut buf, 0x00ab_cdef);
    assert_eq!(buf, vec![0xef, 0xcd, 0xab]);
    assert_eq!(try_get_u24_le(&buf, 0).unwrap(), (0x00ab_cdef, 3));
}

#[test]
fn short_read_reports_sizes() {
    let buf = [1u8, 2];
    match try_get_u32(&buf, 0) {
        Err(RukBytesError::TryGet(e)) => {
            assert_eq!(e.requested, 4);
            assert_eq!(e.available, 2);
        }
        other => panic!("unexpected {:?}", other),
    }
    match try_get_u64(&buf, 1) {
        Err(RukBytesError::TryGet(e)) => {
            assert_eq!(e.requested, 8);
            assert_eq!(e.available, 1);
        }
        other => panic!("unexpected {:?}", other),
    }
}

#[test]
fn advance_past_end_is_invalid_data() {
    let buf = [0u8; 4];
    assert_eq!(try_advance(&buf, 1, 3).unwrap(), 4);
    match try_advance(&buf, 1, 4) {
        Err(RukBytesError::InvalidData(msg)) => assert_eq!(msg, "Not enough data"),
        other => panic!("unexpected {:?}", other),
    }
}

#[test]
fn ipv4_address_roundtrip() {
    let addr = SocketAddress::V4 { ip: [127, 0, 0, 1], port: 19132 };
    let mut buf = Vec::new();
    put_addr(&mut buf, &addr);
    assert_eq!(buf, vec![4, 127, 0, 0, 1, 0x4a, 0xbc]);
    let (back, end) = try_get_addr(&buf, 0).unwrap();
    assert_eq!(back, addr);
    assert_eq!(end, 7);
}

#[test]
fn ipv6_address_roundtrip() {
    let mut ip = [0u8; 16];
    ip[15] = 1;
    let addr = SocketAddress::V6 { ip, port: 443 };
    let mut buf = Vec::new();
    put_addr(&mut buf, &addr);
    assert_eq!(buf.len(), 29);
    assert_eq!(buf[0], 6);
    let (back, end) = try_get_addr(&buf, 0).unwrap();
    assert_eq!(back, addr);
    assert_eq!(end, 29);
}

#[test]
fn unknown_address_version_is_invalid() {
    let buf = [5u8, 0, 0, 0, 0, 0, 0];
    match try_get_addr(&buf, 0) {
        Err(RukBytesError::InvalidData(msg)) => assert_eq!(msg, "Invalid address type"),
        other => panic!("unexpected {:?}", other),
    }
}

#[test]
fn string_roundtrip() {
    let s = String::from("ping response");
    let mut buf = Vec::new();
    put_string(&mut buf, &s);
    assert_eq!(&buf[..2], &[0, 13]);
    let (back, end) = try_get_string(&buf, 0).unwrap();
    assert_eq!(back, s);
    assert_eq!(end, 15);
}

#[test]
fn invalid_utf8_is_replaced() {
    let buf = [0u8, 2, 0xff, b'a'];
    let (s, end) = try_get_string(&buf, 0).unwrap();
    assert_eq!(s, "\u{fffd}a");
    assert_eq!(end, 4);
}

#[test]
fn string_longer_than_buffer_is_refused() {
    let buf = [0u8, 5, b'a'];
    assert!(try_get_string(&buf, 0).is_err());
}

#[test]
fn magic_and_mtu_sizes() {
    let magic = offline_message_data_id_bytes();
    assert_eq!(
        magic,
        vec![0x00, 0xFF, 0xFF, 0x00, 0xFE, 0xFE, 0xFE, 0xFE, 0xFD, 0xFD, 0xFD, 0xFD, 0x12, 0x34, 0x56, 0x78]
    );
    assert_eq!(mtu_sizes(0), 1492);
    assert_eq!(mtu_sizes(1), 1200);
    assert_eq!(mtu_sizes(2), 576);
}
