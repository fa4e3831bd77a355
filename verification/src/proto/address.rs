//! Socket addresses and strings on the wire. An IPv4 address is a version
//! byte `4`, four address bytes and a 16-bit port; an IPv6 address is a
//! version byte `6`, a zero family field, the port, a zero flow field,
//! sixteen address bytes and a zero scope field. A string is a 16-bit byte
//! length followed by its UTF-8 bytes.
use vstd::prelude::*;
use vstd::utf8::{decode_utf8, encode_utf8, valid_utf8};

use crate::error::{BytesFault, RukBytesError};
use crate::proto::codec::{
    copy_range, lemma_split_at, lemma_u16_roundtrip, lemma_u32_roundtrip, lemma_u8_roundtrip,
    not_enough_data, parsed, put_slice, put_u16, put_u32, put_u8, ser_u16, ser_u32, ser_u8, sp_u16,
    sp_u32, sp_u8, try_get_u16, try_get_u32, try_get_u8,
};

verus! {

/// A network address: the IP address bytes and the port.
#[derive(Debug, Clone, Copy, PartialEq, Eq, Hash)]
#[allow(inconsistent_fields)]
pub enum SocketAddress {
    V4 { ip: [u8; 4], port: u16 },
    V6 { ip: [u8; 16], port: u16 },
}

/// The mathematical value of an address.
pub enum AddressModel {
    V4 { ip: Seq<u8>, port: u16 },
    V6 { ip: Seq<u8>, port: u16 },
}

impl View for SocketAddress {
    type V = AddressModel;

    open spec fn view(&self) -> AddressModel {
        match self {
            SocketAddress::V4 { ip, port } => AddressModel::V4 { ip: ip@, port: *port },
            SocketAddress::V6 { ip, port } => AddressModel::V6 { ip: ip@, port: *port },
        }
    }
}

impl SocketAddress {
    /// The unspecified IPv4 address `0.0.0.0:0`.
    pub fn unspecified_v4() -> (a: SocketAddress)
        ensures
            a@ == (AddressModel::V4 { ip: seq![0u8, 0, 0, 0], port: 0 }),
    {
        let ip: [u8; 4] = [0, 0, 0, 0];
        assert(ip@ =~= seq![0u8, 0, 0, 0]);
        SocketAddress::V4 { ip, port: 0 }
    }
}

/// Reads `n` bytes one at a time: the first read past the end fails with
/// nothing available.
pub open spec fn sp_byte_run(s: Seq<u8>, p: int, n: nat) -> Result<(Seq<u8>, int), BytesFault> {
    if p + n <= s.len() {
        Ok((s.subrange(p, p + n), p + n))
    } else {
        Err(BytesFault::Short { requested: 1, available: 0 })
    }
}

pub open spec fn sp_v4(s: Seq<u8>, p: int) -> Result<(AddressModel, int), BytesFault> {
    match sp_byte_run(s, p, 4) {
        Err(e) => Err(e),
        Ok((ip, q)) => match sp_u16(s, q) {
            Err(e) => Err(e),
            Ok((port, r)) => Ok((AddressModel::V4 { ip, port }, r)),
        },
    }
}

pub open spec fn sp_v6(s: Seq<u8>, p: int) -> Result<(AddressModel, int), BytesFault> {
    match sp_u16(s, p) {
        Err(e) => Err(e),
        Ok((_, p1)) => match sp_u16(s, p1) {
            Err(e) => Err(e),
            Ok((port, p2)) => match sp_u32(s, p2) {
                Err(e) => Err(e),
                Ok((_, p3)) => match sp_byte_run(s, p3, 16) {
                    Err(e) => Err(e),
                    Ok((ip, p4)) => match sp_u32(s, p4) {
                        Err(e) => Err(e),
                        Ok((_, p5)) => Ok((AddressModel::V6 { ip, port }, p5)),
                    },
                },
            },
        },
    }
}

/// Reads an address at `p`.
pub open spec fn sp_addr(s: Seq<u8>, p: int) -> Result<(AddressModel, int), BytesFault> {
    match sp_u8(s, p) {
        Err(e) => Err(e),
        Ok((version, q)) => if version == 4 {
            sp_v4(s, q)
        } else if version == 6 {
            sp_v6(s, q)
        } else {
            Err(BytesFault::Invalid("Invalid address type"@))
        },
    }
}

/// The bytes an address is written as.
pub open spec fn ser_addr(a: AddressModel) -> Seq<u8> {
    match a {
        AddressModel::V4 { ip, port } => ser_u8(4) + (ip + ser_u16(port)),
        AddressModel::V6 { ip, port } => ser_u8(6) + (ser_u16(0) + (ser_u16(port) + (ser_u32(0) + (
        ip + ser_u32(0))))),
    }
}

/// An address whose IP bytes have the length of their version.
pub open spec fn address_wf(a: AddressModel) -> bool {
    match a {
        AddressModel::V4 { ip, .. } => ip.len() == 4,
        AddressModel::V6 { ip, .. } => ip.len() == 16,
    }
}

fn try_get_byte_run(data: &[u8], pos: usize, n: usize) -> (r: Result<(Vec<u8>, usize), RukBytesError>)
    requires
        pos <= data@.len(),
    ensures
        parsed(r) == sp_byte_run(data@, pos as int, n as nat),
{
    if data.len() - pos < n {
        return Err(RukBytesError::TryGet(crate::error::TryGetError { requested: 1, available: 0 }));
    }
    Ok((copy_range(data, pos, pos + n), pos + n))
}

/// Reads an address: a version byte, then an IPv4 or IPv6 address and port.
pub fn try_get_addr(data: &[u8], pos: usize) -> (r: Result<(SocketAddress, usize), RukBytesError>)
    requires
        pos <= data@.len(),
    ensures
        parsed(r) == sp_addr(data@, pos as int),
        r matches Ok((_, p)) ==> pos < p <= data@.len(),
{
    let (version, p1) = match try_get_u8(data, pos) {
        Ok(x) => x,
        Err(e) => return Err(e),
    };
    if version == 4 {
        let (b, p2) = match try_get_byte_run(data, p1, 4) {
            Ok(x) => x,
            Err(e) => return Err(e),
        };
        let (port, p3) = match try_get_u16(data, p2) {
            Ok(x) => x,
            Err(e) => return Err(e),
        };
        let ip: [u8; 4] = [b[0], b[1], b[2], b[3]];
        assert(ip@ =~= b@);
        Ok((SocketAddress::V4 { ip, port }, p3))
    } else if version == 6 {
        let (_, p2) = match try_get_u16(data, p1) {
            Ok(x) => x,
            Err(e) => return Err(e),
        };
        let (port, p3) = match try_get_u16(data, p2) {
            Ok(x) => x,
            Err(e) => return Err(e),
        };
        let (_, p4) = match try_get_u32(data, p3) {
            Ok(x) => x,
            Err(e) => return Err(e),
        };
        let (b, p5) = match try_get_byte_run(data, p4, 16) {
            Ok(x) => x,
            Err(e) => return Err(e),
        };
        let (_, p6) = match try_get_u32(data, p5) {
            Ok(x) => x,
            Err(e) => return Err(e),
        };
        let ip: [u8; 16] = [
            b[0],
            b[1],
            b[2],
            b[3],
            b[4],
            b[5],
            b[6],
            b[7],
            b[8],
            b[9],
            b[10],
            b[11],
            b[12],
            b[13],
            b[14],
            b[15],
        ];
        assert(ip@ =~= b@);
        Ok((SocketAddress::V6 { ip, port }, p6))
    } else {
        Err(RukBytesError::invalid_data("Invalid address type"))
    }
}

/// Writes an address in the form `try_get_addr` reads.
pub fn put_addr(buf: &mut Vec<u8>, addr: &SocketAddress)
    ensures
        final(buf)@ == old(buf)@ + ser_addr(addr@),
{
    match addr {
        SocketAddress::V4 { ip, port } => {
            put_u8(buf, 4);
            put_slice(buf, ip.as_slice());
            put_u16(buf, *port);
        },
        SocketAddress::V6 { ip, port } => {
            put_u8(buf, 6);
            put_u16(buf, 0);
            put_u16(buf, *port);
            put_u32(buf, 0);
            put_slice(buf, ip.as_slice());
            put_u32(buf, 0);
        },
    }
    assert(final(buf)@ =~= old(buf)@ + ser_addr(addr@));
}

/// An address written at `p` and read back from `p` gives itself back.
pub proof fn lemma_addr_roundtrip(s: Seq<u8>, p: int, a: AddressModel)
    requires
        0 <= p,
        address_wf(a),
        p + ser_addr(a).len() <= s.len(),
        s.subrange(p, p + ser_addr(a).len()) == ser_addr(a),
    ensures
        sp_addr(s, p) == Ok::<(AddressModel, int), BytesFault>((a, p + ser_addr(a).len())),
{
    match a {
        AddressModel::V4 { ip, port } => {
            lemma_split_at(s, p, ser_u8(4), ip + ser_u16(port));
            lemma_split_at(s, p + 1, ip, ser_u16(port));
            lemma_u8_roundtrip(s, p, 4);
            lemma_u16_roundtrip(s, p + 5, port);
        },
        AddressModel::V6 { ip, port } => {
            let t5 = ip + ser_u32(0);
            let t4 = ser_u32(0) + t5;
            let t3 = ser_u16(port) + t4;
            let t2 = ser_u16(0) + t3;
            lemma_split_at(s, p, ser_u8(6), t2);
            lemma_split_at(s, p + 1, ser_u16(0), t3);
            lemma_split_at(s, p + 3, ser_u16(port), t4);
            lemma_split_at(s, p + 5, ser_u32(0), t5);
            lemma_split_at(s, p + 9, ip, ser_u32(0));
            lemma_u8_roundtrip(s, p, 6);
            lemma_u16_roundtrip(s, p + 1, 0);
            lemma_u16_roundtrip(s, p + 3, port);
            lemma_u32_roundtrip(s, p + 5, 0);
            lemma_u32_roundtrip(s, p + 25, 0);
        },
    }
}

/// What a byte sequence decodes to when invalid UTF-8 sequences are
/// replaced by the replacement character.
pub uninterp spec fn utf8_lossy(bytes: Seq<u8>) -> Seq<char>;

/// Decodes bytes as UTF-8 (`String::from_utf8_lossy`), replacing invalid
/// sequences; valid UTF-8 decodes to exactly its characters.
#[verifier::external_body]
fn string_from_utf8_lossy(bytes: &[u8]) -> (s: String)
    ensures
        s@ == utf8_lossy(bytes@),
        valid_utf8(bytes@) ==> s@ == decode_utf8(bytes@),
{
    String::from_utf8_lossy(bytes).to_string()
}

/// The characters bytes decode to: exactly the decoded characters when the
/// bytes are valid UTF-8.
pub open spec fn decoded_text(bytes: Seq<u8>) -> Seq<char> {
    if valid_utf8(bytes) {
        decode_utf8(bytes)
    } else {
        utf8_lossy(bytes)
    }
}

/// Reads a string at `p`.
pub open spec fn sp_string(s: Seq<u8>, p: int) -> Result<(Seq<char>, int), BytesFault> {
    match sp_u16(s, p) {
        Err(e) => Err(e),
        Ok((len, q)) => if s.len() - q < len {
            Err(not_enough_data())
        } else {
            Ok((decoded_text(s.subrange(q, q + len)), q + len))
        },
    }
}

/// The bytes a string is written as: its length cut to 16 bits, then its
/// UTF-8 bytes.
pub open spec fn ser_string(chars: Seq<char>) -> Seq<u8> {
    ser_u16((encode_utf8(chars).len() % 0x10000) as u16) + encode_utf8(chars)
}

/// Reads a string: a 16-bit byte length and that many bytes, decoded.
pub fn try_get_string(data: &[u8], pos: usize) -> (r: Result<(String, usize), RukBytesError>)
    requires
        pos <= data@.len(),
    ensures
        parsed(r) == sp_string(data@, pos as int),
        r matches Ok((_, p)) ==> pos < p <= data@.len(),
{
    let (len, p1) = match try_get_u16(data, pos) {
        Ok(x) => x,
        Err(e) => return Err(e),
    };
    if data.len() - p1 < len as usize {
        return Err(RukBytesError::invalid_data("Not enough data"));
    }
    let end = p1 + len as usize;
    let bytes = copy_range(data, p1, end);
    let s = string_from_utf8_lossy(bytes.as_slice());
    Ok((s, end))
}

/// Writes a string in the form `try_get_string` reads.
pub fn put_string(buf: &mut Vec<u8>, s: &String)
    ensures
        final(buf)@ == old(buf)@ + ser_string(s@),
{
    let bytes = s.as_str().as_bytes();
    put_u16(buf, (bytes.len() % 0x10000) as u16);
    put_slice(buf, bytes);
}

/// A string of fewer than 65536 UTF-8 bytes, written at `p` and read back
/// from `p`, gives itself back.
pub proof fn lemma_string_roundtrip(s: Seq<u8>, p: int, chars: Seq<char>)
    requires
        0 <= p,
        encode_utf8(chars).len() < 0x10000,
        p + ser_string(chars).len() <= s.len(),
        s.subrange(p, p + ser_string(chars).len()) == ser_string(chars),
    ensures
        sp_string(s, p) == Ok::<(Seq<char>, int), BytesFault>((chars, p + ser_string(chars).len())),
        valid_utf8(encode_utf8(chars)),
        decode_utf8(encode_utf8(chars)) == chars,
{
    broadcast use vstd::utf8::encode_utf8_valid_utf8, vstd::utf8::encode_utf8_decode_utf8;

    let b = encode_utf8(chars);
    let n = (b.len() % 0x10000) as u16;
    lemma_split_at(s, p, ser_u16(n), b);
    lemma_u16_roundtrip(s, p, n);
    assert(valid_utf8(b));
    assert(decode_utf8(b) == chars);
}

} // verus!
