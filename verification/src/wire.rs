//! The bytes of IPv4 and TCP headers. Reading and writing them is the work of
//! the `etherparse` crate; this module holds the plain records that the engine
//! keeps in their place and the calls that cross over.

use vstd::prelude::*;

verus! {

/// The IP protocol number of TCP.
pub const PROTOCOL_TCP: u8 = 6;

/// The protocol family that the device's frame prefix gives to IPv4.
pub const FAMILY_IPV4: u16 = 2;

/// Length of the frame prefix: two bytes of flags, two of protocol family.
pub const PREFIX_LEN: usize = 4;

/// Length of an IPv4 header, and of a TCP header, that carries no options.
pub const BARE_HEADER_LEN: usize = 20;

/// What the engine reads of a received IPv4 header.
#[derive(Clone, Copy, Debug, PartialEq, Eq, Structural)]
pub struct Ipv4Meta {
    /// Source address, first byte on the wire in the highest place.
    pub source: u32,
    /// Destination address, laid out like `source`.
    pub destination: u32,
    pub protocol: u8,
    /// Length of the header with its options, in bytes.
    pub header_len: usize,
}

/// What the engine reads of a received TCP header.
#[derive(Clone, Copy, Debug, PartialEq, Eq, Structural)]
pub struct TcpMeta {
    pub source_port: u16,
    pub destination_port: u16,
    pub sequence_number: u32,
    pub acknowledgment_number: u32,
    pub syn: bool,
    pub ack: bool,
    pub fin: bool,
    pub window_size: u16,
    /// Length of the header with its options, in bytes.
    pub header_len: usize,
}

/// The fields of the IPv4 header that goes out in front of every segment of
/// one connection.
#[derive(Clone, Copy, Debug, PartialEq, Eq, Structural)]
pub struct IpTemplate {
    pub source: u32,
    pub destination: u32,
    pub time_to_live: u8,
    pub protocol: u8,
}

/// The fields of an outgoing TCP header.
#[derive(Clone, Copy, Debug, PartialEq, Eq, Structural)]
pub struct TcpTemplate {
    pub source_port: u16,
    pub destination_port: u16,
    pub sequence_number: u32,
    pub acknowledgment_number: u32,
    pub syn: bool,
    pub ack: bool,
    pub fin: bool,
    pub rst: bool,
    pub window_size: u16,
    pub checksum: u16,
}

/// The 16-bit number that stands big-endian at `at`.
pub open spec fn be16(b: Seq<u8>, at: int) -> int {
    b[at] * 0x100 + b[at + 1]
}

/// The 32-bit number that stands big-endian at `at`.
pub open spec fn be32(b: Seq<u8>, at: int) -> int {
    b[at] * 0x100_0000 + b[at + 1] * 0x1_0000 + b[at + 2] * 0x100 + b[at + 3]
}

/// Header length that the first byte of an IPv4 header announces, in bytes.
pub open spec fn ipv4_announced_len(b: Seq<u8>) -> int {
    (b[0] & 0x0f) * 4
}

/// `b` starts with an IPv4 header that can be read: version 4, a header
/// length of at least five words that `b` holds in full, and a total length
/// that is no shorter than the header.
pub open spec fn ipv4_readable(b: Seq<u8>) -> bool {
    &&& b.len() >= BARE_HEADER_LEN
    &&& b[0] >> 4 == 4
    &&& (b[0] & 0x0f) >= 5
    &&& b.len() >= ipv4_announced_len(b)
    &&& be16(b, 2) >= ipv4_announced_len(b)
}

/// The fields of the IPv4 header at the start of `b`.
pub open spec fn ipv4_fields(b: Seq<u8>) -> Ipv4Meta {
    Ipv4Meta {
        source: be32(b, 12) as u32,
        destination: be32(b, 16) as u32,
        protocol: b[9],
        header_len: ipv4_announced_len(b) as usize,
    }
}

/// Header length that a TCP header announces in its data offset, in bytes.
pub open spec fn tcp_announced_len(b: Seq<u8>) -> int {
    ((b[12] & 0xf0) >> 4) * 4
}

/// `b` starts with a TCP header that can be read: a data offset of at least
/// five words, and `b` holds the header in full.
pub open spec fn tcp_readable(b: Seq<u8>) -> bool {
    &&& b.len() >= BARE_HEADER_LEN
    &&& ((b[12] & 0xf0) >> 4) >= 5
    &&& b.len() >= tcp_announced_len(b)
}

/// The fields of the TCP header at the start of `b`.
pub open spec fn tcp_fields(b: Seq<u8>) -> TcpMeta {
    TcpMeta {
        source_port: be16(b, 0) as u16,
        destination_port: be16(b, 2) as u16,
        sequence_number: be32(b, 4) as u32,
        acknowledgment_number: be32(b, 8) as u32,
        syn: b[13] & 0x02 != 0,
        ack: b[13] & 0x10 != 0,
        fin: b[13] & 0x01 != 0,
        window_size: be16(b, 14) as u16,
        header_len: tcp_announced_len(b) as usize,
    }
}

/// The byte of `x` that stands `place` bytes above the lowest.
pub open spec fn byte_of(x: int, place: int) -> u8 {
    if place == 0 {
        (x % 0x100) as u8
    } else if place == 1 {
        ((x / 0x100) % 0x100) as u8
    } else if place == 2 {
        ((x / 0x1_0000) % 0x100) as u8
    } else {
        ((x / 0x100_0000) % 0x100) as u8
    }
}

/// The header checksum that `etherparse` computes when it writes an IPv4
/// header without options that has these fields.
pub uninterp spec fn ipv4_header_checksum(
    payload_len: u16,
    time_to_live: u8,
    protocol: u8,
    source: u32,
    destination: u32,
) -> u16;

/// The 20 bytes of an IPv4 header without options: version 4 and a header
/// of five words, no service bits, the total length, identification 0, the
/// flag "don't fragment" and fragment offset 0, time to live, protocol,
/// header checksum, source and destination. Numbers stand big-endian.
pub open spec fn ipv4_header_wire(
    payload_len: u16,
    time_to_live: u8,
    protocol: u8,
    source: u32,
    destination: u32,
    checksum: u16,
) -> Seq<u8> {
    seq![
        0x45u8,
        0u8,
        byte_of(payload_len + BARE_HEADER_LEN, 1),
        byte_of(payload_len + BARE_HEADER_LEN, 0),
        0u8,
        0u8,
        0x40u8,
        0u8,
        time_to_live,
        protocol,
        byte_of(checksum as int, 1),
        byte_of(checksum as int, 0),
        byte_of(source as int, 3),
        byte_of(source as int, 2),
        byte_of(source as int, 1),
        byte_of(source as int, 0),
        byte_of(destination as int, 3),
        byte_of(destination as int, 2),
        byte_of(destination as int, 1),
        byte_of(destination as int, 0),
    ]
}

/// The checksum that `etherparse` computes for a TCP header without options
/// that has these fields, sent between these two addresses in front of
/// `payload`.
pub uninterp spec fn tcp_checksum_value(
    source_port: u16,
    destination_port: u16,
    sequence_number: u32,
    acknowledgment_number: u32,
    syn: bool,
    ack: bool,
    fin: bool,
    rst: bool,
    window_size: u16,
    source: u32,
    destination: u32,
    payload: Seq<u8>,
) -> u16;

/// The flag byte of a TCP header that sets no flag but these: FIN is bit 0,
/// SYN bit 1, RST bit 2, ACK bit 4.
pub open spec fn tcp_flag_byte(syn: bool, ack: bool, fin: bool, rst: bool) -> u8 {
    (if fin {
        0x01u8
    } else {
        0u8
    }) | (if syn {
        0x02u8
    } else {
        0u8
    }) | (if rst {
        0x04u8
    } else {
        0u8
    }) | (if ack {
        0x10u8
    } else {
        0u8
    })
}

/// The 20 bytes of a TCP header without options: the two ports, sequence
/// and acknowledgement number, a data offset of five words, the flag byte,
/// window, checksum, urgent pointer 0. Numbers stand big-endian.
pub open spec fn tcp_header_wire(
    source_port: u16,
    destination_port: u16,
    sequence_number: u32,
    acknowledgment_number: u32,
    syn: bool,
    ack: bool,
    fin: bool,
    rst: bool,
    window_size: u16,
    checksum: u16,
) -> Seq<u8> {
    seq![
        byte_of(source_port as int, 1),
        byte_of(source_port as int, 0),
        byte_of(destination_port as int, 1),
        byte_of(destination_port as int, 0),
        byte_of(sequence_number as int, 3),
        byte_of(sequence_number as int, 2),
        byte_of(sequence_number as int, 1),
        byte_of(sequence_number as int, 0),
        byte_of(acknowledgment_number as int, 3),
        byte_of(acknowledgment_number as int, 2),
        byte_of(acknowledgment_number as int, 1),
        byte_of(acknowledgment_number as int, 0),
        0x50u8,
        tcp_flag_byte(syn, ack, fin, rst),
        byte_of(window_size as int, 1),
        byte_of(window_size as int, 0),
        byte_of(checksum as int, 1),
        byte_of(checksum as int, 0),
        0u8,
        0u8,
    ]
}

/// Calls `etherparse::Ipv4HeaderSlice::from_slice` and copies out the fields
/// that the engine reads. Trusted: the call succeeds exactly on the inputs of
/// `ipv4_readable`, the header it finds is the first `ipv4_announced_len`
/// bytes, and each accessor reads its field at the offset that `ipv4_fields`
/// names.
#[verifier::external_body]
pub(crate) fn read_ipv4_header(bytes: &[u8]) -> (r: Option<Ipv4Meta>)
    ensures
        r is Some <==> ipv4_readable(bytes@),
        r is Some ==> r->0 == ipv4_fields(bytes@),
{
    let h = etherparse::Ipv4HeaderSlice::from_slice(bytes).ok()?;
    Some(
        Ipv4Meta {
            source: u32::from_be_bytes(h.source()),
            destination: u32::from_be_bytes(h.destination()),
            protocol: h.protocol(),
            header_len: h.slice().len(),
        },
    )
}

/// Calls `etherparse::TcpHeaderSlice::from_slice` and copies out the fields
/// that the engine reads. Trusted: the call succeeds exactly on the inputs of
/// `tcp_readable`, the header it finds is the first `tcp_announced_len` bytes,
/// and each accessor reads its field at the offset that `tcp_fields` names.
#[verifier::external_body]
pub(crate) fn read_tcp_header(bytes: &[u8]) -> (r: Option<TcpMeta>)
    ensures
        r is Some <==> tcp_readable(bytes@),
        r is Some ==> r->0 == tcp_fields(bytes@),
{
    let h = etherparse::TcpHeaderSlice::from_slice(bytes).ok()?;
    Some(
        TcpMeta {
            source_port: h.source_port(),
            destination_port: h.destination_port(),
            sequence_number: h.sequence_number(),
            acknowledgment_number: h.acknowledgment_number(),
            syn: h.syn(),
            ack: h.ack(),
            fin: h.fin(),
            window_size: h.window_size(),
            header_len: h.slice().len(),
        },
    )
}

/// Calls `etherparse::Ipv4Header::write` on a header made by
/// `Ipv4Header::new`. Trusted: the 20 bytes are laid out as
/// `ipv4_header_wire` says, and the checksum among them depends on the five
/// fields alone. `write` refuses a payload length that does not fit beside
/// the header in 16 bits, which `requires` leaves out.
#[verifier::external_body]
pub(crate) fn write_ipv4_header(payload_len: u16, ip: &IpTemplate) -> (out: Vec<u8>)
    requires
        payload_len + BARE_HEADER_LEN <= u16::MAX,
    ensures
        out@ == ipv4_header_wire(
            payload_len,
            ip.time_to_live,
            ip.protocol,
            ip.source,
            ip.destination,
            ipv4_header_checksum(
                payload_len,
                ip.time_to_live,
                ip.protocol,
                ip.source,
                ip.destination,
            ),
        ),
{
    let (from, to) = (ip.source.to_be_bytes(), ip.destination.to_be_bytes());
    let h = etherparse::Ipv4Header::new(payload_len, ip.time_to_live, ip.protocol, from, to);
    let mut out = Vec::new();
    h.write(&mut out).unwrap();
    out
}

/// Calls `etherparse::TcpHeader::calc_checksum_ipv4`. Trusted: the sum depends
/// on the header's fields, the two addresses and the payload alone. The call
/// refuses a segment longer than 16 bits can count, which `requires` leaves
/// out.
#[verifier::external_body]
pub(crate) fn tcp_checksum(t: &TcpTemplate, ip: &IpTemplate, payload: &[u8]) -> (sum: u16)
    requires
        payload@.len() + BARE_HEADER_LEN <= u16::MAX,
    ensures
        sum == tcp_checksum_value(
            t.source_port,
            t.destination_port,
            t.sequence_number,
            t.acknowledgment_number,
            t.syn,
            t.ack,
            t.fin,
            t.rst,
            t.window_size,
            ip.source,
            ip.destination,
            payload@,
        ),
{
    let (from, to) = (t.source_port, t.destination_port);
    let mut h = etherparse::TcpHeader::new(from, to, t.sequence_number, t.window_size);
    h.acknowledgment_number = t.acknowledgment_number;
    h.syn = t.syn;
    h.ack = t.ack;
    h.fin = t.fin;
    h.rst = t.rst;
    let mut addresses = etherparse::Ipv4Header::default();
    addresses.source = ip.source.to_be_bytes();
    addresses.destination = ip.destination.to_be_bytes();
    h.calc_checksum_ipv4(&addresses, payload).unwrap()
}

/// Calls `etherparse::TcpHeader::write` on a header made by `TcpHeader::new`.
/// Trusted: the 20 bytes are laid out as `tcp_header_wire` says.
#[verifier::external_body]
pub(crate) fn write_tcp_header(t: &TcpTemplate) -> (out: Vec<u8>)
    ensures
        out@ == tcp_header_wire(
            t.source_port,
            t.destination_port,
            t.sequence_number,
            t.acknowledgment_number,
            t.syn,
            t.ack,
            t.fin,
            t.rst,
            t.window_size,
            t.checksum,
        ),
{
    let (from, to) = (t.source_port, t.destination_port);
    let mut h = etherparse::TcpHeader::new(from, to, t.sequence_number, t.window_size);
    h.acknowledgment_number = t.acknowledgment_number;
    h.syn = t.syn;
    h.ack = t.ack;
    h.fin = t.fin;
    h.rst = t.rst;
    h.checksum = t.checksum;
    let mut out = Vec::new();
    h.write(&mut out).unwrap();
    out
}

} // verus!
