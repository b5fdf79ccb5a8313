//! Frames as the device hands them over and takes them: a four-byte prefix,
//! an IPv4 header, a TCP header, payload.

use vstd::prelude::*;
use vstd::slice::slice_subrange;
use crate::wire::{
    be16, byte_of, ipv4_fields, ipv4_header_checksum, ipv4_header_wire, ipv4_readable,
    read_ipv4_header, read_tcp_header, tcp_flag_byte,
    tcp_checksum, tcp_checksum_value, tcp_fields, tcp_header_wire, tcp_readable,
    write_ipv4_header, write_tcp_header, IpTemplate, Ipv4Meta, TcpMeta, TcpTemplate,
    BARE_HEADER_LEN, FAMILY_IPV4, PREFIX_LEN, PROTOCOL_TCP,
};

verus! {

/// Largest frame body (IPv4 header, TCP header and payload) that is sent.
pub const MTU: usize = 1500;

/// Largest payload of one segment: what the MTU leaves beside two headers
/// without options.
pub const MAX_PAYLOAD: usize = MTU - 2 * BARE_HEADER_LEN;

/// Why a frame is dropped before it reaches a connection.
#[derive(Clone, Copy, Debug, PartialEq, Eq, Structural)]
pub enum FrameError {
    /// The frame ends inside its prefix.
    Truncated,
    /// The prefix names a protocol family other than IPv4.
    NotIpv4,
    /// No IPv4 header can be read behind the prefix.
    BadIpv4Header,
    /// The IPv4 header names a protocol other than TCP.
    NotTcp,
    /// No TCP header can be read behind the IPv4 header.
    BadTcpHeader,
}

/// A frame that holds a TCP segment.
#[derive(Clone, Copy, Debug, PartialEq, Eq, Structural)]
pub struct ParsedSegment {
    pub ip: Ipv4Meta,
    pub tcp: TcpMeta,
    /// Where in the frame the payload begins; it runs to the frame's end.
    pub data_start: usize,
}

/// How a frame is read. The checks come in the order of the layers: prefix,
/// IPv4 header, protocol number, TCP header.
pub open spec fn frame_parse(frame: Seq<u8>) -> Result<ParsedSegment, FrameError> {
    if frame.len() < PREFIX_LEN {
        Err(FrameError::Truncated)
    } else if be16(frame, 2) != FAMILY_IPV4 {
        Err(FrameError::NotIpv4)
    } else {
        let packet = frame.skip(PREFIX_LEN as int);
        if !ipv4_readable(packet) {
            Err(FrameError::BadIpv4Header)
        } else if ipv4_fields(packet).protocol != PROTOCOL_TCP {
            Err(FrameError::NotTcp)
        } else {
            let ip = ipv4_fields(packet);
            let segment = packet.skip(ip.header_len as int);
            if !tcp_readable(segment) {
                Err(FrameError::BadTcpHeader)
            } else {
                let tcp = tcp_fields(segment);
                Ok(
                    ParsedSegment {
                        ip,
                        tcp,
                        data_start: (PREFIX_LEN + ip.header_len + tcp.header_len) as usize,
                    },
                )
            }
        }
    }
}

/// A header's announced length is a whole number of words between five and
/// fifteen.
pub proof fn lemma_announced_len_bounds(b: u8)
    ensures
        (b & 0x0f) * 4 <= 60,
        ((b & 0xf0) >> 4) * 4 <= 60,
        (b & 0x0f) >= 5 ==> (b & 0x0f) * 4 >= 20,
        ((b & 0xf0) >> 4) >= 5 ==> ((b & 0xf0) >> 4) * 4 >= 20,
{
    assert((b & 0x0f) <= 15) by (bit_vector);
    assert(((b & 0xf0) >> 4) <= 15) by (bit_vector);
}

/// A frame that parses holds both headers in full in front of its payload.
pub proof fn lemma_parsed_segment_bounds(frame: Seq<u8>)
    requires
        frame_parse(frame) is Ok,
    ensures
        PREFIX_LEN + 2 * BARE_HEADER_LEN <= frame_parse(frame)->Ok_0.data_start <= frame.len(),
        frame_parse(frame)->Ok_0.ip.header_len >= BARE_HEADER_LEN,
        frame_parse(frame)->Ok_0.tcp.header_len >= BARE_HEADER_LEN,
        frame_parse(frame)->Ok_0.ip.protocol == PROTOCOL_TCP,
{
    let packet = frame.skip(PREFIX_LEN as int);
    lemma_announced_len_bounds(packet[0]);
    let ip = ipv4_fields(packet);
    let segment = packet.skip(ip.header_len as int);
    lemma_announced_len_bounds(segment[12]);
}

/// Reads a frame down to its TCP header, or says at which layer it fails.
pub fn parse_frame(frame: &[u8]) -> (r: Result<ParsedSegment, FrameError>)
    ensures
        r == frame_parse(frame@),
{
    if frame.len() < PREFIX_LEN {
        return Err(FrameError::Truncated);
    }
    let family: u16 = frame[2] as u16 * 0x100 + frame[3] as u16;
    if family != FAMILY_IPV4 {
        return Err(FrameError::NotIpv4);
    }
    let packet = slice_subrange(frame, PREFIX_LEN, frame.len());
    assert(packet@ == frame@.skip(PREFIX_LEN as int));
    let ip = match read_ipv4_header(packet) {
        Some(ip) => ip,
        None => {
            return Err(FrameError::BadIpv4Header);
        },
    };
    if ip.protocol != PROTOCOL_TCP {
        return Err(FrameError::NotTcp);
    }
    proof {
        lemma_announced_len_bounds(packet@[0]);
    }
    let segment = slice_subrange(packet, ip.header_len, packet.len());
    assert(segment@ == packet@.skip(ip.header_len as int));
    let tcp = match read_tcp_header(segment) {
        Some(tcp) => tcp,
        None => {
            return Err(FrameError::BadTcpHeader);
        },
    };
    proof {
        lemma_announced_len_bounds(segment@[12]);
    }
    Ok(ParsedSegment { ip, tcp, data_start: PREFIX_LEN + ip.header_len + tcp.header_len })
}

/// The TCP header as it goes out: `t` with the checksum over itself, the two
/// addresses and `payload` filled in.
pub open spec fn with_checksum(ip: IpTemplate, t: TcpTemplate, payload: Seq<u8>) -> TcpTemplate {
    TcpTemplate {
        checksum: tcp_checksum_value(
            t.source_port,
            t.destination_port,
            t.sequence_number,
            t.acknowledgment_number,
            t.syn,
            t.ack,
            t.fin,
            t.rst,
            t.window_size,
            ip.source,
            ip.destination,
            payload,
        ),
        ..t
    }
}

/// The bytes of the frame's prefix for IPv4.
pub open spec fn prefix_bytes() -> Seq<u8> {
    seq![0u8, 0u8, 0u8, 2u8]
}

/// The frame that carries one segment: prefix, IPv4 header whose payload is
/// the TCP header and `payload`, TCP header with its checksum, `payload`.
pub open spec fn frame_bytes(ip: IpTemplate, t: TcpTemplate, payload: Seq<u8>) -> Seq<u8> {
    let sent = with_checksum(ip, t, payload);
    prefix_bytes() + ipv4_header_wire(
        (BARE_HEADER_LEN + payload.len()) as u16,
        ip.time_to_live,
        ip.protocol,
        ip.source,
        ip.destination,
        ipv4_header_checksum(
            (BARE_HEADER_LEN + payload.len()) as u16,
            ip.time_to_live,
            ip.protocol,
            ip.source,
            ip.destination,
        ),
    ) + tcp_header_wire(
        sent.source_port,
        sent.destination_port,
        sent.sequence_number,
        sent.acknowledgment_number,
        sent.syn,
        sent.ack,
        sent.fin,
        sent.rst,
        sent.window_size,
        sent.checksum,
    ) + payload
}

/// What a frame of `frame_bytes` is read as: both headers without options,
/// every field as it was written, the payload behind 44 bytes.
pub open spec fn segment_written(ip: IpTemplate, t: TcpTemplate) -> ParsedSegment {
    ParsedSegment {
        ip: Ipv4Meta {
            source: ip.source,
            destination: ip.destination,
            protocol: ip.protocol,
            header_len: BARE_HEADER_LEN,
        },
        tcp: TcpMeta {
            source_port: t.source_port,
            destination_port: t.destination_port,
            sequence_number: t.sequence_number,
            acknowledgment_number: t.acknowledgment_number,
            syn: t.syn,
            ack: t.ack,
            fin: t.fin,
            window_size: t.window_size,
            header_len: BARE_HEADER_LEN,
        },
        data_start: (PREFIX_LEN + 2 * BARE_HEADER_LEN) as usize,
    }
}

/// The two bytes of a 16-bit number give the number back.
pub proof fn lemma_bytes_of_u16(x: u16)
    ensures
        byte_of(x as int, 1) * 0x100 + byte_of(x as int, 0) == x,
{
}

/// The four bytes of a 32-bit number give the number back.
pub proof fn lemma_bytes_of_u32(x: u32)
    ensures
        byte_of(x as int, 3) * 0x100_0000 + byte_of(x as int, 2) * 0x1_0000 + byte_of(x as int, 1)
            * 0x100 + byte_of(x as int, 0) == x,
{
}

/// Each flag is read back from the flag byte as it was written, and the
/// first bytes of both headers announce version 4 and five words.
pub proof fn lemma_flag_byte_reads_back(syn: bool, ack: bool, fin: bool, rst: bool)
    ensures
        (tcp_flag_byte(syn, ack, fin, rst) & 0x01 != 0) == fin,
        (tcp_flag_byte(syn, ack, fin, rst) & 0x02 != 0) == syn,
        (tcp_flag_byte(syn, ack, fin, rst) & 0x10 != 0) == ack,
        0x45u8 >> 4 == 4,
        0x45u8 & 0x0f == 5,
        (0x50u8 & 0xf0) >> 4 == 5,
{
    let f: u8 = if fin {
        0x01
    } else {
        0
    };
    let s: u8 = if syn {
        0x02
    } else {
        0
    };
    let r: u8 = if rst {
        0x04
    } else {
        0
    };
    let a: u8 = if ack {
        0x10
    } else {
        0
    };
    assert(((f | s | r | a) & 0x01 != 0) == (f == 0x01) && ((f | s | r | a) & 0x02 != 0) == (s
        == 0x02) && ((f | s | r | a) & 0x10 != 0) == (a == 0x10)) by (bit_vector)
        requires
            f == 0 || f == 0x01,
            s == 0 || s == 0x02,
            r == 0 || r == 0x04,
            a == 0 || a == 0x10,
    ;
    assert(0x45u8 >> 4 == 4) by (bit_vector);
    assert(0x45u8 & 0x0f == 5) by (bit_vector);
    assert((0x50u8 & 0xf0) >> 4 == 5) by (bit_vector);
}

/// What `build_frame` writes, `parse_frame` reads back: a frame that carries
/// a TCP segment parses, every field of both headers comes back as it went
/// in, and the payload is what stands behind the headers.
#[verifier::rlimit(40)]
pub proof fn law_frame_reads_back(ip: IpTemplate, t: TcpTemplate, payload: Seq<u8>)
    requires
        ip.protocol == PROTOCOL_TCP,
        payload.len() <= MAX_PAYLOAD,
    ensures
        frame_parse(frame_bytes(ip, t, payload)) == Ok::<ParsedSegment, FrameError>(
            segment_written(ip, t),
        ),
        frame_bytes(ip, t, payload).skip(PREFIX_LEN + 2 * BARE_HEADER_LEN) == payload,
{
    let sent = with_checksum(ip, t, payload);
    let total = (BARE_HEADER_LEN + payload.len()) as u16;
    let ip_bytes = ipv4_header_wire(
        total,
        ip.time_to_live,
        ip.protocol,
        ip.source,
        ip.destination,
        ipv4_header_checksum(total, ip.time_to_live, ip.protocol, ip.source, ip.destination),
    );
    let tcp_bytes = tcp_header_wire(
        sent.source_port,
        sent.destination_port,
        sent.sequence_number,
        sent.acknowledgment_number,
        sent.syn,
        sent.ack,
        sent.fin,
        sent.rst,
        sent.window_size,
        sent.checksum,
    );
    let frame = frame_bytes(ip, t, payload);
    assert(frame == prefix_bytes() + ip_bytes + tcp_bytes + payload);
    assert(frame[2] == 0 && frame[3] == 2);
    let packet = frame.skip(PREFIX_LEN as int);
    assert(packet =~= ip_bytes + tcp_bytes + payload);
    lemma_flag_byte_reads_back(t.syn, t.ack, t.fin, t.rst);
    lemma_bytes_of_u16((total + BARE_HEADER_LEN) as u16);
    lemma_bytes_of_u32(ip.source);
    lemma_bytes_of_u32(ip.destination);
    assert(packet[0] == 0x45u8);
    assert(packet[2] == ip_bytes[2] && packet[3] == ip_bytes[3]);
    assert(packet[9] == ip.protocol);
    assert(packet[12] == ip_bytes[12] && packet[13] == ip_bytes[13] && packet[14] == ip_bytes[14]
        && packet[15] == ip_bytes[15]);
    assert(packet[16] == ip_bytes[16] && packet[17] == ip_bytes[17] && packet[18] == ip_bytes[18]
        && packet[19] == ip_bytes[19]);
    assert(ipv4_readable(packet));
    assert(ipv4_fields(packet) == segment_written(ip, t).ip);
    let segment = packet.skip(BARE_HEADER_LEN as int);
    assert(segment =~= tcp_bytes + payload);
    lemma_bytes_of_u16(t.source_port);
    lemma_bytes_of_u16(t.destination_port);
    lemma_bytes_of_u32(t.sequence_number);
    lemma_bytes_of_u32(t.acknowledgment_number);
    lemma_bytes_of_u16(t.window_size);
    assert(segment[0] == tcp_bytes[0] && segment[1] == tcp_bytes[1] && segment[2] == tcp_bytes[2]
        && segment[3] == tcp_bytes[3]);
    assert(segment[4] == tcp_bytes[4] && segment[5] == tcp_bytes[5] && segment[6] == tcp_bytes[6]
        && segment[7] == tcp_bytes[7]);
    assert(segment[8] == tcp_bytes[8] && segment[9] == tcp_bytes[9] && segment[10]
        == tcp_bytes[10] && segment[11] == tcp_bytes[11]);
    assert(segment[12] == 0x50u8);
    assert(segment[13] == tcp_flag_byte(t.syn, t.ack, t.fin, t.rst));
    assert(segment[14] == tcp_bytes[14] && segment[15] == tcp_bytes[15]);
    assert(tcp_readable(segment));
    assert(tcp_fields(segment) == segment_written(ip, t).tcp);
    assert(frame.skip(PREFIX_LEN + 2 * BARE_HEADER_LEN) =~= payload);
}

/// Builds the frame for one segment. The checksum that went out is left in
/// `t`.
pub fn build_frame(ip: &IpTemplate, t: &mut TcpTemplate, payload: &Vec<u8>) -> (frame: Vec<u8>)
    requires
        payload@.len() <= MAX_PAYLOAD,
    ensures
        frame@ == frame_bytes(*ip, *old(t), payload@),
        *final(t) == with_checksum(*ip, *old(t), payload@),
        frame@.len() == PREFIX_LEN + 2 * BARE_HEADER_LEN + payload@.len(),
{
    let tcp_len: u16 = (BARE_HEADER_LEN + payload.len()) as u16;
    let mut ip_bytes = write_ipv4_header(tcp_len, ip);
    t.checksum = tcp_checksum(t, ip, payload.as_slice());
    let mut tcp_bytes = write_tcp_header(t);
    let mut frame: Vec<u8> = Vec::new();
    frame.push(0);
    frame.push(0);
    frame.push(0);
    frame.push(2);
    assert(frame@ == prefix_bytes());
    frame.append(&mut ip_bytes);
    frame.append(&mut tcp_bytes);
    frame.extend_from_slice(payload.as_slice());
    frame
}

} // verus!
