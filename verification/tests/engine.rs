use tcprust::bytes::Outbox;
use tcprust::connection::{Connection, ProtocolError};
use tcprust::state::State;
use tcprust::timers::smoothed;
use tcprust::wire::{Ipv4Meta, TcpMeta};

const MS: u64 = 1_000_000;
const S: u64 = 1_000_000_000;

fn engine_ip() -> Ipv4Meta {
    Ipv4Meta { source: 0x0a000002, destination: 0x0a000001, protocol: 6, header_len: 20 }
}

fn engine_tcp(seq: u32, ack: Option<u32>, syn: bool, fin: bool, window: u16) -> TcpMeta {
    TcpMeta {
        source_port: 40000,
        destination_port: 9000,
        sequence_number: seq,
        acknowledgment_number: ack.unwrap_or(0),
        syn,
        ack: ack.is_some(),
        fin,
        window_size: window,
        header_len: 20,
    }
}

struct EngineSeen {
    seq: u32,
    ack: u32,
    syn: bool,
    ack_flag: bool,
    fin: bool,
    rst: bool,
    window: u16,
    payload: Vec<u8>,
}

/// Reads a frame that the engine put out, and holds it to its checksums.
fn engine_seen(frame: &[u8]) -> EngineSeen {
    assert_eq!(&frame[..4], &[0, 0, 0, 2]);
    let ip = etherparse::Ipv4HeaderSlice::from_slice(&frame[4..]).unwrap();
    assert_eq!(ip.source(), [10, 0, 0, 1]);
    assert_eq!(ip.destination(), [10, 0, 0, 2]);
    assert_eq!(ip.ttl(), 64);
    assert_eq!(ip.protocol(), 6);
    assert_eq!(usize::from(ip.total_len()), frame.len() - 4);
    assert_eq!(ip.to_header().calc_header_checksum().unwrap(), ip.header_checksum());
    let tcp = etherparse::TcpHeaderSlice::from_slice(&frame[24..]).unwrap();
    assert_eq!(tcp.source_port(), 9000);
    assert_eq!(tcp.destination_port(), 40000);
    let payload = frame[44..].to_vec();
    assert_eq!(tcp.calc_checksum_ipv4(&ip, &payload).unwrap(), tcp.checksum());
    EngineSeen {
        seq: tcp.sequence_number(),
        ack: tcp.acknowledgment_number(),
        syn: tcp.syn(),
        ack_flag: tcp.ack(),
        fin: tcp.fin(),
        rst: tcp.rst(),
        window: tcp.window_size(),
        payload,
    }
}

fn engine_frames(out: Outbox) -> Vec<EngineSeen> {
    out.into_frames().iter().map(|f| engine_seen(f)).collect()
}

/// SYN (seq=100, win=1024) at time 0.
fn engine_opened() -> Connection {
    let mut out = Outbox::new();
    Connection::accept(&mut out, 0, &engine_ip(), &engine_tcp(100, None, true, false, 1024), &[])
        .unwrap()
}

/// After the handshake: SYN at 0, ACK (seq=101, ack=1) at 10 ms.
fn engine_established() -> Connection {
    let mut c = engine_opened();
    let mut out = Outbox::new();
    let a = c
        .on_packet(&mut out, 10 * MS, &engine_ip(), &engine_tcp(101, Some(1), false, false, 1024), &[])
        .unwrap();
    assert!(a.is_empty());
    assert_eq!(out.len(), 0);
    assert_eq!(c.state(), State::Estab);
    c
}

#[test]
fn accept_answers_syn_with_syn_ack() {
    let mut out = Outbox::new();
    let c = Connection::accept(
        &mut out,
        7,
        &engine_ip(),
        &engine_tcp(100, None, true, false, 1024),
        b"ignored",
    )
    .unwrap();
    assert_eq!(out.len(), 1);
    let seen = engine_seen(out.frame(0));
    assert_eq!(seen.seq, 0);
    assert_eq!(seen.ack, 101);
    assert!(seen.syn);
    assert!(seen.ack_flag);
    assert!(!seen.fin);
    assert!(!seen.rst);
    assert_eq!(seen.window, 10);
    assert!(seen.payload.is_empty());

    assert_eq!(c.state(), State::SynRcvd);
    let send = c.send_space();
    assert_eq!((send.iss, send.una, send.nxt, send.wnd), (0, 0, 1, 1024));
    assert!(!send.up);
    let recv = c.recv_space();
    assert_eq!((recv.irs, recv.nxt, recv.wnd), (100, 101, 1024));
    assert_eq!(c.sent_at(0), Some(7));
    assert_eq!(c.srtt(), 60 * S);
    assert_eq!(c.unacked_len(), 0);
    assert_eq!(c.incoming_len(), 0);
    assert!(!c.is_closed());
    assert_eq!(c.closed_at(), None);
    assert!(!c.is_rcv_closed());
    assert!(c.availability().is_empty());
}

#[test]
fn accept_takes_the_window_of_the_syn() {
    let mut out = Outbox::new();
    let c = Connection::accept(&mut out, 0, &engine_ip(), &engine_tcp(5, None, true, false, 4), &[])
        .unwrap();
    assert_eq!(c.recv_space().wnd, 4);
    assert_eq!(c.send_space().wnd, 1024);
}

#[test]
fn accept_wraps_the_first_expected_number() {
    let mut out = Outbox::new();
    let c = Connection::accept(
        &mut out,
        0,
        &engine_ip(),
        &engine_tcp(u32::MAX, None, true, false, 1024),
        &[],
    )
    .unwrap();
    assert_eq!(c.recv_space().irs, u32::MAX);
    assert_eq!(c.recv_space().nxt, 0);
    assert_eq!(engine_seen(out.frame(0)).ack, 0);
}

#[test]
fn accept_opens_nothing_without_a_bare_syn() {
    let mut out = Outbox::new();
    let ack_only = engine_tcp(100, Some(1), false, false, 1024);
    assert!(Connection::accept(&mut out, 0, &engine_ip(), &ack_only, &[]).is_none());
    let syn_ack = engine_tcp(100, Some(1), true, false, 1024);
    assert!(Connection::accept(&mut out, 0, &engine_ip(), &syn_ack, &[]).is_none());
    let fin_only = engine_tcp(100, None, false, true, 1024);
    assert!(Connection::accept(&mut out, 0, &engine_ip(), &fin_only, &[]).is_none());
    assert_eq!(out.len(), 0);
}

#[test]
fn handshake_ack_establishes() {
    let c = engine_established();
    let send = c.send_space();
    assert_eq!((send.una, send.nxt), (1, 1));
    assert_eq!(c.recv_space().nxt, 101);
    // The timer of the SYN is gone and has given one sample of 10 ms.
    assert_eq!(c.sent_at(0), None);
    assert_eq!(c.srtt(), 48_002_000_000);
}

#[test]
fn handshake_ack_of_iss_opens_without_advancing() {
    let mut c = engine_opened();
    let mut out = Outbox::new();
    c.on_packet(&mut out, 5, &engine_ip(), &engine_tcp(101, Some(0), false, false, 1024), &[])
        .unwrap();
    assert_eq!(c.state(), State::Estab);
    assert_eq!(c.send_space().una, 0);
    assert_eq!(c.sent_at(0), Some(0));
    assert_eq!(out.len(), 0);
}

#[test]
fn handshake_ack_one_past_nxt_is_not_taken() {
    let mut c = engine_opened();
    let mut out = Outbox::new();
    c.on_packet(&mut out, 5, &engine_ip(), &engine_tcp(101, Some(2), false, false, 1024), &[])
        .unwrap();
    assert_eq!(c.state(), State::SynRcvd);
    assert_eq!(c.send_space().una, 0);
    assert_eq!(c.send_space().nxt, 1);
    assert_eq!(c.sent_at(0), Some(0));
    assert_eq!(out.len(), 0);
}

#[test]
fn ack_of_what_was_never_sent_is_not_taken() {
    let mut c = engine_established();
    c.enqueue(b"abc");
    let mut out = Outbox::new();
    c.on_tick(&mut out, 20 * MS);
    assert_eq!(c.send_space().nxt, 4);
    // One past nxt.
    let mut out = Outbox::new();
    c.on_packet(&mut out, 30 * MS, &engine_ip(), &engine_tcp(101, Some(5), false, false, 1024), &[])
        .unwrap();
    assert_eq!(c.send_space().una, 1);
    assert_eq!(c.unacked_len(), 3);
    assert_eq!(c.sent_at(1), Some(20 * MS));
    // At nxt.
    c.on_packet(&mut out, 30 * MS, &engine_ip(), &engine_tcp(101, Some(4), false, false, 1024), &[])
        .unwrap();
    assert_eq!(c.send_space().una, 4);
    assert_eq!(c.unacked_len(), 0);
}

#[test]
fn handshake_ack_two_past_nxt_is_not_taken() {
    let mut c = engine_opened();
    let mut out = Outbox::new();
    c.on_packet(&mut out, 5, &engine_ip(), &engine_tcp(101, Some(3), false, false, 1024), &[])
        .unwrap();
    assert_eq!(c.state(), State::SynRcvd);
    assert_eq!(c.send_space().una, 0);
    assert_eq!(out.len(), 0);
}

#[test]
fn single_byte_echo() {
    let mut c = engine_established();

    // The peer sends "A".
    let mut out = Outbox::new();
    let a = c
        .on_packet(&mut out, 20 * MS, &engine_ip(), &engine_tcp(101, Some(1), false, false, 1024), b"A")
        .unwrap();
    assert!(a.contains(tcprust::available::Available::read()));
    let frames = engine_frames(out);
    assert_eq!(frames.len(), 1);
    assert_eq!((frames[0].seq, frames[0].ack), (1, 102));
    assert!(frames[0].ack_flag && !frames[0].syn && !frames[0].fin);
    assert!(frames[0].payload.is_empty());
    assert_eq!(c.recv_space().nxt, 102);
    assert_eq!(c.dequeue(512), b"A".to_vec());
    assert_eq!(c.incoming_len(), 0);

    // The application answers "A"; the next tick sends it.
    assert_eq!(c.enqueue(b"A"), 1);
    let mut out = Outbox::new();
    c.on_tick(&mut out, 30 * MS);
    let frames = engine_frames(out);
    assert_eq!(frames.len(), 1);
    assert_eq!((frames[0].seq, frames[0].ack), (1, 102));
    assert_eq!(frames[0].payload, b"A".to_vec());
    assert!(!frames[0].fin);
    assert_eq!(c.send_space().nxt, 2);
    assert_eq!(c.sent_at(1), Some(30 * MS));

    // The peer acknowledges.
    let mut out = Outbox::new();
    c.on_packet(&mut out, 50 * MS, &engine_ip(), &engine_tcp(102, Some(2), false, false, 1024), &[])
        .unwrap();
    assert_eq!(out.len(), 0);
    assert_eq!(c.unacked_len(), 0);
    assert_eq!(c.send_space().una, 2);
    assert_eq!(c.sent_at(1), None);
    assert_eq!(c.srtt(), 38_405_600_000);
    assert_eq!(c.srtt(), smoothed(smoothed(60 * S, 10 * MS), 20 * MS));
}

#[test]
fn retransmit_after_timeout_sends_same_bytes() {
    let mut c = engine_established();
    let data = b"0123456789";
    assert_eq!(c.enqueue(data), 10);
    let mut out = Outbox::new();
    c.on_tick(&mut out, S);
    let first = engine_frames(out);
    assert_eq!(first.len(), 1);
    assert_eq!(first[0].seq, 1);
    assert_eq!(first[0].payload, data.to_vec());
    assert_eq!(c.send_space().nxt, 11);

    // The estimate is 48.002 s: the segment is due when it has waited more
    // than 72.003 s.
    let due = S + 72_003 * MS;
    let mut out = Outbox::new();
    c.on_tick(&mut out, due);
    assert_eq!(out.len(), 0);

    let mut out = Outbox::new();
    c.on_tick(&mut out, due + 1);
    let again = engine_frames(out);
    assert_eq!(again.len(), 1);
    assert_eq!(again[0].seq, 1);
    assert_eq!(again[0].ack, 101);
    assert_eq!(again[0].payload, first[0].payload);
    assert!(!again[0].fin && !again[0].syn);
    assert_eq!(c.send_space().una, 1);
    assert_eq!(c.send_space().nxt, 11);
    assert_eq!(c.sent_at(1), Some(due + 1));
    assert_eq!(c.unacked_len(), 10);

    let mut out = Outbox::new();
    c.on_packet(&mut out, due + 2, &engine_ip(), &engine_tcp(101, Some(11), false, false, 1024), &[])
        .unwrap();
    assert_eq!(c.unacked_len(), 0);
    assert_eq!(c.send_space().una, 11);
    assert_eq!(c.sent_at(1), None);
}

#[test]
fn retransmit_carries_bytes_written_since() {
    let mut c = engine_established();
    c.enqueue(b"abc");
    let mut out = Outbox::new();
    c.on_tick(&mut out, S);
    c.enqueue(b"def");
    let mut out = Outbox::new();
    c.on_tick(&mut out, 100 * S);
    let frames = engine_frames(out);
    assert_eq!(frames.len(), 1);
    assert_eq!(frames[0].seq, 1);
    assert_eq!(frames[0].payload, b"abcdef".to_vec());
    assert_eq!(c.send_space().nxt, 7);
}

#[test]
fn send_window_is_the_initial_one_whatever_the_peer_announces() {
    let mut out = Outbox::new();
    let mut c =
        Connection::accept(&mut out, 0, &engine_ip(), &engine_tcp(100, None, true, false, 4), &[])
            .unwrap();
    c.on_packet(&mut out, MS, &engine_ip(), &engine_tcp(101, Some(1), false, false, 4), &[])
        .unwrap();
    assert_eq!(c.state(), State::Estab);
    assert_eq!(c.enqueue(&[7u8; 16]), 16);
    let mut out = Outbox::new();
    c.on_tick(&mut out, 2 * MS);
    let frames = engine_frames(out);
    assert_eq!(frames.len(), 1);
    assert_eq!(frames[0].payload.len(), 16);
    assert_eq!(c.send_space().wnd, 1024);
}

#[test]
fn tick_never_sends_past_the_send_window() {
    let mut c = engine_opened();
    // One sequence number is in flight for the SYN: 1023 are left.
    assert_eq!(c.enqueue(&[1u8; 2000]), 1024);
    let mut out = Outbox::new();
    c.on_tick(&mut out, MS);
    let frames = engine_frames(out);
    assert_eq!(frames.len(), 1);
    assert_eq!(frames[0].payload.len(), 1023);
    assert_eq!(c.send_space().nxt, 1024);
    // The window is full now.
    let mut out = Outbox::new();
    c.on_tick(&mut out, 2 * MS);
    assert_eq!(out.len(), 0);
}

#[test]
fn segment_before_handshake_starts_one_byte_in() {
    let mut c = engine_opened();
    c.enqueue(b"abcde");
    let mut out = Outbox::new();
    c.on_tick(&mut out, MS);
    let frames = engine_frames(out);
    assert_eq!(frames.len(), 1);
    assert_eq!(frames[0].seq, 1);
    assert_eq!(frames[0].payload, b"bcde".to_vec());
}

#[test]
fn duplicate_syn_is_answered_with_an_ack() {
    let mut c = engine_opened();
    let mut out = Outbox::new();
    let a = c
        .on_packet(&mut out, MS, &engine_ip(), &engine_tcp(100, None, true, false, 1024), &[])
        .unwrap();
    assert!(a.is_empty());
    let frames = engine_frames(out);
    assert_eq!(frames.len(), 1);
    assert_eq!((frames[0].seq, frames[0].ack), (1, 101));
    assert!(frames[0].ack_flag);
    assert!(!frames[0].syn);
    assert_eq!(c.state(), State::SynRcvd);
    assert_eq!(c.send_space().iss, 0);
    assert_eq!(c.recv_space().nxt, 101);
    assert_eq!(c.recv_space().irs, 100);
}

#[test]
fn syn_inside_the_window_moves_recv_nxt() {
    let mut c = engine_opened();
    let mut out = Outbox::new();
    c.on_packet(&mut out, MS, &engine_ip(), &engine_tcp(150, None, true, false, 1024), &[])
        .unwrap();
    assert_eq!(out.len(), 0);
    assert_eq!(c.recv_space().nxt, 151);
    assert_eq!(c.state(), State::SynRcvd);
}

#[test]
fn segment_without_ack_changes_nothing() {
    let mut c = engine_established();
    let mut out = Outbox::new();
    c.on_packet(&mut out, 20 * MS, &engine_ip(), &engine_tcp(101, None, false, false, 1024), b"data")
        .unwrap();
    assert_eq!(out.len(), 0);
    assert_eq!(c.incoming_len(), 0);
    assert_eq!(c.recv_space().nxt, 101);
}

#[test]
fn write_after_close() {
    let mut c = engine_established();
    assert_eq!(c.enqueue(b"12345678"), 8);
    c.close();
    assert!(c.is_closed());

    // The send fits in the window: the FIN goes out with the bytes.
    let mut out = Outbox::new();
    c.on_tick(&mut out, 20 * MS);
    let frames = engine_frames(out);
    assert_eq!(frames.len(), 1);
    assert_eq!(frames[0].seq, 1);
    assert_eq!(frames[0].payload, b"12345678".to_vec());
    assert!(frames[0].fin);
    assert_eq!(c.closed_at(), Some(9));
    assert_eq!(c.send_space().nxt, 10);

    let mut out = Outbox::new();
    c.on_tick(&mut out, 30 * MS);
    assert_eq!(out.len(), 0);

    // The peer acknowledges the bytes and the FIN.
    let mut out = Outbox::new();
    c.on_packet(&mut out, 40 * MS, &engine_ip(), &engine_tcp(101, Some(10), false, false, 1024), &[])
        .unwrap();
    assert_eq!(c.send_space().una, 10);
    assert_eq!(c.unacked_len(), 0);
    assert_eq!(c.state(), State::Estab);

    let mut out = Outbox::new();
    c.on_tick(&mut out, 50 * MS);
    assert_eq!(out.len(), 0);
}

#[test]
fn close_with_nothing_waiting_sends_one_fin() {
    let mut c = engine_established();
    c.close();
    let mut out = Outbox::new();
    c.on_tick(&mut out, 20 * MS);
    let frames = engine_frames(out);
    assert_eq!(frames.len(), 1);
    assert_eq!((frames[0].seq, frames[0].ack), (1, 101));
    assert!(frames[0].fin);
    assert!(frames[0].ack_flag);
    assert!(!frames[0].syn);
    assert!(frames[0].payload.is_empty());
    assert_eq!(c.closed_at(), Some(1));
    assert_eq!(c.send_space().nxt, 2);

    // No second FIN with the next tick.
    let mut out = Outbox::new();
    c.on_tick(&mut out, 30 * MS);
    assert_eq!(out.len(), 0);

    let mut out = Outbox::new();
    c.on_packet(&mut out, 40 * MS, &engine_ip(), &engine_tcp(101, Some(2), false, false, 1024), &[])
        .unwrap();
    assert_eq!(c.send_space().una, 2);
    assert_eq!(c.sent_at(1), None);
    assert_eq!(c.state(), State::Estab);
}

#[test]
fn fin_is_sent_again_when_it_times_out() {
    let mut c = engine_established();
    c.enqueue(b"xyz");
    c.close();
    let mut out = Outbox::new();
    c.on_tick(&mut out, S);
    let mut out = Outbox::new();
    c.on_tick(&mut out, 200 * S);
    let frames = engine_frames(out);
    assert_eq!(frames.len(), 1);
    assert_eq!(frames[0].seq, 1);
    assert_eq!(frames[0].payload, b"xyz".to_vec());
    assert!(frames[0].fin);
    assert_eq!(c.closed_at(), Some(4));
    // Behind the bytes sent again, not behind the FIN.
    assert_eq!(c.send_space().nxt, 4);
}

#[test]
fn idle_tick_sends_nothing() {
    let mut c = engine_established();
    let mut out = Outbox::new();
    c.on_tick(&mut out, 20 * MS);
    assert_eq!(out.len(), 0);
    assert_eq!(c.send_space().nxt, 1);
    assert_eq!(c.state(), State::Estab);
}

#[test]
fn old_segment_elicits_bare_ack_and_no_change() {
    let mut c = engine_established();
    let mut out = Outbox::new();
    c.on_packet(&mut out, 20 * MS, &engine_ip(), &engine_tcp(101, Some(1), false, false, 1024), b"hello")
        .unwrap();
    assert_eq!(c.recv_space().nxt, 106);

    // The same five bytes again: they end before recv.nxt.
    let mut out = Outbox::new();
    let a = c
        .on_packet(&mut out, 30 * MS, &engine_ip(), &engine_tcp(101, Some(1), false, false, 1024), b"hello")
        .unwrap();
    assert!(a.contains(tcprust::available::Available::read()));
    let frames = engine_frames(out);
    assert_eq!(frames.len(), 1);
    assert_eq!((frames[0].seq, frames[0].ack), (1, 106));
    assert!(frames[0].payload.is_empty());
    assert!(frames[0].ack_flag && !frames[0].syn && !frames[0].fin && !frames[0].rst);
    assert_eq!(c.recv_space().nxt, 106);
    assert_eq!(c.incoming_len(), 5);
    assert_eq!(c.state(), State::Estab);
    assert_eq!(c.send_space().una, 1);
    assert_eq!(c.send_space().nxt, 1);
    assert_eq!(c.sent_at(1), Some(30 * MS));
    assert_eq!(c.dequeue(100), b"hello".to_vec());
}

#[test]
fn zero_window_takes_only_the_expected_number() {
    let mut out = Outbox::new();
    let mut c =
        Connection::accept(&mut out, 0, &engine_ip(), &engine_tcp(100, None, true, false, 0), &[])
            .unwrap();
    assert_eq!(c.recv_space().wnd, 0);

    // One off: not accepted, an acknowledgement goes out.
    let mut out = Outbox::new();
    c.on_packet(&mut out, MS, &engine_ip(), &engine_tcp(102, Some(1), false, false, 0), &[])
        .unwrap();
    assert_eq!(out.len(), 1);
    assert_eq!(c.state(), State::SynRcvd);
    let mut out = Outbox::new();
    c.on_packet(&mut out, MS, &engine_ip(), &engine_tcp(100, Some(1), false, false, 0), &[])
        .unwrap();
    assert_eq!(out.len(), 1);
    assert_eq!(c.state(), State::SynRcvd);

    // At recv.nxt: accepted.
    let mut out = Outbox::new();
    c.on_packet(&mut out, MS, &engine_ip(), &engine_tcp(101, Some(1), false, false, 0), &[])
        .unwrap();
    assert_eq!(out.len(), 0);
    assert_eq!(c.state(), State::Estab);

    // With a closed window no payload is accepted, even at recv.nxt.
    let mut out = Outbox::new();
    c.on_packet(&mut out, 2 * MS, &engine_ip(), &engine_tcp(101, Some(1), false, false, 0), b"x")
        .unwrap();
    assert_eq!(engine_frames(out).len(), 1);
    assert_eq!(c.incoming_len(), 0);
    assert_eq!(c.recv_space().nxt, 101);
}

#[test]
fn segment_straddling_the_right_edge_is_accepted() {
    let mut c = engine_established();
    // The window is [101, 1125). The segment covers [1120, 1130).
    let mut out = Outbox::new();
    c.on_packet(
        &mut out,
        20 * MS,
        &engine_ip(),
        &engine_tcp(1120, Some(1), false, false, 1024),
        b"0123456789",
    )
    .unwrap();
    assert_eq!(c.incoming_len(), 10);
    assert_eq!(c.recv_space().nxt, 1130);
    let frames = engine_frames(out);
    assert_eq!(frames.len(), 1);
    assert_eq!(frames[0].ack, 1130);
}

#[test]
fn segment_beyond_the_window_is_not_accepted() {
    let mut c = engine_established();
    let mut out = Outbox::new();
    c.on_packet(&mut out, 20 * MS, &engine_ip(), &engine_tcp(1125, Some(1), false, false, 1024), b"0123")
        .unwrap();
    assert_eq!(c.incoming_len(), 0);
    assert_eq!(c.recv_space().nxt, 101);
    let frames = engine_frames(out);
    assert_eq!(frames.len(), 1);
    assert_eq!(frames[0].ack, 101);
    assert!(frames[0].payload.is_empty());
}

#[test]
fn segment_straddling_the_left_edge_gives_its_new_bytes() {
    let mut c = engine_established();
    let mut out = Outbox::new();
    c.on_packet(&mut out, 20 * MS, &engine_ip(), &engine_tcp(101, Some(1), false, false, 1024), b"abcde")
        .unwrap();
    // Starts three bytes back, ends four bytes on.
    let mut out = Outbox::new();
    c.on_packet(&mut out, 30 * MS, &engine_ip(), &engine_tcp(103, Some(1), false, false, 1024), b"cdefghi")
        .unwrap();
    assert_eq!(c.dequeue(100), b"abcdefghi".to_vec());
    assert_eq!(c.recv_space().nxt, 110);
}

#[test]
fn payload_that_repeats_a_byte_gives_only_the_new_one() {
    let mut c = engine_established();
    let mut out = Outbox::new();
    c.on_packet(&mut out, 20 * MS, &engine_ip(), &engine_tcp(101, Some(1), false, false, 1024), b"A")
        .unwrap();
    assert_eq!(c.recv_space().nxt, 102);

    let mut out = Outbox::new();
    let a = c
        .on_packet(&mut out, 30 * MS, &engine_ip(), &engine_tcp(101, Some(1), false, false, 1024), b"AB")
        .unwrap();
    assert!(a.contains(tcprust::available::Available::read()));
    assert_eq!(c.recv_space().nxt, 103);
    let frames = engine_frames(out);
    assert_eq!(frames.len(), 1);
    assert_eq!((frames[0].seq, frames[0].ack), (1, 103));
    assert!(frames[0].ack_flag && !frames[0].syn && !frames[0].fin);
    assert!(frames[0].payload.is_empty());
    assert_eq!(c.dequeue(100), b"AB".to_vec());
}

#[test]
fn recv_nxt_only_advances() {
    let mut c = engine_established();
    let mut last = c.recv_space().nxt;
    let segments: [(u32, &[u8]); 5] =
        [(101, b"abc"), (101, b"abc"), (90, b"zz"), (104, b"defg"), (3000, b"far")];
    for (i, (seq, data)) in segments.iter().enumerate() {
        let mut out = Outbox::new();
        c.on_packet(
            &mut out,
            (20 + i as u64) * MS,
            &engine_ip(),
            &engine_tcp(*seq, Some(1), false, false, 1024),
            data,
        )
        .unwrap();
        let now = c.recv_space().nxt;
        assert!(now == last || tcprust::seqnum::wrapping_lt(last, now));
        last = now;
    }
    assert_eq!(last, 108);
}

#[test]
fn fin_outside_fin_wait_2_is_fatal() {
    let mut c = engine_established();
    let mut out = Outbox::new();
    let r = c.on_packet(&mut out, 20 * MS, &engine_ip(), &engine_tcp(101, Some(1), false, true, 1024), &[]);
    assert_eq!(r, Err(ProtocolError::UnexpectedFin));
    assert_eq!(out.len(), 0);
    assert_eq!(c.state(), State::Estab);
    assert_eq!(c.recv_space().nxt, 101);

    let mut c = engine_opened();
    let mut out = Outbox::new();
    let r = c.on_packet(&mut out, MS, &engine_ip(), &engine_tcp(101, Some(9), false, true, 1024), &[]);
    assert_eq!(r, Err(ProtocolError::UnexpectedFin));
    assert_eq!(c.state(), State::SynRcvd);
}

#[test]
fn fin_with_payload_takes_the_payload_first() {
    let mut c = engine_established();
    let mut out = Outbox::new();
    let r = c.on_packet(&mut out, 20 * MS, &engine_ip(), &engine_tcp(101, Some(1), false, true, 1024), b"bye");
    assert_eq!(r, Err(ProtocolError::UnexpectedFin));
    assert_eq!(c.incoming_len(), 3);
    assert_eq!(c.recv_space().nxt, 104);
    assert_eq!(engine_frames(out).len(), 1);
}

#[test]
fn send_rst_sends_a_reset_with_zeroed_numbers() {
    let mut c = engine_established();
    let mut out = Outbox::new();
    c.send_rst(&mut out);
    let frames = engine_frames(out);
    assert_eq!(frames.len(), 1);
    assert!(frames[0].rst);
    assert_eq!((frames[0].seq, frames[0].ack), (0, 0));
    assert!(frames[0].payload.is_empty());
    assert!(!frames[0].syn && !frames[0].fin);
    assert_eq!(c.send_space().nxt, 1);
    assert_eq!(c.sent_at(1), None);
}

#[test]
fn send_queue_holds_at_most_1024_bytes() {
    let mut c = engine_established();
    assert_eq!(c.enqueue(&[0u8; 1000]), 1000);
    assert_eq!(c.enqueue(&[0u8; 1000]), 24);
    assert_eq!(c.unacked_len(), 1024);
    assert_eq!(c.enqueue(&[0u8; 1]), 0);
    assert_eq!(c.enqueue(&[]), 0);
    assert_eq!(c.unacked_len(), 1024);
}

#[test]
fn dequeue_hands_out_oldest_bytes_first() {
    let mut c = engine_established();
    let mut out = Outbox::new();
    c.on_packet(&mut out, 20 * MS, &engine_ip(), &engine_tcp(101, Some(1), false, false, 1024), b"abcdef")
        .unwrap();
    assert_eq!(c.dequeue(0), Vec::<u8>::new());
    assert_eq!(c.dequeue(2), b"ab".to_vec());
    assert_eq!(c.incoming_len(), 4);
    assert!(c.availability().contains(tcprust::available::Available::read()));
    assert_eq!(c.dequeue(10), b"cdef".to_vec());
    assert!(c.availability().is_empty());
    assert_eq!(c.dequeue(10), Vec::<u8>::new());
}

#[test]
fn partial_ack_drains_what_it_covers() {
    let mut c = engine_established();
    c.enqueue(b"0123456789");
    let mut out = Outbox::new();
    c.on_tick(&mut out, 20 * MS);
    let mut out = Outbox::new();
    c.on_packet(&mut out, 30 * MS, &engine_ip(), &engine_tcp(101, Some(5), false, false, 1024), &[])
        .unwrap();
    assert_eq!(c.send_space().una, 5);
    assert_eq!(c.unacked_len(), 6);
    // What is left goes out again from una when it times out.
    let mut out = Outbox::new();
    c.on_tick(&mut out, 500 * S);
    let frames = engine_frames(out);
    // The timer at 1 is gone with the acknowledgement; none runs from 5 on.
    assert_eq!(frames.len(), 0);
    c.enqueue(b"ab");
    let mut out = Outbox::new();
    c.on_tick(&mut out, 501 * S);
    let frames = engine_frames(out);
    assert_eq!(frames.len(), 1);
    assert_eq!(frames[0].seq, 11);
    assert_eq!(frames[0].payload, b"ab".to_vec());
}

#[test]
fn stale_ack_changes_nothing() {
    let mut c = engine_established();
    c.enqueue(b"0123456789");
    let mut out = Outbox::new();
    c.on_tick(&mut out, 20 * MS);
    let srtt = c.srtt();
    let mut out = Outbox::new();
    c.on_packet(&mut out, 30 * MS, &engine_ip(), &engine_tcp(101, Some(1), false, false, 1024), &[])
        .unwrap();
    assert_eq!(c.send_space().una, 1);
    assert_eq!(c.unacked_len(), 10);
    assert_eq!(c.srtt(), srtt);
    // An acknowledgement of what was never sent, two past nxt.
    c.on_packet(&mut out, 30 * MS, &engine_ip(), &engine_tcp(101, Some(13), false, false, 1024), &[])
        .unwrap();
    assert_eq!(c.send_space().una, 1);
    assert_eq!(c.unacked_len(), 10);
}

#[test]
fn payload_is_cut_at_what_fits_in_a_frame() {
    // 1024 bytes wait at most, which is under the 1460 of a frame: every
    // segment carries all that the window allows.
    let mut c = engine_established();
    c.enqueue(&[9u8; 1024]);
    let mut out = Outbox::new();
    c.on_tick(&mut out, 20 * MS);
    let frames = out.into_frames();
    assert_eq!(frames.len(), 1);
    assert_eq!(frames[0].len(), 4 + 40 + 1024);
    assert!(frames[0].len() <= 4 + 1500);
}

/// `una <= nxt <= una + unacked + (1 if a FIN went out)`, and every timer
/// runs for a sequence number from `una` to `nxt`.
fn engine_check_send_space(c: &Connection) {
    let send = c.send_space();
    let flight = send.nxt.wrapping_sub(send.una) as usize;
    let fin = if c.closed_at().is_some() { 1 } else { 0 };
    assert!(flight <= c.unacked_len() + fin);
    for seq in 0..2000u32 {
        if c.sent_at(seq).is_some() {
            assert!(seq.wrapping_sub(send.una) as usize <= flight);
        }
    }
}

#[test]
fn send_space_stays_ordered() {
    let mut c = engine_established();
    engine_check_send_space(&c);
    let mut now = 20 * MS;
    let mut acked = 1u32;
    for round in 0..6u32 {
        c.enqueue(&[round as u8; 100]);
        engine_check_send_space(&c);
        let mut out = Outbox::new();
        c.on_tick(&mut out, now);
        engine_check_send_space(&c);
        now += 10 * MS;
        // The peer sends ten bytes and acknowledges half of what is new.
        acked += 50;
        let mut out = Outbox::new();
        c.on_packet(
            &mut out,
            now,
            &engine_ip(),
            &engine_tcp(101 + 10 * round, Some(acked), false, false, 1024),
            &[0u8; 10],
        )
        .unwrap();
        engine_check_send_space(&c);
        assert_eq!(c.send_space().una, acked);
        now += 10 * MS;
    }
    c.close();
    let mut out = Outbox::new();
    c.on_tick(&mut out, now);
    engine_check_send_space(&c);
    assert_eq!(c.send_space().nxt, 602);
    assert_eq!(c.closed_at(), Some(601));
    // Everything times out and goes out again from una.
    let mut out = Outbox::new();
    c.on_tick(&mut out, now + 500 * S);
    engine_check_send_space(&c);
    assert_eq!(c.send_space().una, 301);
    assert_eq!(c.send_space().nxt, 601);
}

#[test]
fn every_byte_goes_out_under_its_stream_position() {
    let stream: Vec<u8> = (0..=255u8).cycle().take(700).collect();
    let mut c = engine_established();
    let mut written = 0usize;
    let mut now = 20 * MS;
    let mut carried = vec![0u32; stream.len()];
    for round in 0..7u32 {
        written += c.enqueue(&stream[written..written + 100]);
        let mut out = Outbox::new();
        // Every third tick comes late enough to send again.
        now += if round % 3 == 2 { 500 * S } else { 10 * MS };
        c.on_tick(&mut out, now);
        for frame in engine_frames(out) {
            for (j, byte) in frame.payload.iter().enumerate() {
                // iss is 0: the byte at position p has sequence number 1 + p.
                let p = (frame.seq as usize + j) - 1;
                assert_eq!(*byte, stream[p]);
                carried[p] += 1;
            }
        }
        // The peer acknowledges all but the last thirty bytes.
        let mut out = Outbox::new();
        let ackn = 1 + written as u32 - 30;
        c.on_packet(&mut out, now, &engine_ip(), &engine_tcp(101, Some(ackn), false, false, 1024), &[])
            .unwrap();
        assert_eq!(c.unacked_len(), 30);
    }
    assert_eq!(written, 700);
    assert!(carried.iter().all(|n| *n >= 1));
}

#[test]
fn timers_run_only_for_what_is_in_flight() {
    let mut c = engine_established();
    c.enqueue(b"abcdef");
    let mut out = Outbox::new();
    c.on_tick(&mut out, 20 * MS);
    c.enqueue(b"gh");
    c.on_tick(&mut out, 30 * MS);
    assert_eq!(c.sent_at(1), Some(20 * MS));
    assert_eq!(c.sent_at(7), Some(30 * MS));
    assert_eq!(c.send_space().nxt, 9);
    c.on_packet(&mut out, 40 * MS, &engine_ip(), &engine_tcp(101, Some(7), false, false, 1024), &[])
        .unwrap();
    assert_eq!(c.sent_at(1), None);
    assert_eq!(c.sent_at(7), Some(30 * MS));
    assert_eq!(c.srtt(), smoothed(48_002_000_000, 20 * MS));
    c.on_packet(&mut out, 50 * MS, &engine_ip(), &engine_tcp(101, Some(9), false, false, 1024), &[])
        .unwrap();
    assert_eq!(c.sent_at(7), None);
    engine_check_send_space(&c);
}
