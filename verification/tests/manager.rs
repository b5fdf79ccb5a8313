use tcprust::available::Available;
use tcprust::bytes::Outbox;
use tcprust::frame::FrameError;
use tcprust::manager::{AcceptError, BindError, ConnectionManager, Delivery, StreamError};
use tcprust::table::{ConnectionTable, Quad};

const MS: u64 = 1_000_000;
const S: u64 = 1_000_000_000;

const PEER: [u8; 4] = [10, 0, 0, 2];
const LOCAL: [u8; 4] = [10, 0, 0, 1];

fn table_frame(
    from: ([u8; 4], u16),
    to: ([u8; 4], u16),
    seq: u32,
    ack: Option<u32>,
    syn: bool,
    fin: bool,
    payload: &[u8],
) -> Vec<u8> {
    let ip = etherparse::Ipv4Header::new((20 + payload.len()) as u16, 64, 6, from.0, to.0);
    let mut tcp = etherparse::TcpHeader::new(from.1, to.1, seq, 1024);
    tcp.syn = syn;
    tcp.fin = fin;
    if let Some(ackn) = ack {
        tcp.ack = true;
        tcp.acknowledgment_number = ackn;
    }
    tcp.checksum = tcp.calc_checksum_ipv4(&ip, payload).unwrap();
    let mut frame = vec![0u8, 0, 0, 2];
    ip.write(&mut frame).unwrap();
    tcp.write(&mut frame).unwrap();
    frame.extend_from_slice(payload);
    frame
}

fn peer_frame(seq: u32, ack: Option<u32>, syn: bool, fin: bool, payload: &[u8]) -> Vec<u8> {
    table_frame((PEER, 40000), (LOCAL, 9000), seq, ack, syn, fin, payload)
}

fn peer_quad() -> Quad {
    Quad { src_addr: 0x0a000002, src_port: 40000, dst_addr: 0x0a000001, dst_port: 9000 }
}

struct TableSeen {
    to: [u8; 4],
    to_port: u16,
    seq: u32,
    ack: u32,
    syn: bool,
    fin: bool,
    rst: bool,
    payload: Vec<u8>,
}

fn table_seen(frame: &[u8]) -> TableSeen {
    let ip = etherparse::Ipv4HeaderSlice::from_slice(&frame[4..]).unwrap();
    let tcp = etherparse::TcpHeaderSlice::from_slice(&frame[24..]).unwrap();
    TableSeen {
        to: ip.destination(),
        to_port: tcp.destination_port(),
        seq: tcp.sequence_number(),
        ack: tcp.acknowledgment_number(),
        syn: tcp.syn(),
        fin: tcp.fin(),
        rst: tcp.rst(),
        payload: frame[44..].to_vec(),
    }
}

/// A manager that listens on 9000 and has finished the handshake with the
/// peer: SYN at 0, ACK at 10 ms.
fn connected() -> ConnectionManager {
    let mut m = ConnectionManager::new();
    m.bind(9000).unwrap();
    let mut out = Outbox::new();
    assert_eq!(m.on_frame(&mut out, 0, &peer_frame(100, None, true, false, &[])), Delivery::Queued);
    assert_eq!(
        m.on_frame(&mut out, 10 * MS, &peer_frame(101, Some(1), false, false, &[])),
        Delivery::Delivered(Available::empty())
    );
    assert_eq!(out.len(), 1);
    m
}

#[test]
fn quad_key_round_trips() {
    let q = Quad { src_addr: 0xdead_beef, src_port: 0x1234, dst_addr: 0x0102_0304, dst_port: 0xffff };
    assert_eq!(q.to_key(), 0xdead_beef_1234_0102_0304_ffff);
    assert_eq!(Quad::from_key(q.to_key()), q);
    let zero = Quad { src_addr: 0, src_port: 0, dst_addr: 0, dst_port: 0 };
    assert_eq!(zero.to_key(), 0);
    assert_eq!(Quad::from_key(0), zero);
    let top = Quad { src_addr: u32::MAX, src_port: u16::MAX, dst_addr: u32::MAX, dst_port: u16::MAX };
    assert_eq!(top.to_key(), (1u128 << 96) - 1);
    assert_eq!(Quad::from_key((1u128 << 96) - 1), top);
}

#[test]
fn connection_table_lists_each_quad_once() {
    let mut m = ConnectionManager::new();
    m.bind(9000).unwrap();
    let mut out = Outbox::new();
    for port in [40000u16, 40001, 40002] {
        let syn = table_frame((PEER, port), (LOCAL, 9000), 5, None, true, false, &[]);
        assert_eq!(m.on_frame(&mut out, 0, &syn), Delivery::Queued);
    }
    let t = ConnectionTable::new();
    assert!(t.quads().is_empty());
    assert!(!t.contains(&peer_quad()));
    for port in [40000u16, 40001, 40002] {
        assert!(m.is_connected(&Quad { src_port: port, ..peer_quad() }));
    }
    assert!(!m.is_connected(&Quad { src_port: 40003, ..peer_quad() }));
}

#[test]
fn bind_fails_on_a_bound_port() {
    let mut m = ConnectionManager::new();
    assert_eq!(m.bind(9000), Ok(()));
    assert_eq!(m.bind(9000), Err(BindError::AddrInUse));
    assert_eq!(m.bind(9001), Ok(()));
    let mut out = Outbox::new();
    m.unbind(&mut out, 9000);
    assert_eq!(out.len(), 0);
    assert_eq!(m.bind(9000), Ok(()));
}

#[test]
fn accept_answers() {
    let mut m = ConnectionManager::new();
    assert_eq!(m.accept(9000), Err(AcceptError::NotListening));
    m.bind(9000).unwrap();
    assert_eq!(m.accept(9000), Err(AcceptError::WouldBlock));
    let mut out = Outbox::new();
    m.on_frame(&mut out, 0, &peer_frame(100, None, true, false, &[]));
    assert_eq!(m.accept(9001), Err(AcceptError::NotListening));
    assert_eq!(m.accept(9000), Ok(peer_quad()));
    assert_eq!(m.accept(9000), Err(AcceptError::WouldBlock));
    m.terminate();
    assert!(m.is_terminating());
    assert_eq!(m.accept(9000), Err(AcceptError::Terminated));
    assert_eq!(m.accept(9001), Err(AcceptError::Terminated));
}

#[test]
fn accept_hands_out_oldest_first() {
    let mut m = ConnectionManager::new();
    m.bind(9000).unwrap();
    let mut out = Outbox::new();
    for port in [40002u16, 40000, 40001] {
        let syn = table_frame((PEER, port), (LOCAL, 9000), 5, None, true, false, &[]);
        m.on_frame(&mut out, 0, &syn);
    }
    assert_eq!(m.accept(9000).unwrap().src_port, 40002);
    assert_eq!(m.accept(9000).unwrap().src_port, 40000);
    assert_eq!(m.accept(9000).unwrap().src_port, 40001);
    assert_eq!(m.accept(9000), Err(AcceptError::WouldBlock));
}

#[test]
fn handshake_and_teardown() {
    let mut m = ConnectionManager::new();
    m.bind(9000).unwrap();

    // Peer sends SYN (seq=100, win=1024); the endpoint answers SYN+ACK.
    let mut out = Outbox::new();
    assert_eq!(m.on_frame(&mut out, 0, &peer_frame(100, None, true, false, &[])), Delivery::Queued);
    assert_eq!(out.len(), 1);
    let seen = table_seen(out.frame(0));
    assert_eq!((seen.to, seen.to_port), (PEER, 40000));
    assert_eq!((seen.seq, seen.ack), (0, 101));
    assert!(seen.syn && !seen.fin && !seen.rst);

    // Peer sends ACK (seq=101, ack=1); accept returns.
    let mut out = Outbox::new();
    assert_eq!(
        m.on_frame(&mut out, 10 * MS, &peer_frame(101, Some(1), false, false, &[])),
        Delivery::Delivered(Available::empty())
    );
    assert_eq!(out.len(), 0);
    assert_eq!(m.accept(9000), Ok(peer_quad()));
    assert_eq!(m.read(&peer_quad(), 16), Err(StreamError::WouldBlock));

    // Peer sends FIN while the connection is established: the connection
    // is reset and given up.
    let mut out = Outbox::new();
    assert_eq!(
        m.on_frame(&mut out, 20 * MS, &peer_frame(101, Some(1), false, true, &[])),
        Delivery::Aborted
    );
    assert_eq!(out.len(), 1);
    let seen = table_seen(out.frame(0));
    assert!(seen.rst);
    assert_eq!((seen.seq, seen.ack), (0, 0));
    assert!(!m.is_connected(&peer_quad()));
    assert_eq!(m.read(&peer_quad(), 16), Err(StreamError::ConnectionAborted));
}

#[test]
fn duplicate_syn_allocates_no_second_connection() {
    let mut m = ConnectionManager::new();
    m.bind(9000).unwrap();
    let mut out = Outbox::new();
    assert_eq!(m.on_frame(&mut out, 0, &peer_frame(100, None, true, false, &[])), Delivery::Queued);
    let mut out = Outbox::new();
    assert_eq!(
        m.on_frame(&mut out, MS, &peer_frame(100, None, true, false, &[])),
        Delivery::Delivered(Available::empty())
    );
    assert_eq!(out.len(), 1);
    let seen = table_seen(out.frame(0));
    assert_eq!((seen.seq, seen.ack), (1, 101));
    assert!(!seen.syn);
    assert_eq!(m.accept(9000), Ok(peer_quad()));
    assert_eq!(m.accept(9000), Err(AcceptError::WouldBlock));
}

#[test]
fn frames_that_are_no_segment_are_dropped() {
    let mut m = connected();
    let good = peer_frame(101, Some(1), false, false, b"x");
    let mut out = Outbox::new();
    assert_eq!(m.on_frame(&mut out, MS, &good[..2]), Delivery::Dropped(FrameError::Truncated));
    let mut other_family = good.clone();
    other_family[3] = 10;
    assert_eq!(m.on_frame(&mut out, MS, &other_family), Delivery::Dropped(FrameError::NotIpv4));
    assert_eq!(m.on_frame(&mut out, MS, &good[..10]), Delivery::Dropped(FrameError::BadIpv4Header));
    let mut udp = good.clone();
    udp[13] = 17;
    assert_eq!(m.on_frame(&mut out, MS, &udp), Delivery::Dropped(FrameError::NotTcp));
    assert_eq!(m.on_frame(&mut out, MS, &good[..30]), Delivery::Dropped(FrameError::BadTcpHeader));
    assert_eq!(out.len(), 0);
    assert_eq!(m.read(&peer_quad(), 8), Err(StreamError::WouldBlock));
}

#[test]
fn segments_for_nobody_are_unclaimed() {
    let mut m = ConnectionManager::new();
    let mut out = Outbox::new();
    // No listener.
    assert_eq!(m.on_frame(&mut out, 0, &peer_frame(100, None, true, false, &[])), Delivery::Unclaimed);
    m.bind(9000).unwrap();
    // A listener, but no SYN.
    assert_eq!(
        m.on_frame(&mut out, 0, &peer_frame(100, Some(1), false, false, &[])),
        Delivery::Unclaimed
    );
    // A SYN with ACK opens nothing either.
    assert_eq!(
        m.on_frame(&mut out, 0, &peer_frame(100, Some(1), true, false, &[])),
        Delivery::Unclaimed
    );
    // Another port.
    let elsewhere = table_frame((PEER, 40000), (LOCAL, 9001), 100, None, true, false, &[]);
    assert_eq!(m.on_frame(&mut out, 0, &elsewhere), Delivery::Unclaimed);
    assert_eq!(out.len(), 0);
    assert!(!m.is_connected(&peer_quad()));
    assert_eq!(m.accept(9000), Err(AcceptError::WouldBlock));
}

#[test]
fn read_answers() {
    let mut m = connected();
    let q = peer_quad();
    let missing = Quad { src_port: 1, ..q };
    assert_eq!(m.read(&missing, 8), Err(StreamError::ConnectionAborted));
    assert_eq!(m.read(&q, 8), Err(StreamError::WouldBlock));

    let mut out = Outbox::new();
    assert_eq!(
        m.on_frame(&mut out, 20 * MS, &peer_frame(101, Some(1), false, false, b"hello world")),
        Delivery::Delivered(Available::read())
    );
    assert_eq!(m.read(&q, 5), Ok(b"hello".to_vec()));
    assert_eq!(m.read(&q, 0), Ok(Vec::new()));
    assert_eq!(m.read(&q, 100), Ok(b" world".to_vec()));
    assert_eq!(m.read(&q, 100), Err(StreamError::WouldBlock));
    m.terminate();
    assert_eq!(m.read(&q, 100), Err(StreamError::Terminated));
    assert_eq!(m.read(&missing, 8), Err(StreamError::ConnectionAborted));
}

#[test]
fn read_hands_out_bytes_while_terminating() {
    let mut m = connected();
    let mut out = Outbox::new();
    m.on_frame(&mut out, 20 * MS, &peer_frame(101, Some(1), false, false, b"late"));
    m.terminate();
    assert_eq!(m.read(&peer_quad(), 100), Ok(b"late".to_vec()));
}

#[test]
fn write_answers() {
    let mut m = connected();
    let q = peer_quad();
    let missing = Quad { dst_port: 1, ..q };
    assert_eq!(m.write(&missing, b"x"), Err(StreamError::ConnectionAborted));
    assert_eq!(m.write(&q, b"Hello World"), Ok(11));
    assert_eq!(m.write(&q, &[]), Ok(0));
    assert_eq!(m.write(&q, &[0u8; 2000]), Ok(1013));
    assert_eq!(m.write(&q, b"x"), Err(StreamError::WouldBlock));
    m.terminate();
    assert_eq!(m.write(&q, b"x"), Err(StreamError::Terminated));
}

#[test]
fn write_fails_after_shutdown() {
    let mut m = connected();
    let q = peer_quad();
    assert_eq!(m.write(&q, b"12345678"), Ok(8));
    assert_eq!(m.shutdown(&q), Ok(()));
    assert_eq!(m.write(&q, b"more"), Err(StreamError::Shutdown));
    assert_eq!(m.shutdown(&Quad { src_addr: 9, ..q }), Err(StreamError::ConnectionAborted));

    let mut out = Outbox::new();
    m.on_tick(&mut out, 20 * MS);
    assert_eq!(out.len(), 1);
    let seen = table_seen(out.frame(0));
    assert_eq!(seen.seq, 1);
    assert_eq!(seen.payload, b"12345678".to_vec());
    assert!(seen.fin);
    assert_eq!(m.write(&q, b"more"), Err(StreamError::Shutdown));
}

#[test]
fn flush_answers() {
    let mut m = connected();
    let q = peer_quad();
    assert_eq!(m.flush(&Quad { src_addr: 1, ..q }), Err(StreamError::ConnectionAborted));
    assert_eq!(m.flush(&q), Ok(()));
    m.write(&q, b"abc").unwrap();
    assert_eq!(m.flush(&q), Err(StreamError::WouldBlock));
    let mut out = Outbox::new();
    m.on_tick(&mut out, 20 * MS);
    assert_eq!(m.flush(&q), Err(StreamError::WouldBlock));
    m.on_frame(&mut out, 30 * MS, &peer_frame(101, Some(4), false, false, &[]));
    assert_eq!(m.flush(&q), Ok(()));
    m.write(&q, b"abc").unwrap();
    m.terminate();
    assert_eq!(m.flush(&q), Err(StreamError::Terminated));
}

#[test]
fn tick_reaches_every_connection() {
    let mut m = ConnectionManager::new();
    m.bind(9000).unwrap();
    let mut out = Outbox::new();
    let ports = [40000u16, 40001, 40002];
    for port in ports {
        let syn = table_frame((PEER, port), (LOCAL, 9000), 100, None, true, false, &[]);
        m.on_frame(&mut out, 0, &syn);
        let ack = table_frame((PEER, port), (LOCAL, 9000), 101, Some(1), false, false, &[]);
        m.on_frame(&mut out, MS, &ack);
    }
    for port in ports {
        let q = Quad { src_port: port, ..peer_quad() };
        assert_eq!(m.write(&q, &port.to_be_bytes()), Ok(2));
    }
    let mut out = Outbox::new();
    m.on_tick(&mut out, 2 * MS);
    assert_eq!(out.len(), 3);
    let mut seen: Vec<(u16, Vec<u8>)> =
        out.into_frames().iter().map(|f| table_seen(f)).map(|s| (s.to_port, s.payload)).collect();
    seen.sort();
    let expected: Vec<(u16, Vec<u8>)> = ports.iter().map(|p| (*p, p.to_be_bytes().to_vec())).collect();
    assert_eq!(seen, expected);

    // Nothing new: the next tick is silent.
    let mut out = Outbox::new();
    m.on_tick(&mut out, 3 * MS);
    assert_eq!(out.len(), 0);

    // All three time out together.
    let mut out = Outbox::new();
    m.on_tick(&mut out, 200 * S);
    assert_eq!(out.len(), 3);
}

#[test]
fn tick_of_an_empty_table_sends_nothing() {
    let mut m = ConnectionManager::new();
    let mut out = Outbox::new();
    m.on_tick(&mut out, 5);
    assert_eq!(out.len(), 0);
}

#[test]
fn unbind_resets_connections_that_still_wait() {
    let mut m = ConnectionManager::new();
    m.bind(9000).unwrap();
    let mut out = Outbox::new();
    for port in [40000u16, 40001, 40002] {
        let syn = table_frame((PEER, port), (LOCAL, 9000), 100, None, true, false, &[]);
        m.on_frame(&mut out, 0, &syn);
    }
    // One of them is handed out before the listener goes.
    assert_eq!(m.accept(9000).unwrap().src_port, 40000);

    let mut out = Outbox::new();
    m.unbind(&mut out, 9000);
    assert_eq!(out.len(), 2);
    let first = table_seen(out.frame(0));
    let second = table_seen(out.frame(1));
    assert!(first.rst && second.rst);
    assert_eq!((first.to_port, second.to_port), (40001, 40002));
    assert!(m.is_connected(&peer_quad()));
    assert!(!m.is_connected(&Quad { src_port: 40001, ..peer_quad() }));
    assert!(!m.is_connected(&Quad { src_port: 40002, ..peer_quad() }));
    assert_eq!(m.accept(9000), Err(AcceptError::NotListening));

    // Without a listener nothing happens.
    let mut out = Outbox::new();
    m.unbind(&mut out, 9000);
    assert_eq!(out.len(), 0);
}

#[test]
fn echo_through_the_manager() {
    let mut m = connected();
    let q = m.accept(9000).unwrap();
    let mut out = Outbox::new();
    assert_eq!(
        m.on_frame(&mut out, 20 * MS, &peer_frame(101, Some(1), false, false, b"A")),
        Delivery::Delivered(Available::read())
    );
    assert_eq!(table_seen(out.frame(0)).ack, 102);
    let got = m.read(&q, 512).unwrap();
    assert_eq!(got, b"A".to_vec());
    assert_eq!(m.write(&q, &got), Ok(1));
    let mut out = Outbox::new();
    m.on_tick(&mut out, 30 * MS);
    let seen = table_seen(out.frame(0));
    assert_eq!((seen.seq, seen.ack), (1, 102));
    assert_eq!(seen.payload, b"A".to_vec());
    let mut out = Outbox::new();
    assert_eq!(
        m.on_frame(&mut out, 50 * MS, &peer_frame(102, Some(2), false, false, &[])),
        Delivery::Delivered(Available::empty())
    );
    assert_eq!(m.flush(&q), Ok(()));
}

#[test]
fn payload_of_a_frame_runs_to_its_end() {
    let mut m = connected();
    let mut frame = peer_frame(101, Some(1), false, false, b"abc");
    // Bytes behind what the IPv4 header counts still belong to the frame.
    frame.extend_from_slice(b"de");
    let mut out = Outbox::new();
    m.on_frame(&mut out, 20 * MS, &frame);
    assert_eq!(m.read(&peer_quad(), 100), Ok(b"abcde".to_vec()));
}
