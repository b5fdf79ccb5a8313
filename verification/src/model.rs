//! What a connection is and how each event changes it, stated over plain
//! mathematical values. The executable engine is held to these functions.

use vstd::prelude::*;
use vstd::math::{max, min};
use crate::frame::{frame_bytes, with_checksum, MAX_PAYLOAD};
use crate::seqnum::{advance, seq_between, seq_lt, steps};
use crate::state::State;
use crate::timers::{TimersView, INITIAL_SRTT};
use crate::wire::{IpTemplate, Ipv4Meta, TcpMeta, TcpTemplate, PROTOCOL_TCP};

verus! {

/// Most bytes that wait for their acknowledgement at one time.
pub const SENDQUEUE_SIZE: usize = 1024;

/// The send window that a connection starts with.
pub const SEND_WINDOW: u16 = 1024;

/// The window that outgoing segments announce.
pub const ANNOUNCED_WINDOW: u16 = 10;

/// Time to live of outgoing packets.
pub const TIME_TO_LIVE: u8 = 64;

/// The initial send sequence number.
pub const INITIAL_SEND_SEQ: u32 = 0;

/// Send sequence space.
///
/// ```text
///      1         2          3          4
/// ----------|----------|----------|----------
///        SND.UNA    SND.NXT    SND.UNA
///                             +SND.WND
/// ```
///
/// 1: acknowledged; 2: sent, not acknowledged; 3: allowed for new data;
/// 4: not yet allowed.
#[derive(Clone, Copy, Debug, PartialEq, Eq, Structural)]
pub struct SendSequenceSpace {
    /// Oldest sequence number not acknowledged.
    pub una: u32,
    /// Next sequence number to send.
    pub nxt: u32,
    /// Send window.
    pub wnd: u16,
    /// Urgent pointer in use.
    pub up: bool,
    /// Segment sequence number of the last window update.
    pub wl1: u32,
    /// Segment acknowledgement number of the last window update.
    pub wl2: u32,
    /// Initial send sequence number.
    pub iss: u32,
}

/// Receive sequence space.
///
/// ```text
///      1          2          3
/// ----------|----------|----------
///        RCV.NXT    RCV.NXT
///                  +RCV.WND
/// ```
///
/// 1: received; 2: allowed for new reception; 3: not yet allowed.
#[derive(Clone, Copy, Debug, PartialEq, Eq, Structural)]
pub struct ReceiveSequenceSpace {
    /// Next sequence number expected.
    pub nxt: u32,
    /// Receive window.
    pub wnd: u16,
    /// Urgent pointer in use.
    pub up: bool,
    /// Initial receive sequence number.
    pub irs: u32,
}

/// Everything a connection holds.
pub struct ConnectionView {
    pub state: State,
    pub send: SendSequenceSpace,
    pub recv: ReceiveSequenceSpace,
    /// The IPv4 header of outgoing packets.
    pub ip: IpTemplate,
    /// The TCP header of the segment sent last, with the flags that the next
    /// one is to carry.
    pub tcp: TcpTemplate,
    pub timers: TimersView,
    /// Received bytes that the application has not read.
    pub incoming: Seq<u8>,
    /// Bytes from the application that the peer has not acknowledged.
    pub unacked: Seq<u8>,
    /// The application has closed its side.
    pub closed: bool,
    /// The sequence number of the FIN, once one was sent.
    pub closed_at: Option<u32>,
}

/// What an event leaves behind: the connection after it, and the frames it
/// put out.
pub struct Effect {
    pub next: ConnectionView,
    pub frames: Seq<Seq<u8>>,
}

/// What a segment leaves behind. `fatal` says that the segment broke the
/// protocol and the connection is to be given up.
pub struct SegmentEffect {
    pub next: ConnectionView,
    pub frames: Seq<Seq<u8>>,
    pub fatal: bool,
}

/// Sequence numbers that a segment takes up: its payload, one for SYN, one
/// for FIN.
pub open spec fn segment_len(tcp: TcpMeta, data_len: nat) -> int {
    data_len + (if tcp.syn { 1int } else { 0 }) + (if tcp.fin { 1int } else { 0 })
}

/// Whether a segment of `slen` sequence numbers that starts at `seq` touches
/// the receive window.
pub open spec fn acceptable(recv: ReceiveSequenceSpace, seq: u32, slen: int) -> bool {
    let before = advance(recv.nxt, -1);
    let wend = advance(recv.nxt, recv.wnd as int);
    if slen == 0 {
        if recv.wnd == 0 {
            seq == recv.nxt
        } else {
            seq_between(before, seq, wend)
        }
    } else {
        recv.wnd != 0 && (seq_between(before, seq, wend) || seq_between(
            before,
            advance(seq, slen - 1),
            wend,
        ))
    }
}

/// Whether `ackn` ends the handshake: it lies strictly between `una - 1`
/// and `nxt + 1`, so it acknowledges nothing that was never sent.
pub open spec fn completes_handshake(send: SendSequenceSpace, ackn: u32) -> bool {
    seq_between(advance(send.una, -1), ackn, advance(send.nxt, 1))
}

/// Whether `ackn` acknowledges something new: it lies strictly between
/// `una` and `nxt + 1`.
pub open spec fn acknowledges_new(send: SendSequenceSpace, ackn: u32) -> bool {
    seq_between(send.una, ackn, advance(send.nxt, 1))
}

/// Where in a payload of `len` bytes that starts at `seq` the bytes begin that
/// were not received before. A payload that starts after `recv_nxt`, or ends
/// before it, counts as new in full.
pub open spec fn unread_offset(recv_nxt: u32, seq: u32, len: nat) -> int {
    if steps(seq, recv_nxt) > len {
        0
    } else {
        steps(seq, recv_nxt)
    }
}

impl ConnectionView {
    /// Sequence numbers that are counted as sent and carry no byte: one while
    /// the SYN is not acknowledged, one once a FIN was sent.
    pub open spec fn virtual_bytes(self) -> int {
        (if self.send.una == self.send.iss {
            1int
        } else {
            0
        }) + (if self.closed_at is Some {
            1int
        } else {
            0
        })
    }

    /// What every connection keeps between two events: no more bytes wait
    /// than the send queue holds, no SYN or FIN waits for a segment, and
    /// `nxt` lies no further ahead of `una` than the bytes that wait and the
    /// virtual bytes reach.
    pub open spec fn wf(self) -> bool {
        &&& self.unacked.len() <= SENDQUEUE_SIZE
        &&& !self.tcp.syn
        &&& !self.tcp.fin
        &&& steps(self.send.una, self.send.nxt) <= self.unacked.len() + self.virtual_bytes()
    }

    /// The receive side is closed: the peer's FIN was taken in.
    pub open spec fn rcv_closed(self) -> bool {
        self.state == State::TimeWait
    }

    /// There is something for a reader: bytes, or the end of the stream.
    pub open spec fn readable(self) -> bool {
        self.rcv_closed() || self.incoming.len() > 0
    }

    // ----- passive open -----

    /// Whether a segment opens a connection: SYN without ACK.
    pub open spec fn opens(tcp: TcpMeta) -> bool {
        tcp.syn && !tcp.ack
    }

    /// The connection that a SYN gives rise to, before its answer goes out.
    pub open spec fn listening(ip: Ipv4Meta, tcp: TcpMeta) -> ConnectionView {
        ConnectionView {
            state: State::SynRcvd,
            send: SendSequenceSpace {
                una: INITIAL_SEND_SEQ,
                nxt: INITIAL_SEND_SEQ,
                wnd: SEND_WINDOW,
                up: false,
                wl1: 0,
                wl2: 0,
                iss: INITIAL_SEND_SEQ,
            },
            recv: ReceiveSequenceSpace {
                nxt: advance(tcp.sequence_number, 1),
                wnd: tcp.window_size,
                up: false,
                irs: tcp.sequence_number,
            },
            ip: IpTemplate {
                source: ip.destination,
                destination: ip.source,
                time_to_live: TIME_TO_LIVE,
                protocol: PROTOCOL_TCP,
            },
            tcp: TcpTemplate {
                source_port: tcp.destination_port,
                destination_port: tcp.source_port,
                sequence_number: INITIAL_SEND_SEQ,
                acknowledgment_number: 0,
                syn: true,
                ack: true,
                fin: false,
                rst: false,
                window_size: ANNOUNCED_WINDOW,
                checksum: 0,
            },
            timers: TimersView { send_times: Map::empty(), srtt: INITIAL_SRTT },
            incoming: Seq::empty(),
            unacked: Seq::empty(),
            closed: false,
            closed_at: None,
        }
    }

    /// The passive open: the new connection after its SYN+ACK went out, and
    /// that one frame.
    pub open spec fn accepted(now: u64, ip: Ipv4Meta, tcp: TcpMeta) -> Effect {
        Self::listening(ip, tcp).emit(now, INITIAL_SEND_SEQ, 0)
    }

    // ----- emitting a segment -----

    /// A segment at `seq` sends the FIN again and nothing else.
    pub open spec fn resends_fin_alone(self, seq: u32) -> bool {
        self.closed_at matches Some(at) && seq == advance(at, 1)
    }

    /// Where in `unacked` the payload of a segment at `seq` begins: as many
    /// bytes in as `seq` lies ahead of `una`, and at the end where `seq` lies
    /// beyond all that waits.
    pub open spec fn payload_start(self, seq: u32) -> int {
        if self.resends_fin_alone(seq) {
            0
        } else {
            min(steps(self.send.una, seq), self.unacked.len() as int)
        }
    }

    /// How many bytes a segment at `seq` carries when it may carry `limit`:
    /// no more than wait from its start on, and no more than fit in a frame.
    pub open spec fn payload_len(self, seq: u32, limit: int) -> int {
        if self.resends_fin_alone(seq) {
            0
        } else {
            min(min(limit, self.unacked.len() - self.payload_start(seq)), MAX_PAYLOAD as int)
        }
    }

    /// The payload of a segment at `seq` that may carry `limit` bytes.
    pub open spec fn payload(self, seq: u32, limit: int) -> Seq<u8> {
        self.unacked.subrange(
            self.payload_start(seq),
            self.payload_start(seq) + self.payload_len(seq, limit),
        )
    }

    /// The header of a segment at `seq`: the template with the sequence
    /// number, and the acknowledgement of all that was received.
    pub open spec fn header(self, seq: u32) -> TcpTemplate {
        TcpTemplate { sequence_number: seq, acknowledgment_number: self.recv.nxt, ..self.tcp }
    }

    /// The sequence number behind a segment at `seq`: past its payload and
    /// past the SYN and the FIN that it carries.
    pub open spec fn segment_end(self, seq: u32, limit: int) -> u32 {
        advance(
            seq,
            self.payload_len(seq, limit) + (if self.tcp.syn { 1int } else { 0 }) + (if self.tcp.fin {
                1int
            } else {
                0
            }),
        )
    }

    /// Sending a segment at `seq` with at most `limit` bytes of payload.
    /// `nxt` moves to the segment's end if that lies ahead, SYN and FIN are
    /// spent, and the send time of `seq` is noted.
    pub open spec fn emit(self, now: u64, seq: u32, limit: int) -> Effect {
        let payload = self.payload(seq, limit);
        let end = self.segment_end(seq, limit);
        Effect {
            next: ConnectionView {
                tcp: TcpTemplate {
                    syn: false,
                    fin: false,
                    ..with_checksum(self.ip, self.header(seq), payload)
                },
                send: SendSequenceSpace {
                    nxt: if seq_lt(self.send.nxt, end) {
                        end
                    } else {
                        self.send.nxt
                    },
                    ..self.send
                },
                timers: self.timers.recorded(seq, now),
                ..self
            },
            frames: seq![frame_bytes(self.ip, self.header(seq), payload)],
        }
    }

    /// Sending a segment that carries nothing but the acknowledgement.
    pub open spec fn emit_ack(self, now: u64) -> Effect {
        self.emit(now, self.send.nxt, 0)
    }

    /// The header of a reset: RST set, sequence and acknowledgement number 0.
    pub open spec fn reset_header(self) -> TcpTemplate {
        TcpTemplate { rst: true, sequence_number: 0, acknowledgment_number: 0, ..self.tcp }
    }

    /// Sending a reset. Nothing but the header template changes.
    pub open spec fn reset(self) -> Effect {
        Effect {
            next: ConnectionView {
                tcp: with_checksum(self.ip, self.reset_header(), Seq::empty()),
                ..self
            },
            frames: seq![frame_bytes(self.ip, self.reset_header(), Seq::empty())],
        }
    }

    // ----- a segment arrives -----

    /// How many bytes leave `unacked` when `ackn` is acknowledged. The SYN
    /// takes up the first sequence number and no byte.
    pub open spec fn acked_bytes(self, ackn: u32) -> int {
        let data_start = if self.send.una == self.send.iss {
            advance(self.send.una, 1)
        } else {
            self.send.una
        };
        min(steps(data_start, ackn), self.unacked.len() as int)
    }

    /// Taking in the acknowledgement number of a segment: the handshake may
    /// end, acknowledged bytes and timers leave, and an acknowledged FIN
    /// leads from `FinWait1` to `FinWait2`.
    pub open spec fn acknowledge(self, now: u64, ackn: u32) -> ConnectionView {
        let opened = if self.state == State::SynRcvd && completes_handshake(self.send, ackn) {
            State::Estab
        } else {
            self.state
        };
        let advanced = if opened.carries_data() && acknowledges_new(self.send, ackn) {
            ConnectionView {
                state: opened,
                send: SendSequenceSpace { una: ackn, ..self.send },
                unacked: self.unacked.skip(self.acked_bytes(ackn)),
                timers: self.timers.acknowledged(self.send.una, ackn, now),
                ..self
            }
        } else {
            ConnectionView { state: opened, ..self }
        };
        if advanced.state == State::FinWait1 && advanced.send.una == advance(
            advanced.send.iss,
            2,
        ) {
            ConnectionView { state: State::FinWait2, ..advanced }
        } else {
            advanced
        }
    }

    /// Taking in the payload of a segment at `seq`: the bytes not received
    /// before join `incoming`, `recv.nxt` moves behind the payload's last
    /// byte, and an acknowledgement goes out. Only a connection that carries
    /// data takes a payload in.
    pub open spec fn receive(self, now: u64, seq: u32, data: Seq<u8>) -> Effect {
        if data.len() > 0 && self.state.carries_data() {
            ConnectionView {
                incoming: self.incoming + data.skip(
                    unread_offset(self.recv.nxt, seq, data.len()),
                ),
                recv: ReceiveSequenceSpace { nxt: advance(seq, data.len() as int), ..self.recv },
                ..self
            }.emit_ack(now)
        } else {
            Effect { next: self, frames: Seq::empty() }
        }
    }

    /// Taking in the FIN of a segment. In `FinWait2` it ends the connection:
    /// `recv.nxt` moves past it, an acknowledgement goes out, and the state is
    /// `TimeWait`. In every other state it is fatal.
    pub open spec fn receive_fin(self, now: u64) -> SegmentEffect {
        if self.state == State::FinWait2 {
            let acked = ConnectionView {
                recv: ReceiveSequenceSpace { nxt: advance(self.recv.nxt, 1), ..self.recv },
                ..self
            }.emit_ack(now);
            SegmentEffect {
                next: ConnectionView { state: State::TimeWait, ..acked.next },
                frames: acked.frames,
                fatal: false,
            }
        } else {
            SegmentEffect { next: self, frames: Seq::empty(), fatal: true }
        }
    }

    /// A segment arrives.
    ///
    /// One that does not touch the receive window is answered with an
    /// acknowledgement and changes nothing else. One without ACK can only be
    /// a SYN sent again, which sets `recv.nxt` behind it. Any other has its
    /// acknowledgement, its payload and its FIN taken in, in this order.
    pub open spec fn on_segment(self, now: u64, tcp: TcpMeta, data: Seq<u8>) -> SegmentEffect {
        if !acceptable(self.recv, tcp.sequence_number, segment_len(tcp, data.len())) {
            let answer = self.emit_ack(now);
            SegmentEffect { next: answer.next, frames: answer.frames, fatal: false }
        } else if !tcp.ack {
            SegmentEffect {
                next: if tcp.syn {
                    ConnectionView {
                        recv: ReceiveSequenceSpace {
                            nxt: advance(tcp.sequence_number, 1),
                            ..self.recv
                        },
                        ..self
                    }
                } else {
                    self
                },
                frames: Seq::empty(),
                fatal: false,
            }
        } else {
            let acked = self.acknowledge(now, tcp.acknowledgment_number);
            let received = acked.receive(now, tcp.sequence_number, data);
            if tcp.fin {
                let finished = received.next.receive_fin(now);
                SegmentEffect {
                    next: finished.next,
                    frames: received.frames + finished.frames,
                    fatal: finished.fatal,
                }
            } else {
                SegmentEffect { next: received.next, frames: received.frames, fatal: false }
            }
        }
    }

    // ----- the clock ticks -----

    /// Sequence numbers sent and not acknowledged, as the sender counts them:
    /// up to the FIN if one was sent, else up to `nxt`.
    pub open spec fn in_flight(self) -> int {
        steps(
            self.send.una,
            match self.closed_at {
                Some(at) => at,
                None => self.send.nxt,
            },
        )
    }

    /// Bytes that wait and were never sent: what waits beyond what is in
    /// flight, and nothing where more is in flight than waits.
    pub open spec fn unsent(self) -> int {
        max(self.unacked.len() - self.in_flight(), 0)
    }

    /// Sequence numbers that the send window still has room for: the window
    /// less what is in flight, and nothing where more is in flight than the
    /// window takes.
    pub open spec fn allowed(self) -> int {
        max(self.send.wnd - self.in_flight(), 0)
    }

    /// The application has closed and the FIN has not gone out.
    pub open spec fn close_outstanding(self) -> bool {
        self.closed && self.closed_at is None
    }

    /// The connection with a FIN on its next segment, which comes behind
    /// the byte `at`.
    pub open spec fn with_fin(self, at: u32) -> ConnectionView {
        ConnectionView { tcp: TcpTemplate { fin: true, ..self.tcp }, closed_at: Some(at), ..self }
    }

    /// Sending again from `una`: as many bytes as wait and the window takes.
    /// A closed connection with room left in the window sends its FIN with
    /// them. Afterwards `nxt` stands behind the bytes sent again.
    pub open spec fn retransmit(self, now: u64) -> Effect {
        let resend = min(self.unacked.len() as int, self.send.wnd as int);
        let armed = if resend < self.send.wnd && self.closed {
            self.with_fin(advance(self.send.una, self.unacked.len() as int))
        } else {
            self
        };
        let sent = armed.emit(now, self.send.una, resend);
        Effect {
            next: ConnectionView {
                send: SendSequenceSpace { nxt: advance(self.send.una, resend), ..sent.next.send },
                ..sent.next
            },
            frames: sent.frames,
        }
    }

    /// Sending what was never sent, as far as the window has room. Nothing
    /// goes out when there is nothing new and no close outstanding, or when
    /// the window is full. A close that is outstanding puts its FIN on the
    /// segment if the window has room behind the bytes.
    pub open spec fn send_new(self, now: u64) -> Effect {
        if (self.unsent() == 0 && !self.close_outstanding()) || self.allowed() == 0 {
            Effect { next: self, frames: Seq::empty() }
        } else {
            let count = min(self.unsent(), self.allowed());
            let armed = if count < self.allowed() && self.close_outstanding() {
                self.with_fin(advance(self.send.nxt, count))
            } else {
                self
            };
            armed.emit(now, self.send.nxt, count)
        }
    }

    /// The clock ticks: the oldest segment is sent again if it has waited
    /// long enough, else new data goes out.
    pub open spec fn on_tick(self, now: u64) -> Effect {
        if self.timers.retransmit_due(self.send.una, now) {
            self.retransmit(now)
        } else {
            self.send_new(now)
        }
    }

    // ----- the application's side -----

    /// The application closes its side.
    pub open spec fn close(self) -> ConnectionView {
        ConnectionView { closed: true, ..self }
    }

    /// How many of `len` offered bytes the send queue takes.
    pub open spec fn room(self, len: nat) -> int {
        min(len as int, SENDQUEUE_SIZE - self.unacked.len())
    }

    /// The application writes `data`: as much of it as the queue has room
    /// for joins `unacked`.
    pub open spec fn enqueue(self, data: Seq<u8>) -> ConnectionView {
        ConnectionView { unacked: self.unacked + data.take(self.room(data.len())), ..self }
    }

    /// The application reads at most `max` bytes: they leave `incoming`.
    pub open spec fn dequeue(self, max: nat) -> ConnectionView {
        ConnectionView {
            incoming: self.incoming.skip(min(max as int, self.incoming.len() as int)),
            ..self
        }
    }
}

} // verus!
