//! The protocol engine of one connection.

use std::collections::VecDeque;
use vstd::prelude::*;
use crate::available::Available;
use crate::bytes::{append_from, append_prefix, copy_range, drain_front, Outbox};
use crate::frame::{build_frame, MAX_PAYLOAD};
use crate::laws::{
    law_accept_establishes_order, law_recv_nxt_after_segment, law_segment_keeps_order,
    law_tick_keeps_order, lemma_acknowledge_keeps_order, recv_nxt_after,
};
use crate::model::{
    acceptable, acknowledges_new, segment_len, ConnectionView, ReceiveSequenceSpace,
    SendSequenceSpace, ANNOUNCED_WINDOW, INITIAL_SEND_SEQ, SENDQUEUE_SIZE, SEND_WINDOW,
    TIME_TO_LIVE,
};
use crate::seqnum::{
    advance, is_between_wrapped, lemma_advance_mod, lemma_advance_twice,
    lemma_wrapping_add_is_advance, lemma_wrapping_sub_is_retreat, lemma_wrapping_sub_is_steps,
    space, wrapping_lt,
};
use crate::state::State;
use crate::timers::Timers;
use crate::wire::{IpTemplate, Ipv4Meta, TcpMeta, TcpTemplate, PROTOCOL_TCP};

verus! {

/// Why a connection is given up.
#[derive(Clone, Copy, Debug, PartialEq, Eq, Structural)]
pub enum ProtocolError {
    /// A FIN arrived in a state that has no place for it.
    UnexpectedFin,
}

/// One TCP connection: its state, both sequence spaces, its timers and its
/// two byte queues.
pub struct Connection {
    state: State,
    send: SendSequenceSpace,
    recv: ReceiveSequenceSpace,
    ip: IpTemplate,
    tcp: TcpTemplate,
    timers: Timers,
    incoming: VecDeque<u8>,
    unacked: VecDeque<u8>,
    closed: bool,
    closed_at: Option<u32>,
}

impl View for Connection {
    type V = ConnectionView;

    closed spec fn view(&self) -> ConnectionView {
        ConnectionView {
            state: self.state,
            send: self.send,
            recv: self.recv,
            ip: self.ip,
            tcp: self.tcp,
            timers: self.timers@,
            incoming: self.incoming@,
            unacked: self.unacked@,
            closed: self.closed,
            closed_at: self.closed_at,
        }
    }
}

/// The number of sequence numbers that `len` bytes take up on the circle.
fn wrapped_len(len: usize) -> (n: u32)
    ensures
        n == len as int % space(),
{
    (len as u64 % 0x1_0000_0000u64) as u32
}

impl Connection {
    /// The state of the connection.
    pub fn state(&self) -> (s: State)
        ensures
            s == self@.state,
    {
        self.state
    }

    /// The send sequence space.
    pub fn send_space(&self) -> (s: SendSequenceSpace)
        ensures
            s == self@.send,
    {
        self.send
    }

    /// The receive sequence space.
    pub fn recv_space(&self) -> (r: ReceiveSequenceSpace)
        ensures
            r == self@.recv,
    {
        self.recv
    }

    /// The smoothed round-trip time, in nanoseconds.
    pub fn srtt(&self) -> (r: u64)
        ensures
            r == self@.timers.srtt,
    {
        self.timers.srtt()
    }

    /// When the segment that starts at `seq` went out, if its timer runs.
    pub fn sent_at(&self, seq: u32) -> (r: Option<u64>)
        ensures
            r == (if self@.timers.send_times.contains_key(seq) {
                Some(self@.timers.send_times[seq])
            } else {
                None
            }),
    {
        self.timers.sent_at(seq)
    }

    /// Number of received bytes that wait for the application.
    pub fn incoming_len(&self) -> (n: usize)
        ensures
            n == self@.incoming.len(),
    {
        self.incoming.len()
    }

    /// Number of bytes that wait for their acknowledgement.
    pub fn unacked_len(&self) -> (n: usize)
        ensures
            n == self@.unacked.len(),
    {
        self.unacked.len()
    }

    /// The application has closed its side.
    pub fn is_closed(&self) -> (r: bool)
        ensures
            r == self@.closed,
    {
        self.closed
    }

    /// The sequence number of the FIN, once one was sent.
    pub fn closed_at(&self) -> (r: Option<u32>)
        ensures
            r == self@.closed_at,
    {
        self.closed_at
    }

    /// The receive side is closed.
    pub fn is_rcv_closed(&self) -> (r: bool)
        ensures
            r == self@.rcv_closed(),
    {
        self.state == State::TimeWait
    }

    /// The wake-ups that the connection owes: `READ` when bytes wait for a
    /// reader or the stream has ended.
    pub fn availability(&self) -> (a: Available)
        ensures
            a.read == self@.readable(),
            !a.write,
    {
        let mut a = Available::empty();
        if self.is_rcv_closed() || self.incoming.len() > 0 {
            a.insert(Available::read());
        }
        a
    }

    /// Opens a connection on a SYN without ACK and answers it with SYN+ACK.
    /// Any other segment opens nothing and is not answered.
    pub fn accept(
        out: &mut Outbox,
        now: u64,
        ip_header: &Ipv4Meta,
        tcp_header: &TcpMeta,
        data: &[u8],
    ) -> (r: Option<Connection>)
        ensures
            r is Some <==> ConnectionView::opens(*tcp_header),
            r matches Some(c) ==> {
                &&& c@ == ConnectionView::accepted(now, *ip_header, *tcp_header).next
                &&& c@.wf()
                &&& final(out)@ == old(out)@ + ConnectionView::accepted(
                    now,
                    *ip_header,
                    *tcp_header,
                ).frames
            },
            r is None ==> final(out)@ == old(out)@,
    {
        if !tcp_header.syn || tcp_header.ack {
            assert(out@ =~= old(out)@);
            return None;
        }
        proof {
            lemma_wrapping_add_is_advance(tcp_header.sequence_number, 1);
        }
        let mut c = Connection {
            state: State::SynRcvd,
            send: SendSequenceSpace {
                una: INITIAL_SEND_SEQ,
                nxt: INITIAL_SEND_SEQ,
                wnd: SEND_WINDOW,
                up: false,
                wl1: 0,
                wl2: 0,
                iss: INITIAL_SEND_SEQ,
            },
            recv: ReceiveSequenceSpace {
                nxt: tcp_header.sequence_number.wrapping_add(1),
                wnd: tcp_header.window_size,
                up: false,
                irs: tcp_header.sequence_number,
            },
            ip: IpTemplate {
                source: ip_header.destination,
                destination: ip_header.source,
                time_to_live: TIME_TO_LIVE,
                protocol: PROTOCOL_TCP,
            },
            tcp: TcpTemplate {
                source_port: tcp_header.destination_port,
                destination_port: tcp_header.source_port,
                sequence_number: INITIAL_SEND_SEQ,
                acknowledgment_number: 0,
                syn: true,
                ack: true,
                fin: false,
                rst: false,
                window_size: ANNOUNCED_WINDOW,
                checksum: 0,
            },
            timers: Timers::new(),
            incoming: VecDeque::new(),
            unacked: VecDeque::new(),
            closed: false,
            closed_at: None,
        };
        assert(c@ == ConnectionView::listening(*ip_header, *tcp_header));
        c.write(out, now, c.send.nxt, 0);
        proof {
            law_accept_establishes_order(now, *ip_header, *tcp_header);
        }
        Some(c)
    }

    /// Sends one segment at `seq` with at most `limit` bytes of payload and
    /// says how many it carries.
    fn write(&mut self, out: &mut Outbox, now: u64, seq: u32, limit: usize) -> (sent: usize)
        ensures
            final(self)@ == old(self)@.emit(now, seq, limit as int).next,
            final(out)@ == old(out)@ + old(self)@.emit(now, seq, limit as int).frames,
            sent == old(self)@.payload_len(seq, limit as int),
    {
        let ghost before = self@;
        let (start, count) = self.payload_bounds(seq, limit);
        let payload = copy_range(&self.unacked, start, count);
        assert(payload@ == before.payload(seq, limit as int));
        self.tcp.sequence_number = seq;
        self.tcp.acknowledgment_number = self.recv.nxt;
        assert(self.tcp == before.header(seq));
        let next_seq = self.segment_end(seq, count);
        let frame = build_frame(&self.ip, &mut self.tcp, &payload);
        self.tcp.syn = false;
        self.tcp.fin = false;
        if wrapping_lt(self.send.nxt, next_seq) {
            self.send.nxt = next_seq;
        }
        self.timers.record(seq, now);
        out.push(frame);
        proof {
            assert(old(out)@.push(frame@) =~= old(out)@ + seq![frame@]);
        }
        count
    }

    /// Where in `unacked` the payload of a segment at `seq` begins, and how
    /// many bytes it has.
    fn payload_bounds(&self, seq: u32, limit: usize) -> (r: (usize, usize))
        ensures
            r.0 == self@.payload_start(seq),
            r.1 == self@.payload_len(seq, limit as int),
            r.0 + r.1 <= self@.unacked.len(),
            r.1 <= MAX_PAYLOAD,
    {
        let len = self.unacked.len();
        if let Some(closed_at) = self.closed_at {
            proof {
                lemma_wrapping_add_is_advance(closed_at, 1);
            }
            if seq == closed_at.wrapping_add(1) {
                return (0, 0);
            }
        }
        proof {
            lemma_wrapping_sub_is_steps(seq, self.send.una);
        }
        let offset: usize = seq.wrapping_sub(self.send.una) as usize;
        let start: usize = if offset > len {
            len
        } else {
            offset
        };
        let mut count: usize = limit;
        if count > len - start {
            count = len - start;
        }
        if count > MAX_PAYLOAD {
            count = MAX_PAYLOAD;
        }
        (start, count)
    }

    /// The sequence number behind a segment at `seq` that carries `count`
    /// bytes and the flags of the template.
    fn segment_end(&self, seq: u32, count: usize) -> (end: u32)
        requires
            count <= MAX_PAYLOAD,
        ensures
            end == advance(
                seq,
                count + (if self@.tcp.syn { 1int } else { 0 }) + (if self@.tcp.fin {
                    1int
                } else {
                    0
                }),
            ),
    {
        let mut next_seq = seq.wrapping_add(count as u32);
        proof {
            lemma_wrapping_add_is_advance(seq, count as u32);
        }
        if self.tcp.syn {
            proof {
                lemma_wrapping_add_is_advance(next_seq, 1);
                lemma_advance_twice(seq, count as int, 1);
            }
            next_seq = next_seq.wrapping_add(1);
        }
        if self.tcp.fin {
            proof {
                lemma_wrapping_add_is_advance(next_seq, 1);
                lemma_advance_twice(seq, count as int, 1);
                lemma_advance_twice(seq, count as int + 1, 1);
            }
            next_seq = next_seq.wrapping_add(1);
        }
        next_seq
    }

    /// Sends a reset: RST set, sequence and acknowledgement number 0, no
    /// payload.
    pub fn send_rst(&mut self, out: &mut Outbox)
        ensures
            final(self)@ == old(self)@.reset().next,
            final(out)@ == old(out)@ + old(self)@.reset().frames,
    {
        self.tcp.rst = true;
        self.tcp.sequence_number = 0;
        self.tcp.acknowledgment_number = 0;
        let payload: Vec<u8> = Vec::new();
        let frame = build_frame(&self.ip, &mut self.tcp, &payload);
        out.push(frame);
        proof {
            assert(payload@ =~= Seq::<u8>::empty());
            assert(old(out)@.push(frame@) =~= old(out)@ + seq![frame@]);
        }
    }

    /// Whether a segment at `seq` touches the receive window.
    fn is_acceptable(&self, tcp_header: &TcpMeta, data: &[u8]) -> (r: bool)
        ensures
            r == acceptable(
                self@.recv,
                tcp_header.sequence_number,
                segment_len(*tcp_header, data@.len()),
            ),
    {
        let seqn = tcp_header.sequence_number;
        let before = self.recv.nxt.wrapping_sub(1);
        let wend = self.recv.nxt.wrapping_add(self.recv.wnd as u32);
        let ghost slen = segment_len(*tcp_header, data@.len());
        proof {
            lemma_wrapping_sub_is_retreat(self.recv.nxt, 1);
            lemma_wrapping_add_is_advance(self.recv.nxt, self.recv.wnd as u32);
        }
        if data.len() == 0 && !tcp_header.syn && !tcp_header.fin {
            if self.recv.wnd == 0 {
                seqn == self.recv.nxt
            } else {
                is_between_wrapped(before, seqn, wend)
            }
        } else if self.recv.wnd == 0 {
            false
        } else {
            // The last sequence number of the segment, counted on the circle.
            let ghost n = data@.len() as int;
            let on_circle = wrapped_len(data.len());
            let mut last = seqn.wrapping_add(on_circle);
            proof {
                lemma_wrapping_add_is_advance(seqn, on_circle);
                lemma_advance_mod(seqn, n);
            }
            assert(last == advance(seqn, n));
            if tcp_header.syn {
                proof {
                    lemma_wrapping_add_is_advance(last, 1);
                    lemma_advance_twice(seqn, n, 1);
                }
                last = last.wrapping_add(1);
            }
            let ghost with_syn = n + if tcp_header.syn { 1int } else { 0 };
            assert(last == advance(seqn, with_syn));
            if tcp_header.fin {
                proof {
                    lemma_wrapping_add_is_advance(last, 1);
                    lemma_advance_twice(seqn, with_syn, 1);
                }
                last = last.wrapping_add(1);
            }
            assert(last == advance(seqn, slen));
            proof {
                lemma_wrapping_sub_is_retreat(last, 1);
                lemma_advance_twice(seqn, slen, -1);
            }
            last = last.wrapping_sub(1);
            assert(last == advance(seqn, slen - 1));
            is_between_wrapped(before, seqn, wend) || is_between_wrapped(before, last, wend)
        }
    }

    /// Takes in the acknowledgement number of a segment.
    fn on_ack(&mut self, now: u64, ackn: u32)
        requires
            old(self)@.wf(),
        ensures
            final(self)@ == old(self)@.acknowledge(now, ackn),
            final(self)@.wf(),
    {
        proof {
            lemma_wrapping_sub_is_retreat(self.send.una, 1);
            lemma_wrapping_add_is_advance(self.send.nxt, 1);
            lemma_wrapping_add_is_advance(self.send.una, 1);
            lemma_wrapping_add_is_advance(self.send.iss, 2);
            lemma_acknowledge_keeps_order(self@, now, ackn);
        }
        let behind = self.send.nxt.wrapping_add(1);
        if self.state == State::SynRcvd {
            if is_between_wrapped(self.send.una.wrapping_sub(1), ackn, behind) {
                self.state = State::Estab;
            }
        }
        let new = is_between_wrapped(self.send.una, ackn, behind);
        assert(new == acknowledges_new(old(self)@.send, ackn));
        if self.state.is_carrying_data() && new {
            let data_start = if self.send.una == self.send.iss {
                self.send.una.wrapping_add(1)
            } else {
                self.send.una
            };
            let acked = ackn.wrapping_sub(data_start) as usize;
            proof {
                lemma_wrapping_sub_is_steps(ackn, data_start);
            }
            let len = self.unacked.len();
            drain_front(
                &mut self.unacked,
                if acked < len {
                    acked
                } else {
                    len
                },
            );
            self.timers.acknowledge(self.send.una, ackn, now);
            self.send.una = ackn;
        }
        if self.state == State::FinWait1 {
            if self.send.una == self.send.iss.wrapping_add(2) {
                self.state = State::FinWait2;
            }
        }
    }

    /// Takes in one segment of the connection and says which wake-ups the
    /// application is owed. A payload that is taken in leaves `recv.nxt`
    /// behind its last byte. `Err` says that the segment broke the protocol:
    /// the connection is to be reset and given up.
    pub fn on_packet(
        &mut self,
        out: &mut Outbox,
        now: u64,
        ip_header: &Ipv4Meta,
        tcp_header: &TcpMeta,
        data: &[u8],
    ) -> (r: Result<Available, ProtocolError>)
        requires
            old(self)@.wf(),
        ensures
            final(self)@ == old(self)@.on_segment(now, *tcp_header, data@).next,
            final(out)@ == old(out)@ + old(self)@.on_segment(now, *tcp_header, data@).frames,
            r is Err <==> old(self)@.on_segment(now, *tcp_header, data@).fatal,
            r matches Ok(a) ==> a.read == final(self)@.readable() && !a.write,
            final(self)@.wf(),
            final(self)@.recv.nxt == recv_nxt_after(old(self)@, now, *tcp_header, data@),
    {
        let seqn = tcp_header.sequence_number;
        proof {
            law_segment_keeps_order(self@, now, *tcp_header, data@);
            law_recv_nxt_after_segment(self@, now, *tcp_header, data@);
        }
        if !self.is_acceptable(tcp_header, data) {
            self.write(out, now, self.send.nxt, 0);
            return Ok(self.availability());
        }
        if !tcp_header.ack {
            if tcp_header.syn {
                proof {
                    lemma_wrapping_add_is_advance(seqn, 1);
                }
                self.recv.nxt = seqn.wrapping_add(1);
            }
            assert(out@ =~= old(out)@ + Seq::<Seq<u8>>::empty());
            return Ok(self.availability());
        }
        self.on_ack(now, tcp_header.acknowledgment_number);
        let ghost acked = self@;
        assert(out@ =~= old(out)@ + Seq::<Seq<u8>>::empty());

        if data.len() > 0 && self.state.is_carrying_data() {
            let gap = self.recv.nxt.wrapping_sub(seqn) as usize;
            proof {
                lemma_wrapping_sub_is_steps(self.recv.nxt, seqn);
            }
            let unread = if gap > data.len() {
                0
            } else {
                gap
            };
            append_from(&mut self.incoming, data, unread);
            let on_circle = wrapped_len(data.len());
            proof {
                lemma_advance_mod(seqn, data@.len() as int);
                lemma_wrapping_add_is_advance(seqn, on_circle);
            }
            self.recv.nxt = seqn.wrapping_add(on_circle);
            self.write(out, now, self.send.nxt, 0);
        }
        let ghost received = acked.receive(now, seqn, data@);
        assert(self@ == received.next);
        assert(out@ =~= old(out)@ + received.frames);

        if tcp_header.fin {
            if self.state == State::FinWait2 {
                proof {
                    lemma_wrapping_add_is_advance(self.recv.nxt, 1);
                }
                self.recv.nxt = self.recv.nxt.wrapping_add(1);
                self.write(out, now, self.send.nxt, 0);
                self.state = State::TimeWait;
                assert(out@ =~= old(out)@ + (received.frames + received.next.receive_fin(
                    now,
                ).frames));
            } else {
                assert(out@ =~= old(out)@ + (received.frames + received.next.receive_fin(
                    now,
                ).frames));
                return Err(ProtocolError::UnexpectedFin);
            }
        }
        Ok(self.availability())
    }

    /// One tick of the clock: sends the oldest segment again if it has waited
    /// long enough, else sends what is new.
    pub fn on_tick(&mut self, out: &mut Outbox, now: u64)
        requires
            old(self)@.wf(),
        ensures
            final(self)@ == old(self)@.on_tick(now).next,
            final(out)@ == old(out)@ + old(self)@.on_tick(now).frames,
            final(self)@.wf(),
            final(self)@.send.una == old(self)@.send.una,
            final(self)@.unacked == old(self)@.unacked,
            final(out)@.len() <= old(out)@.len() + 1,
    {
        let len: u32 = self.unacked.len() as u32;
        proof {
            law_tick_keeps_order(self@, now);
        }
        if self.timers.should_retransmit(self.send.una, now) {
            let resend: u32 = if len < self.send.wnd as u32 {
                len
            } else {
                self.send.wnd as u32
            };
            proof {
                lemma_wrapping_add_is_advance(self.send.una, len);
                lemma_wrapping_add_is_advance(self.send.una, resend);
            }
            if resend < self.send.wnd as u32 && self.closed {
                self.tcp.fin = true;
                self.closed_at = Some(self.send.una.wrapping_add(len));
            }
            self.write(out, now, self.send.una, resend as usize);
            self.send.nxt = self.send.una.wrapping_add(resend);
        } else {
            let sent_up_to = match self.closed_at {
                Some(at) => at,
                None => self.send.nxt,
            };
            let in_flight: u32 = sent_up_to.wrapping_sub(self.send.una);
            proof {
                lemma_wrapping_sub_is_steps(sent_up_to, self.send.una);
            }
            let unsent: u32 = len.saturating_sub(in_flight);
            let allowed: u32 = (self.send.wnd as u32).saturating_sub(in_flight);
            let close_outstanding = self.closed && self.closed_at.is_none();
            if (unsent == 0 && !close_outstanding) || allowed == 0 {
                assert(out@ =~= old(out)@ + Seq::<Seq<u8>>::empty());
                return ;
            }
            let count: u32 = if unsent < allowed {
                unsent
            } else {
                allowed
            };
            proof {
                lemma_wrapping_add_is_advance(self.send.nxt, count);
            }
            if count < allowed && close_outstanding {
                self.tcp.fin = true;
                self.closed_at = Some(self.send.nxt.wrapping_add(count));
            }
            self.write(out, now, self.send.nxt, count as usize);
        }
    }

    /// The application closes its side. The FIN goes out with a later tick.
    pub fn close(&mut self)
        ensures
            final(self)@ == old(self)@.close(),
    {
        self.closed = true;
    }

    /// Takes bytes from the application into the send queue, as many as it
    /// has room for, and says how many.
    pub fn enqueue(&mut self, data: &[u8]) -> (taken: usize)
        requires
            old(self)@.wf(),
        ensures
            final(self)@ == old(self)@.enqueue(data@),
            taken == old(self)@.room(data@.len()),
            final(self)@.wf(),
    {
        let room = SENDQUEUE_SIZE - self.unacked.len();
        let taken = if data.len() < room {
            data.len()
        } else {
            room
        };
        append_prefix(&mut self.unacked, data, taken);
        taken
    }

    /// Hands the application at most `max` received bytes, oldest first.
    pub fn dequeue(&mut self, max: usize) -> (bytes: Vec<u8>)
        ensures
            final(self)@ == old(self)@.dequeue(max as nat),
            bytes@ == old(self)@.incoming.take(vstd::math::min(
                max as int,
                old(self)@.incoming.len() as int,
            )),
    {
        let len = self.incoming.len();
        let count = if max < len {
            max
        } else {
            len
        };
        let bytes = copy_range(&self.incoming, 0, count);
        drain_front(&mut self.incoming, count);
        bytes
    }
}

} // verus!
