//! What holds of every connection, whatever segments, ticks and calls reach
//! it. Each law is stated over the functions of `model` and `timers`, to
//! which the engine is held.

use vstd::prelude::*;
use crate::frame::frame_bytes;
use crate::model::{
    acceptable, acknowledges_new, completes_handshake, segment_len, ConnectionView,
    ReceiveSequenceSpace, SENDQUEUE_SIZE,
};
use crate::seqnum::{
    advance, lemma_advance_steps, lemma_advance_twice, lemma_advance_zero, lemma_seq_lt_advance,
    lemma_steps, lemma_steps_add, lemma_steps_advance, lemma_steps_opposite, lemma_steps_split,
    seq_between, seq_in_range, seq_le, seq_lt, space, steps, HALF_SPACE,
};
use crate::state::State;
use crate::timers::{elapsed, lemma_sampled_skips, smooth, srtt_sampled, TimersView};
use crate::wire::{TcpMeta, TcpTemplate};

verus! {

// ----- the receive window -----

/// `x` lies in the receive window: fewer than `wnd` steps after `nxt`.
pub open spec fn in_window(recv: ReceiveSequenceSpace, x: u32) -> bool {
    steps(recv.nxt, x) < recv.wnd
}

/// The test that `acceptable` makes of one end of a segment asks whether that
/// end lies in the receive window.
pub proof fn lemma_window_test(recv: ReceiveSequenceSpace, x: u32)
    requires
        recv.wnd > 0,
    ensures
        seq_between(advance(recv.nxt, -1), x, advance(recv.nxt, recv.wnd as int)) <==> in_window(
            recv,
            x,
        ),
{
    let before = advance(recv.nxt, -1);
    let wend = advance(recv.nxt, recv.wnd as int);
    lemma_steps(recv.nxt, x);
    lemma_steps(before, x);
    lemma_steps(x, wend);
    lemma_steps_advance(recv.nxt, recv.wnd as int);
    lemma_advance_twice(recv.nxt, -1, 1);
    lemma_advance_zero(recv.nxt);
    lemma_steps_advance(before, 1);
    // From the point before `nxt` it is one step more than from `nxt`.
    if x == before {
        lemma_steps_opposite(before, before);
        lemma_steps_opposite(recv.nxt, before);
    } else {
        lemma_steps_opposite(before, x);
        lemma_steps_opposite(x, before);
        lemma_steps_split(before, recv.nxt, x);
    }
    if steps(recv.nxt, x) <= recv.wnd {
        lemma_steps_split(recv.nxt, x, wend);
    } else {
        lemma_steps_split(recv.nxt, wend, x);
        lemma_steps_opposite(wend, x);
    }
}

/// A segment without payload, SYN or FIN that meets a closed window is
/// accepted if and only if it starts at `recv.nxt`.
pub proof fn law_zero_window_probe(recv: ReceiveSequenceSpace, seq: u32)
    requires
        recv.wnd == 0,
    ensures
        acceptable(recv, seq, 0) <==> seq == recv.nxt,
{
}

/// A segment that starts inside the window and runs past its right edge is
/// accepted.
pub proof fn law_straddling_segment_accepted(recv: ReceiveSequenceSpace, seq: u32, slen: int)
    requires
        slen > 0,
        in_window(recv, seq),
        steps(recv.nxt, seq) + slen > recv.wnd,
    ensures
        acceptable(recv, seq, slen),
{
    lemma_steps(recv.nxt, seq);
    lemma_window_test(recv, seq);
}

/// A segment is accepted if and only if the window is open and holds its
/// first or its last sequence number; one that takes up no sequence number
/// is also accepted at `recv.nxt` when the window is closed.
pub proof fn law_acceptable_by_window(recv: ReceiveSequenceSpace, seq: u32, slen: int)
    requires
        slen >= 0,
    ensures
        recv.wnd > 0 && slen == 0 ==> (acceptable(recv, seq, slen) <==> in_window(recv, seq)),
        recv.wnd > 0 && slen > 0 ==> (acceptable(recv, seq, slen) <==> in_window(recv, seq)
            || in_window(recv, advance(seq, slen - 1))),
        recv.wnd == 0 ==> (acceptable(recv, seq, slen) <==> slen == 0 && seq == recv.nxt),
{
    if recv.wnd > 0 {
        lemma_window_test(recv, seq);
        lemma_window_test(recv, advance(seq, slen - 1));
    }
}

/// A segment that ends before `recv.nxt` is answered with one segment that
/// carries the acknowledgement and nothing else. The send time of that
/// answer is noted and its header stays in the template; nothing else of the
/// connection changes.
pub proof fn law_old_segment_only_acknowledged(
    c: ConnectionView,
    now: u64,
    tcp: TcpMeta,
    data: Seq<u8>,
)
    requires
        c.wf(),
        seq_lt(tcp.sequence_number, c.recv.nxt),
        segment_len(tcp, data.len()) <= steps(tcp.sequence_number, c.recv.nxt),
    ensures
        !acceptable(c.recv, tcp.sequence_number, segment_len(tcp, data.len())),
        !c.on_segment(now, tcp, data).fatal,
        c.on_segment(now, tcp, data).frames == seq![
            frame_bytes(c.ip, c.header(c.send.nxt), Seq::<u8>::empty()),
        ],
        !c.header(c.send.nxt).syn && !c.header(c.send.nxt).fin,
        c.header(c.send.nxt).sequence_number == c.send.nxt,
        c.header(c.send.nxt).acknowledgment_number == c.recv.nxt,
        ({
            let after = c.on_segment(now, tcp, data).next;
            &&& after.state == c.state
            &&& after.send == c.send
            &&& after.recv == c.recv
            &&& after.incoming == c.incoming
            &&& after.unacked == c.unacked
            &&& after.closed == c.closed
            &&& after.closed_at == c.closed_at
            &&& after.timers.srtt == c.timers.srtt
            &&& after.timers.send_times == c.timers.send_times.insert(c.send.nxt, now)
        }),
{
    let seq = tcp.sequence_number;
    let slen = segment_len(tcp, data.len());
    lemma_steps(seq, c.recv.nxt);
    lemma_steps_opposite(seq, c.recv.nxt);
    lemma_steps(c.recv.nxt, seq);
    law_acceptable_by_window(c.recv, seq, slen);
    if slen > 0 {
        // The last sequence number of the segment lies before `recv.nxt` too.
        let last = advance(seq, slen - 1);
        lemma_steps_advance(seq, slen - 1);
        lemma_steps_split(seq, last, c.recv.nxt);
        lemma_steps(last, c.recv.nxt);
        lemma_steps_opposite(last, c.recv.nxt);
        lemma_steps(c.recv.nxt, last);
    }
    lemma_bare_ack_leaves_send(c, now);
}

/// A segment without payload, SYN or FIN meets a closed window. Anywhere but
/// at `recv.nxt` it is answered with one segment that carries the
/// acknowledgement and changes nothing else. At `recv.nxt` it is taken in:
/// an established connection moves `una` to an acknowledgement number that
/// lies behind `una` and not behind `nxt`.
pub proof fn law_zero_window_segment(c: ConnectionView, now: u64, tcp: TcpMeta)
    requires
        c.wf(),
        c.recv.wnd == 0,
        !tcp.syn,
        !tcp.fin,
    ensures
        acceptable(c.recv, tcp.sequence_number, segment_len(tcp, 0)) <==> tcp.sequence_number
            == c.recv.nxt,
        tcp.sequence_number != c.recv.nxt ==> {
            let after = c.on_segment(now, tcp, Seq::<u8>::empty()).next;
            &&& c.on_segment(now, tcp, Seq::<u8>::empty()).frames == seq![
                frame_bytes(c.ip, c.header(c.send.nxt), Seq::<u8>::empty()),
            ]
            &&& after.state == c.state
            &&& after.send == c.send
            &&& after.recv == c.recv
            &&& after.incoming == c.incoming
            &&& after.unacked == c.unacked
        },
        tcp.sequence_number == c.recv.nxt && tcp.ack && c.state == State::Estab && seq_lt(
            c.send.una,
            tcp.acknowledgment_number,
        ) && seq_le(tcp.acknowledgment_number, c.send.nxt) ==> {
            let after = c.on_segment(now, tcp, Seq::<u8>::empty()).next;
            &&& after.send.una == tcp.acknowledgment_number
            &&& after.send.nxt == c.send.nxt
            &&& after.recv == c.recv
            &&& c.on_segment(now, tcp, Seq::<u8>::empty()).frames == Seq::<Seq<u8>>::empty()
        },
{
    lemma_bare_ack_leaves_send(c, now);
    if seq_lt(c.send.una, tcp.acknowledgment_number) && seq_le(
        tcp.acknowledgment_number,
        c.send.nxt,
    ) {
        lemma_ack_in_flight_is_new(c, tcp.acknowledgment_number);
    }
}

// ----- timers -----

/// When a segment whose timer runs is acknowledged at `now`, and the
/// acknowledgement covers no other timer, the timer of the segment is gone
/// and the estimate has taken in one sample, the time since the segment went
/// out.
pub proof fn law_ack_clears_timer(t: TimersView, seq: u32, una: u32, ackn: u32, now: u64)
    requires
        t.send_times.contains_key(seq),
        seq_in_range(una, seq, ackn),
        forall|k: u32| t.send_times.contains_key(k) && k != seq ==> !seq_in_range(una, k, ackn),
    ensures
        !t.acknowledged(una, ackn, now).send_times.contains_key(seq),
        t.acknowledged(una, ackn, now).srtt == smooth(t.srtt, elapsed(now, t.send_times[seq])),
        forall|k: u32|
            k != seq ==> (t.acknowledged(una, ackn, now).send_times.contains_key(k)
                <==> t.send_times.contains_key(k)),
{
    let times = t.send_times;
    lemma_sampled_skips(times, una, ackn, now, t.srtt, 0, seq as int);
    assert(srtt_sampled(times, una, ackn, now, t.srtt, seq + 1) == smooth(
        srtt_sampled(times, una, ackn, now, t.srtt, seq as int),
        elapsed(now, times[seq]),
    ));
    lemma_sampled_skips(times, una, ackn, now, t.srtt, seq + 1, space());
}

/// A segment that went out at `sent` and is acknowledged alone at `now` is
/// such a segment: its sample is the time from `sent` to `now`.
pub proof fn law_ack_clears_recorded_timer(
    t: TimersView,
    seq: u32,
    sent: u64,
    una: u32,
    ackn: u32,
    now: u64,
)
    requires
        seq_in_range(una, seq, ackn),
        forall|k: u32| t.send_times.contains_key(k) && k != seq ==> !seq_in_range(una, k, ackn),
    ensures
        !t.recorded(seq, sent).acknowledged(una, ackn, now).send_times.contains_key(seq),
        t.recorded(seq, sent).acknowledged(una, ackn, now).srtt == smooth(
            t.srtt,
            elapsed(now, sent),
        ),
{
    law_ack_clears_timer(t.recorded(seq, sent), seq, una, ackn, now);
}

/// An established connection has sent the bytes from `una` to `nxt` in a
/// segment whose timer runs, and no other timer runs for them. When the
/// acknowledgement of all of them arrives, the timer is gone, the estimate
/// has taken in one sample, `una` stands at `nxt`, and the bytes have left
/// the send queue.
pub proof fn law_acknowledged_segment_leaves(c: ConnectionView, now: u64, tcp: TcpMeta)
    requires
        c.wf(),
        c.state == State::Estab,
        c.send.una != c.send.iss,
        acceptable(c.recv, tcp.sequence_number, segment_len(tcp, 0)),
        tcp.ack,
        !tcp.fin,
        tcp.acknowledgment_number == c.send.nxt,
        0 < steps(c.send.una, c.send.nxt) <= c.unacked.len(),
        c.timers.send_times.contains_key(c.send.una),
        forall|k: u32|
            c.timers.send_times.contains_key(k) && k != c.send.una ==> !seq_in_range(
                c.send.una,
                k,
                c.send.nxt,
            ),
    ensures
        ({
            let after = c.on_segment(now, tcp, Seq::<u8>::empty()).next;
            &&& !after.timers.send_times.contains_key(c.send.una)
            &&& after.timers.srtt == smooth(
                c.timers.srtt,
                elapsed(now, c.timers.send_times[c.send.una]),
            )
            &&& after.send.una == c.send.nxt
            &&& after.send.nxt == c.send.nxt
            &&& after.unacked == c.unacked.skip(steps(c.send.una, c.send.nxt))
            &&& after.state == State::Estab
            &&& c.on_segment(now, tcp, Seq::<u8>::empty()).frames == Seq::<Seq<u8>>::empty()
        }),
{
    let una = c.send.una;
    let nxt = c.send.nxt;
    lemma_steps(una, nxt);
    lemma_steps_opposite(una, nxt);
    lemma_ack_in_flight_is_new(c, nxt);
    law_ack_clears_timer(c.timers, una, una, nxt, now);
}

/// A connection that takes in an acknowledgement of something new gives its
/// timers that acknowledgement: none runs afterwards for a sequence number
/// in `[una, ackn)`.
pub proof fn law_connection_ack_clears_timers(c: ConnectionView, now: u64, ackn: u32, key: u32)
    requires
        acknowledges_new(c.send, ackn),
        c.state.carries_data() || (c.state == State::SynRcvd && completes_handshake(c.send, ackn)),
        seq_in_range(c.send.una, key, ackn),
    ensures
        c.acknowledge(now, ackn).timers == c.timers.acknowledged(c.send.una, ackn, now),
        !c.acknowledge(now, ackn).timers.send_times.contains_key(key),
        c.acknowledge(now, ackn).send.una == ackn,
{
}

/// An acknowledgement leaves no timer behind for what it covers, and every
/// other timer as it was.
pub proof fn law_ack_leaves_other_timers(t: TimersView, una: u32, ackn: u32, now: u64)
    ensures
        forall|k: u32|
            t.acknowledged(una, ackn, now).send_times.contains_key(k) <==> t.send_times.contains_key(
                k,
            ) && !seq_in_range(una, k, ackn),
        forall|k: u32|
            t.acknowledged(una, ackn, now).send_times.contains_key(k) ==> t.acknowledged(
                una,
                ackn,
                now,
            ).send_times[k] == t.send_times[k],
{
}

// ----- the receive sequence space -----

/// A segment has its payload taken in: it is accepted, carries ACK and
/// payload, and meets a connection that carries data once its
/// acknowledgement is taken in.
pub open spec fn takes_payload(c: ConnectionView, now: u64, tcp: TcpMeta, data: Seq<u8>) -> bool {
    &&& acceptable(c.recv, tcp.sequence_number, segment_len(tcp, data.len()))
    &&& tcp.ack
    &&& data.len() > 0
    &&& c.acknowledge(now, tcp.acknowledgment_number).state.carries_data()
}

/// A segment has its FIN taken in: it is accepted, carries ACK and FIN, and
/// meets a connection that is in `FinWait2` once its acknowledgement is
/// taken in.
pub open spec fn takes_fin(c: ConnectionView, now: u64, tcp: TcpMeta, data: Seq<u8>) -> bool {
    &&& acceptable(c.recv, tcp.sequence_number, segment_len(tcp, data.len()))
    &&& tcp.ack
    &&& tcp.fin
    &&& c.acknowledge(now, tcp.acknowledgment_number).state == State::FinWait2
}

/// A segment sets `recv.nxt` anew: it is accepted and carries SYN without
/// ACK.
pub open spec fn restarts_recv(c: ConnectionView, tcp: TcpMeta, data: Seq<u8>) -> bool {
    &&& acceptable(c.recv, tcp.sequence_number, segment_len(tcp, data.len()))
    &&& !tcp.ack
    &&& tcp.syn
}

/// Where a segment leaves `recv.nxt`: behind a SYN that sets it anew, behind
/// the last byte of a payload that is taken in, and one further for a FIN
/// that is taken in.
pub open spec fn recv_nxt_after(c: ConnectionView, now: u64, tcp: TcpMeta, data: Seq<u8>) -> u32 {
    if restarts_recv(c, tcp, data) {
        advance(tcp.sequence_number, 1)
    } else {
        let behind_payload = if takes_payload(c, now, tcp, data) {
            advance(tcp.sequence_number, data.len() as int)
        } else {
            c.recv.nxt
        };
        if takes_fin(c, now, tcp, data) {
            advance(behind_payload, 1)
        } else {
            behind_payload
        }
    }
}

/// A segment leaves `recv.nxt` where `recv_nxt_after` says, and the rest of
/// the receive sequence space as it was.
pub proof fn law_recv_nxt_after_segment(c: ConnectionView, now: u64, tcp: TcpMeta, data: Seq<u8>)
    ensures
        c.on_segment(now, tcp, data).next.recv.nxt == recv_nxt_after(c, now, tcp, data),
        c.on_segment(now, tcp, data).next.recv.wnd == c.recv.wnd,
        c.on_segment(now, tcp, data).next.recv.irs == c.recv.irs,
{
}

/// A payload that is taken in and begins at `recv.nxt` moves `recv.nxt` on by
/// its length; one that begins before `recv.nxt` and repeats bytes moves it
/// on by the bytes that are new.
pub proof fn law_payload_moves_recv_nxt(c: ConnectionView, now: u64, tcp: TcpMeta, data: Seq<u8>)
    requires
        takes_payload(c, now, tcp, data),
        !tcp.fin,
        steps(tcp.sequence_number, c.recv.nxt) <= data.len(),
    ensures
        c.on_segment(now, tcp, data).next.recv.nxt == advance(
            c.recv.nxt,
            data.len() - steps(tcp.sequence_number, c.recv.nxt),
        ),
        c.on_segment(now, tcp, data).next.incoming == c.incoming + data.skip(
            steps(tcp.sequence_number, c.recv.nxt),
        ),
{
    let seq = tcp.sequence_number;
    lemma_steps(seq, c.recv.nxt);
    lemma_advance_steps(seq, c.recv.nxt);
    lemma_advance_twice(seq, steps(seq, c.recv.nxt), data.len() - steps(seq, c.recv.nxt));
}

/// A segment moves `recv.nxt` back. There are three such segments and no
/// other: a SYN without ACK that ends before `recv.nxt`; a payload that
/// begins in the window and reaches half the circle ahead of `recv.nxt`; and
/// a segment with SYN, FIN and payload that begins before the window and
/// ends at `recv.nxt`, whose FIN is not taken in.
pub open spec fn moves_recv_back(c: ConnectionView, now: u64, tcp: TcpMeta, data: Seq<u8>) -> bool {
    let seq = tcp.sequence_number;
    if restarts_recv(c, tcp, data) {
        !seq_le(c.recv.nxt, advance(seq, 1))
    } else if !takes_payload(c, now, tcp, data) {
        false
    } else if in_window(c.recv, seq) {
        (steps(c.recv.nxt, seq) + data.len() + (if takes_fin(c, now, tcp, data) {
            1int
        } else {
            0
        })) % space() >= HALF_SPACE
    } else {
        &&& tcp.syn
        &&& tcp.fin
        &&& !takes_fin(c, now, tcp, data)
        &&& advance(seq, segment_len(tcp, data.len()) - 1) == c.recv.nxt
    }
}

/// `recv.nxt` stays or moves on with every segment but those of
/// `moves_recv_back`.
pub proof fn law_recv_nxt_only_advances(c: ConnectionView, now: u64, tcp: TcpMeta, data: Seq<u8>)
    ensures
        seq_le(c.recv.nxt, c.on_segment(now, tcp, data).next.recv.nxt) <==> !moves_recv_back(
            c,
            now,
            tcp,
            data,
        ),
{
    law_recv_nxt_after_segment(c, now, tcp, data);
    let old = c.recv.nxt;
    let seq = tcp.sequence_number;
    let new = recv_nxt_after(c, now, tcp, data);
    let n = data.len() as int;
    let tf = if takes_fin(c, now, tcp, data) {
        1int
    } else {
        0
    };
    lemma_steps(old, new);
    lemma_steps_opposite(old, new);
    lemma_steps(new, old);
    if restarts_recv(c, tcp, data) {
    } else if !takes_payload(c, now, tcp, data) {
        lemma_steps_advance(old, tf);
    } else {
        let slen = segment_len(tcp, data.len());
        law_acceptable_by_window(c.recv, seq, slen);
        lemma_advance_twice(seq, n, 1);
        assert(new == advance(seq, n + tf));
        if in_window(c.recv, seq) {
            let d = steps(old, seq);
            lemma_steps(old, seq);
            lemma_advance_steps(old, seq);
            lemma_advance_twice(old, d, n + tf);
            crate::seqnum::lemma_advance_mod(old, d + n + tf);
            lemma_steps_advance(old, (d + n + tf) % space());
        } else {
            let last = advance(seq, slen - 1);
            let e = steps(old, last);
            let v = n + tf - (slen - 1);
            lemma_steps(old, last);
            lemma_advance_twice(seq, slen - 1, v);
            assert(new == advance(last, v));
            if e + v >= 0 {
                lemma_steps_add(old, last, v);
            } else {
                lemma_steps_opposite(old, last);
                lemma_steps(last, old);
                assert(last == old);
                crate::seqnum::lemma_advance_mod(old, -1);
                lemma_steps_advance(old, space() - 1);
            }
        }
    }
}

/// Nothing but a segment moves `recv.nxt`.
pub proof fn law_recv_untouched(c: ConnectionView, now: u64, data: Seq<u8>, max: nat)
    ensures
        c.on_tick(now).next.recv == c.recv,
        c.enqueue(data).recv == c.recv,
        c.dequeue(max).recv == c.recv,
        c.close().recv == c.recv,
        c.reset().next.recv == c.recv,
{
}

// ----- the send sequence space -----

/// Every timer runs for a sequence number that is no further ahead of `una`
/// than `nxt` is.
pub open spec fn timers_in_flight(c: ConnectionView) -> bool {
    forall|k: u32| #[trigger]
        c.timers.send_times.contains_key(k) ==> steps(c.send.una, k) <= steps(
            c.send.una,
            c.send.nxt,
        )
}

/// A tick sends again and leaves `nxt` behind a sequence number whose timer
/// runs.
pub open spec fn falls_behind_timer(c: ConnectionView, now: u64) -> bool {
    &&& c.timers.retransmit_due(c.send.una, now)
    &&& exists|k: u32| #[trigger]
        c.timers.send_times.contains_key(k) && steps(c.send.una, k) > vstd::math::min(
            c.unacked.len() as int,
            c.send.wnd as int,
        )
}

/// The sequence numbers that a segment at `seq` takes up: its payload, and
/// one each for a SYN and a FIN that wait in the template.
pub open spec fn taken_by(c: ConnectionView, seq: u32, limit: int) -> int {
    c.payload_len(seq, limit) + (if c.tcp.syn {
        1int
    } else {
        0
    }) + (if c.tcp.fin {
        1int
    } else {
        0
    })
}

/// What sending a segment changes: `nxt` moves to the segment's end if that
/// lies ahead and never moves back, SYN and FIN are spent, the send time of
/// `seq` is noted and no other timer is touched. `una` and both queues stay.
pub proof fn law_emit_moves_nxt_forward(c: ConnectionView, now: u64, seq: u32, limit: int)
    ensures
        ({
            let after = c.emit(now, seq, limit).next;
            let end = advance(seq, taken_by(c, seq, limit));
            &&& after.send.nxt == (if seq_lt(c.send.nxt, end) {
                end
            } else {
                c.send.nxt
            })
            &&& seq_le(c.send.nxt, after.send.nxt)
            &&& after.send.una == c.send.una
            &&& !after.tcp.syn
            &&& !after.tcp.fin
            &&& after.timers.send_times == c.timers.send_times.insert(seq, now)
            &&& after.timers.srtt == c.timers.srtt
            &&& after.unacked == c.unacked
            &&& after.incoming == c.incoming
            &&& after.recv == c.recv
            &&& after.state == c.state
        }),
{
}

/// Sending a segment from within the sequence numbers in flight keeps every
/// timer within them.
pub proof fn law_emit_keeps_timers(c: ConnectionView, now: u64, seq: u32, limit: int)
    requires
        c.unacked.len() <= SENDQUEUE_SIZE,
        steps(c.send.una, c.send.nxt) <= c.unacked.len() + 2,
        steps(c.send.una, seq) <= steps(c.send.una, c.send.nxt),
        0 <= limit,
        timers_in_flight(c),
    ensures
        timers_in_flight(c.emit(now, seq, limit).next),
        steps(c.send.una, c.send.nxt) <= steps(c.send.una, c.emit(now, seq, limit).next.send.nxt),
{
    let una = c.send.una;
    let nxt = c.send.nxt;
    let taken = taken_by(c, seq, limit);
    let end = advance(seq, taken);
    let after = c.emit(now, seq, limit).next;
    lemma_steps(una, seq);
    lemma_steps(una, nxt);
    lemma_steps_add(una, seq, taken);
    if seq_lt(nxt, end) {
        lemma_steps(nxt, end);
        if steps(una, end) < steps(una, nxt) {
            lemma_steps_split(una, end, nxt);
            lemma_steps_opposite(end, nxt);
        }
    }
    assert forall|k: u32| #[trigger] after.timers.send_times.contains_key(k) implies steps(
        una,
        k,
    ) <= steps(una, after.send.nxt) by {
        if k != seq {
            assert(c.timers.send_times.contains_key(k));
        }
    }
}

/// Sending at `nxt` moves `nxt` on by what the segment takes up, which is no
/// more than waits from `nxt` on.
proof fn lemma_emit_at_nxt(c: ConnectionView, now: u64, limit: int)
    requires
        c.unacked.len() <= SENDQUEUE_SIZE,
        steps(c.send.una, c.send.nxt) <= c.unacked.len() + 2,
        0 <= limit,
    ensures
        ({
            let after = c.emit(now, c.send.nxt, limit).next;
            &&& 0 <= c.payload_len(c.send.nxt, limit) <= limit
            &&& steps(c.send.una, c.send.nxt) <= c.unacked.len() ==> steps(
                c.send.una,
                c.send.nxt,
            ) + c.payload_len(c.send.nxt, limit) <= c.unacked.len()
            &&& steps(c.send.una, c.send.nxt) <= c.unacked.len() ==> c.payload_start(c.send.nxt)
                == steps(c.send.una, c.send.nxt) || c.payload_len(c.send.nxt, limit) == 0
            &&& after.send.nxt == advance(c.send.nxt, taken_by(c, c.send.nxt, limit))
            &&& steps(c.send.una, after.send.nxt) == steps(c.send.una, c.send.nxt) + taken_by(
                c,
                c.send.nxt,
                limit,
            )
            &&& timers_in_flight(c) ==> timers_in_flight(after)
            &&& !after.tcp.syn
            &&& !after.tcp.fin
            &&& after.send.una == c.send.una
            &&& after.send.iss == c.send.iss
            &&& after.unacked == c.unacked
            &&& after.closed_at == c.closed_at
        }),
{
    let seq = c.send.nxt;
    let taken = taken_by(c, seq, limit);
    lemma_steps(c.send.una, seq);
    lemma_seq_lt_advance(seq, taken);
    lemma_steps_add(c.send.una, seq, taken);
    lemma_advance_zero(seq);
    if timers_in_flight(c) {
        law_emit_keeps_timers(c, now, seq, limit);
    }
}

/// A connection that was just opened is valid, and its timer is in flight.
pub proof fn law_accept_establishes_order(now: u64, ip: crate::wire::Ipv4Meta, tcp: TcpMeta)
    ensures
        ConnectionView::accepted(now, ip, tcp).next.wf(),
        timers_in_flight(ConnectionView::accepted(now, ip, tcp).next),
{
    let c = ConnectionView::listening(ip, tcp);
    lemma_steps_opposite(c.send.una, c.send.nxt);
    lemma_emit_at_nxt(c, now, 0);
}

/// An acknowledgement of something new lies behind `una` and not behind
/// `nxt`.
pub proof fn lemma_new_ack_in_flight(c: ConnectionView, ackn: u32)
    requires
        c.wf(),
        acknowledges_new(c.send, ackn),
    ensures
        0 < steps(c.send.una, ackn) <= steps(c.send.una, c.send.nxt),
        steps(ackn, c.send.nxt) == steps(c.send.una, c.send.nxt) - steps(c.send.una, ackn),
{
    let una = c.send.una;
    let nxt = c.send.nxt;
    let behind = advance(nxt, 1);
    lemma_steps(una, nxt);
    lemma_steps(una, ackn);
    lemma_steps(ackn, behind);
    lemma_steps_add(una, nxt, 1);
    lemma_steps_opposite(ackn, behind);
    if steps(una, ackn) > steps(una, behind) {
        lemma_steps_split(una, behind, ackn);
        lemma_steps_opposite(behind, ackn);
    } else {
        lemma_steps_split(una, ackn, behind);
    }
    lemma_steps_split(una, ackn, nxt);
}

/// An acknowledgement between `una` and `nxt` acknowledges something new.
pub proof fn lemma_ack_in_flight_is_new(c: ConnectionView, ackn: u32)
    requires
        c.wf(),
        seq_lt(c.send.una, ackn),
        seq_le(ackn, c.send.nxt),
    ensures
        acknowledges_new(c.send, ackn),
{
    let una = c.send.una;
    let nxt = c.send.nxt;
    let behind = advance(nxt, 1);
    lemma_steps(una, nxt);
    lemma_steps(una, ackn);
    lemma_steps(ackn, nxt);
    lemma_steps_opposite(ackn, nxt);
    if steps(una, ackn) > steps(una, nxt) {
        lemma_steps_split(una, nxt, ackn);
    }
    lemma_steps_add(ackn, nxt, 1);
}

/// Taking in an acknowledgement leaves the connection valid.
pub proof fn lemma_acknowledge_keeps_order(c: ConnectionView, now: u64, ackn: u32)
    requires
        c.wf(),
    ensures
        c.acknowledge(now, ackn).wf(),
{
    let opened = if c.state == State::SynRcvd && completes_handshake(c.send, ackn) {
        State::Estab
    } else {
        c.state
    };
    if opened.carries_data() && acknowledges_new(c.send, ackn) {
        let una = c.send.una;
        lemma_new_ack_in_flight(c, ackn);
        if una == c.send.iss {
            let data_start = advance(una, 1);
            lemma_steps_advance(una, 1);
            lemma_steps_split(una, data_start, ackn);
        }
    }
}

/// Taking in an acknowledgement keeps the timers in flight.
proof fn lemma_acknowledge_keeps_timers(c: ConnectionView, now: u64, ackn: u32)
    requires
        c.wf(),
        timers_in_flight(c),
    ensures
        timers_in_flight(c.acknowledge(now, ackn)),
{
    let after = c.acknowledge(now, ackn);
    let opened = if c.state == State::SynRcvd && completes_handshake(c.send, ackn) {
        State::Estab
    } else {
        c.state
    };
    if opened.carries_data() && acknowledges_new(c.send, ackn) {
        let una = c.send.una;
        let nxt = c.send.nxt;
        lemma_new_ack_in_flight(c, ackn);
        lemma_steps(una, nxt);
        lemma_steps(ackn, nxt);
        assert forall|k: u32| #[trigger] after.timers.send_times.contains_key(k) implies steps(
            ackn,
            k,
        ) <= steps(ackn, nxt) by {
            assert(c.timers.send_times.contains_key(k));
            lemma_steps(una, k);
            lemma_steps(ackn, k);
            lemma_steps(k, ackn);
            lemma_steps_opposite(k, ackn);
            if steps(una, k) < steps(una, ackn) {
                // The acknowledgement covers the timer: it is gone.
                lemma_steps_split(una, k, ackn);
                assert(seq_in_range(una, k, ackn));
            } else {
                lemma_steps_split(una, ackn, k);
            }
        }
    }
}

/// The connection in the course of `on_segment`, once the payload is in and
/// before its acknowledgement goes out.
spec fn with_payload(c: ConnectionView, seq: u32, data: Seq<u8>) -> ConnectionView {
    ConnectionView {
        incoming: c.incoming + data.skip(
            crate::model::unread_offset(c.recv.nxt, seq, data.len()),
        ),
        recv: ReceiveSequenceSpace { nxt: advance(seq, data.len() as int), ..c.recv },
        ..c
    }
}

/// The connection in the course of `on_segment`, once `recv.nxt` has moved
/// past the FIN and before the acknowledgement goes out.
spec fn past_fin(c: ConnectionView) -> ConnectionView {
    ConnectionView { recv: ReceiveSequenceSpace { nxt: advance(c.recv.nxt, 1), ..c.recv }, ..c }
}

/// Sending a segment that carries nothing but the acknowledgement leaves the
/// send sequence space and both queues as they are.
pub proof fn lemma_bare_ack_leaves_send(c: ConnectionView, now: u64)
    requires
        !c.tcp.syn,
        !c.tcp.fin,
    ensures
        c.emit_ack(now).next.send == c.send,
        c.emit_ack(now).next.unacked == c.unacked,
        c.emit_ack(now).frames == seq![
            frame_bytes(c.ip, c.header(c.send.nxt), Seq::<u8>::empty()),
        ],
{
    lemma_steps(c.send.una, c.send.nxt);
    lemma_advance_zero(c.send.nxt);
    lemma_steps_opposite(c.send.nxt, c.send.nxt);
    assert(c.payload_len(c.send.nxt, 0) == 0);
    assert(c.payload(c.send.nxt, 0) =~= Seq::<u8>::empty());
}

/// Such a segment keeps the timers in flight.
proof fn lemma_bare_ack_keeps_timers(c: ConnectionView, now: u64)
    requires
        !c.tcp.syn,
        !c.tcp.fin,
        timers_in_flight(c),
    ensures
        timers_in_flight(c.emit_ack(now).next),
{
    let after = c.emit_ack(now).next;
    lemma_bare_ack_leaves_send(c, now);
    assert forall|k: u32| #[trigger] after.timers.send_times.contains_key(k) implies steps(
        c.send.una,
        k,
    ) <= steps(c.send.una, after.send.nxt) by {
        if k != c.send.nxt {
            assert(c.timers.send_times.contains_key(k));
        }
    }
}

/// A segment leaves the connection valid: its send queue within its bound,
/// its send sequence space in order.
pub proof fn law_segment_keeps_order(c: ConnectionView, now: u64, tcp: TcpMeta, data: Seq<u8>)
    requires
        c.wf(),
    ensures
        c.on_segment(now, tcp, data).next.wf(),
{
    if !acceptable(c.recv, tcp.sequence_number, segment_len(tcp, data.len())) {
        lemma_bare_ack_leaves_send(c, now);
    } else if !tcp.ack {
    } else {
        lemma_acknowledge_keeps_order(c, now, tcp.acknowledgment_number);
        let acked = c.acknowledge(now, tcp.acknowledgment_number);
        let received = acked.receive(now, tcp.sequence_number, data);
        if data.len() > 0 && acked.state.carries_data() {
            lemma_bare_ack_leaves_send(with_payload(acked, tcp.sequence_number, data), now);
        }
        assert(received.next.wf());
        if tcp.fin && received.next.state == State::FinWait2 {
            lemma_bare_ack_leaves_send(past_fin(received.next), now);
        }
    }
}

/// A segment keeps the timers in flight.
pub proof fn law_segment_keeps_timers(c: ConnectionView, now: u64, tcp: TcpMeta, data: Seq<u8>)
    requires
        c.wf(),
        timers_in_flight(c),
    ensures
        timers_in_flight(c.on_segment(now, tcp, data).next),
{
    if !acceptable(c.recv, tcp.sequence_number, segment_len(tcp, data.len())) {
        lemma_bare_ack_keeps_timers(c, now);
    } else if !tcp.ack {
    } else {
        let ackn = tcp.acknowledgment_number;
        lemma_acknowledge_keeps_order(c, now, ackn);
        lemma_acknowledge_keeps_timers(c, now, ackn);
        let acked = c.acknowledge(now, ackn);
        let received = acked.receive(now, tcp.sequence_number, data);
        if data.len() > 0 && acked.state.carries_data() {
            lemma_bare_ack_leaves_send(with_payload(acked, tcp.sequence_number, data), now);
            lemma_bare_ack_keeps_timers(with_payload(acked, tcp.sequence_number, data), now);
        }
        assert(timers_in_flight(received.next));
        if tcp.fin && received.next.state == State::FinWait2 {
            lemma_bare_ack_keeps_timers(past_fin(received.next), now);
        }
    }
}

/// A tick leaves the connection valid, and `una` and what waits as they
/// were. It sends one segment or none.
pub proof fn law_tick_keeps_order(c: ConnectionView, now: u64)
    requires
        c.wf(),
    ensures
        c.on_tick(now).next.wf(),
        c.on_tick(now).next.send.una == c.send.una,
        c.on_tick(now).next.unacked == c.unacked,
        c.on_tick(now).frames.len() <= 1,
{
    let una = c.send.una;
    lemma_steps(una, c.send.nxt);
    if c.timers.retransmit_due(una, now) {
        let resend = vstd::math::min(c.unacked.len() as int, c.send.wnd as int);
        lemma_steps_advance(una, resend);
    } else if (c.unsent() == 0 && !c.close_outstanding()) || c.allowed() == 0 {
    } else {
        let count = vstd::math::min(c.unsent(), c.allowed());
        let armed = if count < c.allowed() && c.close_outstanding() {
            c.with_fin(advance(c.send.nxt, count))
        } else {
            c
        };
        match c.closed_at {
            Some(at) => {
                lemma_steps(una, at);
            },
            None => {},
        }
        lemma_emit_at_nxt(armed, now, count);
    }
}

/// A tick keeps the timers in flight, unless it sends again and leaves `nxt`
/// behind a timer.
pub proof fn law_tick_keeps_timers(c: ConnectionView, now: u64)
    requires
        c.wf(),
        timers_in_flight(c),
        !falls_behind_timer(c, now),
    ensures
        timers_in_flight(c.on_tick(now).next),
{
    let una = c.send.una;
    lemma_steps(una, c.send.nxt);
    if c.timers.retransmit_due(una, now) {
        let resend = vstd::math::min(c.unacked.len() as int, c.send.wnd as int);
        let after = c.retransmit(now).next;
        lemma_steps_advance(una, resend);
        lemma_steps_opposite(una, una);
        assert forall|k: u32| #[trigger] after.timers.send_times.contains_key(k) implies steps(
            una,
            k,
        ) <= steps(una, after.send.nxt) by {
            if k != una {
                assert(c.timers.send_times.contains_key(k));
            }
        }
    } else if (c.unsent() == 0 && !c.close_outstanding()) || c.allowed() == 0 {
    } else {
        let count = vstd::math::min(c.unsent(), c.allowed());
        let armed = if count < c.allowed() && c.close_outstanding() {
            c.with_fin(advance(c.send.nxt, count))
        } else {
            c
        };
        assert(timers_in_flight(armed));
        lemma_emit_at_nxt(armed, now, count);
    }
}

/// A call of the application and a reset leave the connection valid and its
/// timers in flight.
pub proof fn law_calls_keep_order(c: ConnectionView, data: Seq<u8>, max: nat)
    requires
        c.wf(),
    ensures
        c.enqueue(data).wf(),
        c.dequeue(max).wf(),
        c.close().wf(),
        c.reset().next.wf(),
        timers_in_flight(c) ==> timers_in_flight(c.enqueue(data)) && timers_in_flight(
            c.dequeue(max),
        ) && timers_in_flight(c.close()) && timers_in_flight(c.reset().next),
{
}

/// Once the SYN is acknowledged, `una`, `nxt` and the sequence number behind
/// the last byte that waits (and behind the FIN, if one was sent) stand in
/// this order.
pub proof fn law_send_space_ordered(c: ConnectionView)
    requires
        c.wf(),
        c.send.una != c.send.iss,
    ensures
        seq_le(c.send.una, c.send.nxt),
        seq_le(
            c.send.nxt,
            advance(
                c.send.una,
                c.unacked.len() + (if c.closed_at is Some {
                    1int
                } else {
                    0
                }),
            ),
        ),
{
    law_send_space_ordered_with_syn(c);
}

/// While the SYN is not acknowledged, the same order holds with one more
/// sequence number for the SYN. In this order no later one comes before an
/// earlier one.
pub proof fn law_send_space_ordered_with_syn(c: ConnectionView)
    requires
        c.wf(),
    ensures
        seq_le(c.send.una, c.send.nxt),
        seq_le(c.send.nxt, advance(c.send.una, c.unacked.len() + c.virtual_bytes())),
        !seq_lt(c.send.nxt, c.send.una),
        !seq_lt(advance(c.send.una, c.unacked.len() + c.virtual_bytes()), c.send.nxt),
{
    let una = c.send.una;
    let end = advance(una, c.unacked.len() + c.virtual_bytes());
    lemma_steps(una, c.send.nxt);
    lemma_steps_opposite(una, c.send.nxt);
    lemma_steps_advance(una, c.unacked.len() + c.virtual_bytes());
    lemma_steps_split(una, c.send.nxt, end);
    lemma_steps_opposite(c.send.nxt, end);
    lemma_steps(c.send.nxt, end);
    lemma_steps(end, c.send.nxt);
}

/// Every timer runs for a sequence number in `[una, nxt]`.
pub proof fn law_timers_within_flight(c: ConnectionView, key: u32)
    requires
        c.wf(),
        timers_in_flight(c),
        c.timers.send_times.contains_key(key),
    ensures
        seq_le(c.send.una, key),
        seq_le(key, c.send.nxt),
{
    let una = c.send.una;
    lemma_steps(una, c.send.nxt);
    lemma_steps(una, key);
    lemma_steps_opposite(una, key);
    lemma_steps_split(una, key, c.send.nxt);
    lemma_steps_opposite(key, c.send.nxt);
    lemma_steps(key, c.send.nxt);
    lemma_steps(c.send.nxt, key);
}

/// A tick that sends again and leaves `nxt` behind a timer leaves that timer
/// outside the sequence numbers in flight.
pub proof fn law_falling_behind_strands_timer(c: ConnectionView, now: u64)
    requires
        c.wf(),
        falls_behind_timer(c, now),
    ensures
        !timers_in_flight(c.on_tick(now).next),
{
    let una = c.send.una;
    let resend = vstd::math::min(c.unacked.len() as int, c.send.wnd as int);
    let k = choose|k: u32| #[trigger]
        c.timers.send_times.contains_key(k) && steps(una, k) > resend;
    let after = c.on_tick(now).next;
    lemma_steps_advance(una, resend);
    assert(after.timers.send_times.contains_key(k));
}

// ----- the bytes on the wire -----

/// Every byte of a payload is the byte of `unacked` that its sequence number
/// names, counted from `una`.
pub proof fn law_payload_by_sequence_number(c: ConnectionView, seq: u32, limit: int, j: int)
    requires
        c.wf(),
        0 <= limit,
        0 <= j < c.payload(seq, limit).len(),
    ensures
        !c.resends_fin_alone(seq),
        steps(c.send.una, seq) + j < c.unacked.len(),
        c.payload(seq, limit)[j] == c.unacked[steps(c.send.una, seq) + j],
        steps(c.send.una, advance(seq, j)) == steps(c.send.una, seq) + j,
{
    lemma_steps(c.send.una, seq);
    lemma_steps_add(c.send.una, seq, j);
}

/// A segment from `una` on carries the oldest bytes that wait.
pub proof fn law_resend_starts_with_oldest(c: ConnectionView, limit: int)
    requires
        0 <= limit,
        !c.resends_fin_alone(c.send.una),
    ensures
        c.payload(c.send.una, limit) == c.unacked.take(
            vstd::math::min(
                vstd::math::min(limit, c.unacked.len() as int),
                crate::frame::MAX_PAYLOAD as int,
            ),
        ),
{
    lemma_steps_opposite(c.send.una, c.send.una);
    assert(c.payload(c.send.una, limit) =~= c.unacked.take(
        vstd::math::min(
            vstd::math::min(limit, c.unacked.len() as int),
            crate::frame::MAX_PAYLOAD as int,
        ),
    ));
}

/// A tick that sends again sends one segment from `una` on, with the oldest
/// bytes that wait: as many as wait, as the send window takes and as fit in
/// a frame.
pub proof fn law_retransmit_sends_oldest_bytes(c: ConnectionView, now: u64)
    requires
        c.wf(),
        c.timers.retransmit_due(c.send.una, now),
        !(c.closed_at matches Some(at) && c.send.una == advance(at, 1)),
    ensures
        ({
            let resend = vstd::math::min(c.unacked.len() as int, c.send.wnd as int);
            let with_fin = resend < c.send.wnd && c.closed;
            let header = TcpTemplate { fin: c.tcp.fin || with_fin, ..c.header(c.send.una) };
            let count = vstd::math::min(resend, crate::frame::MAX_PAYLOAD as int);
            &&& c.on_tick(now).frames == seq![frame_bytes(c.ip, header, c.unacked.take(count))]
            &&& c.on_tick(now).next.send.nxt == advance(c.send.una, resend)
            &&& c.on_tick(now).next.send.una == c.send.una
            &&& c.on_tick(now).next.unacked == c.unacked
        }),
{
    let una = c.send.una;
    let resend = vstd::math::min(c.unacked.len() as int, c.send.wnd as int);
    let at = advance(una, c.unacked.len() as int);
    let armed = if resend < c.send.wnd && c.closed {
        c.with_fin(at)
    } else {
        c
    };
    lemma_steps_opposite(una, una);
    // A FIN that this tick puts behind the last byte does not stand right
    // before `una`.
    lemma_advance_twice(una, c.unacked.len() as int, 1);
    lemma_steps_advance(una, c.unacked.len() as int + 1);
    assert(una != advance(at, 1));
    assert(armed.payload(una, resend) =~= c.unacked.take(
        vstd::math::min(resend, crate::frame::MAX_PAYLOAD as int),
    ));
}

/// The bytes that are sent again from `una` are the bytes that were sent
/// from `una` before: as long as `una` stands and what waits has only grown
/// at its end, two segments from `una` agree in every byte that both carry.
pub proof fn law_retransmit_preserves_bytes(
    before: ConnectionView,
    after: ConnectionView,
    first_limit: int,
    second_limit: int,
    j: int,
)
    requires
        before.wf(),
        after.wf(),
        0 <= first_limit,
        0 <= second_limit,
        after.send.una == before.send.una,
        before.unacked.is_prefix_of(after.unacked),
        0 <= j < before.payload(before.send.una, first_limit).len(),
        j < after.payload(after.send.una, second_limit).len(),
    ensures
        before.payload(before.send.una, first_limit)[j] == after.payload(
            after.send.una,
            second_limit,
        )[j],
{
    lemma_steps_opposite(before.send.una, before.send.una);
    law_payload_by_sequence_number(before, before.send.una, first_limit, j);
    law_payload_by_sequence_number(after, after.send.una, second_limit, j);
}

/// While `una` stands, what waits only grows at its end: no event changes
/// or drops a byte that waits for its acknowledgement.
pub proof fn law_waiting_bytes_stay(
    c: ConnectionView,
    now: u64,
    tcp: TcpMeta,
    data: Seq<u8>,
    max: nat,
)
    ensures
        c.on_segment(now, tcp, data).next.send.una == c.send.una ==> c.on_segment(
            now,
            tcp,
            data,
        ).next.unacked == c.unacked,
        c.on_tick(now).next.send.una == c.send.una,
        c.on_tick(now).next.unacked == c.unacked,
        c.enqueue(data).send.una == c.send.una,
        c.unacked.is_prefix_of(c.enqueue(data).unacked),
        c.dequeue(max).unacked == c.unacked,
        c.close().unacked == c.unacked,
{
    let ackn = tcp.acknowledgment_number;
    if acknowledges_new(c.send, ackn) {
        lemma_steps_opposite(c.send.una, ackn);
    }
}

/// The sequence number of `una` says how many bytes of the stream have left
/// `unacked`: `una` stands `1 + drained` steps behind `iss`. Before any
/// acknowledgement `una` is `iss` and nothing has left.
pub open spec fn aligned(c: ConnectionView, drained: nat) -> bool {
    if c.send.una == c.send.iss {
        drained == 0
    } else {
        c.send.una == advance(c.send.iss, 1 + drained as int)
    }
}

/// Once the SYN is acknowledged, `una` itself says how many bytes have left:
/// as many as it stands behind `iss + 1`.
pub proof fn law_una_counts_drained(c: ConnectionView)
    requires
        c.send.una != c.send.iss,
    ensures
        aligned(c, steps(advance(c.send.iss, 1), c.send.una) as nat),
{
    let first = advance(c.send.iss, 1);
    lemma_steps(first, c.send.una);
    lemma_advance_steps(first, c.send.una);
    lemma_advance_twice(c.send.iss, 1, steps(first, c.send.una));
}

/// Once the SYN is acknowledged, the byte at position `p` of the stream
/// that the application writes goes out under the sequence number
/// `iss + 1 + p`, in every segment that carries it.
pub proof fn law_stream_byte_sequence_number(
    c: ConnectionView,
    drained: nat,
    seq: u32,
    limit: int,
    j: int,
)
    requires
        c.wf(),
        aligned(c, drained),
        c.send.una != c.send.iss,
        0 <= limit,
        0 <= j < c.payload(seq, limit).len(),
    ensures
        ({
            let p = drained + steps(c.send.una, seq) + j;
            &&& 0 <= p - drained < c.unacked.len()
            &&& c.payload(seq, limit)[j] == c.unacked[p - drained]
            &&& advance(seq, j) == advance(c.send.iss, 1 + p)
        }),
{
    law_payload_by_sequence_number(c, seq, limit, j);
    lemma_steps(c.send.una, seq);
    lemma_advance_steps(c.send.una, seq);
    lemma_advance_twice(c.send.una, steps(c.send.una, seq), j);
    lemma_advance_twice(c.send.iss, 1 + drained as int, steps(c.send.una, seq) + j);
}

/// An acknowledgement that stays within the bytes that wait keeps `una` in
/// step with the bytes that have left, and every byte that still waits
/// keeps its place in the stream.
pub proof fn law_ack_keeps_alignment(c: ConnectionView, now: u64, ackn: u32, drained: nat)
    requires
        aligned(c, drained),
        c.acknowledge(now, ackn).send.una != c.send.una,
        steps(
            if c.send.una == c.send.iss {
                advance(c.send.una, 1)
            } else {
                c.send.una
            },
            ackn,
        ) <= c.unacked.len(),
        c.acknowledge(now, ackn).send.una != c.send.iss,
    ensures
        aligned(c.acknowledge(now, ackn), (drained + c.acked_bytes(ackn)) as nat),
        c.acked_bytes(ackn) >= 0,
        c.acknowledge(now, ackn).unacked == c.unacked.skip(c.acked_bytes(ackn)),
{
    let una = c.send.una;
    lemma_steps(una, ackn);
    lemma_advance_steps(una, ackn);
    if una == c.send.iss {
        let data_start = advance(una, 1);
        lemma_steps(data_start, ackn);
        lemma_advance_steps(data_start, ackn);
        lemma_advance_twice(una, 1, steps(data_start, ackn));
    } else {
        lemma_advance_twice(c.send.iss, 1 + drained as int, steps(una, ackn));
    }
}

// ----- closing -----

/// The header of a segment that carries the FIN of a connection.
pub open spec fn fin_header(c: ConnectionView, seq: u32) -> TcpTemplate {
    TcpTemplate { fin: true, ..c.header(seq) }
}

/// When the application closes a connection for which nothing waits, the
/// next tick sends exactly one segment, and it carries the FIN and nothing
/// else. This needs that no FIN went out before, and that the send window
/// has room: any room at all when the tick sends again, room behind what is
/// in flight when it does not. Afterwards `nxt` stands behind the FIN; where
/// the tick sent again, it stands at `una`.
pub proof fn law_close_sends_one_fin(c: ConnectionView, now: u64)
    requires
        c.wf(),
        c.unacked.len() == 0,
        c.closed_at is None,
        c.timers.retransmit_due(c.send.una, now) ==> c.send.wnd > 0,
        !c.timers.retransmit_due(c.send.una, now) ==> steps(c.send.una, c.send.nxt) < c.send.wnd,
    ensures
        ({
            let again = c.timers.retransmit_due(c.send.una, now);
            let seq = if again {
                c.send.una
            } else {
                c.send.nxt
            };
            let after = c.close().on_tick(now).next;
            &&& c.close().on_tick(now).frames == seq![
                frame_bytes(c.ip, fin_header(c, seq), Seq::<u8>::empty()),
            ]
            &&& fin_header(c, seq).fin && !fin_header(c, seq).syn
            &&& fin_header(c, seq).sequence_number == seq
            &&& fin_header(c, seq).acknowledgment_number == c.recv.nxt
            &&& after.closed_at == Some(seq)
            &&& after.send.una == c.send.una
            &&& after.unacked == c.unacked
            &&& !again ==> after.send.nxt == advance(c.send.nxt, 1)
            &&& again ==> after.send.nxt == c.send.una
        }),
{
    let closed = c.close();
    lemma_steps(c.send.una, c.send.nxt);
    lemma_advance_zero(c.send.una);
    lemma_advance_zero(c.send.nxt);
    lemma_steps_opposite(c.send.una, c.send.una);
    let seq = if c.timers.retransmit_due(c.send.una, now) {
        c.send.una
    } else {
        c.send.nxt
    };
    let armed = closed.with_fin(seq);
    assert(armed.payload(seq, 0) =~= Seq::<u8>::empty());
    lemma_seq_lt_advance(c.send.nxt, 1);
    if c.timers.retransmit_due(c.send.una, now) {
    } else {
        lemma_emit_at_nxt(armed, now, 0);
    }
}

/// A tick that does not send again, on a connection that is not closed and
/// has sent no more than waits, sends the bytes that were never sent, as far
/// as the send window has room: one segment at `nxt` with the bytes of
/// `unacked` from where `nxt` stands, and `nxt` moves behind them.
pub proof fn law_tick_sends_new_bytes(c: ConnectionView, now: u64)
    requires
        c.wf(),
        !c.timers.retransmit_due(c.send.una, now),
        !c.closed,
        c.closed_at is None,
        steps(c.send.una, c.send.nxt) <= c.unacked.len(),
        vstd::math::min(
            c.unacked.len() - steps(c.send.una, c.send.nxt),
            c.send.wnd - steps(c.send.una, c.send.nxt),
        ) > 0,
    ensures
        ({
            let k = steps(c.send.una, c.send.nxt);
            let m = vstd::math::min(c.unacked.len() - k, c.send.wnd - k);
            let after = c.on_tick(now).next;
            &&& c.on_tick(now).frames == seq![
                frame_bytes(c.ip, c.header(c.send.nxt), c.unacked.subrange(k, k + m)),
            ]
            &&& after.send.nxt == advance(c.send.nxt, m)
            &&& after.send.una == c.send.una
            &&& after.unacked == c.unacked
        }),
{
    let k = steps(c.send.una, c.send.nxt);
    let m = vstd::math::min(c.unacked.len() - k, c.send.wnd - k);
    lemma_steps(c.send.una, c.send.nxt);
    lemma_emit_at_nxt(c, now, m);
    assert(c.payload(c.send.nxt, m) =~= c.unacked.subrange(k, k + m));
}

/// A close meets a full send window: the tick sends nothing, and the FIN
/// waits.
pub proof fn law_close_waits_for_window(c: ConnectionView, now: u64)
    requires
        c.unacked.len() == 0,
        !c.timers.retransmit_due(c.send.una, now),
        c.in_flight() >= c.send.wnd,
    ensures
        c.close().on_tick(now).frames == Seq::<Seq<u8>>::empty(),
        c.close().on_tick(now).next == c.close(),
{
}

/// Once the FIN went out and is acknowledged, or while it waits in a full
/// window, a tick without retransmission sends nothing.
pub proof fn law_idle_tick_sends_nothing(c: ConnectionView, now: u64)
    requires
        !c.timers.retransmit_due(c.send.una, now),
        c.unsent() == 0,
        !c.close_outstanding(),
    ensures
        c.on_tick(now).frames == Seq::<Seq<u8>>::empty(),
        c.on_tick(now).next == c,
{
}

} // verus!
