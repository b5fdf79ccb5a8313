//! The connection manager: the table of connections and the queues of the
//! listening ports, and what each call of the application, each frame and
//! each tick does to them.

use std::collections::{HashMap, VecDeque};
use vstd::prelude::*;
use vstd::slice::slice_subrange;
use crate::available::Available;
use crate::bytes::Outbox;
use crate::connection::Connection;
use crate::frame::{frame_parse, lemma_parsed_segment_bounds, parse_frame, FrameError};
use crate::model::{ConnectionView, SENDQUEUE_SIZE};
use crate::table::{ConnectionTable, Quad};
use crate::wire::{Ipv4Meta, TcpMeta};

verus! {

/// Why a port cannot be bound.
#[derive(Clone, Copy, Debug, PartialEq, Eq, Structural)]
pub enum BindError {
    /// The port has a listener already.
    AddrInUse,
}

/// Why no connection is handed to a listener.
#[derive(Clone, Copy, Debug, PartialEq, Eq, Structural)]
pub enum AcceptError {
    /// The interface is shutting down.
    Terminated,
    /// The port has no listener.
    NotListening,
    /// No connection waits: the caller is to wait for one.
    WouldBlock,
}

/// Why a call on a stream does not go through.
#[derive(Clone, Copy, Debug, PartialEq, Eq, Structural)]
pub enum StreamError {
    /// The connection is not in the table.
    ConnectionAborted,
    /// The application has closed its side and writes again.
    Shutdown,
    /// The interface is shutting down while the call would have to wait.
    Terminated,
    /// The call has to wait: for bytes to read, or for room to write.
    WouldBlock,
}

/// What became of a frame.
#[derive(Clone, Copy, Debug, PartialEq, Eq, Structural)]
pub enum Delivery {
    /// It holds no TCP segment that can be read.
    Dropped(FrameError),
    /// No connection and no listener takes it.
    Unclaimed,
    /// It opened a connection, which now waits for a listener's `accept`.
    Queued,
    /// Its connection took it in and owes these wake-ups.
    Delivered(Available),
    /// It broke the protocol: its connection was reset and given up.
    Aborted,
}

/// The four-tuple of a segment: where it comes from and where it goes.
pub open spec fn quad_of(ip: Ipv4Meta, tcp: TcpMeta) -> Quad {
    Quad {
        src_addr: ip.source,
        src_port: tcp.source_port,
        dst_addr: ip.destination,
        dst_port: tcp.destination_port,
    }
}

/// What the manager holds.
pub struct ManagerView {
    /// The interface is shutting down.
    pub terminate: bool,
    pub connections: Map<Quad, ConnectionView>,
    /// For each listening port, the connections that wait for `accept`,
    /// oldest first.
    pub pending: Map<u16, Seq<Quad>>,
}

/// What an event leaves behind in the manager.
pub struct ManagerEffect {
    pub next: ManagerView,
    pub frames: Seq<Seq<u8>>,
}

/// The connections after each of `order` has had its tick, one after the
/// other, and the frames that went out.
pub open spec fn tick_each(
    connections: Map<Quad, ConnectionView>,
    order: Seq<Quad>,
    now: u64,
) -> (Map<Quad, ConnectionView>, Seq<Seq<u8>>)
    decreases order.len(),
{
    if order.len() == 0 {
        (connections, Seq::empty())
    } else {
        let before = tick_each(connections, order.drop_last(), now);
        let quad = order.last();
        if before.0.contains_key(quad) {
            let ticked = before.0[quad].on_tick(now);
            (before.0.insert(quad, ticked.next), before.1 + ticked.frames)
        } else {
            before
        }
    }
}

/// The connections after each of `queue` that is in the table was reset and
/// taken out, one after the other, and the frames that went out.
pub open spec fn reset_each(connections: Map<Quad, ConnectionView>, queue: Seq<Quad>) -> (
    Map<Quad, ConnectionView>,
    Seq<Seq<u8>>,
)
    decreases queue.len(),
{
    if queue.len() == 0 {
        (connections, Seq::empty())
    } else {
        let before = reset_each(connections, queue.drop_last());
        let quad = queue.last();
        if before.0.contains_key(quad) {
            (before.0.remove(quad), before.1 + before.0[quad].reset().frames)
        } else {
            before
        }
    }
}

impl ManagerView {
    /// Every connection keeps its bound.
    pub open spec fn wf(self) -> bool {
        forall|q: Quad| self.connections.contains_key(q) ==> (#[trigger] self.connections[q]).wf()
    }

    /// A listener binds `port`.
    pub open spec fn bind(self, port: u16) -> ManagerView {
        if self.pending.contains_key(port) {
            self
        } else {
            ManagerView { pending: self.pending.insert(port, Seq::empty()), ..self }
        }
    }

    /// The listener of `port` goes away: its queue goes, and every
    /// connection that still waited in it is reset and given up.
    pub open spec fn unbind(self, port: u16) -> ManagerEffect {
        if self.pending.contains_key(port) {
            let resets = reset_each(self.connections, self.pending[port]);
            ManagerEffect {
                next: ManagerView {
                    connections: resets.0,
                    pending: self.pending.remove(port),
                    ..self
                },
                frames: resets.1,
            }
        } else {
            ManagerEffect { next: self, frames: Seq::empty() }
        }
    }

    /// What `accept` on `port` answers.
    pub open spec fn accept_answer(self, port: u16) -> Result<Quad, AcceptError> {
        if self.terminate {
            Err(AcceptError::Terminated)
        } else if !self.pending.contains_key(port) {
            Err(AcceptError::NotListening)
        } else if self.pending[port].len() == 0 {
            Err(AcceptError::WouldBlock)
        } else {
            Ok(self.pending[port][0])
        }
    }

    /// The manager after `accept` on `port`: the connection handed out has
    /// left the queue.
    pub open spec fn accept(self, port: u16) -> ManagerView {
        if self.accept_answer(port) is Ok {
            ManagerView {
                pending: self.pending.insert(port, self.pending[port].skip(1)),
                ..self
            }
        } else {
            self
        }
    }

    /// The error of a call that would have to wait.
    pub open spec fn must_wait(self) -> StreamError {
        if self.terminate {
            StreamError::Terminated
        } else {
            StreamError::WouldBlock
        }
    }

    /// What a read of at most `max` bytes on `quad` answers: the end of the
    /// stream as no bytes, else the oldest bytes that wait.
    pub open spec fn read_answer(self, quad: Quad, max: nat) -> Result<Seq<u8>, StreamError> {
        if !self.connections.contains_key(quad) {
            Err(StreamError::ConnectionAborted)
        } else {
            let c = self.connections[quad];
            if c.incoming.len() == 0 && c.rcv_closed() {
                Ok(Seq::empty())
            } else if c.incoming.len() > 0 {
                Ok(c.incoming.take(vstd::math::min(max as int, c.incoming.len() as int)))
            } else {
                Err(self.must_wait())
            }
        }
    }

    /// The manager after a read: the bytes handed out have left the
    /// connection.
    pub open spec fn read(self, quad: Quad, max: nat) -> ManagerView {
        if self.read_answer(quad, max) is Ok {
            ManagerView {
                connections: self.connections.insert(quad, self.connections[quad].dequeue(max)),
                ..self
            }
        } else {
            self
        }
    }

    /// What a write of `len` bytes on `quad` answers: how many bytes the
    /// send queue took.
    pub open spec fn write_answer(self, quad: Quad, len: nat) -> Result<usize, StreamError> {
        if !self.connections.contains_key(quad) {
            Err(StreamError::ConnectionAborted)
        } else {
            let c = self.connections[quad];
            if c.closed {
                Err(StreamError::Shutdown)
            } else if c.unacked.len() >= SENDQUEUE_SIZE {
                Err(self.must_wait())
            } else {
                Ok(c.room(len) as usize)
            }
        }
    }

    /// The manager after a write of `data` on `quad`.
    pub open spec fn write(self, quad: Quad, data: Seq<u8>) -> ManagerView {
        if self.write_answer(quad, data.len()) is Ok {
            ManagerView {
                connections: self.connections.insert(quad, self.connections[quad].enqueue(data)),
                ..self
            }
        } else {
            self
        }
    }

    /// What a flush on `quad` answers: done once nothing waits for its
    /// acknowledgement.
    pub open spec fn flush_answer(self, quad: Quad) -> Result<(), StreamError> {
        if !self.connections.contains_key(quad) {
            Err(StreamError::ConnectionAborted)
        } else if self.connections[quad].unacked.len() == 0 {
            Ok(())
        } else {
            Err(self.must_wait())
        }
    }

    /// The manager after the application closed its side of `quad`.
    pub open spec fn shutdown(self, quad: Quad) -> ManagerView {
        if self.connections.contains_key(quad) {
            ManagerView {
                connections: self.connections.insert(quad, self.connections[quad].close()),
                ..self
            }
        } else {
            self
        }
    }

    /// `order` names every connection once.
    pub open spec fn is_tick_order(self, order: Seq<Quad>) -> bool {
        order.no_duplicates() && order.to_set() == self.connections.dom()
    }

    /// The clock ticks for every connection, in the order of `order`.
    pub open spec fn on_tick(self, order: Seq<Quad>, now: u64) -> ManagerEffect {
        let ticked = tick_each(self.connections, order, now);
        ManagerEffect { next: ManagerView { connections: ticked.0, ..self }, frames: ticked.1 }
    }

    /// What becomes of a frame.
    pub open spec fn delivery(self, now: u64, frame: Seq<u8>) -> Delivery {
        match frame_parse(frame) {
            Err(e) => Delivery::Dropped(e),
            Ok(p) => {
                let quad = quad_of(p.ip, p.tcp);
                let data = frame.skip(p.data_start as int);
                if self.connections.contains_key(quad) {
                    let taken = self.connections[quad].on_segment(now, p.tcp, data);
                    if taken.fatal {
                        Delivery::Aborted
                    } else {
                        Delivery::Delivered(
                            Available { read: taken.next.readable(), write: false },
                        )
                    }
                } else if self.pending.contains_key(p.tcp.destination_port)
                    && ConnectionView::opens(p.tcp) {
                    Delivery::Queued
                } else {
                    Delivery::Unclaimed
                }
            },
        }
    }

    /// A frame arrives. A segment of a connection in the table goes to that
    /// connection; if it breaks the protocol, the connection is reset and
    /// leaves the table. A SYN for a listening port opens a connection and
    /// queues it for `accept`. Everything else changes nothing.
    pub open spec fn on_frame(self, now: u64, frame: Seq<u8>) -> ManagerEffect {
        match frame_parse(frame) {
            Err(e) => ManagerEffect { next: self, frames: Seq::empty() },
            Ok(p) => {
                let quad = quad_of(p.ip, p.tcp);
                let port = p.tcp.destination_port;
                let data = frame.skip(p.data_start as int);
                if self.connections.contains_key(quad) {
                    let taken = self.connections[quad].on_segment(now, p.tcp, data);
                    if taken.fatal {
                        ManagerEffect {
                            next: ManagerView {
                                connections: self.connections.remove(quad),
                                ..self
                            },
                            frames: taken.frames + taken.next.reset().frames,
                        }
                    } else {
                        ManagerEffect {
                            next: ManagerView {
                                connections: self.connections.insert(quad, taken.next),
                                ..self
                            },
                            frames: taken.frames,
                        }
                    }
                } else if self.pending.contains_key(port) && ConnectionView::opens(p.tcp) {
                    let opened = ConnectionView::accepted(now, p.ip, p.tcp);
                    ManagerEffect {
                        next: ManagerView {
                            connections: self.connections.insert(quad, opened.next),
                            pending: self.pending.insert(port, self.pending[port].push(quad)),
                            ..self
                        },
                        frames: opened.frames,
                    }
                } else {
                    ManagerEffect { next: self, frames: Seq::empty() }
                }
            },
        }
    }
}

/// The queues of the listening ports.
pub struct PendingTable {
    queues: HashMap<u16, VecDeque<Quad>>,
}

impl View for PendingTable {
    type V = Map<u16, Seq<Quad>>;

    closed spec fn view(&self) -> Map<u16, Seq<Quad>> {
        Map::new(|p: u16| self.queues@.contains_key(p), |p: u16| self.queues@[p]@)
    }
}

impl PendingTable {
    pub fn new() -> (t: PendingTable)
        ensures
            t@ == Map::<u16, Seq<Quad>>::empty(),
    {
        broadcast use vstd::std_specs::hash::group_hash_axioms;

        let t = PendingTable { queues: HashMap::new() };
        assert(t@ =~= Map::<u16, Seq<Quad>>::empty());
        t
    }

    /// Whether `port` has a queue.
    pub fn is_bound(&self, port: u16) -> (r: bool)
        ensures
            r == self@.contains_key(port),
    {
        broadcast use vstd::std_specs::hash::group_hash_axioms;

        self.queues.contains_key(&port)
    }

    /// Takes the queue of `port` out.
    pub fn take(&mut self, port: u16) -> (r: Option<VecDeque<Quad>>)
        ensures
            final(self)@ == old(self)@.remove(port),
            r is Some <==> old(self)@.contains_key(port),
            r matches Some(q) ==> q@ == old(self)@[port],
    {
        broadcast use vstd::std_specs::hash::group_hash_axioms;

        let r = self.queues.remove(&port);
        assert(self@ =~= old(self)@.remove(port));
        r
    }

    /// Puts `queue` under `port`, in place of what stood there.
    pub fn put(&mut self, port: u16, queue: VecDeque<Quad>)
        ensures
            final(self)@ == old(self)@.insert(port, queue@),
    {
        broadcast use vstd::std_specs::hash::group_hash_axioms;

        self.queues.insert(port, queue);
        assert(self@ =~= old(self)@.insert(port, queue@));
    }
}

/// The state that all workers share: the table of connections, the queues of
/// the listening ports, and the word that the interface is shutting down.
pub struct ConnectionManager {
    terminate: bool,
    connections: ConnectionTable,
    pending: PendingTable,
}

impl View for ConnectionManager {
    type V = ManagerView;

    closed spec fn view(&self) -> ManagerView {
        ManagerView {
            terminate: self.terminate,
            connections: self.connections@,
            pending: self.pending@,
        }
    }
}

impl ConnectionManager {
    /// What every manager keeps at all times.
    pub closed spec fn wf(&self) -> bool {
        self.connections.wf()
    }

    /// No connection of the manager lets more bytes wait for their
    /// acknowledgement than the send queue holds.
    pub proof fn law_every_connection_bounded(&self)
        requires
            self.wf(),
        ensures
            self@.wf(),
    {
        self.connections.lemma_wf();
    }

    /// A manager with no connection and no listener.
    pub fn new() -> (m: ConnectionManager)
        ensures
            m.wf(),
            !m@.terminate,
            m@.connections == Map::<Quad, ConnectionView>::empty(),
            m@.pending == Map::<u16, Seq<Quad>>::empty(),
    {
        ConnectionManager {
            terminate: false,
            connections: ConnectionTable::new(),
            pending: PendingTable::new(),
        }
    }

    /// Says that the interface is shutting down: every call that would have
    /// to wait fails from now on.
    pub fn terminate(&mut self)
        requires
            old(self).wf(),
        ensures
            final(self).wf(),
            final(self)@ == (ManagerView { terminate: true, ..old(self)@ }),
    {
        self.terminate = true;
    }

    /// Whether the interface is shutting down.
    pub fn is_terminating(&self) -> (r: bool)
        ensures
            r == self@.terminate,
    {
        self.terminate
    }

    /// Whether a connection stands under `quad`.
    pub fn is_connected(&self, quad: &Quad) -> (r: bool)
        ensures
            r == self@.connections.contains_key(*quad),
    {
        self.connections.contains(quad)
    }

    /// Gives `port` a listener. Fails if it has one.
    pub fn bind(&mut self, port: u16) -> (r: Result<(), BindError>)
        requires
            old(self).wf(),
        ensures
            final(self).wf(),
            final(self)@ == old(self)@.bind(port),
            r is Err <==> old(self)@.pending.contains_key(port),
    {
        if self.pending.is_bound(port) {
            return Err(BindError::AddrInUse);
        }
        self.pending.put(port, VecDeque::new());
        Ok(())
    }

    /// Takes the listener of `port` away, and resets every connection that
    /// still waited for it.
    pub fn unbind(&mut self, out: &mut Outbox, port: u16)
        requires
            old(self).wf(),
        ensures
            final(self).wf(),
            final(self)@ == old(self)@.unbind(port).next,
            final(out)@ == old(out)@ + old(self)@.unbind(port).frames,
    {
        let queue = match self.pending.take(port) {
            Some(queue) => queue,
            None => {
                assert(self.pending@ =~= old(self).pending@);
                assert(out@ =~= old(out)@ + Seq::<Seq<u8>>::empty());
                return ;
            },
        };
        let mut i: usize = 0;
        assert(queue@.take(0) =~= Seq::<Quad>::empty());
        assert(out@ =~= old(out)@ + Seq::<Seq<u8>>::empty());
        while i < queue.len()
            invariant
                0 <= i <= queue@.len(),
                self.connections.wf(),
                self.terminate == old(self).terminate,
                self.pending@ == old(self).pending@.remove(port),
                self.connections@ == reset_each(old(self).connections@, queue@.take(i as int)).0,
                out@ == old(out)@ + reset_each(old(self).connections@, queue@.take(i as int)).1,
            decreases queue@.len() - i,
        {
            let quad = queue[i];
            proof {
                assert(queue@.take(i + 1).drop_last() =~= queue@.take(i as int));
                assert(queue@.take(i + 1).last() == quad);
            }
            let ghost before = out@;
            match self.connections.take(&quad) {
                Some(mut c) => {
                    c.send_rst(out);
                    assert(out@ =~= old(out)@ + reset_each(
                        old(self).connections@,
                        queue@.take(i + 1),
                    ).1);
                },
                None => {
                    assert(self.connections@ =~= reset_each(
                        old(self).connections@,
                        queue@.take(i + 1),
                    ).0);
                },
            }
            i += 1;
        }
        assert(queue@.take(queue@.len() as int) =~= queue@);
    }

    /// Hands the oldest connection that waits on `port` to its listener.
    pub fn accept(&mut self, port: u16) -> (r: Result<Quad, AcceptError>)
        requires
            old(self).wf(),
        ensures
            final(self).wf(),
            r == old(self)@.accept_answer(port),
            final(self)@ == old(self)@.accept(port),
    {
        if self.terminate {
            return Err(AcceptError::Terminated);
        }
        let mut queue = match self.pending.take(port) {
            Some(queue) => queue,
            None => {
                assert(self.pending@ =~= old(self).pending@);
                return Err(AcceptError::NotListening);
            },
        };
        let first = queue.pop_front();
        self.pending.put(port, queue);
        match first {
            Some(quad) => {
                assert(self.pending@ =~= old(self).pending@.insert(
                    port,
                    old(self).pending@[port].skip(1),
                ));
                Ok(quad)
            },
            None => {
                assert(self.pending@ =~= old(self).pending@);
                Err(AcceptError::WouldBlock)
            },
        }
    }

    /// The error of a call that would have to wait.
    fn must_wait(&self) -> (e: StreamError)
        ensures
            e == self@.must_wait(),
    {
        if self.terminate {
            StreamError::Terminated
        } else {
            StreamError::WouldBlock
        }
    }

    /// Reads at most `max` bytes from the stream of `quad`. No bytes mean
    /// that the stream has ended, or that `max` is 0.
    pub fn read(&mut self, quad: &Quad, max: usize) -> (r: Result<Vec<u8>, StreamError>)
        requires
            old(self).wf(),
        ensures
            final(self).wf(),
            final(self)@ == old(self)@.read(*quad, max as nat),
            r is Ok <==> old(self)@.read_answer(*quad, max as nat) is Ok,
            r matches Ok(bytes) ==> old(self)@.read_answer(*quad, max as nat) == Ok::<
                Seq<u8>,
                StreamError,
            >(bytes@),
            r matches Err(e) ==> old(self)@.read_answer(*quad, max as nat) == Err::<
                Seq<u8>,
                StreamError,
            >(e),
    {
        let mut c = match self.connections.take(quad) {
            Some(c) => c,
            None => {
                assert(self.connections@ =~= old(self).connections@);
                return Err(StreamError::ConnectionAborted);
            },
        };
        if c.incoming_len() == 0 {
            let ended = c.is_rcv_closed();
            self.connections.put(quad, c);
            assert(self.connections@ =~= old(self).connections@);
            if ended {
                let none: Vec<u8> = Vec::new();
                proof {
                    let c = old(self).connections@[*quad];
                    assert(none@ =~= Seq::<u8>::empty());
                    assert(c.incoming.skip(0) =~= c.incoming);
                    assert(self.connections@ =~= old(self).connections@.insert(
                        *quad,
                        c.dequeue(max as nat),
                    ));
                }
                return Ok(none);
            }
            return Err(self.must_wait());
        }
        let bytes = c.dequeue(max);
        self.connections.put(quad, c);
        assert(self.connections@ =~= old(self).connections@.insert(
            *quad,
            old(self).connections@[*quad].dequeue(max as nat),
        ));
        Ok(bytes)
    }

    /// Writes `data` to the stream of `quad`, as much as the send queue has
    /// room for, and says how much.
    pub fn write(&mut self, quad: &Quad, data: &[u8]) -> (r: Result<usize, StreamError>)
        requires
            old(self).wf(),
        ensures
            final(self).wf(),
            final(self)@ == old(self)@.write(*quad, data@),
            r == old(self)@.write_answer(*quad, data@.len()),
    {
        let mut c = match self.connections.take(quad) {
            Some(c) => c,
            None => {
                assert(self.connections@ =~= old(self).connections@);
                return Err(StreamError::ConnectionAborted);
            },
        };
        if c.is_closed() || c.unacked_len() >= SENDQUEUE_SIZE {
            let closed = c.is_closed();
            self.connections.put(quad, c);
            assert(self.connections@ =~= old(self).connections@);
            if closed {
                return Err(StreamError::Shutdown);
            }
            return Err(self.must_wait());
        }
        let taken = c.enqueue(data);
        self.connections.put(quad, c);
        assert(self.connections@ =~= old(self).connections@.insert(
            *quad,
            old(self).connections@[*quad].enqueue(data@),
        ));
        Ok(taken)
    }

    /// Says whether everything written to the stream of `quad` has been
    /// acknowledged.
    pub fn flush(&mut self, quad: &Quad) -> (r: Result<(), StreamError>)
        requires
            old(self).wf(),
        ensures
            final(self).wf(),
            final(self)@ == old(self)@,
            r == old(self)@.flush_answer(*quad),
    {
        let c = match self.connections.take(quad) {
            Some(c) => c,
            None => {
                assert(self.connections@ =~= old(self).connections@);
                return Err(StreamError::ConnectionAborted);
            },
        };
        let waiting = c.unacked_len();
        self.connections.put(quad, c);
        assert(self.connections@ =~= old(self).connections@);
        if waiting == 0 {
            Ok(())
        } else {
            Err(self.must_wait())
        }
    }

    /// The application closes its side of the stream of `quad`. The FIN
    /// goes out with a later tick.
    pub fn shutdown(&mut self, quad: &Quad) -> (r: Result<(), StreamError>)
        requires
            old(self).wf(),
        ensures
            final(self).wf(),
            final(self)@ == old(self)@.shutdown(*quad),
            r is Ok <==> old(self)@.connections.contains_key(*quad),
            r matches Err(e) ==> e == StreamError::ConnectionAborted,
    {
        let mut c = match self.connections.take(quad) {
            Some(c) => c,
            None => {
                assert(self.connections@ =~= old(self).connections@);
                return Err(StreamError::ConnectionAborted);
            },
        };
        c.close();
        self.connections.put(quad, c);
        assert(self.connections@ =~= old(self).connections@.insert(
            *quad,
            old(self).connections@[*quad].close(),
        ));
        Ok(())
    }

    /// One tick of the clock for every connection. The connections have
    /// their tick one after the other, in an order that is not promised.
    pub fn on_tick(&mut self, out: &mut Outbox, now: u64)
        requires
            old(self).wf(),
        ensures
            final(self).wf(),
            exists|order: Seq<Quad>|
                {
                    &&& #[trigger] old(self)@.is_tick_order(order)
                    &&& final(self)@ == old(self)@.on_tick(order, now).next
                    &&& final(out)@ == old(out)@ + old(self)@.on_tick(order, now).frames
                },
    {
        let quads = self.connections.quads();
        let ghost start = self.connections@;
        let mut i: usize = 0;
        assert(quads@.take(0) =~= Seq::<Quad>::empty());
        assert(out@ =~= old(out)@ + Seq::<Seq<u8>>::empty());
        while i < quads.len()
            invariant
                0 <= i <= quads@.len(),
                quads@.to_set() == start.dom(),
                start == old(self).connections@,
                self.connections.wf(),
                self.terminate == old(self).terminate,
                self.pending@ == old(self).pending@,
                self.connections@.dom() == start.dom(),
                self.connections@ == tick_each(start, quads@.take(i as int), now).0,
                out@ == old(out)@ + tick_each(start, quads@.take(i as int), now).1,
            decreases quads@.len() - i,
        {
            let quad = quads[i];
            proof {
                assert(quads@.take(i + 1).drop_last() =~= quads@.take(i as int));
                assert(quads@.take(i + 1).last() == quad);
                assert(quads@.to_set().contains(quad));
            }
            let ghost before = self.connections@;
            match self.connections.take(&quad) {
                Some(mut c) => {
                    c.on_tick(out, now);
                    self.connections.put(&quad, c);
                    proof {
                        assert(self.connections@ =~= before.insert(quad, c@));
                        assert(self.connections@.dom() =~= start.dom());
                        assert(out@ =~= old(out)@ + tick_each(start, quads@.take(i + 1), now).1);
                    }
                },
                None => {},
            }
            i += 1;
        }
        proof {
            assert(quads@.take(quads@.len() as int) =~= quads@);
            assert(old(self)@.is_tick_order(quads@));
        }
    }

    /// Takes in one frame from the device.
    pub fn on_frame(&mut self, out: &mut Outbox, now: u64, frame: &[u8]) -> (d: Delivery)
        requires
            old(self).wf(),
        ensures
            final(self).wf(),
            final(self)@ == old(self)@.on_frame(now, frame@).next,
            final(out)@ == old(out)@ + old(self)@.on_frame(now, frame@).frames,
            d == old(self)@.delivery(now, frame@),
    {
        let parsed = match parse_frame(frame) {
            Ok(parsed) => parsed,
            Err(e) => {
                assert(out@ =~= old(out)@ + Seq::<Seq<u8>>::empty());
                return Delivery::Dropped(e);
            },
        };
        proof {
            lemma_parsed_segment_bounds(frame@);
        }
        let quad = Quad {
            src_addr: parsed.ip.source,
            src_port: parsed.tcp.source_port,
            dst_addr: parsed.ip.destination,
            dst_port: parsed.tcp.destination_port,
        };
        let port = parsed.tcp.destination_port;
        let data = slice_subrange(frame, parsed.data_start, frame.len());
        assert(data@ == frame@.skip(parsed.data_start as int));
        match self.connections.take(&quad) {
            Some(mut c) => {
                match c.on_packet(out, now, &parsed.ip, &parsed.tcp, data) {
                    Ok(available) => {
                        self.connections.put(&quad, c);
                        assert(self.connections@ =~= old(self).connections@.insert(quad, c@));
                        Delivery::Delivered(available)
                    },
                    Err(_) => {
                        let ghost taken = old(self)@.connections[quad].on_segment(
                            now,
                            parsed.tcp,
                            data@,
                        );
                        c.send_rst(out);
                        assert(out@ =~= old(out)@ + (taken.frames + taken.next.reset().frames));
                        Delivery::Aborted
                    },
                }
            },
            None => {
                assert(self.connections@ =~= old(self).connections@);
                if !self.pending.is_bound(port) {
                    assert(out@ =~= old(out)@ + Seq::<Seq<u8>>::empty());
                    return Delivery::Unclaimed;
                }
                match Connection::accept(out, now, &parsed.ip, &parsed.tcp, data) {
                    Some(c) => {
                        self.connections.put(&quad, c);
                        match self.pending.take(port) {
                            Some(mut queue) => {
                                queue.push_back(quad);
                                self.pending.put(port, queue);
                                assert(self.pending@ =~= old(self).pending@.insert(
                                    port,
                                    old(self).pending@[port].push(quad),
                                ));
                            },
                            None => {},
                        }
                        Delivery::Queued
                    },
                    None => {
                        assert(out@ =~= old(out)@ + Seq::<Seq<u8>>::empty());
                        Delivery::Unclaimed
                    },
                }
            },
        }
    }
}

} // verus!
