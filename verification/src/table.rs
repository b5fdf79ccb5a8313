//! The connection table: every open connection under its four-tuple.

use std::collections::HashMap;
use vstd::prelude::*;
use vstd::std_specs::iter::IteratorSpec;
use crate::connection::Connection;
use crate::model::ConnectionView;

verus! {

/// The four-tuple that names a connection: the peer's address and port, and
/// the local ones. Addresses hold their first byte in the highest place.
#[derive(Clone, Copy, Debug, PartialEq, Eq, Hash, Structural)]
pub struct Quad {
    pub src_addr: u32,
    pub src_port: u16,
    pub dst_addr: u32,
    pub dst_port: u16,
}

/// One more than the largest key of a four-tuple: 2^96.
pub open spec fn key_bound() -> int {
    0x1_0000_0000_0000_0000_0000_0000
}

impl Quad {
    /// The four-tuple as one number: its four fields side by side, 96 bits.
    pub open spec fn key(self) -> u128 {
        (((self.src_addr as int * 0x1_0000 + self.src_port as int) * 0x1_0000_0000
            + self.dst_addr as int) * 0x1_0000 + self.dst_port as int) as u128
    }

    /// The four-tuple that `key` stands for.
    pub open spec fn of_key(key: u128) -> Quad {
        Quad {
            src_addr: ((key as int / 0x1_0000_0000_0000_0000) % 0x1_0000_0000) as u32,
            src_port: ((key as int / 0x1_0000_0000_0000) % 0x1_0000) as u16,
            dst_addr: ((key as int / 0x1_0000) % 0x1_0000_0000) as u32,
            dst_port: (key as int % 0x1_0000) as u16,
        }
    }

    /// Four-tuples and the numbers below 2^96 stand one for one.
    pub proof fn lemma_key_round_trip(self)
        ensures
            self.key() < key_bound(),
            Quad::of_key(self.key()) == self,
    {
    }

    /// Every number below 2^96 is the key of its four-tuple.
    pub proof fn lemma_of_key_round_trip(key: u128)
        requires
            key < key_bound(),
        ensures
            Quad::of_key(key).key() == key,
    {
    }

    /// Two four-tuples with one key are one four-tuple.
    pub proof fn lemma_key_injective(a: Quad, b: Quad)
        ensures
            a.key() == b.key() ==> a == b,
    {
        a.lemma_key_round_trip();
        b.lemma_key_round_trip();
    }

    pub fn to_key(&self) -> (key: u128)
        ensures
            key == self.key(),
    {
        ((self.src_addr as u128 * 0x1_0000 + self.src_port as u128) * 0x1_0000_0000
            + self.dst_addr as u128) * 0x1_0000 + self.dst_port as u128
    }

    pub fn from_key(key: u128) -> (q: Quad)
        requires
            key < key_bound(),
        ensures
            q == Quad::of_key(key),
    {
        Quad {
            src_addr: ((key / 0x1_0000_0000_0000_0000) % 0x1_0000_0000) as u32,
            src_port: ((key / 0x1_0000_0000_0000) % 0x1_0000) as u16,
            dst_addr: ((key / 0x1_0000) % 0x1_0000_0000) as u32,
            dst_port: (key % 0x1_0000) as u16,
        }
    }
}

/// The open connections, each under its four-tuple.
pub struct ConnectionTable {
    slots: HashMap<u128, Connection>,
}

impl View for ConnectionTable {
    type V = Map<Quad, ConnectionView>;

    closed spec fn view(&self) -> Map<Quad, ConnectionView> {
        Map::new(
            |q: Quad| self.slots@.contains_key(q.key()),
            |q: Quad| self.slots@[q.key()]@,
        )
    }
}

impl ConnectionTable {
    /// Every key is the key of a four-tuple, and every connection keeps its
    /// bound.
    pub closed spec fn wf(&self) -> bool {
        &&& forall|k: u128| self.slots@.contains_key(k) ==> k < key_bound()
        &&& forall|k: u128| self.slots@.contains_key(k) ==> (#[trigger] self.slots@[k])@.wf()
    }

    /// What `wf` says of the connections.
    pub proof fn lemma_wf(&self)
        requires
            self.wf(),
        ensures
            forall|q: Quad| self@.contains_key(q) ==> (#[trigger] self@[q]).wf(),
            self@.dom().finite(),
    {
        broadcast use vstd::std_specs::hash::group_hash_axioms;

        let keys = self.slots@.dom();
        let quads = keys.map(|k: u128| Quad::of_key(k));
        assert(self@.dom() =~= quads) by {
            assert forall|q: Quad| self@.dom().contains(q) implies quads.contains(q) by {
                q.lemma_key_round_trip();
                assert(keys.contains(q.key()));
            }
            assert forall|q: Quad| quads.contains(q) implies self@.dom().contains(q) by {
                let k = choose|k: u128| keys.contains(k) && q == Quad::of_key(k);
                Quad::lemma_of_key_round_trip(k);
            }
        }
        keys.lemma_map_finite(|k: u128| Quad::of_key(k));
    }

    pub fn new() -> (t: ConnectionTable)
        ensures
            t.wf(),
            t@ == Map::<Quad, ConnectionView>::empty(),
    {
        broadcast use vstd::std_specs::hash::group_hash_axioms;

        let t = ConnectionTable { slots: HashMap::new() };
        assert(t@ =~= Map::<Quad, ConnectionView>::empty());
        t
    }

    /// Whether a connection stands under `quad`.
    pub fn contains(&self, quad: &Quad) -> (r: bool)
        ensures
            r == self@.contains_key(*quad),
    {
        broadcast use vstd::std_specs::hash::group_hash_axioms;

        let key = quad.to_key();
        self.slots.contains_key(&key)
    }

    /// Takes the connection under `quad` out of the table.
    pub fn take(&mut self, quad: &Quad) -> (r: Option<Connection>)
        requires
            old(self).wf(),
        ensures
            final(self).wf(),
            final(self)@ == old(self)@.remove(*quad),
            r is Some <==> old(self)@.contains_key(*quad),
            r matches Some(c) ==> c@ == old(self)@[*quad] && c@.wf(),
    {
        broadcast use vstd::std_specs::hash::group_hash_axioms;

        let key = quad.to_key();
        let r = self.slots.remove(&key);
        proof {
            assert forall|q: Quad| q.key() == key implies q == *quad by {
                Quad::lemma_key_injective(q, *quad);
            }
            assert(self@ =~= old(self)@.remove(*quad));
        }
        r
    }

    /// Puts `connection` under `quad`, in place of what stood there.
    pub fn put(&mut self, quad: &Quad, connection: Connection)
        requires
            old(self).wf(),
            connection@.wf(),
        ensures
            final(self).wf(),
            final(self)@ == old(self)@.insert(*quad, connection@),
    {
        broadcast use vstd::std_specs::hash::group_hash_axioms;

        let key = quad.to_key();
        proof {
            quad.lemma_key_round_trip();
        }
        self.slots.insert(key, connection);
        proof {
            assert forall|q: Quad| q.key() == key implies q == *quad by {
                Quad::lemma_key_injective(q, *quad);
            }
            assert(self@ =~= old(self)@.insert(*quad, connection@));
        }
    }

    /// The four-tuples of all connections, each once, in no promised order.
    pub fn quads(&self) -> (v: Vec<Quad>)
        requires
            self.wf(),
        ensures
            v@.no_duplicates(),
            v@.to_set() == self@.dom(),
    {
        broadcast use vstd::std_specs::hash::group_hash_axioms;

        let mut v: Vec<Quad> = Vec::new();
        let ghost all = self.slots.keys().remaining();
        assert(all.unref().to_set() == self.slots@.dom());
        for k in it: self.slots.keys()
            invariant
                it.seq() == all,
                all.no_duplicates(),
                all.unref().to_set() == self.slots@.dom(),
                self.wf(),
                v@.len() == it.index(),
                forall|i: int| 0 <= i < v@.len() ==> v@[i] == Quad::of_key(*all[i]),
        {
            assert(all.unref()[it.index()] == *k);
            assert(all.unref().to_set().contains(*k));
            v.push(Quad::from_key(*k));
        }
        proof {
            assert forall|i: int, j: int| 0 <= i < j < v@.len() implies v@[i] != v@[j] by {
                assert(all.unref()[i] == *all[i]);
                assert(all.unref()[j] == *all[j]);
                assert(all.unref().to_set().contains(*all[i]));
                assert(all.unref().to_set().contains(*all[j]));
                Quad::lemma_of_key_round_trip(*all[i]);
                Quad::lemma_of_key_round_trip(*all[j]);
            }
            assert forall|q: Quad| v@.to_set().contains(q) <==> self@.dom().contains(q) by {
                if v@.to_set().contains(q) {
                    let i = choose|i: int| 0 <= i < v@.len() && v@[i] == q;
                    assert(all.unref()[i] == *all[i]);
                    assert(all.unref().to_set().contains(*all[i]));
                    Quad::lemma_of_key_round_trip(*all[i]);
                }
                if self@.dom().contains(q) {
                    q.lemma_key_round_trip();
                    assert(all.unref().to_set().contains(q.key()));
                    let i = choose|i: int| 0 <= i < all.unref().len() && all.unref()[i] == q.key();
                    assert(v@[i] == q);
                }
            }
            assert(v@.to_set() =~= self@.dom());
        }
        v
    }
}

} // verus!
