//! The states a connection moves through after a passive open.

use vstd::prelude::*;

verus! {

/// Where a connection stands in its life. A connection that is closed has no
/// entry in the table, and a port that listens has a queue: neither is a state
/// here.
#[derive(Clone, Copy, Debug, PartialEq, Eq, Structural)]
pub enum State {
    SynRcvd,
    Estab,
    FinWait1,
    FinWait2,
    Closing,
    TimeWait,
}

impl State {
    /// Both sides have agreed on their sequence numbers.
    pub open spec fn synchronized(self) -> bool {
        self != State::SynRcvd
    }

    /// This side has put its FIN on the wire.
    pub open spec fn fin_sent(self) -> bool {
        self != State::SynRcvd && self != State::Estab
    }

    /// The states in which acknowledgements and payload are taken in.
    pub open spec fn carries_data(self) -> bool {
        self == State::Estab || self == State::FinWait1 || self == State::FinWait2
    }

    pub fn is_synchronized(&self) -> (r: bool)
        ensures
            r == self.synchronized(),
    {
        match self {
            State::SynRcvd => false,
            State::Estab
            | State::FinWait1
            | State::Closing
            | State::FinWait2
            | State::TimeWait => true,
        }
    }

    pub fn have_sent_fin(&self) -> (r: bool)
        ensures
            r == self.fin_sent(),
    {
        match self {
            State::SynRcvd | State::Estab => false,
            State::FinWait1 | State::Closing | State::FinWait2 | State::TimeWait => true,
        }
    }

    pub fn is_carrying_data(&self) -> (r: bool)
        ensures
            r == self.carries_data(),
    {
        match self {
            State::Estab | State::FinWait1 | State::FinWait2 => true,
            State::SynRcvd | State::Closing | State::TimeWait => false,
        }
    }
}

} // verus!
