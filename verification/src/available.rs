//! Which wake-ups the application side is owed after an event.

use vstd::prelude::*;

verus! {

/// A set over the two wake-ups `READ` and `WRITE`.
#[derive(Clone, Copy, Debug, PartialEq, Eq, Structural)]
pub struct Available {
    pub read: bool,
    pub write: bool,
}

impl Available {
    /// The set with neither wake-up.
    pub fn empty() -> (a: Available)
        ensures
            !a.read,
            !a.write,
    {
        Available { read: false, write: false }
    }

    /// The set that holds `READ` alone.
    pub fn read() -> (a: Available)
        ensures
            a.read,
            !a.write,
    {
        Available { read: true, write: false }
    }

    /// The set that holds `WRITE` alone.
    pub fn write() -> (a: Available)
        ensures
            !a.read,
            a.write,
    {
        Available { read: false, write: true }
    }

    /// Every wake-up of `other` is in `self`.
    pub open spec fn includes(self, other: Available) -> bool {
        (other.read ==> self.read) && (other.write ==> self.write)
    }

    pub fn contains(&self, other: Available) -> (r: bool)
        ensures
            r == self.includes(other),
    {
        (!other.read || self.read) && (!other.write || self.write)
    }

    /// Adds the wake-ups of `other`.
    pub fn insert(&mut self, other: Available)
        ensures
            final(self).read == (old(self).read || other.read),
            final(self).write == (old(self).write || other.write),
    {
        self.read = self.read || other.read;
        self.write = self.write || other.write;
    }

    pub fn is_empty(&self) -> (r: bool)
        ensures
            r == (!self.read && !self.write),
    {
        !self.read && !self.write
    }

    /// The set as a bit mask: `READ` is bit 0, `WRITE` is bit 1.
    pub open spec fn mask(self) -> int {
        (if self.read { 1int } else { 0 }) + (if self.write { 2int } else { 0 })
    }

    pub fn bits(&self) -> (b: u8)
        ensures
            b == self.mask(),
    {
        let r: u8 = if self.read { 1 } else { 0 };
        let w: u8 = if self.write { 2 } else { 0 };
        r + w
    }
}

} // verus!
