//! Moving bytes into and out of a queue.

use std::collections::VecDeque;
use vstd::prelude::*;

verus! {

/// Drops the first `n` bytes of `queue`.
pub fn drain_front(queue: &mut VecDeque<u8>, n: usize)
    requires
        n <= old(queue)@.len(),
    ensures
        final(queue)@ == old(queue)@.skip(n as int),
{
    let mut i: usize = 0;
    while i < n
        invariant
            0 <= i <= n <= old(queue)@.len(),
            queue@ == old(queue)@.skip(i as int),
        decreases n - i,
    {
        queue.pop_front();
        i += 1;
    }
}

/// Appends `data[from..]` to `queue`.
pub fn append_from(queue: &mut VecDeque<u8>, data: &[u8], from: usize)
    requires
        from <= data@.len(),
    ensures
        final(queue)@ == old(queue)@ + data@.skip(from as int),
{
    let mut i: usize = from;
    while i < data.len()
        invariant
            from <= i <= data@.len(),
            queue@ == old(queue)@ + data@.subrange(from as int, i as int),
        decreases data@.len() - i,
    {
        queue.push_back(data[i]);
        i += 1;
    }
    assert(data@.subrange(from as int, data@.len() as int) == data@.skip(from as int));
}

/// Appends `data[..n]` to `queue`.
pub fn append_prefix(queue: &mut VecDeque<u8>, data: &[u8], n: usize)
    requires
        n <= data@.len(),
    ensures
        final(queue)@ == old(queue)@ + data@.take(n as int),
{
    let mut i: usize = 0;
    while i < n
        invariant
            0 <= i <= n <= data@.len(),
            queue@ == old(queue)@ + data@.take(i as int),
        decreases n - i,
    {
        queue.push_back(data[i]);
        i += 1;
    }
}

/// The `n` bytes of `queue` that start at `from`.
pub fn copy_range(queue: &VecDeque<u8>, from: usize, n: usize) -> (out: Vec<u8>)
    requires
        from + n <= queue@.len(),
    ensures
        out@ == queue@.subrange(from as int, from + n),
{
    let mut out: Vec<u8> = Vec::new();
    let total = queue.len();
    let mut i: usize = 0;
    while i < n
        invariant
            0 <= i <= n,
            from + n <= queue@.len() == total,
            out@ == queue@.subrange(from as int, from + i),
        decreases n - i,
    {
        out.push(queue[from + i]);
        i += 1;
    }
    out
}

/// The frames that one call has put out, in the order in which they are to go
/// to the device.
pub struct Outbox {
    frames: Vec<Vec<u8>>,
}

impl View for Outbox {
    type V = Seq<Seq<u8>>;

    closed spec fn view(&self) -> Seq<Seq<u8>> {
        Seq::new(self.frames@.len(), |i: int| self.frames@[i]@)
    }
}

impl Outbox {
    pub fn new() -> (out: Outbox)
        ensures
            out@ == Seq::<Seq<u8>>::empty(),
    {
        Outbox { frames: Vec::new() }
    }

    /// Number of frames held.
    pub fn len(&self) -> (n: usize)
        ensures
            n == self@.len(),
    {
        self.frames.len()
    }

    /// The frame at `index`.
    pub fn frame(&self, index: usize) -> (f: &Vec<u8>)
        requires
            index < self@.len(),
        ensures
            f@ == self@[index as int],
    {
        &self.frames[index]
    }

    /// Puts `frame` behind the frames held.
    pub fn push(&mut self, frame: Vec<u8>)
        ensures
            final(self)@ == old(self)@.push(frame@),
    {
        self.frames.push(frame);
        assert(self@ =~= old(self)@.push(frame@));
    }

    /// Hands the frames over.
    pub fn into_frames(self) -> (frames: Vec<Vec<u8>>)
        ensures
            frames@.len() == self@.len(),
            forall|i: int| 0 <= i < frames@.len() ==> frames@[i]@ == self@[i],
    {
        self.frames
    }
}

} // verus!
