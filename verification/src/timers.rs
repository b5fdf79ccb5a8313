//! Retransmission timers: when each outstanding segment first went out, and a
//! smoothed estimate of the round-trip time. All times are nanoseconds on the
//! caller's clock.

use std::collections::BTreeMap;
use vstd::prelude::*;
use crate::keys::{ascending, ascending_keys, entry_count, lookup, store, take};
use crate::seqnum::{is_in_wrapped_range, seq_in_range, space};

verus! {

/// One second.
pub const SECOND: u64 = 1_000_000_000;

/// The estimate a connection starts with: large, so that the first segment
/// is not sent again too early.
pub const INITIAL_SRTT: u64 = 60_000_000_000;

/// The timers of one connection.
pub struct Timers {
    send_times: BTreeMap<u32, u64>,
    srtt: u64,
}

/// What the timers hold.
pub struct TimersView {
    /// For the first sequence number of each outstanding segment, the time
    /// at which it was last put on the wire.
    pub send_times: Map<u32, u64>,
    /// The smoothed round-trip time.
    pub srtt: u64,
}

/// The time from `then` to `now`; none if `then` is the later.
pub open spec fn elapsed(now: u64, then: u64) -> u64 {
    if now >= then {
        (now - then) as u64
    } else {
        0
    }
}

/// The moving average with weight four fifths on the old estimate and one
/// fifth on the sample, rounded down to a whole nanosecond.
pub open spec fn smooth(srtt: u64, sample: u64) -> u64 {
    ((4 * srtt + sample) / 5) as u64
}

/// A wait is long enough to send again when it is over a second and over one
/// and a half times the estimate.
pub open spec fn overdue(waited: u64, srtt: u64) -> bool {
    waited > SECOND && 2 * waited > 3 * srtt
}

/// The estimate after every entry below `bound` that an acknowledgement of
/// `[una, ackn)` covers has given its sample, smallest key first.
pub open spec fn srtt_sampled(
    times: Map<u32, u64>,
    una: u32,
    ackn: u32,
    now: u64,
    srtt: u64,
    bound: int,
) -> u64
    decreases bound,
{
    if bound <= 0 {
        srtt
    } else {
        let before = srtt_sampled(times, una, ackn, now, srtt, bound - 1);
        let key = (bound - 1) as u32;
        if times.contains_key(key) && seq_in_range(una, key, ackn) {
            smooth(before, elapsed(now, times[key]))
        } else {
            before
        }
    }
}

/// The entries that an acknowledgement of `[una, ackn)` leaves.
pub open spec fn times_left(times: Map<u32, u64>, una: u32, ackn: u32) -> Map<u32, u64> {
    times.remove_keys(Set::new(|k: u32| seq_in_range(una, k, ackn)))
}

/// `key` is the smallest key of `times` that is not below `from`.
pub open spec fn is_first_from(times: Map<u32, u64>, from: u32, key: u32) -> bool {
    &&& times.contains_key(key)
    &&& from <= key
    &&& forall|k: u32| from <= k < key ==> !times.contains_key(k)
}

/// `times` holds a key that is not below `from`.
pub open spec fn has_from(times: Map<u32, u64>, from: u32) -> bool {
    exists|k: u32| times.contains_key(k) && from <= k
}

impl TimersView {
    /// The timers after a segment that starts at `seq` went out at `now`.
    pub open spec fn recorded(self, seq: u32, now: u64) -> TimersView {
        TimersView { send_times: self.send_times.insert(seq, now), ..self }
    }

    /// The timers after the sequence numbers `[una, ackn)` were
    /// acknowledged at `now`.
    pub open spec fn acknowledged(self, una: u32, ackn: u32, now: u64) -> TimersView {
        TimersView {
            send_times: times_left(self.send_times, una, ackn),
            srtt: srtt_sampled(self.send_times, una, ackn, now, self.srtt, space()),
        }
    }

    /// How long the oldest segment from `una` on has waited at `now`, if
    /// there is one.
    pub open spec fn waited(self, una: u32, now: u64) -> Option<u64> {
        if has_from(self.send_times, una) {
            let key = choose|k: u32| is_first_from(self.send_times, una, k);
            Some(elapsed(now, self.send_times[key]))
        } else {
            None
        }
    }

    /// The oldest segment from `una` on has waited long enough to be sent
    /// again.
    pub open spec fn retransmit_due(self, una: u32, now: u64) -> bool {
        self.waited(una, now) matches Some(w) && overdue(w, self.srtt)
    }
}

impl View for Timers {
    type V = TimersView;

    closed spec fn view(&self) -> TimersView {
        TimersView { send_times: self.send_times@, srtt: self.srtt }
    }
}

/// Keys that are passed over change nothing about the estimate.
pub proof fn lemma_sampled_skips(
    times: Map<u32, u64>,
    una: u32,
    ackn: u32,
    now: u64,
    srtt: u64,
    low: int,
    high: int,
)
    requires
        0 <= low <= high <= space(),
        forall|k: u32| low <= k < high && times.contains_key(k) ==> !seq_in_range(una, k, ackn),
    ensures
        srtt_sampled(times, una, ackn, now, srtt, high) == srtt_sampled(
            times,
            una,
            ackn,
            now,
            srtt,
            low,
        ),
    decreases high - low,
{
    if low < high {
        lemma_sampled_skips(times, una, ackn, now, srtt, low, high - 1);
        let key = (high - 1) as u32;
        assert(low <= key < high);
    }
}

/// There is at most one first key from `from` on, and there is one whenever
/// any key stands at or above `from`.
pub proof fn lemma_first_from(times: Map<u32, u64>, from: u32)
    ensures
        forall|a: u32, b: u32|
            is_first_from(times, from, a) && is_first_from(times, from, b) ==> a == b,
        has_from(times, from) <==> exists|k: u32| is_first_from(times, from, k),
{
    if has_from(times, from) {
        let k = choose|k: u32| times.contains_key(k) && from <= k;
        lemma_least_from(times, from, k);
    }
}

/// Below any key at or above `from` there is a first one.
proof fn lemma_least_from(times: Map<u32, u64>, from: u32, k: u32)
    requires
        times.contains_key(k),
        from <= k,
    ensures
        exists|f: u32| is_first_from(times, from, f),
    decreases k - from,
{
    if exists|j: u32| from <= j < k && times.contains_key(j) {
        let j = choose|j: u32| from <= j < k && times.contains_key(j);
        lemma_least_from(times, from, j);
    } else {
        assert(is_first_from(times, from, k));
    }
}

/// The new estimate from the old one and one sample.
pub fn smoothed(srtt: u64, sample: u64) -> (r: u64)
    ensures
        r == smooth(srtt, sample),
{
    let wide: u128 = (4 * (srtt as u128) + sample as u128) / 5;
    wide as u64
}

/// Whether a segment that has waited `waited` is to be sent again.
pub fn is_overdue(waited: u64, srtt: u64) -> (r: bool)
    ensures
        r == overdue(waited, srtt),
{
    waited > SECOND && 2 * (waited as u128) > 3 * (srtt as u128)
}

impl Timers {
    /// Timers with no segment outstanding and the initial estimate.
    pub fn new() -> (t: Timers)
        ensures
            t@.send_times == Map::<u32, u64>::empty(),
            t@.srtt == INITIAL_SRTT,
    {
        Timers { send_times: BTreeMap::new(), srtt: INITIAL_SRTT }
    }

    /// The smoothed round-trip time, in nanoseconds.
    pub fn srtt(&self) -> (r: u64)
        ensures
            r == self@.srtt,
    {
        self.srtt
    }

    /// Number of segments whose send time is held.
    pub fn pending(&self) -> (n: usize)
        ensures
            n == self@.send_times.len(),
    {
        entry_count(&self.send_times)
    }

    /// When the segment that starts at `seq` went out, if that is held.
    pub fn sent_at(&self, seq: u32) -> (r: Option<u64>)
        ensures
            r == (if self@.send_times.contains_key(seq) {
                Some(self@.send_times[seq])
            } else {
                None
            }),
    {
        lookup(&self.send_times, seq)
    }

    /// Notes that a segment starting at `seq` went out at `now`.
    pub fn record(&mut self, seq: u32, now: u64)
        ensures
            final(self)@ == old(self)@.recorded(seq, now),
    {
        store(&mut self.send_times, seq, now);
    }

    /// Takes one sample from every entry in `[una, ackn)`, smallest key
    /// first, and drops those entries.
    pub fn acknowledge(&mut self, una: u32, ackn: u32, now: u64)
        ensures
            final(self)@ == old(self)@.acknowledged(una, ackn, now),
    {
        let keys = ascending_keys(&self.send_times);
        let ghost times = self.send_times@;
        let ghost srtt = self.srtt;
        let ghost mut low: int = 0;
        let mut i: usize = 0;
        while i < keys.len()
            invariant
                0 <= i <= keys.len(),
                ascending(keys@),
                keys@.to_set() == times.dom(),
                0 <= low <= space(),
                i > 0 ==> low == keys@[i - 1] + 1,
                i == 0 ==> low == 0,
                self.srtt == srtt_sampled(times, una, ackn, now, srtt, low),
                forall|k: u32|
                    self.send_times@.contains_key(k) <==> times.contains_key(k) && !(k < low
                        && seq_in_range(una, k, ackn)),
                forall|k: u32| self.send_times@.contains_key(k) ==> self.send_times@[k] == times[k],
            decreases keys.len() - i,
        {
            let key = keys[i];
            proof {
                assert(keys@.to_set().contains(key));
                assert forall|k: u32| low <= k < key && times.contains_key(k) implies !seq_in_range(
                    una,
                    k,
                    ackn,
                ) by {
                    assert(keys@.to_set().contains(k));
                    let at = choose|at: int| 0 <= at < keys@.len() && keys@[at] == k;
                    if at < i {
                        if i > 0 {
                            assert(at == i - 1 || keys@[at] < keys@[i - 1]);
                        }
                    } else if at > i {
                        assert(keys@[i as int] < keys@[at]);
                    }
                }
                lemma_sampled_skips(times, una, ackn, now, srtt, low, key as int);
            }
            if is_in_wrapped_range(una, key, ackn) {
                let sent = take(&mut self.send_times, key);
                let sample = match sent {
                    Some(t) => now.saturating_sub(t),
                    None => 0,
                };
                self.srtt = smoothed(self.srtt, sample);
            }
            proof {
                low = key + 1;
            }
            i += 1;
        }
        proof {
            assert forall|k: u32| low <= k < space() && times.contains_key(k) implies !seq_in_range(
                una,
                k,
                ackn,
            ) by {
                assert(keys@.to_set().contains(k));
                let at = choose|at: int| 0 <= at < keys@.len() && keys@[at] == k;
                if i > 0 {
                    assert(at == i - 1 || keys@[at] < keys@[i - 1]);
                }
            }
            lemma_sampled_skips(times, una, ackn, now, srtt, low, space());
            assert(self.send_times@ =~= times_left(times, una, ackn));
        }
    }

    /// How long the oldest segment from `una` on has waited at `now`.
    pub fn waited_for(&self, una: u32, now: u64) -> (r: Option<u64>)
        ensures
            r == self@.waited(una, now),
    {
        let keys = ascending_keys(&self.send_times);
        let ghost times = self.send_times@;
        let mut i: usize = 0;
        while i < keys.len()
            invariant
                0 <= i <= keys.len(),
                ascending(keys@),
                keys@.to_set() == times.dom(),
                times == self.send_times@,
                forall|j: int| 0 <= j < i ==> keys@[j] < una,
            decreases keys.len() - i,
        {
            let key = keys[i];
            if key >= una {
                proof {
                    assert(keys@.to_set().contains(key));
                    assert forall|k: u32| una <= k < key implies !times.contains_key(k) by {
                        if times.contains_key(k) {
                            assert(keys@.to_set().contains(k));
                            let at = choose|at: int| 0 <= at < keys@.len() && keys@[at] == k;
                            if at > i {
                                assert(keys@[i as int] < keys@[at]);
                            }
                        }
                    }
                    assert(is_first_from(times, una, key));
                    lemma_first_from(times, una);
                }
                return match lookup(&self.send_times, key) {
                    Some(t) => Some(now.saturating_sub(t)),
                    None => None,
                };
            }
            i += 1;
        }
        proof {
            if has_from(times, una) {
                let k = choose|k: u32| times.contains_key(k) && una <= k;
                assert(keys@.to_set().contains(k));
            }
        }
        None
    }

    /// Whether the oldest segment from `una` on is to be sent again at `now`.
    pub fn should_retransmit(&self, una: u32, now: u64) -> (r: bool)
        ensures
            r == self@.retransmit_due(una, now),
    {
        match self.waited_for(una, now) {
            Some(w) => is_overdue(w, self.srtt),
            None => false,
        }
    }
}

} // verus!
