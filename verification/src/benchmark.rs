//! Measurements taken while running: the peak of the process's memory
//! readings, and elapsed wall-clock time.

use std::time::{Duration, Instant};
use vstd::prelude::*;

verus! {

#[verifier::external_type_specification]
#[verifier::external_body]
pub struct ExInstant(Instant);

/// `std` `Instant::elapsed`: the time since `start`, as the clock reads now.
#[verifier::external_body]
fn instant_elapsed(start: &Instant) -> Duration {
    start.elapsed()
}

/// `std` `Duration::as_secs`: the whole seconds of `d`.
#[verifier::external_body]
fn duration_secs(d: &Duration) -> u64 {
    d.as_secs()
}

/// `std` `Duration::subsec_nanos`: the nanoseconds of `d` past its whole
/// seconds, always below one second.
#[verifier::external_body]
fn duration_subsec_nanos(d: &Duration) -> (r: u32)
    ensures
        r < 1_000_000_000,
{
    d.subsec_nanos()
}

/// A memory reading in KiB: some platforms report the process's memory in
/// bytes, so a reading above ten million is taken as bytes and divided by
/// 1024; no reading counts as zero.
pub open spec fn normalized_kib(reading: Option<u64>) -> u64 {
    match reading {
        Some(v) => if v > 10_000_000 {
            v / 1024
        } else {
            v
        },
        None => 0,
    }
}

/// Normalizes a raw memory reading of the process to KiB.
pub fn normalize_memory_kib(reading: Option<u64>) -> (r: u64)
    ensures
        r == normalized_kib(reading),
{
    match reading {
        Some(v) => if v > 10_000_000 {
            v / 1024
        } else {
            v
        },
        None => 0,
    }
}

/// The largest memory reading seen so far, in KiB.
#[derive(Clone, Debug)]
pub struct PeakMemoryTracker {
    peak_kib: u64,
}

impl PeakMemoryTracker {
    /// The peak so far.
    pub closed spec fn peak(&self) -> u64 {
        self.peak_kib
    }

    /// A tracker whose first sample is the current reading.
    pub fn new(current_kib: u64) -> (r: PeakMemoryTracker)
        ensures
            r.peak() == current_kib,
    {
        let mut tracker = PeakMemoryTracker { peak_kib: 0 };
        tracker.sample(current_kib);
        tracker
    }

    /// Records a reading: the peak becomes the larger of the two.
    pub fn sample(&mut self, current_kib: u64)
        ensures
            final(self).peak() == peak_step(old(self).peak(), current_kib),
    {
        if current_kib > self.peak_kib {
            self.peak_kib = current_kib;
        }
    }

    /// The peak in KiB.
    pub fn peak_kib(&self) -> (r: u64)
        ensures
            r == self.peak(),
    {
        self.peak_kib
    }
}

/// The peak after one more reading: the larger of the two.
pub open spec fn peak_step(peak: u64, reading: u64) -> u64 {
    if reading > peak {
        reading
    } else {
        peak
    }
}

/// The peak of a nonempty sequence of readings taken in order.
pub open spec fn peak_after(readings: Seq<u64>) -> u64
    decreases readings.len(),
{
    if readings.len() <= 1 {
        readings[0]
    } else {
        peak_step(peak_after(readings.drop_last()), readings.last())
    }
}

/// A tracker made from the first reading and then sampled with each later
/// one holds the largest of all the readings: `trackers[k]` is the tracker
/// after reading `k`, as `new` and `sample` leave it.
pub proof fn lemma_peak_is_maximum(readings: Seq<u64>, trackers: Seq<PeakMemoryTracker>)
    requires
        readings.len() > 0,
        trackers.len() == readings.len(),
        trackers[0].peak() == readings[0],
        forall|k: int| 1 <= k < readings.len() ==> #[trigger] trackers[k].peak() == peak_step(trackers[k - 1].peak(), readings[k]),
    ensures
        trackers.last().peak() == peak_after(readings),
        forall|i: int| 0 <= i < readings.len() ==> readings[i] <= trackers.last().peak(),
        exists|i: int| 0 <= i < readings.len() && readings[i] == trackers.last().peak(),
    decreases readings.len(),
{
    if readings.len() > 1 {
        let r = readings.drop_last();
        let t = trackers.drop_last();
        assert forall|k: int| 1 <= k < r.len() implies #[trigger] t[k].peak() == peak_step(t[k - 1].peak(), r[k]) by {
            assert(t[k] == trackers[k]);
            assert(trackers[k].peak() == peak_step(trackers[k - 1].peak(), readings[k]));
        }
        lemma_peak_is_maximum(r, t);
        let n = readings.len() - 1;
        assert(trackers[n].peak() == peak_step(trackers[n - 1].peak(), readings[n]));
        let w = choose|i: int| 0 <= i < r.len() && r[i] == t.last().peak();
        assert forall|i: int| 0 <= i < readings.len() implies readings[i] <= trackers.last().peak() by {
            if i < n {
                assert(r[i] == readings[i]);
            }
        }
        if readings[n] > trackers[n - 1].peak() {
            assert(readings[n] == trackers.last().peak());
        } else {
            assert(r[w] == readings[w]);
            assert(readings[w] == trackers.last().peak());
        }
    } else {
        assert(readings[0] == trackers.last().peak());
    }
}

/// The whole milliseconds of a duration of `secs` seconds and `nanos`
/// nanoseconds.
pub open spec fn millis_value(secs: u64, nanos: u32) -> int {
    secs * 1000 + nanos / 1_000_000
}

/// The whole milliseconds of a duration given as its whole seconds and the
/// nanoseconds past them.
pub fn millis_of(secs: u64, nanos: u32) -> (r: u128)
    requires
        nanos < 1_000_000_000,
    ensures
        r == millis_value(secs, nanos),
{
    (secs as u128) * 1000 + (nanos / 1_000_000) as u128
}

/// The whole milliseconds elapsed since `start`, as the clock reads now:
/// the milliseconds of some duration, which the clock decides.
pub fn elapsed_ms(start: Instant) -> (r: u128)
    ensures
        exists|s: u64, n: u32| n < 1_000_000_000 && r == #[trigger] millis_value(s, n),
{
    let d = instant_elapsed(&start);
    let secs = duration_secs(&d);
    let nanos = duration_subsec_nanos(&d);
    let r = millis_of(secs, nanos);
    assert(nanos < 1_000_000_000 && r == millis_value(secs, nanos));
    r
}

} // verus!
