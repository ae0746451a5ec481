//! A running minimum, average and maximum.

use crate::text::{dec, push_dec};
use vstd::prelude::*;
use vstd::string::*;

verus! {

/// A running min / average / max of a latency series.
#[derive(Clone, Copy, Debug, PartialEq, Eq)]
pub struct Latency {
    pub min: u64,
    pub max: u64,
    pub sum: u64,
    pub count: u64,
}

impl Latency {
    /// The accumulator of an empty series.
    pub open spec fn empty() -> Latency {
        Latency { min: 0, max: 0, sum: 0, count: 0 }
    }

    /// Whether `v` can be added without the sum or the count overflowing.
    pub open spec fn can_record(self, v: u64) -> bool {
        self.sum + v <= u64::MAX && self.count < u64::MAX
    }

    /// The accumulator with `v` added.
    pub open spec fn recorded(self, v: u64) -> Latency {
        Latency {
            min: if self.count == 0 || v < self.min {
                v
            } else {
                self.min
            },
            max: if self.count == 0 || v > self.max {
                v
            } else {
                self.max
            },
            sum: (self.sum + v) as u64,
            count: (self.count + 1) as u64,
        }
    }

    /// The average, rounded down; zero for an empty series.
    pub open spec fn average(self) -> u64 {
        if self.count == 0 {
            0
        } else {
            self.sum / self.count
        }
    }

    /// The accumulator of a series.
    pub open spec fn of(series: Seq<u64>) -> Latency
        decreases series.len(),
    {
        if series.len() == 0 {
            Latency::empty()
        } else {
            Latency::of(series.drop_last()).recorded(series.last())
        }
    }

    /// An empty series.
    pub fn new() -> (r: Latency)
        ensures
            r == Latency::empty(),
    {
        Latency { min: 0, max: 0, sum: 0, count: 0 }
    }

    /// Adds `v` to the series.
    pub fn record(&mut self, v: u64)
        requires
            old(self).can_record(v),
        ensures
            *final(self) == old(self).recorded(v),
    {
        if self.count == 0 {
            self.min = v;
            self.max = v;
        } else {
            if v < self.min {
                self.min = v;
            }
            if v > self.max {
                self.max = v;
            }
        }
        self.sum = self.sum + v;
        self.count = self.count + 1;
    }

    /// The average, rounded down.
    pub fn avg(&self) -> (r: u64)
        ensures
            r == self.average(),
    {
        if self.count == 0 {
            0
        } else {
            self.sum / self.count
        }
    }
}

/// Whether the latency of a transaction announced at `start` can be recorded.
pub open spec fn latency_fits(start: Option<u64>, now: u64, lat: Latency) -> bool {
    start matches Some(s) ==> s <= now && lat.can_record((now - s) as u64)
}

/// Whether the latency of a transaction announced at `start` can be recorded.
pub fn latency_in_range(start: Option<u64>, now: u64, lat: &Latency) -> (r: bool)
    ensures
        r == latency_fits(start, now, *lat),
{
    match start {
        Some(s) => s <= now && now - s <= u64::MAX - lat.sum && lat.count < u64::MAX,
        None => true,
    }
}

/// `lat` after the latency of a transaction announced at `start`, if any, was
/// recorded.
pub open spec fn timed(lat: Latency, start: Option<u64>, now: u64) -> Latency {
    match start {
        Some(s) => lat.recorded((now - s) as u64),
        None => lat,
    }
}

/// The sum of a series.
pub open spec fn total(series: Seq<u64>) -> int
    decreases series.len(),
{
    if series.len() == 0 {
        0
    } else {
        total(series.drop_last()) + series.last()
    }
}

/// What the accumulator says of a series whose sum and length fit: the count
/// and the sum are the series' own, the minimum and the maximum are items of
/// it that bound every other, and the average lies between them.
pub proof fn lemma_latency_summarises(series: Seq<u64>)
    requires
        total(series) <= u64::MAX,
        series.len() <= u64::MAX,
    ensures
        ({
            let l = Latency::of(series);
            &&& l.count == series.len()
            &&& l.sum == total(series)
            &&& series.len() > 0 ==> series.contains(l.min) && series.contains(l.max)
            &&& forall|i: int| 0 <= i < series.len() ==> l.min <= #[trigger] series[i] <= l.max
            &&& series.len() > 0 ==> l.min <= l.average() <= l.max
            &&& series.len() > 0 ==> l.average() == total(series) / (series.len() as int)
            &&& series.len() == 0 ==> l.average() == 0
        }),
    decreases series.len(),
{
    let l = Latency::of(series);
    if series.len() > 0 {
        let s = series.drop_last();
        let v = series.last();
        lemma_total_is_not_negative(s);
        lemma_latency_summarises(s);
        let p = Latency::of(s);
        assert(series[series.len() - 1] == v);
        if s.len() > 0 {
            let i = choose|i: int| 0 <= i < s.len() && s[i] == p.min;
            let j = choose|j: int| 0 <= j < s.len() && s[j] == p.max;
            assert(series[i] == p.min);
            assert(series[j] == p.max);
        }
        assert forall|i: int| 0 <= i < series.len() implies l.min <= #[trigger] series[i]
            <= l.max by {
            if i < s.len() {
                assert(s[i] == series[i]);
            }
        }
        lemma_total_bounds(series, l.min, l.max);
        assert(l.min <= l.sum / l.count <= l.max) by (nonlinear_arith)
            requires
                l.count > 0,
                l.min * l.count <= l.sum <= l.max * l.count,
        ;
    }
}

proof fn lemma_total_is_not_negative(series: Seq<u64>)
    ensures
        total(series) >= 0,
    decreases series.len(),
{
    if series.len() > 0 {
        lemma_total_is_not_negative(series.drop_last());
    }
}

proof fn lemma_total_bounds(series: Seq<u64>, lo: u64, hi: u64)
    requires
        forall|i: int| 0 <= i < series.len() ==> lo <= #[trigger] series[i] <= hi,
    ensures
        lo * series.len() <= total(series) <= hi * series.len(),
    decreases series.len(),
{
    if series.len() > 0 {
        let s = series.drop_last();
        assert forall|i: int| 0 <= i < s.len() implies lo <= #[trigger] s[i] <= hi by {
            assert(s[i] == series[i]);
        }
        lemma_total_bounds(s, lo, hi);
        let n = s.len();
        assert(lo * (n + 1) == lo * n + lo) by (nonlinear_arith);
        assert(hi * (n + 1) == hi * n + hi) by (nonlinear_arith);
        assert(lo <= series[series.len() - 1] <= hi);
    }
}

/// Minimum, average and maximum, separated by slashes.
pub open spec fn latency_text(l: Latency) -> Seq<char> {
    dec(l.min) + "/"@ + dec(l.average()) + "/"@ + dec(l.max)
}

/// Appends minimum, average and maximum.
pub fn push_latency(out: &mut String, l: &Latency)
    ensures
        final(out)@ == old(out)@ + latency_text(*l),
{
    push_dec(out, l.min);
    out.append("/");
    push_dec(out, l.avg());
    out.append("/");
    push_dec(out, l.max);
    assert(out@ =~= old(out)@ + latency_text(*l));
}

/// Whether `z` is `a` with one more latency, or the same where there is none.
pub open spec fn adds_latency(a: Latency, z: Latency, v: Option<u64>) -> bool {
    match v {
        Some(v) => {
            &&& z.count == a.count + 1
            &&& z.sum == a.sum + v
            &&& z.min <= v <= z.max
            &&& a.count > 0 ==> z.min <= a.min && a.max <= z.max
            &&& z.min == v || a.count > 0 && z.min == a.min
            &&& z.max == v || a.count > 0 && z.max == a.max
        },
        None => z == a,
    }
}

} // verus!
