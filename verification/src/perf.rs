use vstd::prelude::*;
use std::collections::VecDeque;

verus! {

/// A span of time as seconds and nanoseconds, the nanoseconds below one second.
#[derive(Debug, Clone, Copy, PartialEq, Eq, Structural)]
pub struct TimeSpan {
    pub secs: u64,
    pub nanos: u32,
}

/// Nanoseconds in a second.
pub open spec fn nanos_per_sec() -> int {
    1_000_000_000
}

/// The span in nanoseconds.
pub open spec fn total_nanos(d: TimeSpan) -> int {
    d.secs * nanos_per_sec() + d.nanos
}

/// The longest span that fits.
pub open spec fn max_total() -> int {
    u64::MAX * nanos_per_sec() + (nanos_per_sec() - 1)
}

impl TimeSpan {
    /// The nanoseconds part is below one second.
    pub open spec fn wf(&self) -> bool {
        self.nanos < 1_000_000_000
    }

    /// The empty span.
    pub fn zero() -> (r: Self)
        ensures
            r.wf(),
            total_nanos(r) == 0,
    {
        TimeSpan { secs: 0, nanos: 0 }
    }

    /// The sum of two spans, none when it does not fit.
    pub fn checked_add(self, other: TimeSpan) -> (r: Option<TimeSpan>)
        requires
            self.wf(),
            other.wf(),
        ensures
            r is Some <==> total_nanos(self) + total_nanos(other) <= max_total(),
            r matches Some(s) ==> s.wf() && total_nanos(s) == total_nanos(self) + total_nanos(other),
    {
        let secs = match self.secs.checked_add(other.secs) {
            Some(s) => s,
            None => {
                return None;
            },
        };
        let nanos = self.nanos + other.nanos;
        if nanos >= 1_000_000_000 {
            match secs.checked_add(1) {
                Some(s) => Some(TimeSpan { secs: s, nanos: nanos - 1_000_000_000 }),
                None => None,
            }
        } else {
            Some(TimeSpan { secs, nanos })
        }
    }

    /// This span divided by `d`, rounded down to a whole nanosecond.
    pub fn div(self, d: u32) -> (r: TimeSpan)
        requires
            self.wf(),
            d > 0,
        ensures
            r.wf(),
            total_nanos(r) == total_nanos(self) / (d as int),
    {
        let secs = self.secs / (d as u64);
        let carry = self.secs % (d as u64);
        proof {
            assert(carry < d);
            assert(carry * 1_000_000_000 + self.nanos < (d as int) * 1_000_000_000) by (nonlinear_arith)
                requires carry < d, self.nanos < 1_000_000_000;
        }
        let rest: u64 = carry * 1_000_000_000 + (self.nanos as u64);
        let nanos = rest / (d as u64);
        proof {
            let q = secs as int;
            let c = carry as int;
            let m = nanos as int;
            let rm = (rest % (d as u64)) as int;
            let dd = d as int;
            assert(self.secs as int == q * dd + c) by {
                vstd::arithmetic::div_mod::lemma_fundamental_div_mod(self.secs as int, dd);
            };
            assert(rest as int == m * dd + rm) by {
                vstd::arithmetic::div_mod::lemma_fundamental_div_mod(rest as int, dd);
            };
            assert(0 <= rm < dd) by {
                vstd::arithmetic::div_mod::lemma_mod_bound(rest as int, dd);
            };
            assert(m < 1_000_000_000) by (nonlinear_arith)
                requires rest < dd * 1_000_000_000, rest as int == m * dd + rm, 0 <= rm, dd > 0;
            assert(total_nanos(self) == (q * 1_000_000_000 + m) * dd + rm) by (nonlinear_arith)
                requires self.secs as int == q * dd + c, rest as int == c * 1_000_000_000 + self.nanos, rest as int == m * dd + rm,
                    total_nanos(self) == self.secs * 1_000_000_000 + self.nanos;
            vstd::arithmetic::div_mod::lemma_fundamental_div_mod_converse(total_nanos(self), dd, q * 1_000_000_000 + m, rm);
        }
        TimeSpan { secs, nanos: nanos as u32 }
    }

    /// Whether this span is shorter than `other`.
    pub fn shorter_than(&self, other: &TimeSpan) -> (r: bool)
        requires
            self.wf(),
            other.wf(),
        ensures
            r == (total_nanos(*self) < total_nanos(*other)),
    {
        self.secs < other.secs || (self.secs == other.secs && self.nanos < other.nanos)
    }
}

/// Sum of the spans in `s`.
pub open spec fn total_of(s: Seq<TimeSpan>) -> int
    decreases s.len(),
{
    if s.len() == 0 {
        0
    } else {
        total_of(s.drop_last()) + total_nanos(s.last())
    }
}

/// The longest span in `s`, 0 when it is empty.
pub open spec fn longest(s: Seq<TimeSpan>) -> int
    decreases s.len(),
{
    if s.len() == 0 {
        0
    } else {
        let m = longest(s.drop_last());
        if s.len() == 1 || total_nanos(s.last()) > m { total_nanos(s.last()) } else { m }
    }
}

/// The shortest span in `s`, 0 when it is empty.
pub open spec fn shortest(s: Seq<TimeSpan>) -> int
    decreases s.len(),
{
    if s.len() == 0 {
        0
    } else {
        let m = shortest(s.drop_last());
        if s.len() == 1 || total_nanos(s.last()) < m { total_nanos(s.last()) } else { m }
    }
}

/// Samples `s` after recording `d` with room for `n`: `d` goes last, and the oldest
/// goes once there are more than `n`.
pub open spec fn window_push(s: Seq<TimeSpan>, d: TimeSpan, n: nat) -> Seq<TimeSpan> {
    if s.len() + 1 > n {
        s.push(d).drop_first()
    } else {
        s.push(d)
    }
}

/// The last `min(ds.len(), n)` of `ds`.
pub open spec fn last_window(ds: Seq<TimeSpan>, n: nat) -> Seq<TimeSpan> {
    if ds.len() > n {
        ds.skip(ds.len() - n)
    } else {
        ds
    }
}

/// Recording `ds` in order into a tracker with no samples, passing through the trackers
/// `states`, leaves exactly the last `min(ds.len(), n)` of `ds`, oldest first, where `n`
/// is the tracker's limit; the mean, longest and shortest then speak of those alone.
pub proof fn lemma_tracker_keeps_last_window(states: Seq<PerformanceTracker>, ds: Seq<TimeSpan>)
    requires
        states.len() == ds.len() + 1,
        states[0].samples().len() == 0,
        forall|i: int| 0 <= i < ds.len() ==> #[trigger] states[i + 1].samples() == window_push(states[i].samples(), ds[i], states[i].limit()),
        forall|i: int| 0 <= i < ds.len() ==> #[trigger] states[i + 1].limit() == states[i].limit(),
    ensures
        states.last().samples() == last_window(ds, states[0].limit()),
{
    let n = states[0].limit();
    let lists = states.map_values(|t: PerformanceTracker| t.samples());
    assert forall|i: int| 0 <= i <= ds.len() implies #[trigger] states[i].limit() == n by {
        lemma_same_limit(states, ds.len() as int, i);
    };
    assert forall|i: int| 0 <= i < ds.len() implies #[trigger] lists[i + 1] == window_push(lists[i], ds[i], n) by {
        assert(states[i].limit() == n);
        assert(states[i + 1].samples() == window_push(states[i].samples(), ds[i], states[i].limit()));
    };
    lemma_window_after_recording(lists, ds, n);
    assert(lists.last() == states.last().samples());
}

proof fn lemma_same_limit(states: Seq<PerformanceTracker>, k: int, i: int)
    requires
        0 <= i <= k < states.len(),
        forall|j: int| 0 <= j < k ==> #[trigger] states[j + 1].limit() == states[j].limit(),
    ensures
        states[i].limit() == states[0].limit(),
    decreases i,
{
    if i > 0 {
        assert(states[(i - 1) + 1].limit() == states[i - 1].limit());
        lemma_same_limit(states, k, i - 1);
    }
}

/// Recording `ds` in order into an empty list of samples with room for `n`, passing
/// through the lists `states`, leaves exactly the last `min(ds.len(), n)` of `ds`.
pub proof fn lemma_window_after_recording(states: Seq<Seq<TimeSpan>>, ds: Seq<TimeSpan>, n: nat)
    requires
        states.len() == ds.len() + 1,
        states[0].len() == 0,
        forall|i: int| 0 <= i < ds.len() ==> #[trigger] states[i + 1] == window_push(states[i], ds[i], n),
    ensures
        states.last() == last_window(ds, n),
    decreases ds.len(),
{
    if ds.len() > 0 {
        let k = ds.len() - 1;
        let init = ds.drop_last();
        assert forall|i: int| 0 <= i < init.len() implies #[trigger] states.drop_last()[i + 1] == window_push(states.drop_last()[i], init[i], n) by {
            assert(states[i + 1] == window_push(states[i], ds[i], n));
        };
        lemma_window_after_recording(states.drop_last(), init, n);
        let prev = last_window(init, n);
        assert(states[k + 1] == window_push(states[k], ds[k], n));
        assert(states[k] == prev);
        if init.len() > n {
            assert(prev.push(ds[k]).drop_first() =~= ds.skip(ds.len() - n));
        } else if init.len() + 1 > n {
            assert(prev.push(ds[k]).drop_first() =~= ds.skip(ds.len() - n));
        } else {
            assert(prev.push(ds[k]) =~= ds);
        }
    }
}

/// The last render times, up to a set number of samples.
pub struct PerformanceTracker {
    render_times: VecDeque<TimeSpan>,
    max_samples: usize,
}

impl PerformanceTracker {
    /// The samples kept, oldest first.
    pub closed spec fn samples(&self) -> Seq<TimeSpan> {
        self.render_times@
    }

    /// Most samples kept.
    pub closed spec fn limit(&self) -> nat {
        self.max_samples as nat
    }

    pub closed spec fn wf(&self) -> bool {
        forall|i: int| 0 <= i < self.render_times@.len() ==> (#[trigger] self.render_times@[i]).wf()
    }

    /// A tracker keeping up to `max_samples` samples, holding none yet.
    pub fn new(max_samples: usize) -> (r: Self)
        ensures
            r.wf(),
            r.samples().len() == 0,
            r.limit() == max_samples,
    {
        PerformanceTracker { render_times: VecDeque::new(), max_samples }
    }

    /// Records one render time; the oldest sample goes once there are more than the limit.
    pub fn record_render_time(&mut self, duration: TimeSpan)
        requires
            old(self).wf(),
            duration.wf(),
        ensures
            final(self).wf(),
            final(self).limit() == old(self).limit(),
            final(self).samples() == window_push(old(self).samples(), duration, old(self).limit()),
            old(self).samples().len() <= old(self).limit() ==> final(self).samples().len() <= final(self).limit(),
            final(self).samples().last() == duration || final(self).samples().len() == 0,
    {
        self.render_times.push_back(duration);
        if self.render_times.len() > self.max_samples {
            let ghost before = self.render_times@;
            let _ = self.render_times.pop_front();
            proof {
                assert(self.render_times@ =~= before.drop_first());
            }
        }
    }

    /// The mean of the samples, rounded down to a whole nanosecond; zero when there are none.
    pub fn average_render_time(&self) -> (r: TimeSpan)
        requires
            self.wf(),
            total_of(self.samples()) <= max_total(),
            self.samples().len() <= u32::MAX,
        ensures
            r.wf(),
            self.samples().len() == 0 ==> total_nanos(r) == 0,
            self.samples().len() > 0 ==> total_nanos(r) == total_of(self.samples()) / (self.samples().len() as int),
    {
        if self.render_times.len() == 0 {
            return TimeSpan::zero();
        }
        let mut total = TimeSpan::zero();
        let mut i: usize = 0;
        while i < self.render_times.len()
            invariant
                self.wf(),
                0 <= i <= self.render_times@.len(),
                total.wf(),
                total_nanos(total) == total_of(self.render_times@.take(i as int)),
                total_of(self.render_times@) <= max_total(),
            decreases self.render_times.len() - i,
        {
            proof {
                assert(self.render_times@.take(i + 1).drop_last() =~= self.render_times@.take(i as int));
                lemma_total_prefix(self.render_times@, i + 1);
                assert(self.render_times@[i as int].wf());
            }
            total = match total.checked_add(self.render_times[i]) {
                Some(t) => t,
                None => total,
            };
            i = i + 1;
        }
        proof {
            assert(self.render_times@.take(self.render_times@.len() as int) =~= self.render_times@);
        }
        total.div(self.render_times.len() as u32)
    }

    /// The longest sample, zero when there are none.
    pub fn max_render_time(&self) -> (r: TimeSpan)
        requires
            self.wf(),
        ensures
            r.wf(),
            total_nanos(r) == longest(self.samples()),
    {
        let mut best = TimeSpan::zero();
        let mut i: usize = 0;
        while i < self.render_times.len()
            invariant
                self.wf(),
                0 <= i <= self.render_times@.len(),
                best.wf(),
                total_nanos(best) == longest(self.render_times@.take(i as int)),
            decreases self.render_times.len() - i,
        {
            proof {
                assert(self.render_times@.take(i + 1).drop_last() =~= self.render_times@.take(i as int));
                assert(self.render_times@[i as int].wf());
            }
            if i == 0 || best.shorter_than(&self.render_times[i]) {
                best = self.render_times[i];
            }
            i = i + 1;
        }
        proof {
            assert(self.render_times@.take(self.render_times@.len() as int) =~= self.render_times@);
        }
        best
    }

    /// The shortest sample, zero when there are none.
    pub fn min_render_time(&self) -> (r: TimeSpan)
        requires
            self.wf(),
        ensures
            r.wf(),
            total_nanos(r) == shortest(self.samples()),
    {
        let mut best = TimeSpan::zero();
        let mut i: usize = 0;
        while i < self.render_times.len()
            invariant
                self.wf(),
                0 <= i <= self.render_times@.len(),
                best.wf(),
                total_nanos(best) == shortest(self.render_times@.take(i as int)),
            decreases self.render_times.len() - i,
        {
            proof {
                assert(self.render_times@.take(i + 1).drop_last() =~= self.render_times@.take(i as int));
                assert(self.render_times@[i as int].wf());
            }
            if i == 0 || self.render_times[i].shorter_than(&best) {
                best = self.render_times[i];
            }
            i = i + 1;
        }
        proof {
            assert(self.render_times@.take(self.render_times@.len() as int) =~= self.render_times@);
        }
        best
    }
}

proof fn lemma_total_prefix(s: Seq<TimeSpan>, k: int)
    requires
        0 <= k <= s.len(),
    ensures
        total_of(s.take(k)) <= total_of(s),
        total_of(s.take(k)) >= 0,
    decreases s.len() - k,
{
    if k < s.len() {
        lemma_total_prefix(s, k + 1);
        assert(s.take(k + 1).drop_last() =~= s.take(k));
        assert(total_nanos(s[k]) >= 0);
    } else {
        assert(s.take(k) =~= s);
    }
    lemma_total_nonneg(s.take(k));
}

proof fn lemma_total_nonneg(s: Seq<TimeSpan>)
    ensures
        total_of(s) >= 0,
    decreases s.len(),
{
    if s.len() > 0 {
        lemma_total_nonneg(s.drop_last());
    }
}

} // verus!
