use vstd::prelude::*;
use crate::clock::now_millis;
use crate::text::{decimal, decimal_string, join2};

verus! {

/// Outcome of a health check.
#[derive(Debug)]
pub struct ServiceHealth {
    pub is_healthy: bool,
    pub status: String,
    /// When the check ran, in milliseconds since the Unix epoch.
    pub last_check: u64,
    pub response_time_ms: u64,
    pub memory_usage_bytes: u64,
    pub error_count: u64,
    pub warning_count: u64,
}

/// Healthy while there are fewer than ten errors and fewer than fifty warnings.
pub open spec fn healthy(errors: u64, warnings: u64) -> bool {
    errors < 10 && warnings < 50
}

/// The status text: healthy, else the error count when there are errors, else the
/// warning count.
pub open spec fn status_text(errors: u64, warnings: u64) -> Seq<char> {
    if healthy(errors, warnings) {
        "健康"@
    } else if errors > 0 {
        "错误: "@ + decimal(errors as nat)
    } else {
        "警告: "@ + decimal(warnings as nat)
    }
}

impl ServiceHealth {
    /// A healthy report checked at `now`, with everything else zero.
    pub fn healthy_at(now: u64) -> (r: Self)
        ensures
            r.is_healthy,
            r.status@ == "健康"@,
            r.last_check == now,
            r.response_time_ms == 0,
            r.memory_usage_bytes == 0,
            r.error_count == 0,
            r.warning_count == 0,
    {
        ServiceHealth {
            is_healthy: true,
            status: String::from_str("健康"),
            last_check: now,
            response_time_ms: 0,
            memory_usage_bytes: 0,
            error_count: 0,
            warning_count: 0,
        }
    }
}

/// Something that reports the health of a service, implemented by the services.
pub trait HealthChecker {
    /// A health report now.
    fn check_health(&self) -> (r: ServiceHealth);

    /// Time between checks, in milliseconds: one minute unless the checker says otherwise.
    fn check_interval(&self) -> (r: u64)
        default_ensures
            r == 60_000,
    {
        60_000
    }
}

/// Health of a service judged from its error and warning counts.
pub struct BasicHealthChecker {
    start_time: u64,
    last_activity: u64,
    error_count: u64,
    warning_count: u64,
}

impl BasicHealthChecker {
    /// When the checker was made, in milliseconds since the Unix epoch.
    pub closed spec fn started(&self) -> u64 {
        self.start_time
    }

    /// When activity was last recorded.
    pub closed spec fn active(&self) -> u64 {
        self.last_activity
    }

    /// Errors counted.
    pub closed spec fn errors(&self) -> u64 {
        self.error_count
    }

    /// Warnings counted.
    pub closed spec fn warnings(&self) -> u64 {
        self.warning_count
    }

    /// A checker started now, with no errors or warnings.
    pub fn new() -> (r: Self)
        ensures
            r.errors() == 0,
            r.warnings() == 0,
            r.active() == r.started(),
    {
        let now = now_millis();
        BasicHealthChecker { start_time: now, last_activity: now, error_count: 0, warning_count: 0 }
    }

    /// Notes activity now.
    pub fn record_activity(&mut self)
        ensures
            call_effect(*old(self), *final(self), HealthCall::RecordActivity),
            final(self).errors() == old(self).errors(),
            final(self).warnings() == old(self).warnings(),
            final(self).started() == old(self).started(),
    {
        self.last_activity = now_millis();
    }

    /// Counts one more error, wrapping around at the top of `u64` as an atomic add does.
    pub fn increment_error(&mut self)
        ensures
            call_effect(*old(self), *final(self), HealthCall::IncrementError),
            final(self).errors() == (if old(self).errors() == u64::MAX { 0 } else { (old(self).errors() + 1) as u64 }),
            final(self).warnings() == old(self).warnings(),
            final(self).active() == old(self).active(),
            final(self).started() == old(self).started(),
    {
        self.error_count = self.error_count.wrapping_add(1);
    }

    /// Counts one more warning, wrapping around at the top of `u64` as an atomic add does.
    pub fn increment_warning(&mut self)
        ensures
            call_effect(*old(self), *final(self), HealthCall::IncrementWarning),
            final(self).warnings() == (if old(self).warnings() == u64::MAX { 0 } else { (old(self).warnings() + 1) as u64 }),
            final(self).errors() == old(self).errors(),
            final(self).active() == old(self).active(),
            final(self).started() == old(self).started(),
    {
        self.warning_count = self.warning_count.wrapping_add(1);
    }

    /// A health report at time `now`, judged from the counts.
    pub fn check_health_at(&self, now: u64) -> (r: ServiceHealth)
        ensures
            r.is_healthy == healthy(self.errors(), self.warnings()),
            r.status@ == status_text(self.errors(), self.warnings()),
            r.last_check == now,
            r.error_count == self.errors(),
            r.warning_count == self.warnings(),
            r.response_time_ms == 1,
            r.memory_usage_bytes == 0,
    {
        let error_count = self.error_count;
        let warning_count = self.warning_count;
        let is_healthy = error_count < 10 && warning_count < 50;
        let status = if is_healthy {
            String::from_str("健康")
        } else if error_count > 0 {
            let n = decimal_string(error_count);
            join2("错误: ", n.as_str())
        } else {
            let n = decimal_string(warning_count);
            join2("警告: ", n.as_str())
        };
        ServiceHealth {
            is_healthy,
            status,
            last_check: now,
            response_time_ms: 1,
            memory_usage_bytes: 0,
            error_count,
            warning_count,
        }
    }
}

/// A call that changes a basic health checker.
#[derive(Debug, Clone, Copy, PartialEq, Eq, Structural)]
pub enum HealthCall {
    IncrementError,
    IncrementWarning,
    RecordActivity,
}

/// `after` is what `call` makes of checker `before`, as the methods state it.
pub open spec fn call_effect(before: BasicHealthChecker, after: BasicHealthChecker, call: HealthCall) -> bool {
    match call {
        HealthCall::IncrementError => {
            &&& after.errors() == (if before.errors() == u64::MAX { 0 } else { (before.errors() + 1) as u64 })
            &&& after.warnings() == before.warnings()
        },
        HealthCall::IncrementWarning => {
            &&& after.warnings() == (if before.warnings() == u64::MAX { 0 } else { (before.warnings() + 1) as u64 })
            &&& after.errors() == before.errors()
        },
        HealthCall::RecordActivity => {
            &&& after.errors() == before.errors()
            &&& after.warnings() == before.warnings()
        },
    }
}

/// How many of `calls` are `c`.
pub open spec fn calls_of(calls: Seq<HealthCall>, c: HealthCall) -> nat
    decreases calls.len(),
{
    if calls.len() == 0 {
        0
    } else {
        calls_of(calls.drop_last(), c) + if calls.last() == c { 1nat } else { 0nat }
    }
}

/// A new checker that goes through `calls`, in any order, passing through `states`,
/// counts exactly the errors and the warnings that were counted (as long as neither
/// count passes the top of `u64`), so its report is healthy exactly when fewer than
/// ten errors and fifty warnings were counted.
pub proof fn lemma_counts_follow_calls(states: Seq<BasicHealthChecker>, calls: Seq<HealthCall>)
    requires
        states.len() == calls.len() + 1,
        states[0].errors() == 0,
        states[0].warnings() == 0,
        forall|i: int| 0 <= i < calls.len() ==> #[trigger] call_effect(states[i], states[i + 1], calls[i]),
        calls_of(calls, HealthCall::IncrementError) <= u64::MAX,
        calls_of(calls, HealthCall::IncrementWarning) <= u64::MAX,
    ensures
        states.last().errors() == calls_of(calls, HealthCall::IncrementError),
        states.last().warnings() == calls_of(calls, HealthCall::IncrementWarning),
        healthy(states.last().errors(), states.last().warnings()) <==>
            calls_of(calls, HealthCall::IncrementError) < 10 && calls_of(calls, HealthCall::IncrementWarning) < 50,
    decreases calls.len(),
{
    if calls.len() > 0 {
        let n = calls.len() - 1;
        let init = calls.drop_last();
        assert forall|i: int| 0 <= i < init.len() implies #[trigger] call_effect(states.drop_last()[i], states.drop_last()[i + 1], init[i]) by {
            assert(call_effect(states[i], states[i + 1], calls[i]));
        };
        lemma_calls_of_prefix(calls);
        lemma_counts_follow_calls(states.drop_last(), init);
        assert(call_effect(states[n], states[n + 1], calls[n]));
    }
}

proof fn lemma_calls_of_prefix(calls: Seq<HealthCall>)
    requires
        calls.len() > 0,
    ensures
        calls_of(calls.drop_last(), HealthCall::IncrementError) <= calls_of(calls, HealthCall::IncrementError),
        calls_of(calls.drop_last(), HealthCall::IncrementWarning) <= calls_of(calls, HealthCall::IncrementWarning),
{
}

impl HealthChecker for BasicHealthChecker {
    /// A health report now; see `check_health_at`.
    fn check_health(&self) -> (r: ServiceHealth)
        ensures
            r.is_healthy == healthy(self.errors(), self.warnings()),
            r.status@ == status_text(self.errors(), self.warnings()),
            r.error_count == self.errors(),
            r.warning_count == self.warnings(),
            r.response_time_ms == 1,
            r.memory_usage_bytes == 0,
    {
        let now = now_millis();
        self.check_health_at(now)
    }
}

} // verus!
