//! Phase accounting for one pipeline execution. Durations never overlap; everything outside a
//! named phase is reported as orchestration so the phase sum reconciles with the total.
use std::time::Duration;
use vstd::prelude::*;

verus! {

/// The largest whole-millisecond count of a `Duration`: at most `u64::MAX` seconds and less
/// than a second of nanoseconds.
pub const MAX_DURATION_MILLIS: u128 = 18446744073709551615999;

/// The whole milliseconds in a duration, as `Duration::as_millis` computes them.
pub uninterp spec fn duration_millis(d: Duration) -> u128;

/// `Duration::as_millis`: the whole milliseconds in a duration, a function of the duration
/// alone, which the contract names; the documented range is stated too.
#[verifier::external_body]
fn whole_millis(d: &Duration) -> (r: u128)
    ensures
        r == duration_millis(*d),
        r <= MAX_DURATION_MILLIS,
{
    d.as_millis()
}

/// `Duration::ZERO`, the empty duration.
#[verifier::external_body]
fn zero_duration() -> Duration {
    Duration::ZERO
}

/// The timings of one analysis, in whole milliseconds.
#[derive(Clone, Debug, Default, PartialEq, Eq)]
pub struct AnalysisTimings {
    pub discovery_ms: u128,
    pub classification_ms: u128,
    pub parsing_ms: u128,
    pub resolution_ms: u128,
    pub graph_build_ms: u128,
    pub rule_evaluation_ms: u128,
    pub cache_ms: u128,
    pub reporting_ms: u128,
    pub orchestration_ms: u128,
    pub total_ms: u128,
}

/// The sum of the named phases.
pub open spec fn named_sum(t: AnalysisTimings) -> int {
    t.discovery_ms + t.classification_ms + t.parsing_ms + t.resolution_ms + t.graph_build_ms
        + t.rule_evaluation_ms + t.cache_ms + t.reporting_ms
}

/// `a + b`, or the largest `u128` when that overflows.
pub open spec fn saturated(a: int, b: int) -> int {
    if a + b > u128::MAX {
        u128::MAX as int
    } else {
        a + b
    }
}

impl AnalysisTimings {
    /// Timings from the named phases and the total: orchestration is whatever the total holds
    /// beyond the named phases (none when they exceed it).
    pub fn from_phase_millis(
        discovery_ms: u128,
        classification_ms: u128,
        parsing_ms: u128,
        resolution_ms: u128,
        graph_build_ms: u128,
        rule_evaluation_ms: u128,
        cache_ms: u128,
        reporting_ms: u128,
        total_ms: u128,
    ) -> (r: Self)
        requires
            discovery_ms <= MAX_DURATION_MILLIS,
            classification_ms <= MAX_DURATION_MILLIS,
            parsing_ms <= MAX_DURATION_MILLIS,
            resolution_ms <= MAX_DURATION_MILLIS,
            graph_build_ms <= MAX_DURATION_MILLIS,
            rule_evaluation_ms <= MAX_DURATION_MILLIS,
            cache_ms <= MAX_DURATION_MILLIS,
            reporting_ms <= MAX_DURATION_MILLIS,
        ensures
            r.discovery_ms == discovery_ms,
            r.classification_ms == classification_ms,
            r.parsing_ms == parsing_ms,
            r.resolution_ms == resolution_ms,
            r.graph_build_ms == graph_build_ms,
            r.rule_evaluation_ms == rule_evaluation_ms,
            r.cache_ms == cache_ms,
            r.reporting_ms == reporting_ms,
            r.total_ms == total_ms,
            r.orchestration_ms == if total_ms >= named_sum(r) { total_ms - named_sum(r) } else { 0 },
            named_sum(r) <= total_ms ==> named_sum(r) + r.orchestration_ms == r.total_ms,
    {
        let named_ms = discovery_ms + classification_ms + parsing_ms + resolution_ms + graph_build_ms
            + rule_evaluation_ms + cache_ms + reporting_ms;
        AnalysisTimings {
            discovery_ms,
            classification_ms,
            parsing_ms,
            resolution_ms,
            graph_build_ms,
            rule_evaluation_ms,
            cache_ms,
            reporting_ms,
            orchestration_ms: total_ms.saturating_sub(named_ms),
            total_ms,
        }
    }

    /// Adds the reporting time that follows an analysis to the reporting phase and the total,
    /// both saturating.
    pub fn record_reporting(&mut self, elapsed: Duration)
        ensures
            exists|ms: int| 0 <= ms <= MAX_DURATION_MILLIS && final(self).reporting_ms == saturated(old(self).reporting_ms as int, ms)
                && final(self).total_ms == saturated(old(self).total_ms as int, ms),
            *final(self) == (AnalysisTimings { reporting_ms: final(self).reporting_ms, total_ms: final(self).total_ms, ..*old(self) }),
    {
        let elapsed_ms = whole_millis(&elapsed);
        let ghost r0 = self.reporting_ms as int;
        let ghost t0 = self.total_ms as int;
        self.reporting_ms = self.reporting_ms.saturating_add(elapsed_ms);
        self.total_ms = self.total_ms.saturating_add(elapsed_ms);
        proof {
            assert(self.reporting_ms == saturated(r0, elapsed_ms as int));
            assert(self.total_ms == saturated(t0, elapsed_ms as int));
        }
    }
}

/// The time spent in each named phase of one pipeline execution.
pub struct PipelineTelemetry {
    pub discovery: Duration,
    pub classification: Duration,
    pub parsing: Duration,
    pub resolution: Duration,
    pub graph_build: Duration,
    pub rule_evaluation: Duration,
    pub cache: Duration,
    pub reporting: Duration,
}

impl Default for PipelineTelemetry {
    fn default() -> Self {
        PipelineTelemetry {
            discovery: zero_duration(),
            classification: zero_duration(),
            parsing: zero_duration(),
            resolution: zero_duration(),
            graph_build: zero_duration(),
            rule_evaluation: zero_duration(),
            cache: zero_duration(),
            reporting: zero_duration(),
        }
    }
}

impl PipelineTelemetry {
    /// The timings in whole milliseconds, with orchestration taking up the rest of `total`, so
    /// the named phases and orchestration add up to the total whenever the phases fit in it.
    pub fn finish(self, total: Duration) -> (r: AnalysisTimings)
        ensures
            r.discovery_ms == duration_millis(self.discovery),
            r.classification_ms == duration_millis(self.classification),
            r.parsing_ms == duration_millis(self.parsing),
            r.resolution_ms == duration_millis(self.resolution),
            r.graph_build_ms == duration_millis(self.graph_build),
            r.rule_evaluation_ms == duration_millis(self.rule_evaluation),
            r.cache_ms == duration_millis(self.cache),
            r.reporting_ms == duration_millis(self.reporting),
            r.total_ms == duration_millis(total),
            r.orchestration_ms == if r.total_ms >= named_sum(r) { r.total_ms - named_sum(r) } else { 0 },
            named_sum(r) <= r.total_ms ==> named_sum(r) + r.orchestration_ms == r.total_ms,
    {
        AnalysisTimings::from_phase_millis(
            whole_millis(&self.discovery),
            whole_millis(&self.classification),
            whole_millis(&self.parsing),
            whole_millis(&self.resolution),
            whole_millis(&self.graph_build),
            whole_millis(&self.rule_evaluation),
            whole_millis(&self.cache),
            whole_millis(&self.reporting),
            whole_millis(&total),
        )
    }
}

} // verus!
