//! What `check` answers once the analysis is known: the changed-module regression, the human
//! regression line, and the exit code.
use crate::baseline::{live_failing_count, BaselineMatcher};
use crate::cli::{CliOutput, EXIT_INTERNAL, EXIT_PASSED, EXIT_PROJECT, EXIT_VIOLATIONS};
use crate::decimal::{decimal, decimal_text};
use crate::diagnostic::Diagnostic;
use crate::engine::{failure_count, FailurePolicy};
use crate::regression::{existing_of, regression, reported_of, RegressionSummary};
use crate::text::concat;
use crate::text_set::TextSet;
use vstd::prelude::*;

verus! {

/// The findings and summary of a changed-module check.
pub open spec fn regression_result(
    r: (Vec<Diagnostic>, RegressionSummary),
    diagnostics: Seq<Diagnostic>,
    affected: TextSet,
    signatures: BaselineMatcher,
) -> bool {
    &&& r.0@ == reported_of(diagnostics, affected.members(), signatures)
    &&& r.1 == (RegressionSummary {
        affected_modules: affected.members().len() as usize,
        existing: existing_of(diagnostics, affected.members(), signatures) as usize,
        introduced: failure_count(r.0@) as usize,
        fixed: if signatures.accepted().len() >= live_failing_count(signatures.accepted(), diagnostics) {
            (signatures.accepted().len() - live_failing_count(signatures.accepted(), diagnostics)) as usize
        } else {
            0
        },
    })
}

/// The message for a baseline that is not there: changed mode asks for one and never writes it.
pub fn missing_baseline_message(path: &str) -> (r: String)
    ensures
        r@ == "baseline is missing at "@ + path@ + "; run `wae baseline create` explicitly"@,
{
    let head = concat("baseline is missing at ", path);
    concat(head.as_str(), "; run `wae baseline create` explicitly")
}

/// The changed-module step of `check`: a baseline that could not be loaded (a missing one too)
/// or affected modules that could not be found end the check with a project error, the baseline
/// first; nothing is created. Otherwise the regression of the diagnostics against the baseline.
pub fn changed_check(
    diagnostics: Vec<Diagnostic>,
    baseline: Result<BaselineMatcher, String>,
    affected: Result<TextSet, String>,
) -> (r: Result<(Vec<Diagnostic>, RegressionSummary), CliOutput>)
    ensures
        match (baseline, affected) {
            (Err(e), _) => r matches Err(o) && o.exit_code == EXIT_PROJECT && o.stderr@ == e@ && o.stdout@.len() == 0,
            (Ok(_), Err(e)) => r matches Err(o) && o.exit_code == EXIT_PROJECT && o.stderr@ == e@ && o.stdout@.len() == 0,
            (Ok(m), Ok(a)) => r matches Ok(v) && regression_result(v, diagnostics@, a, m),
        },
{
    let signatures = match baseline {
        Ok(m) => m,
        Err(e) => {
            return Err(CliOutput::project_error(e));
        },
    };
    let affected = match affected {
        Ok(a) => a,
        Err(e) => {
            return Err(CliOutput::project_error(e));
        },
    };
    Ok(regression(diagnostics, &affected, &signatures))
}

/// The regression line of a human report: counts of affected modules and of existing,
/// introduced and fixed findings, then a blank line and the report.
pub open spec fn human_regression(s: RegressionSummary, report: Seq<char>) -> Seq<char> {
    "Regression: "@ + decimal_text(s.affected_modules as nat) + " affected, "@ + decimal_text(s.existing as nat)
        + " existing, "@ + decimal_text(s.introduced as nat) + " introduced, "@ + decimal_text(s.fixed as nat)
        + " fixed\n\n"@ + report
}

/// The human report with the regression line in front.
pub fn attach_human_regression(summary: &RegressionSummary, report: &str) -> (r: String)
    ensures
        r@ == human_regression(*summary, report@),
{
    let a = decimal(summary.affected_modules as u64);
    let e = decimal(summary.existing as u64);
    let i = decimal(summary.introduced as u64);
    let f = decimal(summary.fixed as u64);
    let s = concat("Regression: ", a.as_str());
    let s = concat(s.as_str(), " affected, ");
    let s = concat(s.as_str(), e.as_str());
    let s = concat(s.as_str(), " existing, ");
    let s = concat(s.as_str(), i.as_str());
    let s = concat(s.as_str(), " introduced, ");
    let s = concat(s.as_str(), f.as_str());
    let s = concat(s.as_str(), " fixed\n\n");
    concat(s.as_str(), report)
}

/// The answer of `check`: the rendered report, exiting with violations when some reported
/// diagnostic fails and with success otherwise; an internal error when rendering failed.
pub fn check_outcome(diagnostics: &[Diagnostic], rendered: Result<String, String>) -> (r: CliOutput)
    ensures
        match rendered {
            Ok(out) => r.stdout@ == out@ && r.stderr@.len() == 0 && r.exit_code == (if failure_count(diagnostics@) > 0 {
                EXIT_VIOLATIONS
            } else {
                EXIT_PASSED
            }),
            Err(e) => r.exit_code == EXIT_INTERNAL && r.stderr@ == e@ && r.stdout@.len() == 0,
        },
{
    let has_failures = FailurePolicy::count(diagnostics) > 0;
    match rendered {
        Ok(out) => if has_failures {
            CliOutput::violations(out)
        } else {
            CliOutput::success(out)
        },
        Err(e) => CliOutput::internal_error(e),
    }
}

} // verus!
