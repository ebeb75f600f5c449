//! Command-line outcomes: exit codes, captured output, and the commands that compute their
//! answer without touching the project.
use crate::command::Command;
use crate::decimal::{decimal, decimal_text};
use crate::engine::{AnalysisError, ConfigValidation, LayerOverlap};
use crate::text::append;
use crate::text_set::{ascending, join_texts, joined, texts_of, TextSet};
use crate::rule_registry::{descriptor, descriptor_view, rule_table};
use crate::text::{concat, owned};
use vstd::prelude::*;

verus! {

pub const EXIT_PASSED: i32 = 0;
pub const EXIT_VIOLATIONS: i32 = 1;
pub const EXIT_PROJECT: i32 = 2;
pub const EXIT_INTERNAL: i32 = 3;
pub const EXIT_CANCELLED: i32 = 130;

/// The help text: the commands, their options and the exit codes.
pub const USAGE: &'static str = "Usage: wae <COMMAND>\n\nCommands:\n  init [--preset blank|fsd|next|nx]\n                               Create a safe, explicit wae.yaml\n  discover [--json] [--write] [--force]\n                               Infer an evidence-backed architecture proposal\n  scan                         Analyze and report module/dependency counts\n  check [--changed] [--base REF] [--format human|json|jsonl|sarif]\n        [--config PATH] [--no-cache] [--verbose]\n        [--fail-on error|warning] [--max-warnings N]\n  resolve <IMPORTER> <SPECIFIER> [--kind static|dynamic|require|type|re-export]\n                               Trace every resolver handler and active condition\n  baseline create|list|prune   Create, inspect, or remove stale baseline entries\n  config validate [--show-overlaps] [--show-coverage] [--show-unassigned]\n                               Validate config, ownership and coverage\n  graph                        Print the real dependency graph as JSON\n  explore [--output PATH]      Build a self-contained interactive architecture explorer\n  doctor                       Validate project/config/tooling with actionable errors\n  explain <RULE_ID>            Explain an architecture rule\n\nOptions:\n  -V, --version                Print the installed WAE version\n  -h, --help                   Print help\n\nExit codes: 0 passed, 1 violations, 2 config/project error, 3 internal error, 130 cancelled";

/// What `--version` prints.
pub const VERSION_LINE: &'static str = "wae 0.0.26";

/// What a command prints and the process exit code it ends with.
#[derive(Clone, Debug, PartialEq, Eq)]
pub struct CliOutput {
    pub exit_code: i32,
    pub stdout: String,
    pub stderr: String,
}

impl CliOutput {
    pub fn success(stdout: String) -> (r: Self)
        ensures
            r.exit_code == EXIT_PASSED,
            r.stdout@ == stdout@,
            r.stderr@.len() == 0,
    {
        CliOutput { exit_code: EXIT_PASSED, stdout, stderr: String::new() }
    }

    pub fn violations(stdout: String) -> (r: Self)
        ensures
            r.exit_code == EXIT_VIOLATIONS,
            r.stdout@ == stdout@,
            r.stderr@.len() == 0,
    {
        CliOutput { exit_code: EXIT_VIOLATIONS, stdout, stderr: String::new() }
    }

    pub fn project_error(stderr: String) -> (r: Self)
        ensures
            r.exit_code == EXIT_PROJECT,
            r.stdout@.len() == 0,
            r.stderr@ == stderr@,
    {
        CliOutput { exit_code: EXIT_PROJECT, stdout: String::new(), stderr }
    }

    pub fn internal_error(stderr: String) -> (r: Self)
        ensures
            r.exit_code == EXIT_INTERNAL,
            r.stdout@.len() == 0,
            r.stderr@ == stderr@,
    {
        CliOutput { exit_code: EXIT_INTERNAL, stdout: String::new(), stderr }
    }

    pub fn cancelled() -> (r: Self)
        ensures
            r.exit_code == EXIT_CANCELLED,
            r.stdout@.len() == 0,
            r.stderr@ == "analysis cancelled"@,
    {
        CliOutput { exit_code: EXIT_CANCELLED, stdout: String::new(), stderr: owned("analysis cancelled") }
    }
}

/// `r` explains rule `rule`: its id, then its title and description, when the id is known; a
/// project error naming it otherwise.
pub open spec fn explained(rule: Seq<char>, r: CliOutput) -> bool {
    &&& (exists|i: int| 0 <= i < rule_table().len() && rule_table()[i].0 == rule) ==> {
        let i = choose|i: int|
            0 <= i < rule_table().len() && rule_table()[i].0 == rule && forall|j: int|
                0 <= j < i ==> rule_table()[j].0 != rule;
        let d = rule_table()[i];
        r.exit_code == EXIT_PASSED && r.stdout@ == d.0 + "\n"@ + d.1 + ": "@ + d.2 && r.stderr@.len() == 0
    }
    &&& !(exists|i: int| 0 <= i < rule_table().len() && rule_table()[i].0 == rule) ==> r.exit_code
        == EXIT_PROJECT && r.stderr@ == "Unknown rule id: "@ + rule && r.stdout@.len() == 0
}

/// The explanation of rule `rule`: its id, then its title and description; an unknown id is a
/// project error.
pub fn explain(rule: &str) -> (r: CliOutput)
    ensures
        explained(rule@, r),
{
    match descriptor(rule) {
        Some(d) => {
            let head = concat(d.id, "\n");
            let head = concat(head.as_str(), d.title);
            let head = concat(head.as_str(), ": ");
            let text = concat(head.as_str(), d.description);
            proof {
                let i = choose|i: int|
                    0 <= i < rule_table().len() && rule_table()[i] == descriptor_view(d) && rule_table()[i].0 == rule@
                        && forall|j: int| 0 <= j < i ==> rule_table()[j].0 != rule@;
                let c = choose|c: int|
                    0 <= c < rule_table().len() && rule_table()[c].0 == rule@ && forall|j: int|
                        0 <= j < c ==> rule_table()[j].0 != rule@;
                assert(c == i) by {
                    if c < i {
                        assert(rule_table()[c].0 != rule@);
                    }
                    if i < c {
                        assert(rule_table()[i].0 != rule@);
                    }
                }
            }
            CliOutput::success(text)
        },
        None => CliOutput::project_error(concat("Unknown rule id: ", rule)),
    }
}

/// What arguments that name no command answer: the reason, then the help text.
pub fn usage_error(error: &str) -> (r: CliOutput)
    ensures
        r.exit_code == EXIT_PROJECT,
        r.stdout@.len() == 0,
        r.stderr@ == error@ + "\n\n"@ + USAGE@,
{
    let head = concat(error, "\n\n");
    CliOutput::project_error(concat(head.as_str(), USAGE))
}

/// The answer of a command that needs no project: the version, the help text, or a rule's
/// explanation; `None` for every other command.
pub fn answer_without_project(command: &Command) -> (r: Option<CliOutput>)
    ensures
        match command {
            Command::Version => r is Some && r->0.exit_code == EXIT_PASSED && r->0.stdout@ == VERSION_LINE@
                && r->0.stderr@.len() == 0,
            Command::Help => r is Some && r->0.exit_code == EXIT_PASSED && r->0.stdout@ == USAGE@
                && r->0.stderr@.len() == 0,
            Command::Explain(rule) => r is Some && explained(rule@, r->0),
            _ => r is None,
        },
{
    match command {
        Command::Version => Some(CliOutput::success(owned(VERSION_LINE))),
        Command::Help => Some(CliOutput::success(owned(USAGE))),
        Command::Explain(rule) => Some(explain(rule.as_str())),
        _ => None,
    }
}

/// How a configuration error reads: where, when known, and what.
pub open spec fn config_error_text(path: Option<String>, message: Seq<char>) -> Seq<char> {
    match path {
        Some(p) => "Configuration error at "@ + p@ + ": "@ + message,
        None => "Configuration error: "@ + message,
    }
}

/// How an analysis error reads, with the fixes suggested for overlapping layers.
pub open spec fn analysis_error_text(e: AnalysisError) -> Seq<char> {
    match e {
        AnalysisError::Config(c) => config_error_text(c.path, c.message@) + if c.path == Some(
            c.path->0,
        ) && c.path->0@ == "architecture.layers"@ {
            LAYER_FIXES@
        } else {
            Seq::empty()
        },
        AnalysisError::Project(m) => "Project error: "@ + m@,
        AnalysisError::Internal(m) => "Internal error: "@ + m@,
        AnalysisError::Cancelled => "Analysis cancelled"@,
    }
}

/// The fixes suggested when layers overlap.
pub const LAYER_FIXES: &'static str = "\n\n  Suggested fixes:\n  - Anchor layer patterns to project roots such as `src/shared/**`\n  - Add an exclude to the broader layer\n  - Run: wae config validate --show-overlaps";

/// The text of an analysis error, followed by suggested fixes where there are any.
pub fn analysis_error_report(error: &AnalysisError) -> (r: String)
    ensures
        r@ == analysis_error_text(*error),
{
    match error {
        AnalysisError::Config(c) => {
            let mut out = match &c.path {
                Some(p) => {
                    let mut t = concat("Configuration error at ", p.as_str());
                    append(&mut t, ": ");
                    t
                },
                None => owned("Configuration error: "),
            };
            append(&mut out, c.message.as_str());
            let layers = match &c.path {
                Some(p) => crate::text::text_equal(p.as_str(), "architecture.layers"),
                None => false,
            };
            if layers {
                append(&mut out, LAYER_FIXES);
            } else {
                assert(out@ + Seq::<char>::empty() =~= out@);
            }
            out
        },
        AnalysisError::Project(m) => concat("Project error: ", m.as_str()),
        AnalysisError::Internal(m) => concat("Internal error: ", m.as_str()),
        AnalysisError::Cancelled => owned("Analysis cancelled"),
    }
}

/// The line that lists a module and the layers that claim it.
pub open spec fn overlap_line(o: LayerOverlap) -> Seq<char> {
    "  "@ + o.module@ + ": "@ + joined(texts_of(o.layers@), ", "@)
}

/// A layer name occurs among the layers of the overlaps.
pub open spec fn layer_named_in(overlaps: Seq<LayerOverlap>, x: Seq<char>) -> bool {
    exists|k: int, j: int| 0 <= k < overlaps.len() && 0 <= j < overlaps[k].layers@.len() && #[trigger] overlaps[k].layers@[j]@ == x
}

/// The fix suggested for a layer.
pub open spec fn anchor_line(layer: Seq<char>) -> Seq<char> {
    "- Anchor `"@ + layer + "` to `src/"@ + layer + "/**`"@
}

/// The report of overlapping layers: how many modules overlap, the overlaps shown (all of them,
/// or the first), a hint to show them all, and one fix per layer shown, in ascending order.
pub open spec fn overlap_report(v: ConfigValidation, show_overlaps: bool, layers: Seq<Seq<char>>) -> Seq<Seq<char>> {
    let all = v.layer_overlaps@;
    let shown = if show_overlaps {
        all
    } else {
        all.take(1)
    };
    seq!["✖ "@ + decimal_text(all.len()) + " module(s) match multiple architecture layers:"@]
        + shown.map_values(|o: LayerOverlap| overlap_line(o)) + if !show_overlaps && all.len() > 1 {
        seq!["  Run: wae config validate --show-overlaps"@]
    } else {
        Seq::empty()
    } + seq!["\nSuggested fixes:"@] + layers.map_values(|l: Seq<char>| anchor_line(l)) + seq![
        "- Add an explicit exclude to the broader layer"@,
    ]
}

/// The coverage falls below the configured minimum.
pub open spec fn below_minimum(v: ConfigValidation) -> bool {
    match v.minimum_coverage {
        Some(m) => v.coverage_percent < m,
        None => false,
    }
}

/// The report of a configuration without overlapping layers.
pub open spec fn coverage_report(v: ConfigValidation, show_coverage: bool, show_unassigned: bool) -> Seq<Seq<char>> {
    let below = below_minimum(v);
    let unassigned = texts_of(v.unassigned_modules@);
    seq![
        (if below {
            "✖"@
        } else {
            "✓"@
        }) + " configuration valid: "@ + decimal_text(v.source_modules as nat)
            + " source modules, no layer overlaps"@,
    ] + (if v.blank_architecture && v.source_modules > 0 {
        seq!["⚠ no architecture layers are configured; checks cannot enforce layer ownership"@]
    } else {
        Seq::empty()
    }) + (if show_coverage || below {
        seq![
            "Coverage: "@ + decimal_text(v.coverage_percent as nat) + "% ("@ + decimal_text(
                v.assigned_modules as nat,
            ) + " assigned, "@ + decimal_text(unassigned.len()) + " unassigned, "@ + decimal_text(
                v.exempted_modules as nat,
            ) + " exempt)"@,
        ] + match v.minimum_coverage {
            Some(m) => seq!["Required minimum: "@ + decimal_text(m as nat) + "%"@],
            None => Seq::empty(),
        }
    } else {
        Seq::empty()
    }) + (if show_unassigned {
        if unassigned.len() == 0 {
            seq!["Unassigned modules: none"@]
        } else {
            seq!["Unassigned modules:"@] + unassigned.map_values(|m: Seq<char>| "  "@ + m)
        }
    } else {
        Seq::empty()
    }) + if below {
        seq![
            "Assign modules to layers or explicitly exempt support paths in `architecture.coverage.allow_unassigned`."@,
        ]
    } else {
        Seq::empty()
    }
}

fn push_line(lines: &mut Vec<String>, line: String)
    ensures
        texts_of(final(lines)@) == texts_of(old(lines)@).push(line@),
{
    lines.push(line);
    assert(texts_of(lines@) =~= texts_of(old(lines)@).push(line@));
}

#[verifier::rlimit(50)]
fn overlap_output(validation: &ConfigValidation, show_overlaps: bool) -> (r: CliOutput)
    requires
        validation.layer_overlaps@.len() > 0,
    ensures
        ({
            let shown = if show_overlaps {
                validation.layer_overlaps@
            } else {
                validation.layer_overlaps@.take(1)
            };
            exists|layers: Seq<Seq<char>>|
                {
                    &&& ascending(layers)
                    &&& forall|x: Seq<char>| #[trigger] layers.contains(x) <==> layer_named_in(shown, x)
                    &&& r.exit_code == EXIT_PROJECT
                    &&& r.stdout@.len() == 0
                    &&& r.stderr@ == joined(overlap_report(*validation, show_overlaps, layers), "\n"@)
                }
        }),
{
    let mut lines: Vec<String> = Vec::new();
    let n = validation.layer_overlaps.len();
    let mut head = concat("✖ ", decimal(n as u64).as_str());
    append(&mut head, " module(s) match multiple architecture layers:");
    push_line(&mut lines, head);
    let shown: usize = if show_overlaps {
        n
    } else {
        1
    };
    let ghost all = validation.layer_overlaps@;
    let ghost shown_seq = all.take(shown as int);
    let mut names = TextSet::new();
    let mut i: usize = 0;
    while i < shown
        invariant
            shown <= n == all.len(),
            all == validation.layer_overlaps@,
            shown_seq == all.take(shown as int),
            i <= shown,
            texts_of(lines@) == seq!["✖ "@ + decimal_text(all.len()) + " module(s) match multiple architecture layers:"@]
                + shown_seq.take(i as int).map_values(|o: LayerOverlap| overlap_line(o)),
            forall|x: Seq<char>| #[trigger] names.members().contains(x) <==> layer_named_in(shown_seq.take(i as int), x),
        decreases shown - i,
    {
        let o = &validation.layer_overlaps[i];
        let mut line = concat("  ", o.module.as_str());
        append(&mut line, ": ");
        let layer_text = join_texts(o.layers.as_slice(), ", ");
        append(&mut line, layer_text.as_str());
        push_line(&mut lines, line);
        let ghost before = names.members();
        let mut j: usize = 0;
        while j < o.layers.len()
            invariant
                i < shown <= all.len(),
                *o == all[i as int],
                shown_seq == all.take(shown as int),
                j <= o.layers@.len(),
                forall|x: Seq<char>| #[trigger] names.members().contains(x) <==> (before.contains(x) || exists|t: int| 0 <= t < j && o.layers@[t]@ == x),
            decreases o.layers@.len() - j,
        {
            names.insert(o.layers[j].clone());
            proof {
                assert forall|x: Seq<char>| #[trigger] names.members().contains(x) <==> (before.contains(x) || exists|t: int| 0 <= t < j + 1 && o.layers@[t]@ == x) by {
                    if x == o.layers@[j as int]@ {
                        assert(exists|t: int| 0 <= t < j + 1 && o.layers@[t]@ == x);
                    }
                    if exists|t: int| 0 <= t < j + 1 && o.layers@[t]@ == x {
                        let t = choose|t: int| 0 <= t < j + 1 && o.layers@[t]@ == x;
                        if t < j {
                            assert(exists|t: int| 0 <= t < j && o.layers@[t]@ == x);
                        }
                    }
                }
            }
            j = j + 1;
        }
        proof {
            let p = shown_seq.take(i + 1);
            assert(shown_seq.take(i + 1).map_values(|o: LayerOverlap| overlap_line(o)) =~= shown_seq.take(i as int).map_values(
                |o: LayerOverlap| overlap_line(o),
            ).push(overlap_line(all[i as int])));
            assert forall|x: Seq<char>| #[trigger] names.members().contains(x) <==> layer_named_in(p, x) by {
                if layer_named_in(p, x) {
                    let (k, t) = choose|k: int, t: int| 0 <= k < p.len() && 0 <= t < p[k].layers@.len() && #[trigger] p[k].layers@[t]@ == x;
                    if k < i {
                        assert(shown_seq.take(i as int)[k].layers@[t]@ == x);
                    } else {
                        assert(exists|t: int| 0 <= t < j && o.layers@[t]@ == x);
                    }
                }
                if before.contains(x) {
                    let q = shown_seq.take(i as int);
                    let (k, t) = choose|k: int, t: int| 0 <= k < q.len() && 0 <= t < q[k].layers@.len() && #[trigger] q[k].layers@[t]@ == x;
                    assert(p[k].layers@[t]@ == x);
                }
                if exists|t: int| 0 <= t < j && o.layers@[t]@ == x {
                    let t = choose|t: int| 0 <= t < j && o.layers@[t]@ == x;
                    assert(p[i as int].layers@[t]@ == x);
                }
            }
        }
        i = i + 1;
    }
    assert(shown_seq.take(i as int) =~= shown_seq);
    if !show_overlaps && n > 1 {
        push_line(&mut lines, owned("  Run: wae config validate --show-overlaps"));
    }
    push_line(&mut lines, owned("\nSuggested fixes:"));
    let sorted = names.iter();
    let ghost layers = texts_of(sorted@);
    let ghost prefix = texts_of(lines@);
    let mut k: usize = 0;
    while k < sorted.len()
        invariant
            k <= sorted@.len(),
            layers == texts_of(sorted@),
            texts_of(lines@) == prefix + layers.take(k as int).map_values(|l: Seq<char>| anchor_line(l)),
        decreases sorted@.len() - k,
    {
        let name = sorted[k].as_str();
        let mut line = concat("- Anchor `", name);
        append(&mut line, "` to `src/");
        append(&mut line, name);
        append(&mut line, "/**`");
        push_line(&mut lines, line);
        proof {
            assert(layers.take(k + 1).map_values(|l: Seq<char>| anchor_line(l)) =~= layers.take(k as int).map_values(
                |l: Seq<char>| anchor_line(l),
            ).push(anchor_line(layers[k as int])));
        }
        k = k + 1;
    }
    push_line(&mut lines, owned("- Add an explicit exclude to the broader layer"));
    proof {
        assert(layers.take(k as int) =~= layers);
        assert(texts_of(lines@) =~= overlap_report(*validation, show_overlaps, layers));
        assert forall|x: Seq<char>| #[trigger] layers.contains(x) <==> layer_named_in(shown_seq, x) by {
            if layers.contains(x) {
                assert(names.members().contains(x));
            }
            if layer_named_in(shown_seq, x) {
                assert(names.members().contains(x));
                let t = choose|t: int| 0 <= t < names.members().len() && names.members()[t] == x;
                assert(layers[t] == x);
            }
        }
    }
    let text = join_texts(lines.as_slice(), "\n");
    let out = CliOutput::project_error(text);
    proof {
        if show_overlaps {
            assert(all.take(n as int) =~= all);
        }
        assert({
            &&& ascending(layers)
            &&& forall|x: Seq<char>| #[trigger] layers.contains(x) <==> layer_named_in(shown_seq, x)
            &&& out.exit_code == EXIT_PROJECT
            &&& out.stdout@.len() == 0
            &&& out.stderr@ == joined(overlap_report(*validation, show_overlaps, layers), "\n"@)
        });
    }
    out
}

#[verifier::rlimit(50)]
fn coverage_output(validation: &ConfigValidation, show_coverage: bool, show_unassigned: bool) -> (r: CliOutput)
    requires
        validation.layer_overlaps@.len() == 0,
    ensures
        ({
            &&& r.exit_code == if below_minimum(*validation) {
                EXIT_PROJECT
            } else {
                EXIT_PASSED
            }
            &&& (if below_minimum(*validation) {
                r.stderr
            } else {
                r.stdout
            })@ == joined(coverage_report(*validation, show_coverage, show_unassigned), "\n"@)
            &&& (if below_minimum(*validation) {
                r.stdout
            } else {
                r.stderr
            })@.len() == 0
        }),
{
    let mut lines: Vec<String> = Vec::new();
    let below = match validation.minimum_coverage {
        Some(m) => validation.coverage_percent < m,
        None => false,
    };
    let mut head = owned(if below {
        "✖"
    } else {
        "✓"
    });
    append(&mut head, " configuration valid: ");
    append(&mut head, decimal(validation.source_modules as u64).as_str());
    append(&mut head, " source modules, no layer overlaps");
    push_line(&mut lines, head);
    if validation.blank_architecture && validation.source_modules > 0 {
        push_line(&mut lines, owned("⚠ no architecture layers are configured; checks cannot enforce layer ownership"));
    }
    if show_coverage || below {
        let mut line = concat("Coverage: ", decimal(validation.coverage_percent as u64).as_str());
        append(&mut line, "% (");
        append(&mut line, decimal(validation.assigned_modules as u64).as_str());
        append(&mut line, " assigned, ");
        append(&mut line, decimal(validation.unassigned_modules.len() as u64).as_str());
        append(&mut line, " unassigned, ");
        append(&mut line, decimal(validation.exempted_modules as u64).as_str());
        append(&mut line, " exempt)");
        push_line(&mut lines, line);
        match validation.minimum_coverage {
            Some(m) => {
                let mut line = concat("Required minimum: ", decimal(m as u64).as_str());
                append(&mut line, "%");
                push_line(&mut lines, line);
            },
            None => {},
        }
    }
    if show_unassigned {
        if validation.unassigned_modules.len() == 0 {
            push_line(&mut lines, owned("Unassigned modules: none"));
        } else {
            push_line(&mut lines, owned("Unassigned modules:"));
            let ghost prefix = texts_of(lines@);
            let ghost unassigned = texts_of(validation.unassigned_modules@);
            let mut i: usize = 0;
            while i < validation.unassigned_modules.len()
                invariant
                    i <= unassigned.len(),
                    unassigned == texts_of(validation.unassigned_modules@),
                    texts_of(lines@) == prefix + unassigned.take(i as int).map_values(|m: Seq<char>| "  "@ + m),
                decreases unassigned.len() - i,
            {
                push_line(&mut lines, concat("  ", validation.unassigned_modules[i].as_str()));
                proof {
                    assert(unassigned.take(i + 1).map_values(|m: Seq<char>| "  "@ + m) =~= unassigned.take(i as int).map_values(
                        |m: Seq<char>| "  "@ + m,
                    ).push("  "@ + unassigned[i as int]));
                }
                i = i + 1;
            }
            assert(unassigned.take(i as int) =~= unassigned);
        }
    }
    if below {
        push_line(
            &mut lines,
            owned(
                "Assign modules to layers or explicitly exempt support paths in `architecture.coverage.allow_unassigned`.",
            ),
        );
    }
    proof {
        assert(texts_of(lines@) =~= coverage_report(*validation, show_coverage, show_unassigned));
    }
    let text = join_texts(lines.as_slice(), "\n");
    if below {
        CliOutput::project_error(text)
    } else {
        CliOutput::success(text)
    }
}

/// What `config validate` reports on a validation: overlapping layers are a project error with
/// suggested fixes; otherwise the coverage, which is a project error when it falls below the
/// configured minimum.
pub fn config_validation_report(
    validation: &ConfigValidation,
    show_overlaps: bool,
    show_coverage: bool,
    show_unassigned: bool,
) -> (r: CliOutput)
    ensures
        validation.layer_overlaps@.len() > 0 ==> {
            let shown = if show_overlaps {
                validation.layer_overlaps@
            } else {
                validation.layer_overlaps@.take(1)
            };
            exists|layers: Seq<Seq<char>>|
                {
                    &&& ascending(layers)
                    &&& forall|x: Seq<char>| #[trigger] layers.contains(x) <==> layer_named_in(shown, x)
                    &&& r.exit_code == EXIT_PROJECT
                    &&& r.stdout@.len() == 0
                    &&& r.stderr@ == joined(overlap_report(*validation, show_overlaps, layers), "\n"@)
                }
        },
        validation.layer_overlaps@.len() == 0 ==> {
            &&& r.exit_code == if below_minimum(*validation) {
                EXIT_PROJECT
            } else {
                EXIT_PASSED
            }
            &&& (if below_minimum(*validation) {
                r.stderr
            } else {
                r.stdout
            })@ == joined(coverage_report(*validation, show_coverage, show_unassigned), "\n"@)
            &&& (if below_minimum(*validation) {
                r.stdout
            } else {
                r.stderr
            })@.len() == 0
        },
{
    if validation.layer_overlaps.len() > 0 {
        overlap_output(validation, show_overlaps)
    } else {
        coverage_output(validation, show_coverage, show_unassigned)
    }
}

} // verus!
