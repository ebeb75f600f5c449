//! The human-readable report of an analysis: the project's size, the number of errors and
//! warnings, then each diagnostic with its location, dependency path, suggestion and
//! suppression reason.
use crate::baseline::warning_count;
use crate::decimal::{decimal, decimal_text};
use crate::diagnostic::Diagnostic;
use crate::domain::{Module, ModuleId, ModuleKind, Severity};
use crate::engine::Analysis;
use crate::text::{append, concat, trim_end, trimmed_end};
use crate::text_set::{join_texts, joined, texts_of};
use vstd::prelude::*;

verus! {

/// The number of modules of a kind.
pub open spec fn kind_count(modules: Seq<Module>, kind: ModuleKind) -> nat
    decreases modules.len(),
{
    if modules.len() == 0 {
        0
    } else {
        kind_count(modules.drop_last(), kind) + if modules.last().kind == kind {
            1nat
        } else {
            0nat
        }
    }
}

/// The number of unsuppressed errors.
pub open spec fn error_count(diagnostics: Seq<Diagnostic>) -> nat
    decreases diagnostics.len(),
{
    if diagnostics.len() == 0 {
        0
    } else {
        error_count(diagnostics.drop_last()) + if !diagnostics.last().suppressed && diagnostics.last().severity
            == Severity::Error {
            1nat
        } else {
            0nat
        }
    }
}

/// How many source, excluded and external modules, and resolved dependencies, a project has.
#[derive(Clone, Copy, Debug, PartialEq, Eq)]
pub struct ReportCounts {
    pub source_modules: usize,
    pub excluded_modules: usize,
    pub external_packages: usize,
    pub dependencies: usize,
}

fn count_kind(modules: &Vec<Module>, kind: ModuleKind) -> (r: usize)
    ensures
        r == kind_count(modules@, kind),
{
    let mut n: usize = 0;
    let mut i: usize = 0;
    while i < modules.len()
        invariant
            i <= modules@.len(),
            n == kind_count(modules@.take(i as int), kind),
            n <= i,
        decreases modules@.len() - i,
    {
        proof {
            assert(modules@.take(i + 1).drop_last() =~= modules@.take(i as int));
        }
        if modules[i].kind == kind {
            n = n + 1;
        }
        i = i + 1;
    }
    assert(modules@.take(i as int) =~= modules@);
    n
}

/// The project's module counts by kind and its number of resolved dependencies.
pub fn counts(analysis: &Analysis) -> (r: ReportCounts)
    ensures
        r.source_modules == kind_count(analysis.project.modules@, ModuleKind::Source),
        r.excluded_modules == kind_count(analysis.project.modules@, ModuleKind::Excluded),
        r.external_packages == kind_count(analysis.project.modules@, ModuleKind::External),
        r.dependencies == analysis.project.resolved_dependencies@.len(),
{
    ReportCounts {
        source_modules: count_kind(&analysis.project.modules, ModuleKind::Source),
        excluded_modules: count_kind(&analysis.project.modules, ModuleKind::Excluded),
        external_packages: count_kind(&analysis.project.modules, ModuleKind::External),
        dependencies: analysis.project.resolved_dependencies.len(),
    }
}

/// The module ids of a dependency path.
pub open spec fn path_ids(path: Seq<ModuleId>) -> Seq<Seq<char>> {
    path.map_values(|m: ModuleId| m.0@)
}

/// The block's first lines: the rule, whether it is suppressed, the fingerprint and the message.
pub open spec fn block_head(d: Diagnostic) -> Seq<char> {
    "\n"@ + d.rule_id.0@ + (if d.suppressed {
        " (suppressed)"@
    } else {
        Seq::empty()
    }) + " ["@ + d.fingerprint@ + "]\n"@ + d.message@
}

/// The block's location line, when the diagnostic has one.
pub open spec fn block_location(d: Diagnostic) -> Seq<char> {
    match d.primary_location {
        Some(l) => "\n"@ + l.file@ + ":"@ + decimal_text(l.line as nat) + ":"@ + decimal_text(l.column as nat),
        None => Seq::empty(),
    }
}

/// The block's dependency path, one module per line, when it has more than one module.
pub open spec fn block_path(d: Diagnostic) -> Seq<char> {
    if d.dependency_path@.len() > 1 {
        "\n"@ + joined(path_ids(d.dependency_path@), "\n→ "@)
    } else {
        Seq::empty()
    }
}

/// The block's suggestion and suppression reason, when it has them.
pub open spec fn block_notes(d: Diagnostic) -> Seq<char> {
    (match d.suggestion {
        Some(s) => "\nSuggestion: "@ + s@,
        None => Seq::empty(),
    }) + match d.suppression_reason {
        Some(r) => "\nSuppression reason: "@ + r@,
        None => Seq::empty(),
    }
}

/// How one diagnostic reads in the report.
pub open spec fn diagnostic_block(d: Diagnostic) -> Seq<char> {
    block_head(d) + block_location(d) + block_path(d) + block_notes(d) + "\n"@
}

/// The diagnostics' blocks, in order.
pub open spec fn diagnostic_blocks(ds: Seq<Diagnostic>) -> Seq<char>
    decreases ds.len(),
{
    if ds.len() == 0 {
        Seq::empty()
    } else {
        diagnostic_blocks(ds.drop_last()) + diagnostic_block(ds.last())
    }
}

/// The report's opening: the project's size and the numbers of errors and warnings.
pub open spec fn report_header(modules: Seq<Module>, dependencies: nat, ds: Seq<Diagnostic>) -> Seq<char> {
    "Analyzing "@ + decimal_text(kind_count(modules, ModuleKind::Source)) + " source modules, "@ + decimal_text(
        kind_count(modules, ModuleKind::Excluded),
    ) + " excluded modules, "@ + decimal_text(kind_count(modules, ModuleKind::External))
        + " external packages and "@ + decimal_text(dependencies) + " dependencies...\n\nArchitecture\n\n✖ "@
        + decimal_text(error_count(ds)) + " errors\n⚠ "@ + decimal_text(warning_count(ds)) + " warnings\n"@
}

/// The whole report before its trailing white space is cut.
pub open spec fn report_text(a: Analysis) -> Seq<char> {
    let ds = a.diagnostics@;
    report_header(a.project.modules@, a.project.resolved_dependencies@.len(), ds) + diagnostic_blocks(ds) + if ds.len()
        == 0 {
        "\n✓ Passed\n"@
    } else {
        Seq::empty()
    }
}

fn unsuppressed_counts(ds: &Vec<Diagnostic>) -> (r: (usize, usize))
    ensures
        r.0 == error_count(ds@),
        r.1 == warning_count(ds@),
{
    let mut errors: usize = 0;
    let mut warnings: usize = 0;
    let mut i: usize = 0;
    while i < ds.len()
        invariant
            i <= ds@.len(),
            errors == error_count(ds@.take(i as int)),
            warnings == warning_count(ds@.take(i as int)),
            errors + warnings <= i,
        decreases ds@.len() - i,
    {
        proof {
            assert(ds@.take(i + 1).drop_last() =~= ds@.take(i as int));
        }
        if !ds[i].suppressed {
            match ds[i].severity {
                Severity::Error => {
                    errors = errors + 1;
                },
                Severity::Warning => {
                    warnings = warnings + 1;
                },
                Severity::Info => {},
            }
        }
        i = i + 1;
    }
    assert(ds@.take(i as int) =~= ds@);
    (errors, warnings)
}

fn append_decimal(out: &mut String, n: usize)
    ensures
        final(out)@ == old(out)@ + decimal_text(n as nat),
{
    let d = decimal(n as u64);
    append(out, d.as_str());
}

fn append_head(out: &mut String, d: &Diagnostic)
    ensures
        final(out)@ == old(out)@ + block_head(*d),
{
    append(out, "\n");
    append(out, d.rule_id.0.as_str());
    if d.suppressed {
        append(out, " (suppressed)");
    } else {
        assert(out@ + Seq::<char>::empty() =~= out@);
    }
    append(out, " [");
    append(out, d.fingerprint.as_str());
    append(out, "]\n");
    append(out, d.message.as_str());
    assert(out@ =~= old(out)@ + block_head(*d));
}

fn append_location(out: &mut String, d: &Diagnostic)
    ensures
        final(out)@ == old(out)@ + block_location(*d),
{
    match &d.primary_location {
        Some(l) => {
            append(out, "\n");
            append(out, l.file.as_str());
            append(out, ":");
            append_decimal(out, l.line);
            append(out, ":");
            append_decimal(out, l.column);
            assert(out@ =~= old(out)@ + block_location(*d));
        },
        None => {
            assert(out@ + Seq::<char>::empty() =~= out@);
        },
    }
}

fn append_path(out: &mut String, d: &Diagnostic)
    ensures
        final(out)@ == old(out)@ + block_path(*d),
{
    if d.dependency_path.len() > 1 {
        let mut ids: Vec<String> = Vec::new();
        let mut i: usize = 0;
        while i < d.dependency_path.len()
            invariant
                i <= d.dependency_path@.len(),
                texts_of(ids@) == path_ids(d.dependency_path@).take(i as int),
            decreases d.dependency_path@.len() - i,
        {
            let id = d.dependency_path[i].0.clone();
            let ghost before = ids@;
            ids.push(id);
            proof {
                assert(texts_of(ids@) =~= texts_of(before).push(id@));
                assert(texts_of(ids@) =~= path_ids(d.dependency_path@).take(i + 1));
            }
            i = i + 1;
        }
        assert(path_ids(d.dependency_path@).take(i as int) =~= path_ids(d.dependency_path@));
        append(out, "\n");
        let joined_path = join_texts(ids.as_slice(), "\n→ ");
        append(out, joined_path.as_str());
        assert(out@ =~= old(out)@ + block_path(*d));
    } else {
        assert(out@ + Seq::<char>::empty() =~= out@);
    }
}

fn append_notes(out: &mut String, d: &Diagnostic)
    ensures
        final(out)@ == old(out)@ + block_notes(*d),
{
    let ghost start = out@;
    match &d.suggestion {
        Some(s) => {
            append(out, "\nSuggestion: ");
            append(out, s.as_str());
        },
        None => {},
    }
    let ghost mid = out@;
    assert(mid =~= start + match d.suggestion {
        Some(s) => "\nSuggestion: "@ + s@,
        None => Seq::<char>::empty(),
    });
    match &d.suppression_reason {
        Some(r) => {
            append(out, "\nSuppression reason: ");
            append(out, r.as_str());
        },
        None => {},
    }
    assert(out@ =~= mid + match d.suppression_reason {
        Some(r) => "\nSuppression reason: "@ + r@,
        None => Seq::<char>::empty(),
    });
    assert(out@ =~= start + block_notes(*d));
}

fn append_block(out: &mut String, d: &Diagnostic)
    ensures
        final(out)@ == old(out)@ + diagnostic_block(*d),
{
    append_head(out, d);
    append_location(out, d);
    append_path(out, d);
    append_notes(out, d);
    append(out, "\n");
    assert(out@ =~= old(out)@ + diagnostic_block(*d));
}

/// The human-readable report: the project's size, the unsuppressed errors and warnings, each
/// diagnostic in order, and `✓ Passed` when there is none; trailing white space is cut.
pub fn human(analysis: &Analysis) -> (r: String)
    ensures
        r@ == trimmed_end(report_text(*analysis)),
{
    let c = counts(analysis);
    let (errors, warnings) = unsuppressed_counts(&analysis.diagnostics);
    let mut out = concat("Analyzing ", decimal(c.source_modules as u64).as_str());
    append(&mut out, " source modules, ");
    append_decimal(&mut out, c.excluded_modules);
    append(&mut out, " excluded modules, ");
    append_decimal(&mut out, c.external_packages);
    append(&mut out, " external packages and ");
    append_decimal(&mut out, c.dependencies);
    append(&mut out, " dependencies...\n\nArchitecture\n\n✖ ");
    append_decimal(&mut out, errors);
    append(&mut out, " errors\n⚠ ");
    append_decimal(&mut out, warnings);
    append(&mut out, " warnings\n");
    let ghost ds = analysis.diagnostics@;
    let ghost head = out@;
    assert(head =~= report_header(analysis.project.modules@, analysis.project.resolved_dependencies@.len(), ds));
    let mut i: usize = 0;
    while i < analysis.diagnostics.len()
        invariant
            i <= ds.len(),
            ds == analysis.diagnostics@,
            out@ == head + diagnostic_blocks(ds.take(i as int)),
        decreases ds.len() - i,
    {
        proof {
            assert(ds.take(i + 1).drop_last() =~= ds.take(i as int));
        }
        append_block(&mut out, &analysis.diagnostics[i]);
        i = i + 1;
    }
    assert(ds.take(i as int) =~= ds);
    if analysis.diagnostics.len() == 0 {
        append(&mut out, "\n✓ Passed\n");
    } else {
        assert(out@ + Seq::<char>::empty() =~= out@);
    }
    trim_end(out.as_str())
}

} // verus!
