//! The command line: which command the arguments name, with its options, or the message that
//! explains why they name none.
use crate::config::{ConfigPreset, FailOn, OutputFormat};
use crate::decimal::{parse_usize, usize_value};
use crate::domain::DependencyKind;
use crate::text::{append, concat, owned, text_equal};
use crate::text_set::{join_texts, joined, texts_of};
use vstd::prelude::*;

verus! {

/// A command and its options, as the arguments give them.
#[derive(Clone, Debug, PartialEq, Eq)]
pub enum Command {
    Init { preset: ConfigPreset },
    Scan,
    Discover { json: bool, write: bool, force: bool },
    Check {
        changed: bool,
        format: Option<OutputFormat>,
        base: Option<String>,
        config: Option<String>,
        no_cache: bool,
        verbose: bool,
        fail_on: Option<FailOn>,
        max_warnings: Option<usize>,
    },
    BaselineCreate,
    BaselineList { rule: Option<String> },
    BaselinePrune,
    Graph,
    Explore { output: String },
    Doctor,
    ConfigValidate { show_overlaps: bool, show_coverage: bool, show_unassigned: bool },
    Explain(String),
    Resolve { importer: String, specifier: String, kind: DependencyKind, config: Option<String> },
    Version,
    Help,
}

/// The options of `check`, with text as characters.
pub struct CheckView {
    pub changed: bool,
    pub format: Option<OutputFormat>,
    pub base: Option<Seq<char>>,
    pub config: Option<Seq<char>>,
    pub no_cache: bool,
    pub verbose: bool,
    pub fail_on: Option<FailOn>,
    pub max_warnings: Option<usize>,
}

/// A command with its text as characters.
pub enum CommandView {
    Init { preset: ConfigPreset },
    Scan,
    Discover { json: bool, write: bool, force: bool },
    Check(CheckView),
    BaselineCreate,
    BaselineList { rule: Option<Seq<char>> },
    BaselinePrune,
    Graph,
    Explore { output: Seq<char> },
    Doctor,
    ConfigValidate { show_overlaps: bool, show_coverage: bool, show_unassigned: bool },
    Explain(Seq<char>),
    Resolve { importer: Seq<char>, specifier: Seq<char>, kind: DependencyKind, config: Option<Seq<char>> },
    Version,
    Help,
}

/// The characters of an optional text.
pub open spec fn text_option(o: Option<String>) -> Option<Seq<char>> {
    match o {
        Some(s) => Some(s@),
        None => None,
    }
}

impl View for Command {
    type V = CommandView;

    open spec fn view(&self) -> CommandView {
        match self {
            Command::Init { preset } => CommandView::Init { preset: *preset },
            Command::Scan => CommandView::Scan,
            Command::Discover { json, write, force } => CommandView::Discover {
                json: *json,
                write: *write,
                force: *force,
            },
            Command::Check { changed, format, base, config, no_cache, verbose, fail_on, max_warnings } =>
                CommandView::Check(
                CheckView {
                    changed: *changed,
                    format: *format,
                    base: text_option(*base),
                    config: text_option(*config),
                    no_cache: *no_cache,
                    verbose: *verbose,
                    fail_on: *fail_on,
                    max_warnings: *max_warnings,
                },
            ),
            Command::BaselineCreate => CommandView::BaselineCreate,
            Command::BaselineList { rule } => CommandView::BaselineList { rule: text_option(*rule) },
            Command::BaselinePrune => CommandView::BaselinePrune,
            Command::Graph => CommandView::Graph,
            Command::Explore { output } => CommandView::Explore { output: output@ },
            Command::Doctor => CommandView::Doctor,
            Command::ConfigValidate { show_overlaps, show_coverage, show_unassigned } =>
                CommandView::ConfigValidate {
                show_overlaps: *show_overlaps,
                show_coverage: *show_coverage,
                show_unassigned: *show_unassigned,
            },
            Command::Explain(rule) => CommandView::Explain(rule@),
            Command::Resolve { importer, specifier, kind, config } => CommandView::Resolve {
                importer: importer@,
                specifier: specifier@,
                kind: *kind,
                config: text_option(*config),
            },
            Command::Version => CommandView::Version,
            Command::Help => CommandView::Help,
        }
    }
}

/// The arguments as character sequences.
pub open spec fn words(args: Seq<String>) -> Seq<Seq<char>> {
    texts_of(args)
}

/// The preset with the given name.
pub open spec fn preset_named(v: Seq<char>) -> Option<ConfigPreset> {
    if v == "blank"@ {
        Some(ConfigPreset::Blank)
    } else if v == "fsd"@ {
        Some(ConfigPreset::Fsd)
    } else if v == "next"@ {
        Some(ConfigPreset::Next)
    } else if v == "nx"@ {
        Some(ConfigPreset::Nx)
    } else {
        None
    }
}

/// `init`'s options: none, or `--preset` and a preset's name.
pub open spec fn init_parsed(a: Seq<Seq<char>>) -> Result<CommandView, Seq<char>> {
    if a.len() == 0 {
        Ok(CommandView::Init { preset: ConfigPreset::Blank })
    } else if a.len() != 2 || a[0] != "--preset"@ {
        Err("init accepts only `--preset blank|fsd|next|nx`"@)
    } else {
        match preset_named(a[1]) {
            Some(p) => Ok(CommandView::Init { preset: p }),
            None => Err("unknown init preset `"@ + a[1] + "`"@),
        }
    }
}

/// `explore`'s options: none, or `--output` and a path.
pub open spec fn explore_parsed(a: Seq<Seq<char>>) -> Result<CommandView, Seq<char>> {
    if a.len() == 0 {
        Ok(CommandView::Explore { output: ".wae/explorer.html"@ })
    } else if a.len() == 2 && a[0] == "--output"@ {
        Ok(CommandView::Explore { output: a[1] })
    } else {
        Err("explore accepts only `--output PATH`"@)
    }
}

/// `baseline list`'s options: none, or `--rule` and a rule id.
pub open spec fn baseline_list_parsed(a: Seq<Seq<char>>) -> Result<CommandView, Seq<char>> {
    if a.len() == 0 {
        Ok(CommandView::BaselineList { rule: None })
    } else if a.len() == 2 && a[0] == "--rule"@ {
        Ok(CommandView::BaselineList { rule: Some(a[1]) })
    } else {
        Err("baseline list accepts only `--rule RULE_ID`"@)
    }
}

/// The flags of `discover`, in order: the first unknown one is the error.
pub open spec fn discover_flags(a: Seq<Seq<char>>) -> Result<(bool, bool, bool), Seq<char>>
    decreases a.len(),
{
    if a.len() == 0 {
        Ok((false, false, false))
    } else {
        let o = a[0];
        let rest = discover_flags(a.drop_first());
        if o == "--json"@ {
            match rest {
                Ok(t) => Ok((true, t.1, t.2)),
                Err(e) => Err(e),
            }
        } else if o == "--write"@ {
            match rest {
                Ok(t) => Ok((t.0, true, t.2)),
                Err(e) => Err(e),
            }
        } else if o == "--force"@ {
            match rest {
                Ok(t) => Ok((t.0, t.1, true)),
                Err(e) => Err(e),
            }
        } else {
            Err("unknown discover option `"@ + o + "`"@)
        }
    }
}

/// `discover`'s options; `--force` needs `--write`.
pub open spec fn discover_parsed(a: Seq<Seq<char>>) -> Result<CommandView, Seq<char>> {
    match discover_flags(a) {
        Ok(t) => if t.2 && !t.1 {
            Err("discover --force requires --write"@)
        } else {
            Ok(CommandView::Discover { json: t.0, write: t.1, force: t.2 })
        },
        Err(e) => Err(e),
    }
}

/// The flags of `config validate`, in order: the first unknown one is the error.
pub open spec fn validate_flags(a: Seq<Seq<char>>) -> Result<(bool, bool, bool), Seq<char>>
    decreases a.len(),
{
    if a.len() == 0 {
        Ok((false, false, false))
    } else {
        let o = a[0];
        let rest = validate_flags(a.drop_first());
        if o == "--show-overlaps"@ {
            match rest {
                Ok(t) => Ok((true, t.1, t.2)),
                Err(e) => Err(e),
            }
        } else if o == "--show-coverage"@ {
            match rest {
                Ok(t) => Ok((t.0, true, t.2)),
                Err(e) => Err(e),
            }
        } else if o == "--show-unassigned"@ {
            match rest {
                Ok(t) => Ok((t.0, t.1, true)),
                Err(e) => Err(e),
            }
        } else {
            Err("unknown config validate option `"@ + o + "`"@)
        }
    }
}

/// `config validate`'s options.
pub open spec fn config_validate_parsed(a: Seq<Seq<char>>) -> Result<CommandView, Seq<char>> {
    match validate_flags(a) {
        Ok(t) => Ok(CommandView::ConfigValidate { show_overlaps: t.0, show_coverage: t.1, show_unassigned: t.2 }),
        Err(e) => Err(e),
    }
}

/// The output format with the given name.
pub open spec fn format_named(v: Seq<char>) -> Option<OutputFormat> {
    if v == "human"@ {
        Some(OutputFormat::Human)
    } else if v == "json"@ {
        Some(OutputFormat::Json)
    } else if v == "jsonl"@ {
        Some(OutputFormat::Jsonl)
    } else if v == "sarif"@ {
        Some(OutputFormat::Sarif)
    } else {
        None
    }
}

/// The failure threshold with the given name.
pub open spec fn fail_on_named(v: Seq<char>) -> Option<FailOn> {
    if v == "error"@ {
        Some(FailOn::Error)
    } else if v == "warning"@ {
        Some(FailOn::Warning)
    } else {
        None
    }
}

/// `check` with no option given.
pub open spec fn check_default() -> CheckView {
    CheckView {
        changed: false,
        format: None,
        base: None,
        config: None,
        no_cache: false,
        verbose: false,
        fail_on: None,
        max_warnings: None,
    }
}

/// The options of `first` followed by those of `later`: a flag is set when either sets it, and a
/// valued option takes the last value given.
pub open spec fn check_then(first: CheckView, later: CheckView) -> CheckView {
    CheckView {
        changed: first.changed || later.changed,
        format: if later.format is Some {
            later.format
        } else {
            first.format
        },
        base: if later.base is Some {
            later.base
        } else {
            first.base
        },
        config: if later.config is Some {
            later.config
        } else {
            first.config
        },
        no_cache: first.no_cache || later.no_cache,
        verbose: first.verbose || later.verbose,
        fail_on: if later.fail_on is Some {
            later.fail_on
        } else {
            first.fail_on
        },
        max_warnings: if later.max_warnings is Some {
            later.max_warnings
        } else {
            first.max_warnings
        },
    }
}

/// One option, then the options that `rest` reads.
pub open spec fn check_step(first: CheckView, rest: Result<CheckView, Seq<char>>) -> Result<CheckView, Seq<char>> {
    match rest {
        Ok(l) => Ok(check_then(first, l)),
        Err(e) => Err(e),
    }
}

/// The options of `check`, read left to right: the first bad one is the error.
pub open spec fn check_options(a: Seq<Seq<char>>) -> Result<CheckView, Seq<char>>
    decreases a.len(),
{
    if a.len() == 0 {
        Ok(check_default())
    } else {
        let o = a[0];
        let d = check_default();
        if o == "--changed"@ {
            check_step(CheckView { changed: true, ..d }, check_options(a.drop_first()))
        } else if o == "--no-cache"@ {
            check_step(CheckView { no_cache: true, ..d }, check_options(a.drop_first()))
        } else if o == "--verbose"@ || o == "-v"@ {
            check_step(CheckView { verbose: true, ..d }, check_options(a.drop_first()))
        } else if o == "--format"@ {
            if a.len() < 2 {
                Err("--format requires a value"@)
            } else {
                match format_named(a[1]) {
                    Some(f) => check_step(CheckView { format: Some(f), ..d }, check_options(a.skip(2))),
                    None => Err("unsupported format `"@ + a[1] + "`"@),
                }
            }
        } else if o == "--base"@ {
            if a.len() < 2 {
                Err("--base requires a value"@)
            } else {
                check_step(CheckView { base: Some(a[1]), ..d }, check_options(a.skip(2)))
            }
        } else if o == "--config"@ {
            if a.len() < 2 {
                Err("--config requires a value"@)
            } else {
                check_step(CheckView { config: Some(a[1]), ..d }, check_options(a.skip(2)))
            }
        } else if o == "--fail-on"@ {
            if a.len() < 2 {
                Err("--fail-on requires a value"@)
            } else {
                match fail_on_named(a[1]) {
                    Some(f) => check_step(CheckView { fail_on: Some(f), ..d }, check_options(a.skip(2))),
                    None => Err("unsupported failure threshold `"@ + a[1] + "`; expected error or warning"@),
                }
            }
        } else if o == "--max-warnings"@ {
            if a.len() < 2 {
                Err("--max-warnings requires a value"@)
            } else {
                match usize_value(a[1]) {
                    Some(n) => check_step(
                        CheckView { max_warnings: Some(n as usize), ..d },
                        check_options(a.skip(2)),
                    ),
                    None => Err(
                        "invalid --max-warnings value `"@ + a[1] + "`; expected a non-negative integer"@,
                    ),
                }
            }
        } else {
            Err("unknown check option `"@ + o + "`"@)
        }
    }
}

/// `check`'s options.
pub open spec fn check_parsed(a: Seq<Seq<char>>) -> Result<CommandView, Seq<char>> {
    match check_options(a) {
        Ok(v) => Ok(CommandView::Check(v)),
        Err(e) => Err(e),
    }
}

/// The dependency kind with the given name.
pub open spec fn kind_named(v: Seq<char>) -> Option<DependencyKind> {
    if v == "static"@ {
        Some(DependencyKind::Static)
    } else if v == "dynamic"@ {
        Some(DependencyKind::Dynamic)
    } else if v == "require"@ {
        Some(DependencyKind::Require)
    } else if v == "type"@ {
        Some(DependencyKind::TypeOnly)
    } else if v == "re-export"@ {
        Some(DependencyKind::ReExport)
    } else {
        None
    }
}

/// The last of two optional values that is given.
pub open spec fn last_given<T>(first: Option<T>, later: Option<T>) -> Option<T> {
    if later is Some {
        later
    } else {
        first
    }
}

/// The options of `resolve` after its two operands, read left to right: the kind and the
/// configuration path given last, or the first bad option.
pub open spec fn resolve_options(a: Seq<Seq<char>>) -> Result<(Option<DependencyKind>, Option<Seq<char>>), Seq<char>>
    decreases a.len(),
{
    if a.len() == 0 {
        Ok((None, None))
    } else {
        let o = a[0];
        if o == "--kind"@ {
            if a.len() < 2 {
                Err("--kind requires a value"@)
            } else {
                match kind_named(a[1]) {
                    Some(k) => match resolve_options(a.skip(2)) {
                        Ok(t) => Ok((last_given(Some(k), t.0), t.1)),
                        Err(e) => Err(e),
                    },
                    None => Err("unsupported dependency kind `"@ + a[1] + "`"@),
                }
            }
        } else if o == "--config"@ {
            if a.len() < 2 {
                Err("--config requires a value"@)
            } else {
                match resolve_options(a.skip(2)) {
                    Ok(t) => Ok((t.0, last_given(Some(a[1]), t.1))),
                    Err(e) => Err(e),
                }
            }
        } else {
            Err("unknown resolve option `"@ + o + "`"@)
        }
    }
}

/// `resolve`'s operands and options; the kind is `static` unless one is given.
pub open spec fn resolve_parsed(a: Seq<Seq<char>>) -> Result<CommandView, Seq<char>> {
    if a.len() < 2 {
        Err("resolve requires <IMPORTER> <SPECIFIER>"@)
    } else {
        match resolve_options(a.skip(2)) {
            Ok(t) => Ok(
                CommandView::Resolve {
                    importer: a[0],
                    specifier: a[1],
                    kind: match t.0 {
                        Some(k) => k,
                        None => DependencyKind::Static,
                    },
                    config: t.1,
                },
            ),
            Err(e) => Err(e),
        }
    }
}

/// The command that the words name, or why they name none.
pub open spec fn parsed(a: Seq<Seq<char>>) -> Result<CommandView, Seq<char>> {
    if a.len() == 0 {
        Ok(CommandView::Help)
    } else {
        let c = a[0];
        if c == "init"@ {
            init_parsed(a.drop_first())
        } else if c == "scan"@ && a.len() == 1 {
            Ok(CommandView::Scan)
        } else if c == "discover"@ {
            discover_parsed(a.drop_first())
        } else if c == "graph"@ && a.len() == 1 {
            Ok(CommandView::Graph)
        } else if c == "explore"@ {
            explore_parsed(a.drop_first())
        } else if c == "doctor"@ && a.len() == 1 {
            Ok(CommandView::Doctor)
        } else if c == "config"@ && a.len() >= 2 && a[1] == "validate"@ {
            config_validate_parsed(a.skip(2))
        } else if c == "baseline"@ && a.len() == 2 && a[1] == "create"@ {
            Ok(CommandView::BaselineCreate)
        } else if c == "baseline"@ && a.len() == 2 && a[1] == "prune"@ {
            Ok(CommandView::BaselinePrune)
        } else if c == "baseline"@ && a.len() >= 2 && a[1] == "list"@ {
            baseline_list_parsed(a.skip(2))
        } else if c == "explain"@ && a.len() == 2 {
            Ok(CommandView::Explain(a[1]))
        } else if c == "resolve"@ {
            resolve_parsed(a.drop_first())
        } else if c == "check"@ {
            check_parsed(a.drop_first())
        } else if (c == "--version"@ || c == "-V"@) && a.len() == 1 {
            Ok(CommandView::Version)
        } else if c == "help"@ || c == "--help"@ || c == "-h"@ {
            Ok(CommandView::Help)
        } else {
            Err("Invalid command or arguments: "@ + joined(a, " "@))
        }
    }
}

fn parse_init(args: &[String]) -> (r: Result<Command, String>)
    ensures
        match (r, init_parsed(words(args@))) {
            (Ok(c), Ok(v)) => c@ == v,
            (Err(e), Err(m)) => e@ == m,
            _ => false,
        },
{
    if args.len() == 0 {
        return Ok(Command::Init { preset: ConfigPreset::Blank });
    }
    if args.len() != 2 || !text_equal(args[0].as_str(), "--preset") {
        return Err(owned("init accepts only `--preset blank|fsd|next|nx`"));
    }
    let v = args[1].as_str();
    if text_equal(v, "blank") {
        Ok(Command::Init { preset: ConfigPreset::Blank })
    } else if text_equal(v, "fsd") {
        Ok(Command::Init { preset: ConfigPreset::Fsd })
    } else if text_equal(v, "next") {
        Ok(Command::Init { preset: ConfigPreset::Next })
    } else if text_equal(v, "nx") {
        Ok(Command::Init { preset: ConfigPreset::Nx })
    } else {
        let mut m = concat("unknown init preset `", v);
        append(&mut m, "`");
        Err(m)
    }
}

fn quoted(head: &str, value: &str, tail: &str) -> (r: String)
    ensures
        r@ == head@ + value@ + tail@,
{
    let mut m = concat(head, value);
    append(&mut m, tail);
    m
}

fn parse_discover(args: &[String]) -> (r: Result<Command, String>)
    ensures
        match (r, discover_parsed(words(args@))) {
            (Ok(c), Ok(v)) => c@ == v,
            (Err(e), Err(m)) => e@ == m,
            _ => false,
        },
{
    let ghost a = words(args@);
    let mut json = false;
    let mut write = false;
    let mut force = false;
    let mut i: usize = 0;
    assert(a.skip(0) =~= a);
    while i < args.len()
        invariant
            i <= args@.len(),
            a == words(args@),
            discover_flags(a) == match discover_flags(a.skip(i as int)) {
                Ok(t) => Ok((json || t.0, write || t.1, force || t.2)),
                Err(e) => Err(e),
            },
        decreases args@.len() - i,
    {
        let o = args[i].as_str();
        proof {
            assert(a.skip(i as int).drop_first() =~= a.skip(i + 1));
            assert(a.skip(i as int)[0] == o@);
        }
        if text_equal(o, "--json") {
            json = true;
        } else if text_equal(o, "--write") {
            write = true;
        } else if text_equal(o, "--force") {
            force = true;
        } else {
            return Err(quoted("unknown discover option `", o, "`"));
        }
        i = i + 1;
    }
    if force && !write {
        return Err(owned("discover --force requires --write"));
    }
    Ok(Command::Discover { json, write, force })
}

fn parse_config_validate(args: &[String]) -> (r: Result<Command, String>)
    ensures
        match (r, config_validate_parsed(words(args@))) {
            (Ok(c), Ok(v)) => c@ == v,
            (Err(e), Err(m)) => e@ == m,
            _ => false,
        },
{
    let ghost a = words(args@);
    let mut show_overlaps = false;
    let mut show_coverage = false;
    let mut show_unassigned = false;
    let mut i: usize = 0;
    assert(a.skip(0) =~= a);
    while i < args.len()
        invariant
            i <= args@.len(),
            a == words(args@),
            validate_flags(a) == match validate_flags(a.skip(i as int)) {
                Ok(t) => Ok((show_overlaps || t.0, show_coverage || t.1, show_unassigned || t.2)),
                Err(e) => Err(e),
            },
        decreases args@.len() - i,
    {
        let o = args[i].as_str();
        proof {
            assert(a.skip(i as int).drop_first() =~= a.skip(i + 1));
            assert(a.skip(i as int)[0] == o@);
        }
        if text_equal(o, "--show-overlaps") {
            show_overlaps = true;
        } else if text_equal(o, "--show-coverage") {
            show_coverage = true;
        } else if text_equal(o, "--show-unassigned") {
            show_unassigned = true;
        } else {
            return Err(quoted("unknown config validate option `", o, "`"));
        }
        i = i + 1;
    }
    Ok(Command::ConfigValidate { show_overlaps, show_coverage, show_unassigned })
}

fn parse_explore(args: &[String]) -> (r: Result<Command, String>)
    ensures
        match (r, explore_parsed(words(args@))) {
            (Ok(c), Ok(v)) => c@ == v,
            (Err(e), Err(m)) => e@ == m,
            _ => false,
        },
{
    if args.len() == 0 {
        Ok(Command::Explore { output: owned(".wae/explorer.html") })
    } else if args.len() == 2 && text_equal(args[0].as_str(), "--output") {
        Ok(Command::Explore { output: args[1].clone() })
    } else {
        Err(owned("explore accepts only `--output PATH`"))
    }
}

fn parse_baseline_list(args: &[String]) -> (r: Result<Command, String>)
    ensures
        match (r, baseline_list_parsed(words(args@))) {
            (Ok(c), Ok(v)) => c@ == v,
            (Err(e), Err(m)) => e@ == m,
            _ => false,
        },
{
    if args.len() == 0 {
        Ok(Command::BaselineList { rule: None })
    } else if args.len() == 2 && text_equal(args[0].as_str(), "--rule") {
        Ok(Command::BaselineList { rule: Some(args[1].clone()) })
    } else {
        Err(owned("baseline list accepts only `--rule RULE_ID`"))
    }
}

proof fn lemma_check_step_assoc(acc: CheckView, single: CheckView, rest: Result<CheckView, Seq<char>>)
    ensures
        check_step(acc, check_step(single, rest)) == check_step(check_then(acc, single), rest),
{
}

fn parse_check(args: &[String]) -> (r: Result<Command, String>)
    ensures
        match (r, check_parsed(words(args@))) {
            (Ok(c), Ok(v)) => c@ == v,
            (Err(e), Err(m)) => e@ == m,
            _ => false,
        },
{
    let ghost a = words(args@);
    let ghost d = check_default();
    let mut changed = false;
    let mut format: Option<OutputFormat> = None;
    let mut base: Option<String> = None;
    let mut config: Option<String> = None;
    let mut no_cache = false;
    let mut verbose = false;
    let mut fail_on: Option<FailOn> = None;
    let mut max_warnings: Option<usize> = None;
    let mut i: usize = 0;
    assert(a.skip(0) =~= a);
    while i < args.len()
        invariant
            i <= args@.len(),
            a == words(args@),
            d == check_default(),
            check_options(a) == check_step(
                CheckView {
                    changed,
                    format,
                    base: text_option(base),
                    config: text_option(config),
                    no_cache,
                    verbose,
                    fail_on,
                    max_warnings,
                },
                check_options(a.skip(i as int)),
            ),
        decreases args@.len() - i,
    {
        let o = args[i].as_str();
        let ghost s = a.skip(i as int);
        let ghost acc = CheckView {
            changed,
            format,
            base: text_option(base),
            config: text_option(config),
            no_cache,
            verbose,
            fail_on,
            max_warnings,
        };
        proof {
            assert(s.drop_first() =~= a.skip(i + 1));
            assert(s[0] == o@);
            if i + 1 < args.len() {
                assert(s.skip(2) =~= a.skip(i + 2));
                assert(s[1] == args@[i + 1]@);
            }
        }
        if text_equal(o, "--changed") {
            proof {
                let single = CheckView { changed: true, ..d };
                lemma_check_step_assoc(acc, single, check_options(a.skip(i + 1)));
            }
            changed = true;
        } else if text_equal(o, "--no-cache") {
            proof {
                let single = CheckView { no_cache: true, ..d };
                lemma_check_step_assoc(acc, single, check_options(a.skip(i + 1)));
            }
            no_cache = true;
        } else if text_equal(o, "--verbose") || text_equal(o, "-v") {
            proof {
                let single = CheckView { verbose: true, ..d };
                lemma_check_step_assoc(acc, single, check_options(a.skip(i + 1)));
            }
            verbose = true;
        } else if text_equal(o, "--format") {
            if i + 1 >= args.len() {
                return Err(owned("--format requires a value"));
            }
            let v = args[i + 1].as_str();
            match OutputFormat::parse(v) {
                Some(f) => {
                    proof {
                        let single = CheckView { format: Some(f), ..d };
                        lemma_check_step_assoc(acc, single, check_options(a.skip(i + 2)));
                    }
                    format = Some(f);
                },
                None => {
                    return Err(quoted("unsupported format `", v, "`"));
                },
            }
            i = i + 1;
        } else if text_equal(o, "--base") {
            if i + 1 >= args.len() {
                return Err(owned("--base requires a value"));
            }
            proof {
                let single = CheckView { base: Some(args@[i + 1]@), ..d };
                lemma_check_step_assoc(acc, single, check_options(a.skip(i + 2)));
            }
            base = Some(args[i + 1].clone());
            i = i + 1;
        } else if text_equal(o, "--config") {
            if i + 1 >= args.len() {
                return Err(owned("--config requires a value"));
            }
            proof {
                let single = CheckView { config: Some(args@[i + 1]@), ..d };
                lemma_check_step_assoc(acc, single, check_options(a.skip(i + 2)));
            }
            config = Some(args[i + 1].clone());
            i = i + 1;
        } else if text_equal(o, "--fail-on") {
            if i + 1 >= args.len() {
                return Err(owned("--fail-on requires a value"));
            }
            let v = args[i + 1].as_str();
            match FailOn::parse(v) {
                Some(f) => {
                    proof {
                        let single = CheckView { fail_on: Some(f), ..d };
                        lemma_check_step_assoc(acc, single, check_options(a.skip(i + 2)));
                    }
                    fail_on = Some(f);
                },
                None => {
                    return Err(quoted("unsupported failure threshold `", v, "`; expected error or warning"));
                },
            }
            i = i + 1;
        } else if text_equal(o, "--max-warnings") {
            if i + 1 >= args.len() {
                return Err(owned("--max-warnings requires a value"));
            }
            let v = args[i + 1].as_str();
            match parse_usize(v) {
                Some(n) => {
                    proof {
                        let single = CheckView { max_warnings: Some(n), ..d };
                        lemma_check_step_assoc(acc, single, check_options(a.skip(i + 2)));
                    }
                    max_warnings = Some(n);
                },
                None => {
                    return Err(quoted("invalid --max-warnings value `", v, "`; expected a non-negative integer"));
                },
            }
            i = i + 1;
        } else {
            return Err(quoted("unknown check option `", o, "`"));
        }
        i = i + 1;
    }
    proof {
        assert(a.skip(i as int).len() == 0);
    }
    Ok(Command::Check { changed, format, base, config, no_cache, verbose, fail_on, max_warnings })
}

fn parse_resolve(args: &[String]) -> (r: Result<Command, String>)
    ensures
        match (r, resolve_parsed(words(args@))) {
            (Ok(c), Ok(v)) => c@ == v,
            (Err(e), Err(m)) => e@ == m,
            _ => false,
        },
{
    let ghost a = words(args@);
    if args.len() < 2 {
        return Err(owned("resolve requires <IMPORTER> <SPECIFIER>"));
    }
    let importer = args[0].clone();
    let specifier = args[1].clone();
    let mut kind: Option<DependencyKind> = None;
    let mut config: Option<String> = None;
    let mut i: usize = 2;
    while i < args.len()
        invariant
            2 <= i <= args@.len(),
            a == words(args@),
            resolve_options(a.skip(2)) == match resolve_options(a.skip(i as int)) {
                Ok(t) => Ok((last_given(kind, t.0), last_given(text_option(config), t.1))),
                Err(e) => Err(e),
            },
        decreases args@.len() - i,
    {
        let o = args[i].as_str();
        let ghost s = a.skip(i as int);
        proof {
            assert(s[0] == o@);
            if i + 1 < args.len() {
                assert(s.skip(2) =~= a.skip(i + 2));
                assert(s[1] == args@[i + 1]@);
            }
        }
        if text_equal(o, "--kind") {
            if i + 1 >= args.len() {
                return Err(owned("--kind requires a value"));
            }
            let v = args[i + 1].as_str();
            if text_equal(v, "static") {
                kind = Some(DependencyKind::Static);
            } else if text_equal(v, "dynamic") {
                kind = Some(DependencyKind::Dynamic);
            } else if text_equal(v, "require") {
                kind = Some(DependencyKind::Require);
            } else if text_equal(v, "type") {
                kind = Some(DependencyKind::TypeOnly);
            } else if text_equal(v, "re-export") {
                kind = Some(DependencyKind::ReExport);
            } else {
                return Err(quoted("unsupported dependency kind `", v, "`"));
            }
        } else if text_equal(o, "--config") {
            if i + 1 >= args.len() {
                return Err(owned("--config requires a value"));
            }
            config = Some(args[i + 1].clone());
        } else {
            return Err(quoted("unknown resolve option `", o, "`"));
        }
        i = i + 2;
    }
    proof {
        assert(a.skip(i as int).len() == 0);
    }
    let kind = match kind {
        Some(k) => k,
        None => DependencyKind::Static,
    };
    Ok(Command::Resolve { importer, specifier, kind, config })
}

/// The command that `args` names, with its options, or a message that says what is wrong with
/// them; no arguments ask for help.
pub fn parse(args: &[String]) -> (r: Result<Command, String>)
    ensures
        match (r, parsed(words(args@))) {
            (Ok(c), Ok(v)) => c@ == v,
            (Err(e), Err(m)) => e@ == m,
            _ => false,
        },
{
    let ghost a = words(args@);
    if args.len() == 0 {
        return Ok(Command::Help);
    }
    let c = args[0].as_str();
    let n = args.len();
    let rest = slice_after(args, 1);
    proof {
        assert(a[0] == c@);
        assert(words(rest@) =~= a.drop_first());
        if n >= 2 {
            assert(a[1] == args@[1]@);
        }
    }
    if text_equal(c, "init") {
        parse_init(rest.as_slice())
    } else if text_equal(c, "scan") && n == 1 {
        Ok(Command::Scan)
    } else if text_equal(c, "discover") {
        parse_discover(rest.as_slice())
    } else if text_equal(c, "graph") && n == 1 {
        Ok(Command::Graph)
    } else if text_equal(c, "explore") {
        parse_explore(rest.as_slice())
    } else if text_equal(c, "doctor") && n == 1 {
        Ok(Command::Doctor)
    } else if text_equal(c, "config") && n >= 2 && text_equal(args[1].as_str(), "validate") {
        let tail = slice_after(args, 2);
        proof {
            assert(words(tail@) =~= a.skip(2));
        }
        parse_config_validate(tail.as_slice())
    } else if text_equal(c, "baseline") && n == 2 && text_equal(args[1].as_str(), "create") {
        Ok(Command::BaselineCreate)
    } else if text_equal(c, "baseline") && n == 2 && text_equal(args[1].as_str(), "prune") {
        Ok(Command::BaselinePrune)
    } else if text_equal(c, "baseline") && n >= 2 && text_equal(args[1].as_str(), "list") {
        let tail = slice_after(args, 2);
        proof {
            assert(words(tail@) =~= a.skip(2));
        }
        parse_baseline_list(tail.as_slice())
    } else if text_equal(c, "explain") && n == 2 {
        Ok(Command::Explain(args[1].clone()))
    } else if text_equal(c, "resolve") {
        parse_resolve(rest.as_slice())
    } else if text_equal(c, "check") {
        parse_check(rest.as_slice())
    } else if (text_equal(c, "--version") || text_equal(c, "-V")) && n == 1 {
        Ok(Command::Version)
    } else if text_equal(c, "help") || text_equal(c, "--help") || text_equal(c, "-h") {
        Ok(Command::Help)
    } else {
        let joined_args = join_texts(args, " ");
        Err(concat("Invalid command or arguments: ", joined_args.as_str()))
    }
}

/// The arguments from index `k` on.
fn slice_after(args: &[String], k: usize) -> (r: Vec<String>)
    requires
        k <= args@.len(),
    ensures
        r@ == args@.skip(k as int),
{
    let mut out: Vec<String> = Vec::new();
    let mut i: usize = k;
    while i < args.len()
        invariant
            k <= i <= args@.len(),
            out@ == args@.subrange(k as int, i as int),
        decreases args@.len() - i,
    {
        out.push(args[i].clone());
        assert(out@ =~= args@.subrange(k as int, i + 1));
        i = i + 1;
    }
    assert(out@ =~= args@.skip(k as int));
    out
}

} // verus!
