//! Suppression directives written in source comments (`// wae-ignore RULE -- reason` for the
//! next line, `// wae-ignore-file RULE -- reason` for the whole file), and their application to
//! diagnostics.
use crate::config::{FingerprintSuppression, PathSuppression, SuppressionConfig};
use crate::diagnostic::{identity_fingerprint, legacy_aliases, Diagnostic};
use crate::domain::ModuleId;
use crate::glob::{plain_glob_hit, plain_glob_hits};
use crate::text_set::{texts_contain, texts_of};
use crate::domain::{Severity, SourceLocation};
use crate::rule_registry::{descriptor, rule_table};
use crate::text::{chars_of, concat, has_prefix, is_space, owned, space, string_from, strip_prefix, text_equal,
    trim, trim_start, trimmed, trimmed_start};
use vstd::prelude::*;

verus! {

/// The position of the first line feed at or after `i`, or the length when there is none.
pub open spec fn next_newline(s: Seq<char>, i: int) -> int
    decreases s.len() - i,
{
    if i >= s.len() {
        s.len() as int
    } else if s[i] == '\n' {
        i
    } else {
        next_newline(s, i + 1)
    }
}

pub proof fn lemma_next_newline(s: Seq<char>, i: int)
    requires
        0 <= i <= s.len(),
    ensures
        i <= next_newline(s, i) <= s.len(),
        next_newline(s, i) < s.len() ==> s[next_newline(s, i)] == '\n',
        forall|k: int| i <= k < next_newline(s, i) ==> s[k] != '\n',
    decreases s.len() - i,
{
    if i < s.len() && s[i] != '\n' {
        lemma_next_newline(s, i + 1);
    }
}

/// One line as `str::lines` yields it: a line ended by a line feed loses a carriage return
/// before it.
pub open spec fn line_text(raw: Seq<char>, ended: bool) -> Seq<char> {
    if ended && raw.len() > 0 && raw.last() == '\r' {
        raw.drop_last()
    } else {
        raw
    }
}

/// The lines of `s` from position `i` on, as `str::lines` yields them (no empty line after a
/// final line feed).
pub open spec fn lines_from(s: Seq<char>, i: int) -> Seq<Seq<char>>
    decreases s.len() - i,
{
    if i < 0 || i >= s.len() {
        Seq::empty()
    } else {
        let j = next_newline(s, i);
        let line = line_text(s.subrange(i, j), j < s.len());
        if j >= s.len() {
            seq![line]
        } else {
            proof {
                lemma_next_newline(s, i);
            }
            seq![line] + lines_from(s, j + 1)
        }
    }
}

/// The lines of `s` (`str::lines`).
pub open spec fn lines_of(s: Seq<char>) -> Seq<Seq<char>> {
    lines_from(s, 0)
}

/// The text of a sequence of strings.
pub open spec fn strings_view(v: Seq<String>) -> Seq<Seq<char>> {
    v.map_values(|s: String| s@)
}

/// The lines of a text (`str::lines`).
pub fn split_lines(source: &str) -> (r: Vec<String>)
    ensures
        strings_view(r@) == lines_of(source@),
{
    let cs = chars_of(source);
    let mut out: Vec<String> = Vec::new();
    let mut i: usize = 0;
    proof {
        assert(strings_view(out@) + lines_from(cs@, 0) =~= lines_from(cs@, 0));
    }
    while i < cs.len()
        invariant
            cs@ == source@,
            i <= cs@.len(),
            strings_view(out@) + lines_from(cs@, i as int) == lines_of(source@),
        decreases cs@.len() - i,
    {
        let mut j: usize = i;
        while j < cs.len() && cs[j] != '\n'
            invariant
                i <= j <= cs@.len(),
                forall|k: int| i <= k < j ==> cs@[k] != '\n',
            decreases cs@.len() - j,
        {
            j = j + 1;
        }
        proof {
            lemma_next_newline(cs@, i as int);
            assert(next_newline(cs@, i as int) == j) by {
                let m = next_newline(cs@, i as int);
                if m < j {
                    assert(cs@[m] == '\n');
                }
                if j < m {
                    assert(cs@[j as int] == '\n');
                }
            }
        }
        let mut end = j;
        if j < cs.len() && j > i && cs[j - 1] == '\r' {
            end = j - 1;
        }
        let mut line: Vec<char> = Vec::new();
        let mut k: usize = i;
        while k < end
            invariant
                i <= k <= end,
                end <= cs@.len(),
                line@ == cs@.subrange(i as int, k as int),
            decreases end - k,
        {
            line.push(cs[k]);
            proof {
                assert(cs@.subrange(i as int, k + 1) =~= cs@.subrange(i as int, k as int).push(cs@[k as int]));
            }
            k = k + 1;
        }
        let text = string_from(line.as_slice());
        let ghost before = strings_view(out@);
        out.push(text);
        proof {
            let raw = cs@.subrange(i as int, j as int);
            assert(text@ == line_text(raw, j < cs@.len())) by {
                if j < cs@.len() && raw.len() > 0 && raw.last() == '\r' {
                    assert(raw.drop_last() =~= cs@.subrange(i as int, end as int));
                } else {
                    assert(raw =~= cs@.subrange(i as int, end as int));
                }
            }
            assert(strings_view(out@) =~= before.push(text@));
            if j >= cs.len() {
                assert(lines_from(cs@, i as int) == seq![text@]);
                assert(lines_from(cs@, j as int) =~= Seq::<Seq<char>>::empty());
            } else {
                assert(lines_from(cs@, i as int) == seq![text@] + lines_from(cs@, j + 1));
            }
        }
        if j >= cs.len() {
            i = j;
        } else {
            i = j + 1;
        }
        proof {
            assert(strings_view(out@) + lines_from(cs@, i as int) =~= lines_of(source@));
        }
    }
    proof {
        assert(lines_from(cs@, i as int) =~= Seq::<Seq<char>>::empty());
        assert(strings_view(out@) =~= strings_view(out@) + lines_from(cs@, i as int));
    }
    out
}

/// The first position of `--` at or after `k`.
pub open spec fn dashes_from(s: Seq<char>, k: int) -> Option<int>
    decreases s.len() - k,
{
    if k < 0 || k + 1 >= s.len() {
        None
    } else if s[k] == '-' && s[k + 1] == '-' {
        Some(k)
    } else {
        dashes_from(s, k + 1)
    }
}

/// The scope and declaration of a suppression comment: `//`, optional white space, then
/// `wae-ignore-file` (the whole file) or `wae-ignore` (the next line).
pub open spec fn declaration_of(line: Seq<char>) -> Option<(bool, Seq<char>)> {
    let t = trimmed_start(line);
    if !has_prefix(t, "//"@) {
        None
    } else {
        let c = trimmed_start(t.skip("//"@.len() as int));
        if has_prefix(c, "wae-ignore-file"@) {
            Some((true, c.skip("wae-ignore-file"@.len() as int)))
        } else if has_prefix(c, "wae-ignore"@) {
            Some((false, c.skip("wae-ignore"@.len() as int)))
        } else {
            None
        }
    }
}

/// A suppression comment: its scope, rule and reason (after `--`, else empty). The keyword must
/// end at white space or the end of the line.
pub open spec fn parse_directive(line: Seq<char>) -> Option<(bool, Seq<char>, Seq<char>)> {
    match declaration_of(line) {
        None => None,
        Some((file_scope, declaration)) => if declaration.len() > 0 && !is_space(declaration[0]) {
            None
        } else {
            let d = trimmed(declaration);
            match dashes_from(d, 0) {
                Some(k) => Some((file_scope, trimmed(d.take(k)), trimmed(d.skip(k + 2)))),
                None => Some((file_scope, d, Seq::empty())),
            }
        },
    }
}

/// The registry has a rule with this id.
pub open spec fn rule_known(rule: Seq<char>) -> bool {
    exists|i: int| 0 <= i < rule_table().len() && rule_table()[i].0 == rule
}

/// What is wrong with a suppression comment, if anything.
pub open spec fn complaint(rule: Seq<char>, reason: Seq<char>, require_reason: bool) -> Option<Seq<char>> {
    if !rule_known(rule) {
        Some("Suppression references unknown rule `"@ + rule + "`"@)
    } else if require_reason && reason.len() == 0 {
        Some("Suppression for `"@ + rule + "` requires a reason after `--`"@)
    } else {
        None
    }
}

/// A suppression directive as plain values: file, line, rule, reason, matches, file scope.
pub type DirectiveView = (Seq<char>, usize, Seq<char>, Seq<char>, usize, bool);

/// The directives that the first lines of a file declare without complaint.
pub open spec fn directives_in(file: Seq<char>, lines: Seq<Seq<char>>, require_reason: bool) -> Seq<DirectiveView>
    decreases lines.len(),
{
    if lines.len() == 0 {
        Seq::empty()
    } else {
        let prev = directives_in(file, lines.drop_last(), require_reason);
        match parse_directive(lines.last()) {
            Some((file_scope, rule, reason)) => if complaint(rule, reason, require_reason) is None {
                prev.push((file, lines.len() as usize, rule, reason, 0usize, file_scope))
            } else {
                prev
            },
            None => prev,
        }
    }
}

/// The complaints about the suppression comments of the first lines: line and message.
pub open spec fn complaints_in(lines: Seq<Seq<char>>, require_reason: bool) -> Seq<(usize, Seq<char>)>
    decreases lines.len(),
{
    if lines.len() == 0 {
        Seq::empty()
    } else {
        let prev = complaints_in(lines.drop_last(), require_reason);
        match parse_directive(lines.last()) {
            Some((file_scope, rule, reason)) => match complaint(rule, reason, require_reason) {
                Some(message) => prev.push((lines.len() as usize, message)),
                None => prev,
            },
            None => prev,
        }
    }
}

/// `d` is the suppression warning for `file`, `line` and `message`.
pub open spec fn warning_for(d: Diagnostic, file: Seq<char>, line: usize, message: Seq<char>) -> bool {
    &&& d.rule_id@ == "SUPPRESS-001"@
    &&& d.message@ == message
    &&& d.severity == Severity::Warning
    &&& d.primary_location matches Some(l) && l.file@ == file && l.line == line && l.column == 1
    &&& d.secondary_locations@.len() == 0
    &&& d.dependency_path@.len() == 0
    &&& d.suggestion is None
    &&& d.metadata.pairs().len() == 0
    &&& d.identity_target is None
    &&& !d.suppressed
    &&& d.suppression_reason is None
    &&& d.fingerprint@ == identity_fingerprint(d)
}

/// A suppression directive found in a source file.
#[derive(Clone, Debug)]
pub struct SuppressionDirective {
    pub file: String,
    pub line: usize,
    pub rule_id: String,
    pub reason: String,
    pub matched_count: usize,
    pub file_scope: bool,
}

impl View for SuppressionDirective {
    type V = DirectiveView;

    open spec fn view(&self) -> DirectiveView {
        (self.file@, self.line, self.rule_id@, self.reason@, self.matched_count, self.file_scope)
    }
}

/// The views of a sequence of directives.
pub open spec fn directive_views(v: Seq<SuppressionDirective>) -> Seq<DirectiveView> {
    v.map_values(|d: SuppressionDirective| d@)
}

/// The suppression warning for a location.
pub fn warning(file: &str, line: usize, message: &str) -> (r: Diagnostic)
    ensures
        warning_for(r, file@, line, message@),
{
    let mut diagnostic = Diagnostic::new("SUPPRESS-001", message);
    diagnostic.severity = Severity::Warning;
    diagnostic.primary_location = Some(SourceLocation { file: owned(file), line, column: 1 });
    diagnostic.refresh_fingerprint();
    diagnostic
}

/// The suppression comment of one line, if it is one.
fn read_directive(line: &str) -> (r: Option<(bool, String, String)>)
    ensures
        match r {
            Some((file_scope, rule, reason)) => parse_directive(line@) == Some((file_scope, rule@, reason@)),
            None => parse_directive(line@) is None,
        },
{
    let t = trim_start(line);
    let after = match strip_prefix(t.as_str(), "//") {
        Some(rest) => rest,
        None => return None,
    };
    let comment = trim_start(after.as_str());
    let (file_scope, declaration) = match strip_prefix(comment.as_str(), "wae-ignore-file") {
        Some(rest) => (true, rest),
        None => match strip_prefix(comment.as_str(), "wae-ignore") {
            Some(rest) => (false, rest),
            None => return None,
        },
    };
    let dc = chars_of(declaration.as_str());
    if dc.len() > 0 && !space(dc[0]) {
        return None;
    }
    let d = trim(declaration.as_str());
    let cs = chars_of(d.as_str());
    let mut k: usize = 0;
    while k < cs.len() && k + 1 < cs.len() && !(cs[k] == '-' && cs[k + 1] == '-')
        invariant
            cs@ == d@,
            k <= cs@.len(),
            dashes_from(d@, 0) == dashes_from(d@, k as int),
        decreases cs@.len() - k,
    {
        k = k + 1;
    }
    if k < cs.len() && k + 1 < cs.len() {
        let mut head: Vec<char> = Vec::new();
        let mut i: usize = 0;
        while i < k
            invariant
                i <= k,
                k < cs@.len(),
                head@ == cs@.take(i as int),
            decreases k - i,
        {
            head.push(cs[i]);
            proof {
                assert(cs@.take(i + 1) =~= cs@.take(i as int).push(cs@[i as int]));
            }
            i = i + 1;
        }
        let mut tail: Vec<char> = Vec::new();
        let mut j: usize = k + 2;
        while j < cs.len()
            invariant
                k + 2 <= j <= cs@.len(),
                tail@ == cs@.subrange(k + 2, j as int),
            decreases cs@.len() - j,
        {
            tail.push(cs[j]);
            proof {
                assert(cs@.subrange(k + 2, j + 1) =~= cs@.subrange(k + 2, j as int).push(cs@[j as int]));
            }
            j = j + 1;
        }
        proof {
            assert(cs@.subrange(k + 2, j as int) =~= cs@.skip(k + 2));
        }
        let rule = trim(string_from(head.as_slice()).as_str());
        let reason = trim(string_from(tail.as_slice()).as_str());
        Some((file_scope, rule, reason))
    } else {
        Some((file_scope, d, String::new()))
    }
}

/// Reads the suppression comments of a source file: each standalone `//` comment naming a known
/// rule (and a reason when one is required) becomes a directive; each other suppression comment
/// becomes a warning. Text inside strings, templates or trailing comments is never a directive.
pub fn collect(
    file: &str,
    source: &str,
    require_reason: bool,
    directives: &mut Vec<SuppressionDirective>,
    diagnostics: &mut Vec<Diagnostic>,
)
    ensures
        directive_views(final(directives)@) == directive_views(old(directives)@) + directives_in(file@, lines_of(source@), require_reason),
        final(diagnostics)@.len() == old(diagnostics)@.len() + complaints_in(lines_of(source@), require_reason).len(),
        forall|i: int| 0 <= i < old(diagnostics)@.len() ==> final(diagnostics)@[i] == old(diagnostics)@[i],
        forall|i: int| 0 <= i < complaints_in(lines_of(source@), require_reason).len() ==> warning_for(
            #[trigger] final(diagnostics)@[old(diagnostics)@.len() + i],
            file@,
            complaints_in(lines_of(source@), require_reason)[i].0,
            complaints_in(lines_of(source@), require_reason)[i].1,
        ),
{
    let lines = split_lines(source);
    let ghost ls = lines_of(source@);
    let ghost d0 = directive_views(directives@);
    let ghost g0 = diagnostics@;
    let mut index: usize = 0;
    proof {
        assert(ls.take(0) =~= Seq::<Seq<char>>::empty());
        assert(directive_views(directives@) =~= d0 + directives_in(file@, ls.take(0), require_reason));
    }
    while index < lines.len()
        invariant
            strings_view(lines@) == ls,
            ls == lines_of(source@),
            index <= lines@.len(),
            directive_views(directives@) == d0 + directives_in(file@, ls.take(index as int), require_reason),
            diagnostics@.len() == g0.len() + complaints_in(ls.take(index as int), require_reason).len(),
            forall|i: int| 0 <= i < g0.len() ==> diagnostics@[i] == g0[i],
            forall|i: int| 0 <= i < complaints_in(ls.take(index as int), require_reason).len() ==> warning_for(
                #[trigger] diagnostics@[g0.len() + i],
                file@,
                complaints_in(ls.take(index as int), require_reason)[i].0,
                complaints_in(ls.take(index as int), require_reason)[i].1,
            ),
        decreases lines@.len() - index,
    {
        let ghost p = ls.take(index as int);
        let ghost p1 = ls.take(index + 1);
        proof {
            assert(p1.drop_last() =~= p);
            assert(p1.last() == ls[index as int]);
            assert(ls[index as int] == lines@[index as int]@);
            assert(p1.len() == index + 1);
        }
        let line_number = index + 1;
        let ghost dv = directive_views(directives@);
        let ghost gv = diagnostics@;
        match read_directive(lines[index].as_str()) {
            Some((file_scope, rule, reason)) => {
                let known = descriptor(rule.as_str()).is_some();
                let missing_reason = require_reason && chars_of(reason.as_str()).len() == 0;
                if !known {
                    let message = concat(concat("Suppression references unknown rule `", rule.as_str()).as_str(), "`");
                    diagnostics.push(warning(file, line_number, message.as_str()));
                } else if missing_reason {
                    let message = concat(concat("Suppression for `", rule.as_str()).as_str(), "` requires a reason after `--`");
                    diagnostics.push(warning(file, line_number, message.as_str()));
                } else {
                    directives.push(SuppressionDirective {
                        file: owned(file),
                        line: line_number,
                        rule_id: rule,
                        reason,
                        matched_count: 0,
                        file_scope,
                    });
                }
                proof {
                    assert(known == rule_known(rule@));
                    let c = complaint(rule@, reason@, require_reason);
                    if c is Some {
                        assert(directive_views(directives@) == dv);
                        assert(complaints_in(p1, require_reason) == complaints_in(p, require_reason).push((line_number, c->0)));
                        assert forall|i: int| 0 <= i < complaints_in(p1, require_reason).len() implies warning_for(
                            #[trigger] diagnostics@[g0.len() + i],
                            file@,
                            complaints_in(p1, require_reason)[i].0,
                            complaints_in(p1, require_reason)[i].1,
                        ) by {
                            if i < complaints_in(p, require_reason).len() {
                                assert(diagnostics@[g0.len() + i] == gv[g0.len() + i]);
                            }
                        }
                    } else {
                        assert(directive_views(directives@) =~= dv.push((file@, line_number, rule@, reason@, 0usize, file_scope)));
                        assert(complaints_in(p1, require_reason) == complaints_in(p, require_reason));
                    }
                }
            },
            None => {
                proof {
                    assert(complaints_in(p1, require_reason) == complaints_in(p, require_reason));
                    assert(directives_in(file@, p1, require_reason) == directives_in(file@, p, require_reason));
                }
            },
        }
        index = index + 1;
    }
    proof {
        assert(ls.take(index as int) =~= ls);
    }
}


/// The first directive from position `k` on for `file` and `rule` with the given scope (and, for
/// a line directive, the given line).
pub open spec fn first_match(dirs: Seq<DirectiveView>, file: Seq<char>, rule: Seq<char>, file_scope: bool, line: int, k: int) -> Option<int>
    decreases dirs.len() - k,
{
    if k < 0 || k >= dirs.len() {
        None
    } else if dirs[k].0 == file && dirs[k].2 == rule && dirs[k].5 == file_scope && (file_scope || dirs[k].1 == line) {
        Some(k)
    } else {
        first_match(dirs, file, rule, file_scope, line, k + 1)
    }
}

/// The directive that suppresses a diagnostic with a primary location: the first file directive
/// for its file and rule, else the first line directive for its line, else for the line before.
pub open spec fn suppressor(dirs: Seq<DirectiveView>, d: Diagnostic) -> Option<int> {
    match d.primary_location {
        None => None,
        Some(l) => {
            let f = first_match(dirs, l.file@, d.rule_id@, true, 0, 0);
            if f is Some {
                f
            } else {
                let e = first_match(dirs, l.file@, d.rule_id@, false, l.line as int, 0);
                if e is Some {
                    e
                } else if l.line >= 1 {
                    first_match(dirs, l.file@, d.rule_id@, false, l.line - 1, 0)
                } else {
                    None
                }
            }
        },
    }
}

/// How many of the diagnostics directive `k` suppresses.
pub open spec fn matches_of(dirs: Seq<DirectiveView>, diags: Seq<Diagnostic>, k: int) -> int
    decreases diags.len(),
{
    if diags.len() == 0 {
        0
    } else {
        matches_of(dirs, diags.drop_last(), k) + if suppressor(dirs, diags.last()) == Some(k) { 1int } else { 0int }
    }
}

/// A diagnostic after suppression: marked with the reason of its suppressor, if any.
pub open spec fn suppressed_as(after: Diagnostic, before: Diagnostic, dirs: Seq<DirectiveView>) -> bool {
    match suppressor(dirs, before) {
        Some(k) => {
            &&& after.suppressed
            &&& after.suppression_reason matches Some(r) && r@ == dirs[k].3
            &&& after == (Diagnostic { suppressed: after.suppressed, suppression_reason: after.suppression_reason, ..before })
        },
        None => after == before,
    }
}

/// The directives that matched nothing, as warnings: file, line and message.
pub open spec fn unused_warnings(dirs: Seq<DirectiveView>) -> Seq<(Seq<char>, usize, Seq<char>)>
    decreases dirs.len(),
{
    if dirs.len() == 0 {
        Seq::empty()
    } else {
        let prev = unused_warnings(dirs.drop_last());
        let d = dirs.last();
        if d.4 == 0 {
            prev.push((d.0, d.1, "Unused suppression for `"@ + d.2 + "`"@))
        } else {
            prev
        }
    }
}

/// Directives that agree on everything but their match counts.
pub open spec fn same_keys(a: Seq<DirectiveView>, b: Seq<DirectiveView>) -> bool {
    &&& a.len() == b.len()
    &&& forall|k: int| 0 <= k < a.len() ==> {
        &&& (#[trigger] a[k]).0 == b[k].0
        &&& a[k].1 == b[k].1
        &&& a[k].2 == b[k].2
        &&& a[k].3 == b[k].3
        &&& a[k].5 == b[k].5
    }
}

proof fn lemma_first_match_keys(a: Seq<DirectiveView>, b: Seq<DirectiveView>, file: Seq<char>, rule: Seq<char>, file_scope: bool, line: int, k: int)
    requires
        same_keys(a, b),
    ensures
        first_match(a, file, rule, file_scope, line, k) == first_match(b, file, rule, file_scope, line, k),
    decreases a.len() - k,
{
    if 0 <= k < a.len() {
        assert(a[k].0 == b[k].0);
        lemma_first_match_keys(a, b, file, rule, file_scope, line, k + 1);
    }
}

proof fn lemma_suppressor_keys(a: Seq<DirectiveView>, b: Seq<DirectiveView>, d: Diagnostic)
    requires
        same_keys(a, b),
    ensures
        suppressor(a, d) == suppressor(b, d),
{
    match d.primary_location {
        Some(l) => {
            lemma_first_match_keys(a, b, l.file@, d.rule_id@, true, 0, 0);
            lemma_first_match_keys(a, b, l.file@, d.rule_id@, false, l.line as int, 0);
            if l.line >= 1 {
                lemma_first_match_keys(a, b, l.file@, d.rule_id@, false, l.line - 1, 0);
            }
        },
        None => {},
    }
}

proof fn lemma_first_match_range(dirs: Seq<DirectiveView>, file: Seq<char>, rule: Seq<char>, file_scope: bool, line: int, k: int)
    ensures
        first_match(dirs, file, rule, file_scope, line, k) matches Some(m) ==> 0 <= m < dirs.len(),
    decreases dirs.len() - k,
{
    if 0 <= k < dirs.len() {
        lemma_first_match_range(dirs, file, rule, file_scope, line, k + 1);
    }
}

proof fn lemma_suppressor_range(dirs: Seq<DirectiveView>, d: Diagnostic)
    ensures
        suppressor(dirs, d) matches Some(m) ==> 0 <= m < dirs.len(),
{
    match d.primary_location {
        Some(l) => {
            lemma_first_match_range(dirs, l.file@, d.rule_id@, true, 0, 0);
            lemma_first_match_range(dirs, l.file@, d.rule_id@, false, l.line as int, 0);
            if l.line >= 1 {
                lemma_first_match_range(dirs, l.file@, d.rule_id@, false, l.line - 1, 0);
            }
        },
        None => {},
    }
}

/// The first directive from `k` on with the given file, rule and scope (and line).
fn find_directive(directives: &Vec<SuppressionDirective>, file: &str, rule: &str, file_scope: bool, line: usize) -> (r: Option<usize>)
    ensures
        match r {
            Some(k) => first_match(directive_views(directives@), file@, rule@, file_scope, line as int, 0) == Some(k as int),
            None => first_match(directive_views(directives@), file@, rule@, file_scope, line as int, 0) is None,
        },
{
    let ghost dv = directive_views(directives@);
    let mut k: usize = 0;
    while k < directives.len()
        invariant
            dv == directive_views(directives@),
            k <= dv.len(),
            first_match(dv, file@, rule@, file_scope, line as int, 0) == first_match(dv, file@, rule@, file_scope, line as int, k as int),
        decreases dv.len() - k,
    {
        let d = &directives[k];
        proof {
            assert(dv[k as int] == d@);
        }
        if d.file_scope == file_scope && text_equal(d.file.as_str(), file) && text_equal(d.rule_id.as_str(), rule)
            && (file_scope || d.line == line) {
            return Some(k);
        }
        k = k + 1;
    }
    None
}

/// The directive that suppresses a diagnostic (see `suppressor`).
fn find_suppressor(directives: &Vec<SuppressionDirective>, diagnostic: &Diagnostic) -> (r: Option<usize>)
    ensures
        match r {
            Some(k) => suppressor(directive_views(directives@), *diagnostic) == Some(k as int),
            None => suppressor(directive_views(directives@), *diagnostic) is None,
        },
{
    match &diagnostic.primary_location {
        None => None,
        Some(location) => {
            let file = location.file.as_str();
            let rule = diagnostic.rule_id.0.as_str();
            match find_directive(directives, file, rule, true, 0) {
                Some(k) => Some(k),
                None => match find_directive(directives, file, rule, false, location.line) {
                    Some(k) => Some(k),
                    None => if location.line >= 1 {
                        find_directive(directives, file, rule, false, location.line - 1)
                    } else {
                        None
                    },
                },
            }
        },
    }
}

/// Marks each diagnostic that a directive covers as suppressed with the directive's reason and
/// counts the directive's matches; then, when `report_unused` holds, adds a warning for each
/// directive that matched nothing.
pub fn apply(diagnostics: &mut Vec<Diagnostic>, directives: &mut Vec<SuppressionDirective>, report_unused: bool)
    requires
        forall|k: int| 0 <= k < old(directives)@.len() ==> old(directives)@[k].matched_count + old(diagnostics)@.len() <= usize::MAX,
    ensures
        same_keys(directive_views(final(directives)@), directive_views(old(directives)@)),
        forall|k: int| 0 <= k < final(directives)@.len() ==> #[trigger] final(directives)@[k].matched_count
            == old(directives)@[k].matched_count + matches_of(directive_views(old(directives)@), old(diagnostics)@, k),
        final(diagnostics)@.len() == old(diagnostics)@.len() + if report_unused {
            unused_warnings(directive_views(final(directives)@)).len()
        } else {
            0
        },
        forall|i: int| 0 <= i < old(diagnostics)@.len() ==> suppressed_as(
            #[trigger] final(diagnostics)@[i],
            old(diagnostics)@[i],
            directive_views(old(directives)@),
        ),
        report_unused ==> forall|i: int| 0 <= i < unused_warnings(directive_views(final(directives)@)).len() ==> warning_for(
            #[trigger] final(diagnostics)@[old(diagnostics)@.len() + i],
            unused_warnings(directive_views(final(directives)@))[i].0,
            unused_warnings(directive_views(final(directives)@))[i].1,
            unused_warnings(directive_views(final(directives)@))[i].2,
        ),
{
    let ghost dirs0 = directive_views(directives@);
    let ghost diags0 = diagnostics@;
    let ghost raw0 = directives@;
    let n = diagnostics.len();
    let mut i: usize = 0;
    proof {
        assert(diags0.take(0) =~= Seq::<Diagnostic>::empty());
    }
    while i < n
        invariant
            n == diags0.len(),
            diagnostics@.len() == n,
            i <= n,
            same_keys(directive_views(directives@), dirs0),
            dirs0 == directive_views(raw0),
            forall|k: int| 0 <= k < raw0.len() ==> raw0[k].matched_count + diags0.len() <= usize::MAX,
            forall|k: int| 0 <= k < directives@.len() ==> #[trigger] directives@[k].matched_count
                == raw0[k].matched_count + matches_of(dirs0, diags0.take(i as int), k),
            forall|k: int| 0 <= k < directives@.len() ==> matches_of(dirs0, diags0.take(i as int), k) <= i,
            forall|m: int| 0 <= m < i ==> suppressed_as(#[trigger] diagnostics@[m], diags0[m], dirs0),
            forall|m: int| i <= m < n ==> #[trigger] diagnostics@[m] == diags0[m],
        decreases n - i,
    {
        let ghost t0 = diags0.take(i as int);
        let ghost t1 = diags0.take(i + 1);
        proof {
            assert(t1.drop_last() =~= t0);
            assert(t1.last() == diags0[i as int]);
            lemma_suppressor_keys(directive_views(directives@), dirs0, diags0[i as int]);
            lemma_suppressor_range(dirs0, diags0[i as int]);
            assert(diagnostics@[i as int] == diags0[i as int]);
        }
        let found = find_suppressor(directives, &diagnostics[i]);
        match found {
            Some(k) => {
                let ghost before = directives@;
                let count = directives[k].matched_count;
                proof {
                    assert(count == raw0[k as int].matched_count + matches_of(dirs0, t0, k as int));
                }
                let reason = directives[k].reason.clone();
                let mut updated = SuppressionDirective {
                    file: directives[k].file.clone(),
                    line: directives[k].line,
                    rule_id: directives[k].rule_id.clone(),
                    reason: directives[k].reason.clone(),
                    matched_count: count + 1,
                    file_scope: directives[k].file_scope,
                };
                directives.set(k, updated);
                let ghost dbefore = diagnostics@;
                let mut diagnostic = diagnostics.remove(i);
                diagnostic.suppressed = true;
                diagnostic.suppression_reason = Some(reason);
                diagnostics.insert(i, diagnostic);
                proof {
                    assert forall|m: int| 0 <= m < diagnostics@.len() && m != i implies #[trigger] diagnostics@[m] == dbefore[m] by {
                        if m < i {
                            assert(diagnostics@[m] == dbefore.remove(i as int)[m]);
                        } else {
                            assert(diagnostics@[m] == dbefore.remove(i as int)[m - 1]);
                        }
                    }
                    assert(same_keys(directive_views(directives@), dirs0)) by {
                        assert forall|q: int| 0 <= q < directives@.len() implies {
                            &&& (#[trigger] directive_views(directives@)[q]).0 == dirs0[q].0
                            &&& directive_views(directives@)[q].1 == dirs0[q].1
                            &&& directive_views(directives@)[q].2 == dirs0[q].2
                            &&& directive_views(directives@)[q].3 == dirs0[q].3
                            &&& directive_views(directives@)[q].5 == dirs0[q].5
                        } by {
                            assert(directive_views(before)[q].0 == dirs0[q].0);
                        }
                    }
                    assert forall|q: int| 0 <= q < directives@.len() implies #[trigger] directives@[q].matched_count
                        == raw0[q].matched_count + matches_of(dirs0, t1, q) by {
                        if q != k {
                            assert(directives@[q] == before[q]);
                        }
                    }
                    assert(suppressor(dirs0, diags0[i as int]) == Some(k as int));
                    assert(dirs0[k as int].3 == directive_views(before)[k as int].3);
                    assert(suppressed_as(diagnostics@[i as int], diags0[i as int], dirs0));
                    assert forall|m: int| 0 <= m < i + 1 implies suppressed_as(#[trigger] diagnostics@[m], diags0[m], dirs0) by {
                        if m < i {
                            assert(diagnostics@[m] == dbefore[m]);
                        }
                    }
                }
            },
            None => {
                proof {
                    assert forall|q: int| 0 <= q < directives@.len() implies #[trigger] directives@[q].matched_count
                        == raw0[q].matched_count + matches_of(dirs0, t1, q) by {
                    }
                    assert(suppressed_as(diagnostics@[i as int], diags0[i as int], dirs0));
                }
            },
        }
        proof {
            assert forall|q: int| 0 <= q < directives@.len() implies matches_of(dirs0, t1, q) <= i + 1 by {
                assert(matches_of(dirs0, t0, q) <= i);
            }
        }
        i = i + 1;
    }
    proof {
        assert(diags0.take(n as int) =~= diags0);
    }
    if report_unused {
        let ghost fin = directive_views(directives@);
        let ghost base = diagnostics@;
        let mut k: usize = 0;
        proof {
            assert(fin.take(0) =~= Seq::<DirectiveView>::empty());
        }
        while k < directives.len()
            invariant
                fin == directive_views(directives@),
                k <= fin.len(),
                diagnostics@.len() == base.len() + unused_warnings(fin.take(k as int)).len(),
                forall|m: int| 0 <= m < base.len() ==> #[trigger] diagnostics@[m] == base[m],
                forall|m: int| 0 <= m < unused_warnings(fin.take(k as int)).len() ==> warning_for(
                    #[trigger] diagnostics@[base.len() + m],
                    unused_warnings(fin.take(k as int))[m].0,
                    unused_warnings(fin.take(k as int))[m].1,
                    unused_warnings(fin.take(k as int))[m].2,
                ),
            decreases fin.len() - k,
        {
            let ghost p = fin.take(k as int);
            let ghost p1 = fin.take(k + 1);
            proof {
                assert(p1.drop_last() =~= p);
                assert(p1.last() == fin[k as int]);
            }
            let directive = &directives[k];
            let ghost dv = diagnostics@;
            if directive.matched_count == 0 {
                let message = concat(concat("Unused suppression for `", directive.rule_id.as_str()).as_str(), "`");
                diagnostics.push(warning(directive.file.as_str(), directive.line, message.as_str()));
                proof {
                    assert(unused_warnings(p1) == unused_warnings(p).push((fin[k as int].0, fin[k as int].1, message@)));
                    assert forall|m: int| 0 <= m < unused_warnings(p1).len() implies warning_for(
                        #[trigger] diagnostics@[base.len() + m],
                        unused_warnings(p1)[m].0,
                        unused_warnings(p1)[m].1,
                        unused_warnings(p1)[m].2,
                    ) by {
                        if m < unused_warnings(p).len() {
                            assert(diagnostics@[base.len() + m] == dv[base.len() + m]);
                        }
                    }
                }
            } else {
                proof {
                    assert(unused_warnings(p1) == unused_warnings(p));
                }
            }
            k = k + 1;
        }
        proof {
            assert(fin.take(k as int) =~= fin);
        }
    }
}

/// The first fingerprint suppression naming the diagnostic's fingerprint or one of its legacy
/// fingerprints.
pub open spec fn fingerprint_entry(prints: Seq<FingerprintSuppression>, d: Diagnostic) -> Option<int> {
    if exists|k: int| 0 <= k < prints.len() && names_diagnostic(#[trigger] prints[k], d) {
        Some(choose|k: int| 0 <= k < prints.len() && names_diagnostic(#[trigger] prints[k], d) && forall|m: int| 0 <= m < k ==> !names_diagnostic(#[trigger] prints[m], d))
    } else {
        None
    }
}

/// The suppression names the diagnostic by its fingerprint or a legacy one.
pub open spec fn names_diagnostic(e: FingerprintSuppression, d: Diagnostic) -> bool {
    e.fingerprint@ == d.fingerprint@ || legacy_aliases(d).contains(e.fingerprint@)
}

/// The files a diagnostic concerns: its primary location, then the modules of its path.
pub open spec fn diagnostic_files(d: Diagnostic) -> Seq<Seq<char>> {
    let primary = match d.primary_location {
        Some(l) => seq![l.file@],
        None => Seq::empty(),
    };
    primary + d.dependency_path@.map_values(|m: ModuleId| m@)
}

/// The path suppression lists the diagnostic's rule and its glob matches one of its files.
pub open spec fn covers_diagnostic(e: PathSuppression, d: Diagnostic) -> bool {
    texts_of(e.rules@).contains(d.rule_id@) && exists|f: int|
        0 <= f < diagnostic_files(d).len() && plain_glob_hits(e.pattern@, #[trigger] diagnostic_files(d)[f])
}

/// The first path suppression covering the diagnostic.
pub open spec fn path_entry(paths: Seq<PathSuppression>, d: Diagnostic) -> Option<int> {
    if exists|k: int| 0 <= k < paths.len() && covers_diagnostic(#[trigger] paths[k], d) {
        Some(choose|k: int| 0 <= k < paths.len() && covers_diagnostic(#[trigger] paths[k], d) && forall|m: int| 0 <= m < k ==> !covers_diagnostic(#[trigger] paths[m], d))
    } else {
        None
    }
}

/// `after` is `before` marked suppressed with `reason`.
pub open spec fn marked(after: Diagnostic, before: Diagnostic, reason: Seq<char>) -> bool {
    &&& after.suppressed
    &&& after.suppression_reason matches Some(r) && r@ == reason
    &&& after == (Diagnostic { suppressed: after.suppressed, suppression_reason: after.suppression_reason, ..before })
}

/// What the configured suppressions do to a diagnostic: one already suppressed stays as it is;
/// else the first fingerprint entry naming it, or failing that the first path entry covering it,
/// suppresses it with the entry's reason.
pub open spec fn config_suppressed_as(after: Diagnostic, before: Diagnostic, config: SuppressionConfig) -> bool {
    if before.suppressed {
        after == before
    } else {
        match fingerprint_entry(config.fingerprints@, before) {
            Some(k) => marked(after, before, config.fingerprints@[k].reason@),
            None => match path_entry(config.paths@, before) {
                Some(k) => marked(after, before, config.paths@[k].reason@),
                None => after == before,
            },
        }
    }
}

fn names_diagnostic_of(e: &FingerprintSuppression, d: &Diagnostic, aliases: &Vec<String>) -> (r: bool)
    requires
        texts_of(aliases@) == legacy_aliases(*d),
    ensures
        r == names_diagnostic(*e, *d),
{
    text_equal(e.fingerprint.as_str(), d.fingerprint.as_str()) || texts_contain(aliases, e.fingerprint.as_str())
}

fn find_fingerprint_entry(prints: &Vec<FingerprintSuppression>, d: &Diagnostic) -> (r: Option<usize>)
    ensures
        match r {
            Some(k) => fingerprint_entry(prints@, *d) == Some(k as int) && k < prints@.len(),
            None => fingerprint_entry(prints@, *d) is None,
        },
{
    let aliases = d.legacy_fingerprint_aliases();
    let mut k: usize = 0;
    while k < prints.len()
        invariant
            k <= prints@.len(),
            texts_of(aliases@) == legacy_aliases(*d),
            forall|m: int| 0 <= m < k ==> !names_diagnostic(#[trigger] prints@[m], *d),
        decreases prints@.len() - k,
    {
        if names_diagnostic_of(&prints[k], d, &aliases) {
            return Some(k);
        }
        k = k + 1;
    }
    None
}

fn covers_diagnostic_of(e: &PathSuppression, d: &Diagnostic) -> (r: bool)
    ensures
        r == covers_diagnostic(*e, *d),
{
    if !texts_contain(&e.rules, d.rule_id.0.as_str()) {
        return false;
    }
    let ghost files = diagnostic_files(*d);
    match &d.primary_location {
        Some(l) => {
            if plain_glob_hit(e.pattern.as_str(), l.file.as_str()) {
                assert(files[0] == l.file@);
                return true;
            }
        },
        None => {},
    }
    let offset: usize = if d.primary_location.is_some() {
        1
    } else {
        0
    };
    let mut k: usize = 0;
    while k < d.dependency_path.len()
        invariant
            k <= d.dependency_path@.len(),
            files == diagnostic_files(*d),
            offset as int == files.len() - d.dependency_path@.len(),
            texts_of(e.rules@).contains(d.rule_id@),
            forall|f: int| 0 <= f < offset + k ==> !plain_glob_hits(e.pattern@, #[trigger] files[f]),
        decreases d.dependency_path@.len() - k,
    {
        assert(files[offset + k] == d.dependency_path@[k as int]@);
        if plain_glob_hit(e.pattern.as_str(), d.dependency_path[k].0.as_str()) {
            return true;
        }
        k = k + 1;
    }
    false
}

fn find_path_entry(paths: &Vec<PathSuppression>, d: &Diagnostic) -> (r: Option<usize>)
    ensures
        match r {
            Some(k) => path_entry(paths@, *d) == Some(k as int) && k < paths@.len(),
            None => path_entry(paths@, *d) is None,
        },
{
    let mut k: usize = 0;
    while k < paths.len()
        invariant
            k <= paths@.len(),
            forall|m: int| 0 <= m < k ==> !covers_diagnostic(#[trigger] paths@[m], *d),
        decreases paths@.len() - k,
    {
        if covers_diagnostic_of(&paths[k], d) {
            return Some(k);
        }
        k = k + 1;
    }
    None
}

/// The diagnostic after the configured suppressions (see `config_suppressed_as`).
fn suppress_by_config(d: Diagnostic, config: &SuppressionConfig) -> (r: Diagnostic)
    ensures
        config_suppressed_as(r, d, *config),
{
    if d.suppressed {
        return d;
    }
    let reason = match find_fingerprint_entry(&config.fingerprints, &d) {
        Some(k) => Some(config.fingerprints[k].reason.clone()),
        None => match find_path_entry(&config.paths, &d) {
            Some(k) => Some(config.paths[k].reason.clone()),
            None => None,
        },
    };
    match reason {
        Some(reason) => {
            let mut diagnostic = d;
            diagnostic.suppressed = true;
            diagnostic.suppression_reason = Some(reason);
            diagnostic
        },
        None => d,
    }
}

/// Applies the configured suppressions to each diagnostic (see `config_suppressed_as`).
pub fn apply_config(diagnostics: &mut Vec<Diagnostic>, config: &SuppressionConfig)
    ensures
        final(diagnostics)@.len() == old(diagnostics)@.len(),
        forall|i: int|
            0 <= i < old(diagnostics)@.len() ==> config_suppressed_as(
                #[trigger] final(diagnostics)@[i],
                old(diagnostics)@[i],
                *config,
            ),
{
    let ghost start = diagnostics@;
    let n = diagnostics.len();
    let mut i: usize = 0;
    while i < n
        invariant
            n == start.len(),
            diagnostics@.len() == n,
            i <= n,
            forall|m: int| 0 <= m < i ==> config_suppressed_as(#[trigger] diagnostics@[m], start[m], *config),
            forall|m: int| i <= m < n ==> #[trigger] diagnostics@[m] == start[m],
        decreases n - i,
    {
        let ghost before = diagnostics@;
        let diagnostic = diagnostics.remove(i);
        let updated = suppress_by_config(diagnostic, config);
        diagnostics.insert(i, updated);
        proof {
            assert forall|m: int| 0 <= m < n && m != i implies #[trigger] diagnostics@[m] == before[m] by {
                if m < i {
                    assert(diagnostics@[m] == before.remove(i as int)[m]);
                } else {
                    assert(diagnostics@[m] == before.remove(i as int)[m - 1]);
                }
            }
            assert(diagnostics@[i as int] == updated);
        }
        i = i + 1;
    }
}


/// A path suppression covers a diagnostic exactly when it lists the diagnostic's rule and its glob
/// matches the primary file or any module of the dependency path.
pub proof fn lemma_path_suppression_covers(e: PathSuppression, d: Diagnostic)
    ensures
        covers_diagnostic(e, d) <==> texts_of(e.rules@).contains(d.rule_id@) && ((d.primary_location matches Some(l)
            && plain_glob_hits(e.pattern@, l.file@)) || exists|k: int|
            0 <= k < d.dependency_path@.len() && plain_glob_hits(e.pattern@, #[trigger] d.dependency_path@[k]@)),
{
    let files = diagnostic_files(d);
    let off: int = if d.primary_location is Some { 1 } else { 0 };
    assert(files.len() == off + d.dependency_path@.len());
    if covers_diagnostic(e, d) {
        let f = choose|f: int| 0 <= f < files.len() && plain_glob_hits(e.pattern@, #[trigger] files[f]);
        if f >= off {
            assert(files[f] == d.dependency_path@[f - off]@);
        } else {
            assert(files[0] == d.primary_location->0.file@);
        }
    }
    if d.primary_location is Some {
        assert(files[0] == d.primary_location->0.file@);
    }
    if exists|k: int| 0 <= k < d.dependency_path@.len() && plain_glob_hits(e.pattern@, #[trigger] d.dependency_path@[k]@) {
        let k = choose|k: int| 0 <= k < d.dependency_path@.len() && plain_glob_hits(e.pattern@, #[trigger] d.dependency_path@[k]@);
        assert(files[off + k] == d.dependency_path@[k]@);
    }
}

/// A diagnostic not yet suppressed, and named by no fingerprint entry, ends up suppressed by the
/// configured suppressions when a path entry lists its rule and its glob matches any module of
/// its dependency path (or its primary file); the reason is that of this entry or of an earlier
/// path entry.
#[verifier::spinoff_prover]
pub proof fn lemma_path_suppression_applies(after: Diagnostic, before: Diagnostic, config: SuppressionConfig, k: int)
    requires
        config_suppressed_as(after, before, config),
        !before.suppressed,
        fingerprint_entry(config.fingerprints@, before) is None,
        0 <= k < config.paths@.len(),
        texts_of(config.paths@[k].rules@).contains(before.rule_id@),
        (before.primary_location matches Some(l) && plain_glob_hits(config.paths@[k].pattern@, l.file@)) || exists|j: int|
            0 <= j < before.dependency_path@.len() && plain_glob_hits(
                config.paths@[k].pattern@,
                #[trigger] before.dependency_path@[j]@,
            ),
    ensures
        after.suppressed,
        exists|m: int| 0 <= m <= k && (after.suppression_reason matches Some(r) && r@ == (#[trigger] config.paths@[m]).reason@),
{
    lemma_path_suppression_covers(config.paths@[k], before);
    lemma_path_entry_at_most(config.paths@, before, k);
    let m = path_entry(config.paths@, before)->0;
    assert(marked(after, before, config.paths@[m].reason@));
}

/// The first path entry covering a diagnostic comes no later than any entry covering it.
proof fn lemma_path_entry_at_most(paths: Seq<PathSuppression>, d: Diagnostic, k: int)
    requires
        0 <= k < paths.len(),
        covers_diagnostic(paths[k], d),
    ensures
        path_entry(paths, d) matches Some(m) && 0 <= m <= k,
{
    lemma_first_cover(paths, d, 0, k);
    let m = path_entry(paths, d)->0;
    if m > k {
        assert(!covers_diagnostic(paths[k], d));
    }
}

proof fn lemma_first_cover(paths: Seq<PathSuppression>, d: Diagnostic, q: int, k: int)
    requires
        0 <= q <= k < paths.len(),
        covers_diagnostic(paths[k], d),
        forall|j: int| 0 <= j < q ==> !covers_diagnostic(#[trigger] paths[j], d),
    ensures
        exists|m: int|
            0 <= m < paths.len() && covers_diagnostic(#[trigger] paths[m], d) && forall|j: int|
                0 <= j < m ==> !covers_diagnostic(#[trigger] paths[j], d),
    decreases k - q,
{
    if covers_diagnostic(paths[q], d) {
        assert(0 <= q < paths.len() && covers_diagnostic(paths[q], d) && forall|j: int|
            0 <= j < q ==> !covers_diagnostic(#[trigger] paths[j], d));
    } else {
        lemma_first_cover(paths, d, q + 1, k);
    }
}


/// A directive matching `file`, `rule`, the scope and (for a line directive) the line.
pub open spec fn directive_fits(v: DirectiveView, file: Seq<char>, rule: Seq<char>, file_scope: bool, line: int) -> bool {
    v.0 == file && v.2 == rule && v.5 == file_scope && (file_scope || v.1 == line)
}

proof fn lemma_first_match_exists(dirs: Seq<DirectiveView>, file: Seq<char>, rule: Seq<char>, file_scope: bool, line: int, k: int)
    requires
        0 <= k,
    ensures
        first_match(dirs, file, rule, file_scope, line, k) is Some <==> exists|j: int|
            k <= j < dirs.len() && directive_fits(#[trigger] dirs[j], file, rule, file_scope, line),
        first_match(dirs, file, rule, file_scope, line, k) matches Some(m) ==> k <= m < dirs.len() && directive_fits(
            dirs[m],
            file,
            rule,
            file_scope,
            line,
        ),
    decreases dirs.len() - k,
{
    if k < dirs.len() {
        lemma_first_match_exists(dirs, file, rule, file_scope, line, k + 1);
        if exists|j: int| k <= j < dirs.len() && directive_fits(#[trigger] dirs[j], file, rule, file_scope, line) {
            let j = choose|j: int| k <= j < dirs.len() && directive_fits(#[trigger] dirs[j], file, rule, file_scope, line);
            if j > k {
                assert(k + 1 <= j);
            }
        }
    }
}

/// Source directives suppress a diagnostic exactly when it has a primary location and some
/// directive names its file and rule, either for the whole file or for the diagnostic's line or
/// the line before; the directive that does so is one of these.
pub proof fn lemma_directive_suppresses(dirs: Seq<DirectiveView>, d: Diagnostic)
    ensures
        suppressor(dirs, d) is Some <==> (d.primary_location is Some && exists|k: int|
            0 <= k < dirs.len() && (#[trigger] dirs[k]).0 == d.primary_location->0.file@ && dirs[k].2 == d.rule_id@
                && (dirs[k].5 || dirs[k].1 == d.primary_location->0.line || dirs[k].1 + 1 == d.primary_location->0.line)),
        suppressor(dirs, d) matches Some(k) ==> 0 <= k < dirs.len() && dirs[k].0 == d.primary_location->0.file@
            && dirs[k].2 == d.rule_id@ && (dirs[k].5 || dirs[k].1 == d.primary_location->0.line || dirs[k].1 + 1
            == d.primary_location->0.line),
{
    if d.primary_location is Some {
        let l = d.primary_location->0;
        let f = l.file@;
        let r = d.rule_id@;
        lemma_first_match_exists(dirs, f, r, true, 0, 0);
        lemma_first_match_exists(dirs, f, r, false, l.line as int, 0);
        lemma_first_match_exists(dirs, f, r, false, l.line - 1, 0);
        if exists|k: int|
            0 <= k < dirs.len() && (#[trigger] dirs[k]).0 == f && dirs[k].2 == r && (dirs[k].5 || dirs[k].1 == l.line
                || dirs[k].1 + 1 == l.line) {
            let k = choose|k: int|
                0 <= k < dirs.len() && (#[trigger] dirs[k]).0 == f && dirs[k].2 == r && (dirs[k].5 || dirs[k].1 == l.line
                    || dirs[k].1 + 1 == l.line);
            if dirs[k].5 {
                assert(directive_fits(dirs[k], f, r, true, 0));
            } else if dirs[k].1 == l.line {
                assert(directive_fits(dirs[k], f, r, false, l.line as int));
            } else {
                assert(directive_fits(dirs[k], f, r, false, l.line - 1));
            }
        }
    }
}

} // verus!
