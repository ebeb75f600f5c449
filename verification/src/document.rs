//! Editing a configuration file's text in place: removing expired suppressions from the block
//! lists under `suppressions` while every other line, comment and blank line stays as it was.
use crate::config::{expiration_day, expiration_of};
use crate::domain::{ConfigError, ConfigErrorKind};
use crate::provenance::SuppressionPruneResult;
use crate::text::{
    append, chars_of, concat, has_prefix, owned, push_char, split_char, split_seq, starts_with, strip_prefix,
    text_equal, trim, trim_end, trim_start, trimmed, trimmed_end, trimmed_start,
};
use crate::text_set::{join_texts, joined, texts_of};
use vstd::prelude::*;

verus! {

/// The number of spaces that a line starts with.
pub open spec fn indentation(line: Seq<char>) -> nat
    decreases line.len(),
{
    if line.len() > 0 && line[0] == ' ' {
        1 + indentation(line.drop_first())
    } else {
        0
    }
}

/// A line holds nothing, or only a comment.
pub open spec fn blank_or_comment(line: Seq<char>) -> bool {
    let t = trimmed_start(line);
    t.len() == 0 || t[0] == '#'
}

/// The line, past its indentation, starts with `key:`.
pub open spec fn names_key(line: Seq<char>, key: Seq<char>) -> bool {
    has_prefix(trimmed_start(line), key + ":"@)
}

/// The lines of a text, each with its line break (`str::split_inclusive('\n')`).
pub open spec fn lines_of(s: Seq<char>) -> Seq<Seq<char>> {
    let p = split_seq(s, '\n');
    p.take(p.len() - 1).map_values(|x: Seq<char>| x.push('\n')) + if p.last().len() > 0 {
        seq![p.last()]
    } else {
        Seq::empty()
    }
}

/// The positions in `lo..hi` where `p` holds, ascending.
pub open spec fn hits(p: spec_fn(int) -> bool, lo: int, hi: int) -> Seq<int>
    decreases hi - lo,
{
    if hi <= lo {
        Seq::empty()
    } else {
        hits(p, lo, hi - 1) + if p(hi - 1) {
            seq![hi - 1]
        } else {
            Seq::empty()
        }
    }
}

/// The first line at or after `l` that is neither blank nor a comment and is indented no deeper
/// than `indent`, or the number of lines.
pub open spec fn end_from(lines: Seq<Seq<char>>, l: int, indent: nat) -> int
    decreases lines.len() - l,
{
    if l >= lines.len() {
        lines.len() as int
    } else if !blank_or_comment(lines[l]) && indentation(lines[l]) <= indent {
        l
    } else {
        end_from(lines, l + 1, indent)
    }
}

/// Where the block that line `start` opens, at indentation `indent`, ends.
pub open spec fn block_end(lines: Seq<Seq<char>>, start: int, indent: nat) -> int {
    end_from(lines, start + 1, indent)
}

/// What a line holds after `key:`, trimmed; nothing when it does not start with `key:`.
pub open spec fn value_after_key(line: Seq<char>, key: Seq<char>) -> Seq<char> {
    let t = trimmed_start(line);
    if has_prefix(t, key) && has_prefix(t.skip(key.len() as int), ":"@) {
        trimmed(t.skip(key.len() as int + 1))
    } else {
        Seq::empty()
    }
}

/// The line break that ends a line: `\r\n`, `\n` or none.
pub open spec fn line_break(line: Seq<char>) -> Seq<char> {
    if line.len() >= 2 && line[line.len() - 2] == '\r' && line[line.len() - 1] == '\n' {
        "\r\n"@
    } else if line.len() >= 1 && line[line.len() - 1] == '\n' {
        "\n"@
    } else {
        Seq::empty()
    }
}

/// The line without the `\r` and `\n` characters that end it.
pub open spec fn without_breaks(line: Seq<char>) -> Seq<char>
    decreases line.len(),
{
    if line.len() > 0 && (line.last() == '\r' || line.last() == '\n') {
        without_breaks(line.drop_last())
    } else {
        line
    }
}

/// The comment that a line carries, as ` #` and the text after its first `#`; nothing when it
/// has none.
pub open spec fn line_comment(line: Seq<char>) -> Seq<char> {
    let body = without_breaks(line);
    let k = crate::text::next_char(body, 0, '#');
    if k < body.len() {
        " #"@ + trimmed_end(body.skip(k + 1))
    } else {
        Seq::empty()
    }
}

/// `n` spaces.
pub open spec fn spaces(n: nat) -> Seq<char> {
    Seq::new(n, |i: int| ' ')
}

/// The key line of a list that loses every item: `key: []`, at the same indentation, keeping
/// the line's comment and line break.
pub open spec fn emptied_key_line(line: Seq<char>, key: Seq<char>, indent: nat) -> Seq<char> {
    spaces(indent) + key + ": []"@ + line_comment(line) + line_break(line)
}

fn break_of(line: &str) -> (r: &'static str)
    ensures
        r@ == line_break(line@),
{
    let cs = chars_of(line);
    let n = cs.len();
    proof {
        reveal_strlit("\r\n");
        reveal_strlit("\n");
    }
    if n >= 2 && cs[n - 2] == '\r' && cs[n - 1] == '\n' {
        "\r\n"
    } else if n >= 1 && cs[n - 1] == '\n' {
        "\n"
    } else {
        assert(Seq::<char>::empty() == ""@) by {
            reveal_strlit("");
        }
        ""
    }
}

fn comment_of(line: &str) -> (r: String)
    ensures
        r@ == line_comment(line@),
{
    let cs = chars_of(line);
    let mut n = cs.len();
    assert(cs@.take(n as int) =~= line@);
    while n > 0 && (cs[n - 1] == '\r' || cs[n - 1] == '\n')
        invariant
            n <= cs@.len(),
            cs@ == line@,
            without_breaks(line@) == without_breaks(cs@.take(n as int)),
        decreases n,
    {
        proof {
            assert(cs@.take(n as int).drop_last() =~= cs@.take(n - 1));
        }
        n = n - 1;
    }
    let ghost body = cs@.take(n as int);
    assert(without_breaks(body) == body);
    let mut k: usize = 0;
    while k < n && cs[k] != '#'
        invariant
            k <= n <= cs@.len(),
            body == cs@.take(n as int),
            crate::text::next_char(body, 0, '#') == crate::text::next_char(body, k as int, '#'),
        decreases n - k,
    {
        k = k + 1;
    }
    if k < n {
        let mut rest = String::new();
        let mut j: usize = k + 1;
        while j < n
            invariant
                k < j <= n <= cs@.len(),
                rest@ == cs@.subrange(k + 1, j as int),
            decreases n - j,
        {
            push_char(&mut rest, cs[j]);
            assert(rest@ =~= cs@.subrange(k + 1, j + 1));
            j = j + 1;
        }
        assert(rest@ =~= body.skip(k + 1));
        let tail = trim_end(rest.as_str());
        concat(" #", tail.as_str())
    } else {
        String::new()
    }
}

fn emptied_line(line: &str, key: &str, indent: usize) -> (r: String)
    ensures
        r@ == emptied_key_line(line@, key@, indent as nat),
{
    let mut out = String::new();
    let mut i: usize = 0;
    while i < indent
        invariant
            i <= indent,
            out@ == spaces(i as nat),
        decreases indent - i,
    {
        push_char(&mut out, ' ');
        assert(out@ =~= spaces((i + 1) as nat));
        i = i + 1;
    }
    append(&mut out, key);
    append(&mut out, ": []");
    let comment = comment_of(line);
    append(&mut out, comment.as_str());
    append(&mut out, break_of(line));
    out
}

proof fn lemma_split_nonempty(s: Seq<char>)
    ensures
        split_seq(s, '\n').len() >= 1,
{
    reveal_with_fuel(crate::text::split_from, 1);
}

/// The lines of `source`, each with its line break.
fn split_lines(source: &str) -> (r: Vec<String>)
    ensures
        texts_of(r@) == lines_of(source@),
{
    let parts = split_char(source, '\n');
    let ghost p = split_seq(source@, '\n');
    proof {
        lemma_split_nonempty(source@);
        assert(texts_of(parts@) == p);
    }
    let n = parts.len();
    let mut out: Vec<String> = Vec::new();
    let mut i: usize = 0;
    while i + 1 < n
        invariant
            1 <= n == p.len(),
            i + 1 <= n,
            texts_of(parts@) == p,
            texts_of(out@) == p.take(i as int).map_values(|x: Seq<char>| x.push('\n')),
        decreases n - i,
    {
        let mut line = parts[i].clone();
        push_char(&mut line, '\n');
        let ghost before = out@;
        out.push(line);
        proof {
            assert(texts_of(parts@)[i as int] == p[i as int]);
            assert(line@ == p[i as int].push('\n'));
            assert(texts_of(out@) =~= texts_of(before).push(line@));
            assert(p.take(i + 1).map_values(|x: Seq<char>| x.push('\n')) =~= p.take(i as int).map_values(
                |x: Seq<char>| x.push('\n'),
            ).push(p[i as int].push('\n')));
        }
        i = i + 1;
    }
    proof {
        assert(texts_of(parts@)[n - 1] == p.last());
    }
    proof {
        reveal_strlit("");
    }
    let ghost before = out@;
    if !text_equal(parts[n - 1].as_str(), "") {
        let last = parts[n - 1].clone();
        out.push(last);
        proof {
            assert(last@ == p.last());
            if p.last().len() == 0 {
                assert(p.last() =~= ""@);
            }
            assert(texts_of(out@) =~= texts_of(before).push(last@));
            assert(texts_of(out@) =~= lines_of(source@));
        }
    } else {
        assert(texts_of(out@) =~= lines_of(source@));
    }
    out
}

/// The text of the lines, one after another.
fn joined_lines(lines: &Vec<String>) -> (r: String)
    ensures
        r@ == joined(texts_of(lines@), ""@),
{
    join_texts(lines.as_slice(), "")
}

/// A line at the top level that names `key`.
pub open spec fn top_key(lines: Seq<Seq<char>>, key: Seq<char>) -> spec_fn(int) -> bool {
    |l: int| indentation(lines[l]) == 0 && names_key(lines[l], key)
}

/// A line indented deeper than `parent` that names `key`.
pub open spec fn nested_key(lines: Seq<Seq<char>>, parent: nat, key: Seq<char>) -> spec_fn(int) -> bool {
    |l: int| !blank_or_comment(lines[l]) && indentation(lines[l]) > parent && names_key(lines[l], key)
}

/// A line indented deeper than `indent` that starts a list item.
pub open spec fn item_start(lines: Seq<Seq<char>>, indent: nat) -> spec_fn(int) -> bool {
    |l: int| indentation(lines[l]) > indent && has_prefix(trimmed_start(lines[l]), "- "@)
}

/// Where the lines of an item that starts at `start` and runs up to `end` stop, once the blank
/// and comment lines at its end are left to the next item.
pub open spec fn trail_end(lines: Seq<Seq<char>>, start: int, end: int) -> int
    decreases end - start,
{
    if end > start + 1 && blank_or_comment(lines[end - 1]) {
        trail_end(lines, start, end - 1)
    } else {
        end
    }
}

/// Why an edit was refused: the file it names and the message.
pub struct EditFailure {
    pub path: Seq<char>,
    pub message: Seq<char>,
}

/// A configuration error reports the refused edit.
pub open spec fn fails_with(e: ConfigError, f: EditFailure) -> bool {
    &&& e.kind == ConfigErrorKind::ConflictingConfig
    &&& e.path is Some
    &&& e.path->0@ == f.path
    &&& e.message@ == f.message
}

/// The refusal when a key occurs twice.
pub open spec fn duplicate_key(key: Seq<char>) -> EditFailure {
    EditFailure { path: "wae.yaml"@, message: "duplicate `"@ + key + "` key"@ }
}

pub proof fn lemma_hits_grow(p: spec_fn(int) -> bool, lo: int, i: int, hi: int)
    requires
        i <= hi,
    ensures
        hits(p, lo, i).len() <= hits(p, lo, hi).len(),
        forall|k: int| 0 <= k < hits(p, lo, i).len() ==> hits(p, lo, hi)[k] == hits(p, lo, i)[k],
    decreases hi - i,
{
    if i < hi {
        lemma_hits_grow(p, lo, i, hi - 1);
    }
}

pub proof fn lemma_hits_bounds(p: spec_fn(int) -> bool, lo: int, hi: int)
    ensures
        forall|k: int| 0 <= k < hits(p, lo, hi).len() ==> lo <= #[trigger] hits(p, lo, hi)[k] < hi && p(hits(p, lo, hi)[k]),
        forall|a: int, b: int| 0 <= a < b < hits(p, lo, hi).len() ==> hits(p, lo, hi)[a] < hits(p, lo, hi)[b],
    decreases hi - lo,
{
    if hi > lo {
        lemma_hits_bounds(p, lo, hi - 1);
        let h = hits(p, lo, hi - 1);
        let all = hits(p, lo, hi);
        assert forall|k: int| 0 <= k < all.len() implies lo <= #[trigger] all[k] < hi && p(all[k]) by {
            if k < h.len() {
                assert(all[k] == h[k]);
            }
        }
        assert forall|a: int, b: int| 0 <= a < b < all.len() implies all[a] < all[b] by {
            if b < h.len() {
                assert(all[a] == h[a] && all[b] == h[b]);
            } else {
                assert(all[a] == h[a]);
            }
        }
    }
}

fn edit_failure(path: &str, message: String) -> (r: ConfigError)
    ensures
        fails_with(r, EditFailure { path: path@, message: message@ }),
{
    ConfigError { kind: ConfigErrorKind::ConflictingConfig, message, path: Some(owned(path)) }
}

fn duplicate_failure(key: &str) -> (r: ConfigError)
    ensures
        fails_with(r, duplicate_key(key@)),
{
    let mut m = concat("duplicate `", key);
    append(&mut m, "` key");
    edit_failure("wae.yaml", m)
}

/// The one top-level line that names `key`, if there is one.
fn top_key_line(lines: &Vec<String>, key: &str) -> (r: Result<Option<usize>, ConfigError>)
    ensures
        ({
            let h = hits(top_key(texts_of(lines@), key@), 0, lines@.len() as int);
            match r {
                Ok(None) => h.len() == 0,
                Ok(Some(l)) => h.len() == 1 && h[0] == l,
                Err(e) => h.len() >= 2 && fails_with(e, duplicate_key(key@)),
            }
        }),
{
    let ghost t = texts_of(lines@);
    let ghost p = top_key(t, key@);
    let mut found: Option<usize> = None;
    let mut i: usize = 0;
    while i < lines.len()
        invariant
            i <= lines@.len(),
            t == texts_of(lines@),
            p == top_key(t, key@),
            hits(p, 0, i as int).len() <= 1,
            match found {
                None => hits(p, 0, i as int).len() == 0,
                Some(l) => hits(p, 0, i as int).len() == 1 && hits(p, 0, i as int)[0] == l,
            },
        decreases lines@.len() - i,
    {
        let line = lines[i].as_str();
        proof {
            assert(t[i as int] == line@);
        }
        if indent_of(line) == 0 && is_key_line(line, key) {
            if found.is_some() {
                proof {
                    assert(hits(p, 0, i + 1).len() == 2);
                    lemma_hits_grow(p, 0, i + 1, lines@.len() as int);
                }
                return Err(duplicate_failure(key));
            }
            found = Some(i);
        }
        i = i + 1;
    }
    Ok(found)
}

/// The one line of `start..end` indented deeper than `parent` that names `key`, if there is one.
fn nested_key_line(lines: &Vec<String>, start: usize, end: usize, parent: usize, key: &str) -> (r: Result<
    Option<usize>,
    ConfigError,
>)
    requires
        start <= end <= lines@.len(),
    ensures
        ({
            let h = hits(nested_key(texts_of(lines@), parent as nat, key@), start as int, end as int);
            match r {
                Ok(None) => h.len() == 0,
                Ok(Some(l)) => h.len() == 1 && h[0] == l,
                Err(e) => h.len() >= 2 && fails_with(e, duplicate_key(key@)),
            }
        }),
{
    let ghost t = texts_of(lines@);
    let ghost p = nested_key(t, parent as nat, key@);
    let mut found: Option<usize> = None;
    let mut i: usize = start;
    while i < end
        invariant
            start <= i <= end <= lines@.len(),
            t == texts_of(lines@),
            p == nested_key(t, parent as nat, key@),
            hits(p, start as int, i as int).len() <= 1,
            match found {
                None => hits(p, start as int, i as int).len() == 0,
                Some(l) => hits(p, start as int, i as int).len() == 1 && hits(p, start as int, i as int)[0] == l,
            },
        decreases end - i,
    {
        let line = lines[i].as_str();
        proof {
            assert(t[i as int] == line@);
        }
        if !is_blank_or_comment(line) && indent_of(line) > parent && is_key_line(line, key) {
            if found.is_some() {
                proof {
                    assert(hits(p, start as int, i + 1).len() == 2);
                    lemma_hits_grow(p, start as int, i + 1, end as int);
                }
                return Err(duplicate_failure(key));
            }
            found = Some(i);
        }
        i = i + 1;
    }
    Ok(found)
}

/// Where the block that line `start` opens, at indentation `indent`, ends.
fn block_end_of(lines: &Vec<String>, start: usize, indent: usize) -> (r: usize)
    requires
        start < lines@.len(),
    ensures
        r == block_end(texts_of(lines@), start as int, indent as nat),
        start < r <= lines@.len(),
{
    let ghost t = texts_of(lines@);
    let n = lines.len();
    let mut l: usize = start + 1;
    while l < lines.len()
        invariant
            start < l <= lines@.len(),
            t == texts_of(lines@),
            block_end(t, start as int, indent as nat) == end_from(t, l as int, indent as nat),
        decreases lines@.len() - l,
    {
        let line = lines[l].as_str();
        proof {
            assert(t[l as int] == line@);
        }
        if !is_blank_or_comment(line) && indent_of(line) <= indent {
            return l;
        }
        l = l + 1;
    }
    l
}

/// The lines of `lo..hi` that start a list item indented deeper than `indent`.
fn item_starts(lines: &Vec<String>, lo: usize, hi: usize, indent: usize) -> (r: Vec<usize>)
    requires
        lo <= hi <= lines@.len(),
    ensures
        r@.len() == hits(item_start(texts_of(lines@), indent as nat), lo as int, hi as int).len(),
        forall|k: int| 0 <= k < r@.len() ==> r@[k] == #[trigger] hits(item_start(texts_of(lines@), indent as nat), lo as int, hi as int)[k],
{
    let ghost t = texts_of(lines@);
    let ghost p = item_start(t, indent as nat);
    let mut out: Vec<usize> = Vec::new();
    let mut i: usize = lo;
    while i < hi
        invariant
            lo <= i <= hi <= lines@.len(),
            t == texts_of(lines@),
            p == item_start(t, indent as nat),
            out@.len() == hits(p, lo as int, i as int).len(),
            forall|k: int| 0 <= k < out@.len() ==> out@[k] == #[trigger] hits(p, lo as int, i as int)[k],
        decreases hi - i,
    {
        let line = lines[i].as_str();
        proof {
            assert(t[i as int] == line@);
        }
        let t_line = trim_start(line);
        if indent_of(line) > indent && starts_with(t_line.as_str(), "- ") {
            out.push(i);
        }
        i = i + 1;
    }
    out
}

/// Where the lines of the item at `start`, running up to `end`, stop.
fn trail_end_of(lines: &Vec<String>, start: usize, end: usize) -> (r: usize)
    requires
        start < end <= lines@.len(),
    ensures
        r == trail_end(texts_of(lines@), start as int, end as int),
        start < r <= end,
{
    let ghost t = texts_of(lines@);
    let mut e: usize = end;
    while e > start + 1 && is_blank_or_comment(lines[e - 1].as_str())
        invariant
            start < e <= end <= lines@.len(),
            t == texts_of(lines@),
            trail_end(t, start as int, end as int) == trail_end(t, start as int, e as int),
        decreases e,
    {
        proof {
            assert(t[e - 1] == lines@[e - 1]@);
        }
        e = e - 1;
    }
    proof {
        if e > start + 1 {
            assert(t[e - 1] == lines@[e - 1]@);
        }
    }
    e
}

/// The end of the item at position `x` of `starts`: the next item's start, or the end of the
/// list, less the blank and comment lines just before it.
pub open spec fn item_end(lines: Seq<Seq<char>>, starts: Seq<int>, x: int, list_end: int) -> int {
    trail_end(
        lines,
        starts[x],
        if x + 1 < starts.len() {
            starts[x + 1]
        } else {
            list_end
        },
    )
}

/// Line `i` belongs to one of the expired items.
pub open spec fn removed_line(lines: Seq<Seq<char>>, starts: Seq<int>, expired: Seq<int>, list_end: int, i: int) -> bool {
    exists|e: int|
        0 <= e < expired.len() && starts[expired[e]] <= i < #[trigger] item_end(lines, starts, expired[e], list_end)
}

/// The first `n` lines, without those that `drop` marks.
pub open spec fn kept(lines: Seq<Seq<char>>, drop: spec_fn(int) -> bool, n: int) -> Seq<Seq<char>>
    decreases n,
{
    if n <= 0 {
        Seq::empty()
    } else {
        kept(lines, drop, n - 1) + if drop(n - 1) {
            Seq::empty()
        } else {
            seq![lines[n - 1]]
        }
    }
}

/// The entry at a position has an expiry date that has come by `today`.
pub open spec fn expired_entry(expiries: Seq<Option<String>>, today: u64) -> spec_fn(int) -> bool {
    |i: int| expiries[i] is Some && expiration_of(expiries[i]->0@) <= today
}

/// The positions, ascending, of the entries whose expiry date has come by `today`.
pub open spec fn expired_at(expiries: Seq<Option<String>>, today: u64) -> Seq<int> {
    hits(expired_entry(expiries, today), 0, expiries.len() as int)
}

/// The lines once the expired items of the list `suppressions.key` are removed from the section
/// that starts at line `section_start` and ends before `section_end`. The list must be a block
/// list whose items can be told apart, one start line each; when every item goes, the key line
/// becomes `key: []`. `expired` holds positions in the list, ascending.
pub open spec fn sequence_pruned(
    lines: Seq<Seq<char>>,
    section_start: int,
    section_end: int,
    key: Seq<char>,
    expired: Seq<int>,
    path: Seq<char>,
) -> Result<Seq<Seq<char>>, EditFailure> {
    if expired.len() == 0 {
        Ok(lines)
    } else {
        let h = hits(nested_key(lines, indentation(lines[section_start]), key), section_start + 1, section_end);
        if h.len() >= 2 {
            Err(duplicate_key(key))
        } else if h.len() == 0 {
            Err(EditFailure { path, message: "cannot locate local `suppressions."@ + key + "`"@ })
        } else {
            let kl = h[0];
            let ki = indentation(lines[kl]);
            let v = value_after_key(lines[kl], key);
            if v.len() > 0 && v != "[]"@ && v[0] != '#' {
                Err(
                    EditFailure {
                        path,
                        message: "`suppressions."@ + key + "` must use block-list YAML syntax to be pruned safely"@,
                    },
                )
            } else {
                let be = block_end(lines, kl, ki);
                let list_end = if be < section_end {
                    be
                } else {
                    section_end
                };
                let starts = hits(item_start(lines, ki), kl + 1, list_end);
                if starts.len() <= expired.last() {
                    Err(
                        EditFailure {
                            path,
                            message: "could not map parsed `suppressions."@ + key + "` entries back to source lines"@,
                        },
                    )
                } else {
                    let edited = if expired.len() == starts.len() {
                        lines.update(kl, emptied_key_line(lines[kl], key, ki))
                    } else {
                        lines
                    };
                    Ok(kept(edited, |i: int| removed_line(edited, starts, expired, list_end, i), edited.len() as int))
                }
            }
        }
    }
}

/// The line of the top-level `suppressions` mapping.
pub open spec fn suppressions_line(lines: Seq<Seq<char>>, path: Seq<char>) -> Result<int, EditFailure> {
    let h = hits(top_key(lines, "suppressions"@), 0, lines.len() as int);
    if h.len() >= 2 {
        Err(duplicate_key("suppressions"@))
    } else if h.len() == 0 {
        Err(EditFailure { path, message: "cannot locate the local `suppressions` mapping"@ })
    } else {
        Ok(h[0])
    }
}

/// The lines once the expired fingerprint entries, then the expired path entries, are removed.
pub open spec fn document_pruned(
    lines: Seq<Seq<char>>,
    expired_paths: Seq<int>,
    expired_fingerprints: Seq<int>,
    path: Seq<char>,
) -> Result<Seq<Seq<char>>, EditFailure> {
    match suppressions_line(lines, path) {
        Err(f) => Err(f),
        Ok(s) => match sequence_pruned(
            lines,
            s,
            block_end(lines, s, indentation(lines[s])),
            "fingerprints"@,
            expired_fingerprints,
            path,
        ) {
            Err(f) => Err(f),
            Ok(l) => match suppressions_line(l, path) {
                Err(f) => Err(f),
                Ok(s2) => sequence_pruned(l, s2, block_end(l, s2, indentation(l[s2])), "paths"@, expired_paths, path),
            },
        },
    }
}

fn expired_indexes(expiries: &[Option<String>], today: u64) -> (r: Vec<usize>)
    ensures
        r@.len() == expired_at(expiries@, today).len(),
        forall|k: int| 0 <= k < r@.len() ==> r@[k] == #[trigger] expired_at(expiries@, today)[k],
{
    let ghost p = expired_entry(expiries@, today);
    let mut out: Vec<usize> = Vec::new();
    let mut i: usize = 0;
    while i < expiries.len()
        invariant
            i <= expiries@.len(),
            p == expired_entry(expiries@, today),
            out@.len() == hits(p, 0, i as int).len(),
            forall|k: int| 0 <= k < out@.len() ==> out@[k] == #[trigger] hits(p, 0, i as int)[k],
        decreases expiries@.len() - i,
    {
        let expired = match &expiries[i] {
            Some(date) => expiration_day(date.as_str()) <= today,
            None => false,
        };
        if expired {
            out.push(i);
        }
        i = i + 1;
    }
    out
}

/// Positions as integers.
pub open spec fn ints(v: Seq<usize>) -> Seq<int> {
    v.map_values(|x: usize| x as int)
}

fn quoted(head: &str, value: &str, tail: &str) -> (r: String)
    ensures
        r@ == head@ + value@ + tail@,
{
    let mut m = concat(head, value);
    append(&mut m, tail);
    m
}

/// Removes the expired items of the list `suppressions.key` from the section that starts at
/// line `section_start` and ends before `section_end`.
fn prune_sequence(
    lines: Vec<String>,
    section_start: usize,
    section_end: usize,
    key: &str,
    expired: &Vec<usize>,
    path: &str,
) -> (r: Result<Vec<String>, ConfigError>)
    requires
        section_start < section_end <= lines@.len(),
        forall|a: int, b: int| 0 <= a < b < expired@.len() ==> expired@[a] < expired@[b],
    ensures
        match sequence_pruned(texts_of(lines@), section_start as int, section_end as int, key@, ints(expired@), path@) {
            Ok(l) => r is Ok && texts_of(r->Ok_0@) == l,
            Err(f) => r is Err && fails_with(r->Err_0, f),
        },
{
    let ghost t = texts_of(lines@);
    let ghost ex = ints(expired@);
    if expired.len() == 0 {
        return Ok(lines);
    }
    let si = indent_of(lines[section_start].as_str());
    proof {
        assert(t[section_start as int] == lines@[section_start as int]@);
    }
    let kl = match nested_key_line(&lines, section_start + 1, section_end, si, key) {
        Err(e) => {
            return Err(e);
        },
        Ok(None) => {
            return Err(edit_failure(path, quoted("cannot locate local `suppressions.", key, "`")));
        },
        Ok(Some(kl)) => kl,
    };
    proof {
        lemma_hits_bounds(nested_key(t, si as nat, key@), section_start + 1, section_end as int);
        assert(t[kl as int] == lines@[kl as int]@);
    }
    let ki = indent_of(lines[kl].as_str());
    let v = value_after(lines[kl].as_str(), key);
    let vc = chars_of(v.as_str());
    if vc.len() > 0 && !text_equal(v.as_str(), "[]") && vc[0] != '#' {
        return Err(
            edit_failure(path, quoted("`suppressions.", key, "` must use block-list YAML syntax to be pruned safely")),
        );
    }
    let be = block_end_of(&lines, kl, ki);
    let list_end = if be < section_end {
        be
    } else {
        section_end
    };
    let starts = item_starts(&lines, kl + 1, list_end, ki);
    let ghost st = hits(item_start(t, ki as nat), kl + 1, list_end as int);
    proof {
        lemma_hits_bounds(item_start(t, ki as nat), kl + 1, list_end as int);
        assert(ints(starts@) =~= st);
    }
    let last = expired[expired.len() - 1];
    if starts.len() <= last {
        return Err(
            edit_failure(path, quoted("could not map parsed `suppressions.", key, "` entries back to source lines")),
        );
    }
    let mut lines = lines;
    if expired.len() == starts.len() {
        let emptied = emptied_line(lines[kl].as_str(), key, ki);
        lines.set(kl, emptied);
    }
    let ghost edited = texts_of(lines@);
    proof {
        if expired.len() == starts.len() {
            assert(edited =~= t.update(kl as int, emptied_key_line(t[kl as int], key@, ki as nat)));
        } else {
            assert(edited =~= t);
        }
    }
    let n = lines.len();
    let mut mask: Vec<bool> = Vec::new();
    let mut i: usize = 0;
    while i < n
        invariant
            i <= n == lines@.len(),
            mask@.len() == i,
            forall|j: int| 0 <= j < i ==> !mask@[j],
        decreases n - i,
    {
        mask.push(false);
        i = i + 1;
    }
    let mut e: usize = 0;
    while e < expired.len()
        invariant
            e <= expired@.len(),
            n == lines@.len() == t.len() == edited.len(),
            edited == texts_of(lines@),
            ex == ints(expired@),
            st == ints(starts@),
            last == expired@[expired@.len() - 1],
            last < starts@.len(),
            list_end <= n,
            forall|a: int, b: int| 0 <= a < b < expired@.len() ==> expired@[a] < expired@[b],
            forall|k: int| 0 <= k < st.len() ==> kl + 1 <= #[trigger] st[k] < list_end,
            forall|a: int, b: int| 0 <= a < b < st.len() ==> st[a] < st[b],
            mask@.len() == n,
            forall|j: int|
                0 <= j < n ==> (#[trigger] mask@[j] <==> exists|f: int|
                    0 <= f < e && st[ex[f]] <= j < #[trigger] item_end(edited, st, ex[f], list_end as int)),
        decreases expired@.len() - e,
    {
        let x = expired[e];
        proof {
            if e < expired@.len() - 1 {
                assert(expired@[e as int] < expired@[expired@.len() - 1]);
            }
        }
        let start = starts[x];
        let end0 = if x < starts.len() - 1 {
            starts[x + 1]
        } else {
            list_end
        };
        proof {
            assert(ex[e as int] == x as int);
            assert(st[x as int] == start);
            if x + 1 < starts.len() {
                assert(st[x + 1] == end0);
            }
        }
        let end = trail_end_of(&lines, start, end0);
        proof {
            assert(end == item_end(edited, st, ex[e as int], list_end as int));
        }
        let ghost before = mask@;
        let mut j: usize = start;
        while j < end
            invariant
                start <= j <= end <= n,
                mask@.len() == n,
                before.len() == n,
                forall|q: int| 0 <= q < n ==> (#[trigger] mask@[q] <==> (before[q] || (start <= q < j))),
            decreases end - j,
        {
            mask.set(j, true);
            j = j + 1;
        }
        proof {
            assert forall|q: int| 0 <= q < n implies (#[trigger] mask@[q] <==> exists|f: int|
                0 <= f < e + 1 && st[ex[f]] <= q < #[trigger] item_end(edited, st, ex[f], list_end as int)) by {
                if mask@[q] {
                    if before[q] {
                        let f = choose|f: int| 0 <= f < e && st[ex[f]] <= q < #[trigger] item_end(edited, st, ex[f], list_end as int);
                        assert(0 <= f < e + 1 && st[ex[f]] <= q < item_end(edited, st, ex[f], list_end as int));
                    } else {
                        assert(start <= q < end);
                        assert(st[ex[e as int]] <= q < item_end(edited, st, ex[e as int], list_end as int));
                    }
                }
                if exists|f: int| 0 <= f < e + 1 && st[ex[f]] <= q < #[trigger] item_end(edited, st, ex[f], list_end as int) {
                    let f = choose|f: int| 0 <= f < e + 1 && st[ex[f]] <= q < #[trigger] item_end(edited, st, ex[f], list_end as int);
                    if f < e {
                        assert(before[q]);
                    } else {
                        assert(f == e);
                        assert(st[ex[f]] == start);
                        assert(item_end(edited, st, ex[f], list_end as int) == end);
                        assert(start <= q < end);
                    }
                    assert(mask@[q]);
                }
            }
        }
        e = e + 1;
    }
    let ghost drop = |q: int| removed_line(edited, st, ex, list_end as int, q);
    let mut out: Vec<String> = Vec::new();
    let mut i: usize = 0;
    while i < n
        invariant
            i <= n == lines@.len() == edited.len() == mask@.len(),
            edited == texts_of(lines@),
            drop == (|q: int| removed_line(edited, st, ex, list_end as int, q)),
            forall|j: int| 0 <= j < n ==> (#[trigger] mask@[j] <==> drop(j)),
            texts_of(out@) == kept(edited, drop, i as int),
        decreases n - i,
    {
        let ghost before = out@;
        if !mask[i] {
            let line = lines[i].clone();
            out.push(line);
            proof {
                assert(texts_of(out@) =~= texts_of(before).push(line@));
                assert(edited[i as int] == line@);
            }
        }
        proof {
            assert(kept(edited, drop, i + 1) == kept(edited, drop, i as int) + if drop(i as int) {
                Seq::<Seq<char>>::empty()
            } else {
                seq![edited[i as int]]
            });
            if mask@[i as int] {
                assert(texts_of(out@) =~= kept(edited, drop, i + 1));
            } else {
                assert(texts_of(out@) =~= kept(edited, drop, i + 1));
            }
        }
        i = i + 1;
    }
    Ok(out)
}

fn indent_of(line: &str) -> (r: usize)
    ensures
        r == indentation(line@),
{
    let cs = chars_of(line);
    let mut i: usize = 0;
    assert(line@.skip(0) =~= line@);
    while i < cs.len() && cs[i] == ' '
        invariant
            i <= cs@.len(),
            cs@ == line@,
            indentation(line@) == i + indentation(line@.skip(i as int)),
        decreases cs@.len() - i,
    {
        proof {
            assert(line@.skip(i as int).drop_first() =~= line@.skip(i + 1));
        }
        i = i + 1;
    }
    i
}

fn is_blank_or_comment(line: &str) -> (r: bool)
    ensures
        r == blank_or_comment(line@),
{
    let t = trim_start(line);
    let cs = chars_of(t.as_str());
    cs.len() == 0 || cs[0] == '#'
}

fn is_key_line(line: &str, key: &str) -> (r: bool)
    ensures
        r == names_key(line@, key@),
{
    let t = trim_start(line);
    let k = concat(key, ":");
    starts_with(t.as_str(), k.as_str())
}

fn value_after(line: &str, key: &str) -> (r: String)
    ensures
        r@ == value_after_key(line@, key@),
{
    let t = trim_start(line);
    match strip_prefix(t.as_str(), key) {
        Some(rest) => match strip_prefix(rest.as_str(), ":") {
            Some(v) => {
                proof {
                    reveal_strlit(":");
                    assert(t@.skip(key@.len() as int).skip(1) =~= t@.skip(key@.len() as int + 1));
                }
                trim(v.as_str())
            },
            None => String::new(),
        },
        None => String::new(),
    }
}

/// A configuration file's text, edited in place so that comments, order and layout survive.
#[derive(Debug)]
pub struct EditableConfigDocument {
    path: String,
    source: String,
}

impl EditableConfigDocument {
    /// The file the text came from.
    pub closed spec fn location(&self) -> Seq<char> {
        self.path@
    }

    /// The current text.
    pub closed spec fn text(&self) -> Seq<char> {
        self.source@
    }

    /// The document holding `source`, read from the file at `path`.
    pub fn new(path: String, source: String) -> (r: Self)
        ensures
            r.location() == path@,
            r.text() == source@,
    {
        EditableConfigDocument { path, source }
    }

    pub fn source(&self) -> (r: &str)
        ensures
            r@ == self.text(),
    {
        self.source.as_str()
    }

    pub fn path(&self) -> (r: &str)
        ensures
            r@ == self.location(),
    {
        self.path.as_str()
    }

    /// Removes, from the document's own `suppressions.fingerprints` and `suppressions.paths`
    /// block lists, the entries whose expiry date has come by `today`. The expiry dates are those
    /// that the file's entries give, in order. Without an expired entry the text stays as it is,
    /// byte for byte; a list that cannot be edited safely is refused and leaves the text alone.
    pub fn prune_expired_suppressions(
        &mut self,
        path_expiries: &[Option<String>],
        fingerprint_expiries: &[Option<String>],
        today: u64,
    ) -> (r: Result<SuppressionPruneResult, ConfigError>)
        ensures
            final(self).location() == old(self).location(),
            ({
                let ep = expired_at(path_expiries@, today);
                let ef = expired_at(fingerprint_expiries@, today);
                if ep.len() == 0 && ef.len() == 0 {
                    &&& r == Ok::<SuppressionPruneResult, ConfigError>(
                        SuppressionPruneResult { removed_paths: 0, removed_fingerprints: 0 },
                    )
                    &&& final(self).text() == old(self).text()
                } else {
                    match document_pruned(lines_of(old(self).text()), ep, ef, old(self).location()) {
                        Ok(l) => {
                            &&& r == Ok::<SuppressionPruneResult, ConfigError>(
                                SuppressionPruneResult {
                                    removed_paths: ep.len() as usize,
                                    removed_fingerprints: ef.len() as usize,
                                },
                            )
                            &&& final(self).text() == joined(l, ""@)
                        },
                        Err(f) => r is Err && fails_with(r->Err_0, f) && final(self).text() == old(self).text(),
                    }
                }
            }),
    {
        let expired_paths = expired_indexes(path_expiries, today);
        let expired_fingerprints = expired_indexes(fingerprint_expiries, today);
        let ghost ep = expired_at(path_expiries@, today);
        let ghost ef = expired_at(fingerprint_expiries@, today);
        proof {
            assert(ints(expired_paths@) =~= ep);
            assert(ints(expired_fingerprints@) =~= ef);
            lemma_hits_bounds(expired_entry(path_expiries@, today), 0, path_expiries@.len() as int);
            lemma_hits_bounds(expired_entry(fingerprint_expiries@, today), 0, fingerprint_expiries@.len() as int);
            assert forall|a: int, b: int| 0 <= a < b < expired_paths@.len() implies expired_paths@[a] < expired_paths@[b] by {
                assert(ep[a] == expired_paths@[a] && ep[b] == expired_paths@[b]);
            }
            assert forall|a: int, b: int| 0 <= a < b < expired_fingerprints@.len() implies expired_fingerprints@[a]
                < expired_fingerprints@[b] by {
                assert(ef[a] == expired_fingerprints@[a] && ef[b] == expired_fingerprints@[b]);
            }
        }
        if expired_paths.len() == 0 && expired_fingerprints.len() == 0 {
            return Ok(SuppressionPruneResult { removed_paths: 0, removed_fingerprints: 0 });
        }
        let ghost path = self.path@;
        let lines = split_lines(self.source.as_str());
        let ghost l0 = texts_of(lines@);
        let sup = match top_key_line(&lines, "suppressions") {
            Err(e) => {
                return Err(e);
            },
            Ok(None) => {
                return Err(edit_failure(self.path.as_str(), owned("cannot locate the local `suppressions` mapping")));
            },
            Ok(Some(sup)) => sup,
        };
        proof {
            lemma_hits_bounds(top_key(l0, "suppressions"@), 0, l0.len() as int);
            assert(l0[sup as int] == lines@[sup as int]@);
        }
        let si = indent_of(lines[sup].as_str());
        let end = block_end_of(&lines, sup, si);
        let lines = match prune_sequence(lines, sup, end, "fingerprints", &expired_fingerprints, self.path.as_str()) {
            Err(e) => {
                return Err(e);
            },
            Ok(l) => l,
        };
        let ghost l1 = texts_of(lines@);
        let sup = match top_key_line(&lines, "suppressions") {
            Err(e) => {
                return Err(e);
            },
            Ok(None) => {
                return Err(edit_failure(self.path.as_str(), owned("cannot locate the local `suppressions` mapping")));
            },
            Ok(Some(sup)) => sup,
        };
        proof {
            lemma_hits_bounds(top_key(l1, "suppressions"@), 0, l1.len() as int);
            assert(l1[sup as int] == lines@[sup as int]@);
        }
        let si = indent_of(lines[sup].as_str());
        let end = block_end_of(&lines, sup, si);
        let lines = match prune_sequence(lines, sup, end, "paths", &expired_paths, self.path.as_str()) {
            Err(e) => {
                return Err(e);
            },
            Ok(l) => l,
        };
        self.source = joined_lines(&lines);
        Ok(
            SuppressionPruneResult {
                removed_paths: expired_paths.len(),
                removed_fingerprints: expired_fingerprints.len(),
            },
        )
    }
}

} // verus!
