//! The JavaScript/TypeScript parser adapter: dependency edges and module semantics read from the
//! tree-sitter syntax tree of a source file.
use crate::domain::{Import, ImportKind, ModuleId, ModulePath, ModuleSemantics, ParseError, ParseErrorKind, SourceLocation};
use crate::syntax::{byte_len, lemma_len_le_byte_len, lemma_text_at_bounds, chars_within, last_line_len, line_breaks, parse_typescript, text_at, typescript_outcome, SourceText, SyntaxNode, SyntaxOutcome};
use crate::sort::{is_sorted, lemma_reorder_contains, sort_ranked, Ranked};
use crate::text::{
    lemma_text_lt_irreflexive, lemma_text_lt_negatively_transitive, lemma_text_lt_total, lemma_text_lt_transitive,
    text_less, text_lt,
};
use crate::text_set::texts_of;
use crate::text::{split_char, split_seq};
use crate::text::{chars_of, has_prefix, is_space, owned, string_from, text_equal, trimmed_start};
use vstd::prelude::*;

verus! {

/// The value of a double-quoted string literal as JSON reads it (`serde_json::from_str::<String>`).
pub uninterp spec fn json_string_value(raw: Seq<char>) -> Option<Seq<char>>;

/// Reads `raw` as a JSON string with `serde_json::from_str::<String>`; `None` when serde_json
/// rejects it. The contract names the result.
#[verifier::external_body]
fn json_string(raw: &str) -> (r: Option<String>)
    ensures
        match r {
            Some(v) => json_string_value(raw@) == Some(v@),
            None => json_string_value(raw@) is None,
        },
{
    serde_json::from_str::<String>(raw).ok()
}

/// `s` with every occurrence of the non-empty `from` replaced by `to`, scanning left to right
/// (`str::replace`).
pub open spec fn replaced_all(s: Seq<char>, from: Seq<char>, to: Seq<char>) -> Seq<char>
    decreases s.len(),
{
    if s.len() == 0 {
        s
    } else if from.len() > 0 && has_prefix(s, from) {
        to + replaced_all(s.skip(from.len() as int), from, to)
    } else {
        seq![s[0]] + replaced_all(s.drop_first(), from, to)
    }
}

/// `s` holds `p` somewhere.
pub open spec fn holds_text(s: Seq<char>, p: Seq<char>) -> bool {
    exists|i: int| 0 <= i <= s.len() - p.len() && #[trigger] s.subrange(i, i + p.len()) == p
}

fn matches_at(cs: &Vec<char>, i: usize, p: &Vec<char>) -> (r: bool)
    requires
        i <= cs@.len(),
    ensures
        r == (p@.len() <= cs@.len() - i && cs@.subrange(i as int, i + p@.len()) == p@),
{
    if p.len() > cs.len() - i {
        return false;
    }
    let n = cs.len();
    let mut k: usize = 0;
    while k < p.len()
        invariant
            n == cs@.len(),
            i <= cs@.len(),
            k <= p@.len(),
            p@.len() <= cs@.len() - i,
            forall|m: int| 0 <= m < k ==> cs@[i + m] == p@[m],
        decreases p@.len() - k,
    {
        if cs[i + k] != p[k] {
            assert(cs@.subrange(i as int, i + p@.len())[k as int] != p@[k as int]);
            return false;
        }
        k = k + 1;
    }
    assert(cs@.subrange(i as int, i + p@.len()) =~= p@);
    true
}

/// `s` with every occurrence of the non-empty `from` replaced by `to`.
pub fn replace_all(s: &str, from: &str, to: &str) -> (r: String)
    ensures
        r@ == replaced_all(s@, from@, to@),
{
    let cs = chars_of(s);
    let fs = chars_of(from);
    let ts = chars_of(to);
    let mut out: Vec<char> = Vec::new();
    let mut i: usize = 0;
    assert(cs@.skip(0) =~= cs@);
    assert(out@ + replaced_all(cs@.skip(0), fs@, ts@) =~= replaced_all(s@, from@, to@));
    while i < cs.len()
        invariant
            cs@ == s@,
            fs@ == from@,
            ts@ == to@,
            i <= cs@.len(),
            out@ + replaced_all(cs@.skip(i as int), fs@, ts@) == replaced_all(s@, from@, to@),
        decreases cs@.len() - i,
    {
        let ghost rest = cs@.skip(i as int);
        if fs.len() > 0 && matches_at(&cs, i, &fs) {
            proof {
                assert(rest.take(fs@.len() as int) =~= cs@.subrange(i as int, i + fs@.len()));
                assert(rest.skip(fs@.len() as int) =~= cs@.skip(i + fs@.len()));
            }
            let mut k: usize = 0;
            let ghost before = out@;
            while k < ts.len()
                invariant
                    k <= ts@.len(),
                    out@ == before + ts@.take(k as int),
                decreases ts@.len() - k,
            {
                out.push(ts[k]);
                assert(ts@.take(k + 1) =~= ts@.take(k as int).push(ts@[k as int]));
                k = k + 1;
            }
            assert(ts@.take(k as int) =~= ts@);
            assert(out@ + replaced_all(cs@.skip(i + fs@.len()), fs@, ts@) =~= before + replaced_all(rest, fs@, ts@));
            i = i + fs.len();
        } else {
            proof {
                if fs@.len() > 0 && has_prefix(rest, fs@) {
                    assert(rest.take(fs@.len() as int) =~= cs@.subrange(i as int, i + fs@.len()));
                }
                assert(rest.drop_first() =~= cs@.skip(i + 1));
            }
            let ghost before = out@;
            out.push(cs[i]);
            assert(out@ + replaced_all(cs@.skip(i + 1), fs@, ts@) =~= before + replaced_all(rest, fs@, ts@));
            i = i + 1;
        }
    }
    assert(cs@.skip(i as int) =~= Seq::<char>::empty());
    assert(out@ + replaced_all(cs@.skip(i as int), fs@, ts@) =~= out@);
    string_from(out.as_slice())
}

/// Whether `s` holds `p`.
pub fn contains_text(s: &str, p: &str) -> (r: bool)
    ensures
        r == holds_text(s@, p@),
{
    let cs = chars_of(s);
    let ps = chars_of(p);
    if ps.len() > cs.len() {
        return false;
    }
    let last = cs.len() - ps.len();
    let mut i: usize = 0;
    loop
        invariant
            cs@ == s@,
            ps@ == p@,
            ps@.len() <= cs@.len(),
            last == cs@.len() - ps@.len(),
            i <= last,
            forall|m: int| 0 <= m < i ==> #[trigger] cs@.subrange(m, m + ps@.len()) != ps@,
        decreases last - i,
    {
        if matches_at(&cs, i, &ps) {
            return true;
        }
        if i == last {
            return false;
        }
        i = i + 1;
    }
}

/// The characters inside a quoted literal: without its first and last character.
pub open spec fn literal_content(raw: Seq<char>) -> Seq<char> {
    raw.subrange(1, raw.len() - 1)
}

/// The value of a string literal's source text: a double-quoted literal as JSON reads it, a
/// single-quoted one with its `\'`, `\\`, `\n`, `\r` and `\t` escapes undone in that order;
/// `None` for text that is not a quoted literal of at least two characters.
pub open spec fn decoded_literal(raw: Seq<char>) -> Option<Seq<char>> {
    if raw.len() >= 2 && (raw[0] == '\'' || raw[0] == '"') && raw.last() == raw[0] {
        if raw[0] == '"' {
            json_string_value(raw)
        } else {
            let c = literal_content(raw);
            Some(
                replaced_all(
                    replaced_all(
                        replaced_all(replaced_all(replaced_all(c, "\\'"@, "'"@), "\\\\"@, "\\"@), "\\n"@, "\n"@),
                        "\\r"@,
                        "\r"@,
                    ),
                    "\\t"@,
                    "\t"@,
                ),
            )
        }
    } else {
        None
    }
}

/// The value of a string literal (see `decoded_literal`).
pub fn decode_string_literal(raw: &str) -> (r: Option<String>)
    ensures
        match r {
            Some(v) => decoded_literal(raw@) == Some(v@),
            None => decoded_literal(raw@) is None,
        },
{
    let cs = chars_of(raw);
    if cs.len() < 2 {
        return None;
    }
    let quote = cs[0];
    if !(quote == '\'' || quote == '"') || cs[cs.len() - 1] != quote {
        return None;
    }
    if quote == '"' {
        return json_string(raw);
    }
    let mut inner: Vec<char> = Vec::new();
    let mut k: usize = 1;
    while k < cs.len() - 1
        invariant
            cs@ == raw@,
            cs@.len() >= 2,
            1 <= k <= cs@.len() - 1,
            inner@ == cs@.subrange(1, k as int),
        decreases cs@.len() - 1 - k,
    {
        inner.push(cs[k]);
        assert(cs@.subrange(1, k + 1) =~= cs@.subrange(1, k as int).push(cs@[k as int]));
        k = k + 1;
    }
    let content = string_from(inner.as_slice());
    let a = replace_all(content.as_str(), "\\'", "'");
    let b = replace_all(a.as_str(), "\\\\", "\\");
    let c = replace_all(b.as_str(), "\\n", "\n");
    let d = replace_all(c.as_str(), "\\r", "\r");
    let e = replace_all(d.as_str(), "\\t", "\t");
    Some(e)
}

/// The child is held under the field `name`.
pub open spec fn has_field(c: SyntaxNode, name: Seq<char>) -> bool {
    match c.field {
        Some(f) => f@ == name,
        None => false,
    }
}

/// The first child from position `i` on that the node holds under the field `name`.
pub open spec fn field_child_from(n: SyntaxNode, name: Seq<char>, i: int) -> Option<SyntaxNode>
    decreases n.children@.len() - i,
{
    if i < 0 || i >= n.children@.len() {
        None
    } else if has_field(n.children@[i], name) {
        Some(n.children@[i])
    } else {
        field_child_from(n, name, i + 1)
    }
}

/// The child that the node holds under the field `name` (`Node::child_by_field_name`).
pub open spec fn field_child(n: SyntaxNode, name: Seq<char>) -> Option<SyntaxNode> {
    field_child_from(n, name, 0)
}

/// The named nodes of `s`, in order.
pub open spec fn named_only(s: Seq<SyntaxNode>) -> Seq<SyntaxNode>
    decreases s.len(),
{
    if s.len() == 0 {
        Seq::empty()
    } else {
        let earlier = named_only(s.drop_last());
        if s.last().named {
            earlier.push(s.last())
        } else {
            earlier
        }
    }
}

/// The named children of a node (`Node::named_children`).
pub open spec fn named_children(n: SyntaxNode) -> Seq<SyntaxNode> {
    named_only(n.children@)
}

/// The source text of a node (`Node::utf8_text`).
pub open spec fn node_text(src: Seq<char>, n: SyntaxNode) -> Option<Seq<char>> {
    text_at(src, n.start_byte as int, n.end_byte as int)
}

fn field_child_of<'a>(n: &'a SyntaxNode, name: &str) -> (r: Option<&'a SyntaxNode>)
    ensures
        match r {
            Some(c) => field_child(*n, name@) == Some(*c),
            None => field_child(*n, name@) is None,
        },
{
    let mut i: usize = 0;
    while i < n.children.len()
        invariant
            i <= n.children@.len(),
            field_child_from(*n, name@, 0) == field_child_from(*n, name@, i as int),
        decreases n.children@.len() - i,
    {
        let child = &n.children[i];
        let found = match &child.field {
            Some(f) => text_equal(f.as_str(), name),
            None => false,
        };
        if found {
            return Some(child);
        }
        i = i + 1;
    }
    None
}

fn named_children_of<'a>(n: &'a SyntaxNode) -> (r: Vec<&'a SyntaxNode>)
    ensures
        r@.map_values(|c: &SyntaxNode| *c) == named_children(*n),
{
    let mut out: Vec<&'a SyntaxNode> = Vec::new();
    let mut i: usize = 0;
    while i < n.children.len()
        invariant
            i <= n.children@.len(),
            out@.map_values(|c: &SyntaxNode| *c) == named_only(n.children@.take(i as int)),
        decreases n.children@.len() - i,
    {
        let ghost before = out@;
        let child = &n.children[i];
        proof {
            assert(n.children@.take(i + 1).drop_last() =~= n.children@.take(i as int));
            assert(n.children@.take(i + 1).last() == *child);
        }
        if child.named {
            out.push(child);
            assert(out@.map_values(|c: &SyntaxNode| *c) =~= before.map_values(|c: &SyntaxNode| *c).push(*child));
        }
        i = i + 1;
    }
    assert(n.children@.take(i as int) =~= n.children@);
    out
}

/// A dependency as the parser reports it: specifier, kind, line and column.
pub type ImportView = (Seq<char>, ImportKind, int, int);

/// The 1-based line and column of byte `b` of the source (clamped to its end): line breaks
/// before it plus one, and characters since the last line break plus one.
pub open spec fn location_at(src: Seq<char>, b: int) -> (int, int) {
    let before = src.take(chars_within(src, b));
    (line_breaks(before) + 1int, last_line_len(before) + 1int)
}

/// The dependency a string node names, with its position just after the opening quote.
pub open spec fn string_import(src: Seq<char>, n: SyntaxNode, kind: ImportKind) -> Option<ImportView> {
    match node_text(src, n) {
        Some(raw) => match decoded_literal(raw) {
            Some(v) => Some((v, kind, location_at(src, n.start_byte + 1).0, location_at(src, n.start_byte + 1).1)),
            None => None,
        },
        None => None,
    }
}

/// The view of an import: specifier, kind, line and column.
pub open spec fn import_view(i: Import) -> ImportView {
    (i.specifier@, i.kind, i.location.line as int, i.location.column as int)
}

/// The import belongs to the module at `path`.
pub open spec fn of_module(i: Import, path: Seq<char>) -> bool {
    i.module_id@ == path && i.location.file@ == path
}

proof fn lemma_chars_within_bound(s: Seq<char>, b: int)
    ensures
        0 <= chars_within(s, b) <= s.len(),
    decreases s.len(),
{
    if s.len() > 0 && byte_len(s) > b {
        lemma_chars_within_bound(s.drop_last(), b);
    }
}

/// The 1-based line and column of byte `b` of the source.
fn location_of(text: &SourceText, path: &str, b: usize) -> (r: SourceLocation)
    requires
        text.valid(),
        byte_len(text.chars@) < usize::MAX,
    ensures
        r.file@ == path@,
        (r.line as int, r.column as int) == location_at(text.chars@, b as int),
{
    let k = text.chars_within(b);
    proof {
        lemma_chars_within_bound(text.chars@, b as int);
        lemma_len_le_byte_len(text.chars@);
    }
    let mut line: usize = 1;
    let mut column: usize = 1;
    let mut i: usize = 0;
    while i < k
        invariant
            k <= text.chars@.len(),
            text.chars@.len() < usize::MAX,
            i <= k,
            line == line_breaks(text.chars@.take(i as int)) + 1,
            column == last_line_len(text.chars@.take(i as int)) + 1,
            line <= i + 1,
            column <= i + 1,
        decreases k - i,
    {
        proof {
            assert(text.chars@.take(i + 1).drop_last() =~= text.chars@.take(i as int));
        }
        if text.chars[i] == '\n' {
            line = line + 1;
            column = 1;
        } else {
            column = column + 1;
        }
        i = i + 1;
    }
    SourceLocation { file: owned(path), line, column }
}

/// The dependency a string node names.
fn string_import_of(text: &SourceText, path: &str, n: &SyntaxNode, kind: ImportKind) -> (r: Option<Import>)
    requires
        text.valid(),
        byte_len(text.chars@) < usize::MAX,
    ensures
        match r {
            Some(i) => string_import(text.chars@, *n, kind) == Some(import_view(i)) && of_module(i, path@),
            None => string_import(text.chars@, *n, kind) is None,
        },
{
    let raw = match text.text(n.start_byte, n.end_byte) {
        Some(raw) => raw,
        None => return None,
    };
    proof {
        lemma_text_at_bounds(text.chars@, n.start_byte as int, n.end_byte as int);
    }
    let specifier = match decode_string_literal(raw.as_str()) {
        Some(v) => v,
        None => return None,
    };
    let location = location_of(text, path, n.start_byte + 1);
    Some(Import { module_id: ModuleId(owned(path)), specifier, kind, location })
}

/// The node has an anonymous `type` keyword among its direct children.
pub open spec fn has_type_keyword(n: SyntaxNode) -> bool {
    exists|k: int| 0 <= k < n.children@.len() && !(#[trigger] n.children@[k]).named && n.children@[k].kind@ == "type"@
}

/// The first node of `s` of the given kind.
pub open spec fn first_of_kind_in(s: Seq<SyntaxNode>, kind: Seq<char>) -> Option<SyntaxNode>
    decreases s.len(),
{
    if s.len() == 0 {
        None
    } else if s[0].kind@ == kind {
        Some(s[0])
    } else {
        first_of_kind_in(s.drop_first(), kind)
    }
}

/// The nodes of `s` of the given kind, in order.
pub open spec fn of_kind(s: Seq<SyntaxNode>, kind: Seq<char>) -> Seq<SyntaxNode>
    decreases s.len(),
{
    if s.len() == 0 {
        Seq::empty()
    } else {
        let earlier = of_kind(s.drop_last(), kind);
        if s.last().kind@ == kind {
            earlier.push(s.last())
        } else {
            earlier
        }
    }
}

/// Text that starts, after white space, with the word `type` followed by white space.
pub open spec fn type_keyword_text(v: Seq<char>) -> bool {
    let t = trimmed_start(v);
    has_prefix(t, "type"@) && t.len() > 4 && is_space(t[4])
}

/// A specifier written as type-only: with a `type` keyword child or text.
pub open spec fn typed_specifier(src: Seq<char>, n: SyntaxNode) -> bool {
    has_type_keyword(n) || match node_text(src, n) {
        Some(t) => type_keyword_text(t),
        None => false,
    }
}

/// The container has specifiers of the kind, and every one of them is type-only.
pub open spec fn all_specifiers_typed(src: Seq<char>, container: SyntaxNode, kind: Seq<char>) -> bool {
    let specifiers = of_kind(named_children(container), kind);
    specifiers.len() > 0 && forall|i: int| 0 <= i < specifiers.len() ==> typed_specifier(src, #[trigger] specifiers[i])
}

/// The kind of an import statement: type-only when the statement is, or when its clause is a
/// single list of type-only specifiers; static otherwise.
pub open spec fn classify_import(src: Seq<char>, n: SyntaxNode) -> ImportKind {
    if has_type_keyword(n) {
        ImportKind::TypeOnly
    } else {
        match first_of_kind_in(named_children(n), "import_clause"@) {
            None => ImportKind::Static,
            Some(clause) => {
                let children = named_children(clause);
                if children.len() == 1 && children[0].kind@ == "named_imports"@ && all_specifiers_typed(
                    src,
                    children[0],
                    "import_specifier"@,
                ) {
                    ImportKind::TypeOnly
                } else {
                    ImportKind::Static
                }
            },
        }
    }
}

/// The kind of a re-exporting export statement: type-only when the statement is, or when its
/// clause lists only type-only specifiers; a re-export otherwise.
pub open spec fn classify_export(src: Seq<char>, n: SyntaxNode) -> ImportKind {
    if has_type_keyword(n) {
        ImportKind::TypeOnly
    } else {
        match first_of_kind_in(named_children(n), "export_clause"@) {
            Some(clause) => if all_specifiers_typed(src, clause, "export_specifier"@) {
                ImportKind::TypeOnly
            } else {
                ImportKind::ReExport
            },
            None => ImportKind::ReExport,
        }
    }
}

fn type_keyword_of(n: &SyntaxNode) -> (r: bool)
    ensures
        r == has_type_keyword(*n),
{
    let mut k: usize = 0;
    while k < n.children.len()
        invariant
            k <= n.children@.len(),
            forall|m: int| 0 <= m < k ==> !(!(#[trigger] n.children@[m]).named && n.children@[m].kind@ == "type"@),
        decreases n.children@.len() - k,
    {
        let child = &n.children[k];
        if !child.named && text_equal(child.kind.as_str(), "type") {
            return true;
        }
        k = k + 1;
    }
    false
}

fn first_of_kind_among<'a>(s: &Vec<&'a SyntaxNode>, kind: &str) -> (r: Option<&'a SyntaxNode>)
    ensures
        match r {
            Some(c) => first_of_kind_in(s@.map_values(|c: &SyntaxNode| *c), kind@) == Some(*c),
            None => first_of_kind_in(s@.map_values(|c: &SyntaxNode| *c), kind@) is None,
        },
{
    let ghost all = s@.map_values(|c: &SyntaxNode| *c);
    let mut k: usize = 0;
    assert(all.skip(0) =~= all);
    while k < s.len()
        invariant
            k <= s@.len(),
            all == s@.map_values(|c: &SyntaxNode| *c),
            first_of_kind_in(all, kind@) == first_of_kind_in(all.skip(k as int), kind@),
        decreases s@.len() - k,
    {
        let ghost rest = all.skip(k as int);
        proof {
            assert(rest[0] == *s@[k as int]);
            assert(rest.drop_first() =~= all.skip(k + 1));
        }
        if text_equal(s[k].kind.as_str(), kind) {
            return Some(s[k]);
        }
        k = k + 1;
    }
    proof {
        assert(all.skip(k as int) =~= Seq::<SyntaxNode>::empty());
    }
    None
}

fn type_keyword_in_text(v: &str) -> (r: bool)
    ensures
        r == type_keyword_text(v@),
{
    let t = crate::text::trim_start(v);
    if !crate::text::starts_with(t.as_str(), "type") {
        return false;
    }
    let cs = chars_of(t.as_str());
    proof {
        reveal_strlit("type");
    }
    cs.len() > 4 && crate::text::space(cs[4])
}

fn typed_specifier_of(text: &SourceText, n: &SyntaxNode) -> (r: bool)
    requires
        text.valid(),
    ensures
        r == typed_specifier(text.chars@, *n),
{
    if type_keyword_of(n) {
        return true;
    }
    match text.text(n.start_byte, n.end_byte) {
        Some(t) => type_keyword_in_text(t.as_str()),
        None => false,
    }
}

fn all_specifiers_typed_of(text: &SourceText, container: &SyntaxNode, kind: &str) -> (r: bool)
    requires
        text.valid(),
    ensures
        r == all_specifiers_typed(text.chars@, *container, kind@),
{
    let children = named_children_of(container);
    let ghost all = children@.map_values(|c: &SyntaxNode| *c);
    let mut count: usize = 0;
    let mut k: usize = 0;
    while k < children.len()
        invariant
            k <= children@.len(),
            all == children@.map_values(|c: &SyntaxNode| *c),
            all == named_children(*container),
            text.valid(),
            count == of_kind(all.take(k as int), kind@).len(),
            count <= k,
            forall|i: int|
                0 <= i < of_kind(all.take(k as int), kind@).len() ==> typed_specifier(
                    text.chars@,
                    #[trigger] of_kind(all.take(k as int), kind@)[i],
                ),
        decreases children@.len() - k,
    {
        let child = children[k];
        proof {
            assert(all.take(k + 1).drop_last() =~= all.take(k as int));
            assert(all.take(k + 1).last() == *child);
        }
        if text_equal(child.kind.as_str(), kind) {
            if !typed_specifier_of(text, child) {
                proof {
                    lemma_of_kind_prefix(all, kind@, k + 1);
                    let sp = of_kind(all, kind@);
                    assert(sp[count as int] == *child);
                }
                return false;
            }
            count = count + 1;
        }
        k = k + 1;
    }
    assert(all.take(k as int) =~= all);
    count > 0
}

/// The nodes of a kind in a prefix come first among those of the whole sequence.
proof fn lemma_of_kind_prefix(s: Seq<SyntaxNode>, kind: Seq<char>, k: int)
    requires
        0 <= k <= s.len(),
    ensures
        of_kind(s.take(k), kind).len() <= of_kind(s, kind).len(),
        forall|i: int|
            0 <= i < of_kind(s.take(k), kind).len() ==> #[trigger] of_kind(s, kind)[i] == of_kind(s.take(k), kind)[i],
    decreases s.len() - k,
{
    if k < s.len() {
        lemma_of_kind_prefix(s, kind, k + 1);
        assert(s.take(k + 1).drop_last() =~= s.take(k));
    } else {
        assert(s.take(k) =~= s);
    }
}

/// The kind of an import statement (see `classify_import`).
fn classify_import_of(text: &SourceText, n: &SyntaxNode) -> (r: ImportKind)
    requires
        text.valid(),
    ensures
        r == classify_import(text.chars@, *n),
{
    if type_keyword_of(n) {
        return ImportKind::TypeOnly;
    }
    let children = named_children_of(n);
    let clause = match first_of_kind_among(&children, "import_clause") {
        Some(c) => c,
        None => return ImportKind::Static,
    };
    let parts = named_children_of(clause);
    if parts.len() == 1 && text_equal(parts[0].kind.as_str(), "named_imports") && all_specifiers_typed_of(
        text,
        parts[0],
        "import_specifier",
    ) {
        ImportKind::TypeOnly
    } else {
        ImportKind::Static
    }
}

/// The kind of a re-exporting export statement (see `classify_export`).
fn classify_export_of(text: &SourceText, n: &SyntaxNode) -> (r: ImportKind)
    requires
        text.valid(),
    ensures
        r == classify_export(text.chars@, *n),
{
    if type_keyword_of(n) {
        return ImportKind::TypeOnly;
    }
    let children = named_children_of(n);
    match first_of_kind_among(&children, "export_clause") {
        Some(clause) => if all_specifiers_typed_of(text, clause, "export_specifier") {
            ImportKind::TypeOnly
        } else {
            ImportKind::ReExport
        },
        None => ImportKind::ReExport,
    }
}

/// The first node of the given kind in a preorder walk of the node and its named descendants.
pub open spec fn descendant_of_kind(n: SyntaxNode, kind: Seq<char>) -> Option<SyntaxNode>
    decreases n, n.children@.len() + 1,
{
    if n.kind@ == kind {
        Some(n)
    } else {
        descendant_among(n, kind, 0)
    }
}

/// The first node of the given kind in the walks under the named children from position `i` on.
pub open spec fn descendant_among(n: SyntaxNode, kind: Seq<char>, i: int) -> Option<SyntaxNode>
    decreases n, n.children@.len() - i,
{
    if i < 0 || i >= n.children@.len() {
        None
    } else {
        let rest = descendant_among(n, kind, i + 1);
        if n.children@[i].named {
            proof {
                assert(decreases_to!(n => n.children@[i]));
            }
            match descendant_of_kind(n.children@[i], kind) {
                Some(d) => Some(d),
                None => rest,
            }
        } else {
            rest
        }
    }
}

fn descendant_of_kind_of<'a>(n: &'a SyntaxNode, kind: &str) -> (r: Option<&'a SyntaxNode>)
    ensures
        match r {
            Some(d) => descendant_of_kind(*n, kind@) == Some(*d),
            None => descendant_of_kind(*n, kind@) is None,
        },
    decreases n,
{
    if text_equal(n.kind.as_str(), kind) {
        return Some(n);
    }
    let mut i: usize = 0;
    while i < n.children.len()
        invariant
            i <= n.children@.len(),
            n.kind@ != kind@,
            descendant_of_kind(*n, kind@) == descendant_among(*n, kind@, i as int),
        decreases n.children@.len() - i,
    {
        let child = &n.children[i];
        if child.named {
            proof {
                assert(decreases_to!(*n => n.children@[i as int]));
            }
            match descendant_of_kind_of(child, kind) {
                Some(d) => return Some(d),
                None => {},
            }
        }
        i = i + 1;
    }
    None
}

/// The dependency, when there is one, as a sequence of zero or one.
pub open spec fn listed_import(o: Option<ImportView>) -> Seq<ImportView> {
    match o {
        Some(v) => seq![v],
        None => Seq::empty(),
    }
}

/// The views of the imports.
pub open spec fn views_of(s: Seq<Import>) -> Seq<ImportView> {
    s.map_values(|i: Import| import_view(i))
}

/// Every import belongs to the module at `path`.
pub open spec fn all_of_module(s: Seq<Import>, path: Seq<char>) -> bool {
    forall|k: int| 0 <= k < s.len() ==> of_module(#[trigger] s[k], path)
}

/// `import x = require('...')`: the first string below a node whose text mentions `require`.
pub open spec fn equals_require(src: Seq<char>, n: SyntaxNode) -> Seq<ImportView> {
    match node_text(src, n) {
        Some(t) => if holds_text(t, "require"@) {
            match descendant_of_kind(n, "string"@) {
                Some(sn) => listed_import(string_import(src, sn, ImportKind::Require)),
                None => Seq::empty(),
            }
        } else {
            Seq::empty()
        },
        None => Seq::empty(),
    }
}

/// The kind of dependency a call's function names: `import(...)`, `require(...)` or
/// `require.resolve(...)`.
pub open spec fn call_kind(src: Seq<char>, function: SyntaxNode) -> Option<ImportKind> {
    match node_text(src, function) {
        Some(t) => if t == "import"@ {
            Some(ImportKind::Dynamic)
        } else if t == "require"@ && function.kind@ == "identifier"@ {
            Some(ImportKind::Require)
        } else if t == "require.resolve"@ && function.kind@ == "member_expression"@ {
            Some(ImportKind::Require)
        } else {
            None
        },
        None => None,
    }
}

/// The dependency of a call expression: a dependency-loading call whose only argument is a
/// string literal.
pub open spec fn call_imports(src: Seq<char>, n: SyntaxNode) -> Seq<ImportView> {
    match field_child(n, "function"@) {
        None => Seq::empty(),
        Some(f) => match call_kind(src, f) {
            None => Seq::empty(),
            Some(kind) => match field_child(n, "arguments"@) {
                None => Seq::empty(),
                Some(args) => {
                    let named = named_children(args);
                    if named.len() == 1 && named[0].kind@ == "string"@ {
                        listed_import(string_import(src, named[0], kind))
                    } else {
                        Seq::empty()
                    }
                },
            },
        },
    }
}

/// The dependencies under a node, in a preorder walk of the named nodes: import and export
/// statements give their source (and end the walk there), `import ... = require(...)` its
/// string, and dependency-loading calls their literal argument.
pub open spec fn deps_of(src: Seq<char>, n: SyntaxNode) -> Seq<ImportView>
    decreases n, n.children@.len() + 1,
{
    let k = n.kind@;
    if k == "import_statement"@ {
        match field_child(n, "source"@) {
            Some(sp) => listed_import(string_import(src, sp, classify_import(src, n))),
            None => equals_require(src, n),
        }
    } else if k == "import_alias"@ {
        equals_require(src, n)
    } else if k == "export_statement"@ {
        match field_child(n, "source"@) {
            Some(sp) => listed_import(string_import(src, sp, classify_export(src, n))),
            None => Seq::empty(),
        }
    } else if k == "call_expression"@ {
        call_imports(src, n) + deps_among(src, n, 0)
    } else {
        deps_among(src, n, 0)
    }
}

/// The dependencies under the named children from position `i` on.
pub open spec fn deps_among(src: Seq<char>, n: SyntaxNode, i: int) -> Seq<ImportView>
    decreases n, n.children@.len() - i,
{
    if i < 0 || i >= n.children@.len() {
        Seq::empty()
    } else {
        let rest = deps_among(src, n, i + 1);
        if n.children@[i].named {
            proof {
                assert(decreases_to!(n => n.children@[i]));
            }
            deps_of(src, n.children@[i]) + rest
        } else {
            rest
        }
    }
}

fn push_import(output: &mut Vec<Import>, found: Option<Import>, Ghost(path): Ghost<Seq<char>>, Ghost(o): Ghost<Option<ImportView>>)
    requires
        match found {
            Some(i) => o == Some(import_view(i)) && of_module(i, path),
            None => o is None,
        },
        all_of_module(old(output)@, path),
    ensures
        views_of(final(output)@) == views_of(old(output)@) + listed_import(o),
        all_of_module(final(output)@, path),
{
    let ghost before = output@;
    match found {
        Some(i) => {
            output.push(i);
            assert(views_of(output@) =~= views_of(before) + listed_import(o));
        },
        None => {
            assert(views_of(output@) =~= views_of(before) + listed_import(o));
        },
    }
}

fn equals_require_of(text: &SourceText, path: &str, n: &SyntaxNode, output: &mut Vec<Import>)
    requires
        text.valid(),
        byte_len(text.chars@) < usize::MAX,
        all_of_module(old(output)@, path@),
    ensures
        views_of(final(output)@) == views_of(old(output)@) + equals_require(text.chars@, *n),
        all_of_module(final(output)@, path@),
{
    let mentions = match text.text(n.start_byte, n.end_byte) {
        Some(t) => contains_text(t.as_str(), "require"),
        None => false,
    };
    if !mentions {
        assert(views_of(output@) =~= views_of(output@) + Seq::<ImportView>::empty());
        return;
    }
    match descendant_of_kind_of(n, "string") {
        Some(sn) => {
            let found = string_import_of(text, path, sn, ImportKind::Require);
            push_import(output, found, Ghost(path@), Ghost(string_import(text.chars@, *sn, ImportKind::Require)));
        },
        None => {
            assert(views_of(output@) =~= views_of(output@) + Seq::<ImportView>::empty());
        },
    }
}

fn call_kind_of(text: &SourceText, function: &SyntaxNode) -> (r: Option<ImportKind>)
    requires
        text.valid(),
    ensures
        r == call_kind(text.chars@, *function),
{
    match text.text(function.start_byte, function.end_byte) {
        Some(t) => if text_equal(t.as_str(), "import") {
            Some(ImportKind::Dynamic)
        } else if text_equal(t.as_str(), "require") && text_equal(function.kind.as_str(), "identifier") {
            Some(ImportKind::Require)
        } else if text_equal(t.as_str(), "require.resolve") && text_equal(function.kind.as_str(), "member_expression") {
            Some(ImportKind::Require)
        } else {
            None
        },
        None => None,
    }
}

fn call_imports_of(text: &SourceText, path: &str, n: &SyntaxNode, output: &mut Vec<Import>)
    requires
        text.valid(),
        byte_len(text.chars@) < usize::MAX,
        all_of_module(old(output)@, path@),
    ensures
        views_of(final(output)@) == views_of(old(output)@) + call_imports(text.chars@, *n),
        all_of_module(final(output)@, path@),
{
    let ghost none = views_of(output@) + Seq::<ImportView>::empty();
    assert(views_of(output@) =~= none);
    let function = match field_child_of(n, "function") {
        Some(f) => f,
        None => return,
    };
    let kind = match call_kind_of(text, function) {
        Some(k) => k,
        None => return,
    };
    let arguments = match field_child_of(n, "arguments") {
        Some(a) => a,
        None => return,
    };
    let named = named_children_of(arguments);
    proof {
        assert(named@.len() == named_children(*arguments).len());
        if named@.len() > 0 {
            assert(*named@[0] == named_children(*arguments)[0]);
        }
    }
    if named.len() == 1 && text_equal(named[0].kind.as_str(), "string") {
        let found = string_import_of(text, path, named[0], kind);
        push_import(output, found, Ghost(path@), Ghost(string_import(text.chars@, *named[0], kind)));
    }
}

/// Appends the dependencies under `n` (see `deps_of`) to `output`.
fn collect_dependencies(text: &SourceText, path: &str, n: &SyntaxNode, output: &mut Vec<Import>)
    requires
        text.valid(),
        byte_len(text.chars@) < usize::MAX,
        all_of_module(old(output)@, path@),
    ensures
        views_of(final(output)@) == views_of(old(output)@) + deps_of(text.chars@, *n),
        all_of_module(final(output)@, path@),
    decreases n,
{
    let ghost src = text.chars@;
    let ghost start = views_of(output@);
    if text_equal(n.kind.as_str(), "import_statement") {
        match field_child_of(n, "source") {
            Some(sp) => {
                let kind = classify_import_of(text, n);
                let found = string_import_of(text, path, sp, kind);
                push_import(output, found, Ghost(path@), Ghost(string_import(src, *sp, kind)));
            },
            None => equals_require_of(text, path, n, output),
        }
        return;
    }
    if text_equal(n.kind.as_str(), "import_alias") {
        equals_require_of(text, path, n, output);
        return;
    }
    if text_equal(n.kind.as_str(), "export_statement") {
        match field_child_of(n, "source") {
            Some(sp) => {
                let kind = classify_export_of(text, n);
                let found = string_import_of(text, path, sp, kind);
                push_import(output, found, Ghost(path@), Ghost(string_import(src, *sp, kind)));
            },
            None => {
                assert(views_of(output@) =~= views_of(output@) + Seq::<ImportView>::empty());
            },
        }
        return;
    }
    let call = text_equal(n.kind.as_str(), "call_expression");
    if call {
        call_imports_of(text, path, n, output);
    }
    let ghost middle = views_of(output@);
    let mut i: usize = 0;
    assert(middle + deps_among(src, *n, 0) =~= middle + deps_among(src, *n, i as int));
    while i < n.children.len()
        invariant
            text.valid(),
            src == text.chars@,
            byte_len(text.chars@) < usize::MAX,
            all_of_module(output@, path@),
            i <= n.children@.len(),
            views_of(output@) + deps_among(src, *n, i as int) == middle + deps_among(src, *n, 0),
        decreases n.children@.len() - i,
    {
        let child = &n.children[i];
        let ghost before = views_of(output@);
        if child.named {
            proof {
                assert(decreases_to!(*n => n.children@[i as int]));
            }
            collect_dependencies(text, path, child, output);
            assert(views_of(output@) + deps_among(src, *n, i + 1) =~= before + deps_among(src, *n, i as int));
        } else {
            assert(views_of(output@) + deps_among(src, *n, i + 1) =~= before + deps_among(src, *n, i as int));
        }
        i = i + 1;
    }
    assert(deps_among(src, *n, i as int) =~= Seq::<ImportView>::empty());
    assert(views_of(output@) =~= middle + deps_among(src, *n, 0));
}

/// The first error or missing node in a preorder walk of the node and all its descendants.
pub open spec fn first_error_node(n: SyntaxNode) -> Option<SyntaxNode>
    decreases n, n.children@.len() + 1,
{
    if n.error || n.missing {
        Some(n)
    } else {
        first_error_among(n, 0)
    }
}

/// The first error or missing node under the children from position `i` on.
pub open spec fn first_error_among(n: SyntaxNode, i: int) -> Option<SyntaxNode>
    decreases n, n.children@.len() - i,
{
    if i < 0 || i >= n.children@.len() {
        None
    } else {
        proof {
            assert(decreases_to!(n => n.children@[i]));
        }
        match first_error_node(n.children@[i]) {
            Some(e) => Some(e),
            None => first_error_among(n, i + 1),
        }
    }
}

fn first_error_of<'a>(n: &'a SyntaxNode) -> (r: Option<&'a SyntaxNode>)
    ensures
        match r {
            Some(e) => first_error_node(*n) == Some(*e),
            None => first_error_node(*n) is None,
        },
    decreases n,
{
    if n.error || n.missing {
        return Some(n);
    }
    let mut i: usize = 0;
    while i < n.children.len()
        invariant
            i <= n.children@.len(),
            !(n.error || n.missing),
            first_error_node(*n) == first_error_among(*n, i as int),
        decreases n.children@.len() - i,
    {
        proof {
            assert(decreases_to!(*n => n.children@[i as int]));
        }
        match first_error_of(&n.children[i]) {
            Some(e) => return Some(e),
            None => {},
        }
        i = i + 1;
    }
    None
}

/// The value of a directive statement: its first named child, when that is a string literal.
pub open spec fn directive_value(src: Seq<char>, c: SyntaxNode) -> Option<Seq<char>> {
    let named = named_children(c);
    if named.len() > 0 && named[0].kind@ == "string"@ {
        match node_text(src, named[0]) {
            Some(t) => decoded_literal(t),
            None => None,
        }
    } else {
        None
    }
}

/// The directives of the prologue, from position `i` of the top-level statements on: comments
/// are skipped, and the prologue ends at the first statement that is not a string directive.
pub open spec fn directives_from(src: Seq<char>, s: Seq<SyntaxNode>, i: int) -> Seq<Seq<char>>
    decreases s.len() - i,
{
    if i < 0 || i >= s.len() {
        Seq::empty()
    } else if s[i].kind@ == "comment"@ {
        directives_from(src, s, i + 1)
    } else if s[i].kind@ == "expression_statement"@ && directive_value(src, s[i]) is Some {
        seq![directive_value(src, s[i])->0] + directives_from(src, s, i + 1)
    } else {
        Seq::empty()
    }
}

/// The runtime that a statement declares as `runtime = 'edge' | 'nodejs'`: the first variable
/// declarator below it must be named `runtime` and have a string literal of one of those values.
pub open spec fn runtime_declaration(src: Seq<char>, n: SyntaxNode) -> Option<Seq<char>> {
    match descendant_of_kind(n, "variable_declarator"@) {
        None => None,
        Some(d) => match field_child(d, "name"@) {
            None => None,
            Some(name) => match node_text(src, name) {
                None => None,
                Some(t) => if t != "runtime"@ {
                    None
                } else {
                    match field_child(d, "value"@) {
                        None => None,
                        Some(v) => if v.kind@ != "string"@ {
                            None
                        } else {
                            match node_text(src, v) {
                                None => None,
                                Some(raw) => match decoded_literal(raw) {
                                    Some(rt) => if rt == "edge"@ || rt == "nodejs"@ {
                                        Some(rt)
                                    } else {
                                        None
                                    },
                                    None => None,
                                },
                            }
                        },
                    }
                },
            },
        },
    }
}

/// The runtime that the first top-level export statement from position `i` on declares.
pub open spec fn exported_from(src: Seq<char>, s: Seq<SyntaxNode>, i: int) -> Option<Seq<char>>
    decreases s.len() - i,
{
    if i < 0 || i >= s.len() {
        None
    } else if s[i].kind@ == "export_statement"@ && runtime_declaration(src, s[i]) is Some {
        runtime_declaration(src, s[i])
    } else {
        exported_from(src, s, i + 1)
    }
}

/// The semantics a module's syntax shows: its directives and its exported runtime.
pub open spec fn semantics_of(src: Seq<char>, root: SyntaxNode, m: ModuleSemantics) -> bool {
    &&& m.directives@.map_values(|d: String| d@) == directives_from(src, named_children(root), 0)
    &&& match m.exported_runtime {
        Some(rt) => exported_from(src, named_children(root), 0) == Some(rt@),
        None => exported_from(src, named_children(root), 0) is None,
    }
    &&& m.marker_imports@.len() == 0
}

fn directive_value_of(text: &SourceText, c: &SyntaxNode) -> (r: Option<String>)
    requires
        text.valid(),
    ensures
        match r {
            Some(v) => directive_value(text.chars@, *c) == Some(v@),
            None => directive_value(text.chars@, *c) is None,
        },
{
    let named = named_children_of(c);
    proof {
        if named@.len() > 0 {
            assert(*named@[0] == named_children(*c)[0]);
        }
    }
    if named.len() > 0 && text_equal(named[0].kind.as_str(), "string") {
        match text.text(named[0].start_byte, named[0].end_byte) {
            Some(t) => decode_string_literal(t.as_str()),
            None => None,
        }
    } else {
        None
    }
}

fn runtime_declaration_of(text: &SourceText, n: &SyntaxNode) -> (r: Option<String>)
    requires
        text.valid(),
    ensures
        match r {
            Some(v) => runtime_declaration(text.chars@, *n) == Some(v@),
            None => runtime_declaration(text.chars@, *n) is None,
        },
{
    let declarator = match descendant_of_kind_of(n, "variable_declarator") {
        Some(d) => d,
        None => return None,
    };
    let name = match field_child_of(declarator, "name") {
        Some(x) => x,
        None => return None,
    };
    let name_text = match text.text(name.start_byte, name.end_byte) {
        Some(t) => t,
        None => return None,
    };
    if !text_equal(name_text.as_str(), "runtime") {
        return None;
    }
    let value = match field_child_of(declarator, "value") {
        Some(v) => v,
        None => return None,
    };
    if !text_equal(value.kind.as_str(), "string") {
        return None;
    }
    let raw = match text.text(value.start_byte, value.end_byte) {
        Some(t) => t,
        None => return None,
    };
    match decode_string_literal(raw.as_str()) {
        Some(rt) => if text_equal(rt.as_str(), "edge") || text_equal(rt.as_str(), "nodejs") {
            Some(rt)
        } else {
            None
        },
        None => None,
    }
}

/// The directives and exported runtime of a module with syntax tree `root`.
fn collect_semantics(text: &SourceText, root: &SyntaxNode) -> (r: ModuleSemantics)
    requires
        text.valid(),
    ensures
        semantics_of(text.chars@, *root, r),
{
    let statements = named_children_of(root);
    let ghost s = named_children(*root);
    let mut directives: Vec<String> = Vec::new();
    let mut i: usize = 0;
    loop
        invariant_except_break
            text.valid(),
            s == statements@.map_values(|c: &SyntaxNode| *c),
            i <= statements@.len(),
            directives@.map_values(|d: String| d@) + directives_from(text.chars@, s, i as int) == directives_from(
                text.chars@,
                s,
                0,
            ),
        ensures
            text.valid(),
            s == statements@.map_values(|c: &SyntaxNode| *c),
            directives@.map_values(|d: String| d@) == directives_from(text.chars@, s, 0),
        decreases statements@.len() - i,
    {
        if i >= statements.len() {
            assert(directives_from(text.chars@, s, i as int) =~= Seq::<Seq<char>>::empty());
            assert(directives@.map_values(|d: String| d@) =~= directives@.map_values(|d: String| d@) + Seq::<Seq<char>>::empty());
            break;
        }
        let statement = statements[i];
        assert(s[i as int] == *statement);
        if text_equal(statement.kind.as_str(), "comment") {
            i = i + 1;
            continue;
        }
        let value = if text_equal(statement.kind.as_str(), "expression_statement") {
            directive_value_of(text, statement)
        } else {
            None
        };
        match value {
            Some(d) => {
                let ghost before = directives@.map_values(|d: String| d@);
                directives.push(d);
                proof {
                    assert(directives@.map_values(|d: String| d@) =~= before.push(d@));
                    assert(before.push(d@) + directives_from(text.chars@, s, i + 1) =~= before + (seq![d@]
                        + directives_from(text.chars@, s, i + 1)));
                }
                i = i + 1;
            },
            None => {
                assert(directives@.map_values(|d: String| d@) =~= directives@.map_values(|d: String| d@) + Seq::<
                    Seq<char>,
                >::empty());
                break;
            },
        }
    }
    let mut exported: Option<String> = None;
    let mut k: usize = 0;
    loop
        invariant_except_break
            text.valid(),
            s == statements@.map_values(|c: &SyntaxNode| *c),
            k <= statements@.len(),
            exported is None,
            exported_from(text.chars@, s, 0) == exported_from(text.chars@, s, k as int),
        ensures
            match exported {
                Some(rt) => exported_from(text.chars@, s, 0) == Some(rt@),
                None => exported_from(text.chars@, s, 0) is None,
            },
        decreases statements@.len() - k,
    {
        if k >= statements.len() {
            break;
        }
        let statement = statements[k];
        assert(s[k as int] == *statement);
        if text_equal(statement.kind.as_str(), "export_statement") {
            match runtime_declaration_of(text, statement) {
                Some(rt) => {
                    exported = Some(rt);
                    break;
                },
                None => {},
            }
        }
        k = k + 1;
    }
    ModuleSemantics { directives, exported_runtime: exported, marker_imports: Vec::new() }
}

/// The order in which a module's dependencies are listed: by line, column, then specifier.
pub open spec fn import_lt(a: ImportView, b: ImportView) -> bool {
    a.2 < b.2 || (a.2 == b.2 && (a.3 < b.3 || (a.3 == b.3 && text_lt(a.0, b.0))))
}

impl Ranked for Import {
    open spec fn precedes(&self, other: &Self) -> bool {
        import_lt(import_view(*self), import_view(*other))
    }

    proof fn lemma_irreflexive(a: &Self) {
        lemma_text_lt_irreflexive(a.specifier@);
    }

    proof fn lemma_transitive(a: &Self, b: &Self, c: &Self) {
        if text_lt(a.specifier@, b.specifier@) && text_lt(b.specifier@, c.specifier@) {
            lemma_text_lt_transitive(a.specifier@, b.specifier@, c.specifier@);
        }
    }

    proof fn lemma_negatively_transitive(a: &Self, b: &Self, c: &Self) {
        lemma_text_lt_total(a.specifier@, b.specifier@);
        lemma_text_lt_total(b.specifier@, c.specifier@);
        if !text_lt(a.specifier@, b.specifier@) && !text_lt(b.specifier@, c.specifier@) {
            lemma_text_lt_negatively_transitive(a.specifier@, b.specifier@, c.specifier@);
        }
    }

    fn comes_before(&self, other: &Self) -> (r: bool) {
        if self.location.line != other.location.line {
            return self.location.line < other.location.line;
        }
        if self.location.column != other.location.column {
            return self.location.column < other.location.column;
        }
        text_less(self.specifier.as_str(), other.specifier.as_str())
    }
}

/// `s` without the elements equal to the one kept just before them (`Vec::dedup`).
pub open spec fn dedup_views(s: Seq<ImportView>) -> Seq<ImportView>
    decreases s.len(),
{
    if s.len() == 0 {
        s
    } else {
        let earlier = dedup_views(s.drop_last());
        if earlier.len() > 0 && earlier.last() == s.last() {
            earlier
        } else {
            earlier.push(s.last())
        }
    }
}

/// `r` lists the dependencies `deps` in dependency order without adjacent repetitions.
pub open spec fn arranged(r: Seq<Import>, deps: Seq<ImportView>) -> bool {
    exists|u: Seq<Import>, w: Seq<Import>|
        #![trigger views_of(u), views_of(w)]
        views_of(u) == deps && w.to_multiset() == u.to_multiset() && is_sorted(w) && views_of(r)
            == dedup_views(views_of(w))
}

fn same_import(a: &Import, b: &Import) -> (r: bool)
    ensures
        r == (import_view(*a) == import_view(*b)),
{
    text_equal(a.specifier.as_str(), b.specifier.as_str()) && a.kind == b.kind && a.location.line == b.location.line
        && a.location.column == b.location.column
}

fn dedup_imports(v: Vec<Import>) -> (r: Vec<Import>)
    ensures
        views_of(r@) == dedup_views(views_of(v@)),
        forall|k: int| 0 <= k < r@.len() ==> v@.contains(#[trigger] r@[k]),
{
    let ghost all = v@;
    let n = v.len();
    let mut out: Vec<Import> = Vec::new();
    let mut index: usize = 0;
    for item in it: v
        invariant
            it.seq() == all,
            all.len() == n,
            index == it.index(),
            index <= all.len(),
            views_of(out@) == dedup_views(views_of(all.take(index as int))),
            forall|k: int| 0 <= k < out@.len() ==> all.contains(#[trigger] out@[k]),
    {
        proof {
            assert(item == all[index as int]);
            assert(views_of(all.take(index + 1)).drop_last() =~= views_of(all.take(index as int)));
            assert(views_of(all.take(index + 1)).last() == import_view(item));
        }
        let keep = if out.len() == 0 {
            true
        } else {
            let last = out.len() - 1;
            proof {
                assert(views_of(out@).last() == import_view(out@[last as int]));
            }
            !same_import(&out[last], &item)
        };
        if keep {
            let ghost before = out@;
            out.push(item);
            proof {
                assert(views_of(out@) =~= views_of(before).push(import_view(item)));
                assert(all.contains(all[index as int]));
            }
        }
        index = index + 1;
    }
    assert(all.take(index as int) =~= all);
    out
}

/// The dependencies of a module ordered by position and without adjacent repetitions.
fn arrange_imports(imports: Vec<Import>, Ghost(path): Ghost<Seq<char>>) -> (r: Vec<Import>)
    requires
        all_of_module(imports@, path),
    ensures
        arranged(r@, views_of(imports@)),
        all_of_module(r@, path),
{
    let ghost u = imports@;
    let sorted = sort_ranked(imports);
    let ghost w = sorted@;
    let r = dedup_imports(sorted);
    proof {
        assert forall|k: int| 0 <= k < r@.len() implies of_module(#[trigger] r@[k], path) by {
            lemma_reorder_contains(w, u, r@[k]);
            let j = choose|j: int| 0 <= j < u.len() && u[j] == r@[k];
            assert(of_module(u[j], path));
        }
        assert(views_of(u) == views_of(u) && views_of(w) == views_of(w));
        assert(arranged(r@, views_of(u)));
    }
    r
}

/// Parser output version; cache consumers persist it so parser upgrades never reuse stale
/// dependency data.
pub const PARSER_CACHE_VERSION: &'static str = "0.0.26:js-ts-ast-v5";

/// The dependencies and semantics of one module.
#[derive(Clone, Debug, PartialEq, Eq)]
pub struct ParsedModule {
    pub imports: Vec<Import>,
    pub semantics: ModuleSemantics,
}

impl Default for ParsedModule {
    fn default() -> (r: Self)
        ensures
            r.imports@.len() == 0,
            r.semantics.directives@.len() == 0,
            r.semantics.exported_runtime is None,
            r.semantics.marker_imports@.len() == 0,
    {
        ParsedModule { imports: Vec::new(), semantics: ModuleSemantics::default() }
    }
}

/// The last position of `c` in `s`.
pub open spec fn last_index_of(s: Seq<char>, c: char) -> Option<int>
    decreases s.len(),
{
    if s.len() == 0 {
        None
    } else if s.last() == c {
        Some(s.len() - 1)
    } else {
        last_index_of(s.drop_last(), c)
    }
}

/// The file name of a path: its last component, skipping empty and `.` components; none when
/// that is `..` (`Path::file_name`, with `/` as separator).
pub open spec fn last_name(segs: Seq<Seq<char>>) -> Option<Seq<char>>
    decreases segs.len(),
{
    if segs.len() == 0 {
        None
    } else if segs.last() == ""@ || segs.last() == "."@ {
        last_name(segs.drop_last())
    } else if segs.last() == ".."@ {
        None
    } else {
        Some(segs.last())
    }
}

/// The extension of a path: what follows the last `.` of its file name, unless that dot starts
/// the name (`Path::extension`).
pub open spec fn extension_of(path: Seq<char>) -> Option<Seq<char>> {
    match last_name(split_seq(path, '/')) {
        None => None,
        Some(name) => match last_index_of(name, '.') {
            None => None,
            Some(k) => if k == 0 {
                None
            } else {
                Some(name.skip(k + 1))
            },
        },
    }
}

/// TSX and JSX files are parsed with the TSX grammar.
pub open spec fn tsx_file(path: Seq<char>) -> bool {
    extension_of(path) == Some("tsx"@) || extension_of(path) == Some("jsx"@)
}

fn extension_is_tsx(path: &str) -> (r: bool)
    ensures
        r == tsx_file(path@),
{
    let segments = split_char(path, '/');
    let ghost segs = split_seq(path@, '/');
    assert(texts_of(segments@) == segs);
    let mut k: usize = segments.len();
    assert(segs.take(k as int) =~= segs);
    while k > 0 && (text_equal(segments[k - 1].as_str(), "") || text_equal(segments[k - 1].as_str(), "."))
        invariant
            k <= segments@.len(),
            segs == texts_of(segments@),
            last_name(segs.take(k as int)) == last_name(segs),
        decreases k,
    {
        proof {
            assert(segs.take(k as int).drop_last() =~= segs.take(k - 1));
            assert(segs.take(k as int).last() == segments@[k - 1]@);
        }
        k = k - 1;
    }
    if k == 0 {
        return false;
    }
    proof {
        assert(segs.take(k as int).last() == segments@[k - 1]@);
    }
    let name = segments[k - 1].as_str();
    if text_equal(name, "..") {
        return false;
    }
    let cs = chars_of(name);
    let mut d: usize = cs.len();
    assert(cs@.take(d as int) =~= cs@);
    while d > 0 && cs[d - 1] != '.'
        invariant
            d <= cs@.len(),
            cs@ == name@,
            last_index_of(cs@.take(d as int), '.') == last_index_of(cs@, '.'),
        decreases d,
    {
        proof {
            assert(cs@.take(d as int).drop_last() =~= cs@.take(d - 1));
        }
        d = d - 1;
    }
    if d <= 1 {
        proof {
            if d == 1 {
                assert(cs@.take(1).last() == cs@[0]);
            }
        }
        return false;
    }
    proof {
        assert(cs@.take(d as int).last() == cs@[d - 1]);
    }
    let rest = crate::text::slice_from(&cs, d);
    let ext = string_from(rest.as_slice());
    text_equal(ext.as_str(), "tsx") || text_equal(ext.as_str(), "jsx")
}

/// Sources that the grammar's `assert` import attributes accept once written with `with`: the
/// source holds ` with {` and parses without error after each ` with {` becomes ` assert {`.
pub open spec fn import_attribute_fallback(source: Seq<char>, tsx: bool) -> bool {
    holds_text(source, " with {"@) && match typescript_outcome(replaced_all(source, " with {"@, " assert {"@), tsx) {
        SyntaxOutcome::Tree(t) => !t.has_error,
        _ => false,
    }
}

fn accepts_import_attributes(source: &str, tsx: bool) -> (r: bool)
    ensures
        r == import_attribute_fallback(source@, tsx),
{
    if !contains_text(source, " with {") {
        return false;
    }
    let compatible = replace_all(source, " with {", " assert {");
    match parse_typescript(compatible.as_str(), tsx) {
        SyntaxOutcome::Tree(t) => !t.has_error,
        _ => false,
    }
}

/// The syntax tree the parser accepts for a module: the grammar's tree, when it has no error or
/// only the import attribute syntax the grammar predates.
pub open spec fn accepted_tree(path: Seq<char>, source: Seq<char>) -> Option<SyntaxNode> {
    match typescript_outcome(source, tsx_file(path)) {
        SyntaxOutcome::Tree(root) => if !root.has_error || import_attribute_fallback(source, tsx_file(path)) {
            Some(root)
        } else {
            None
        },
        _ => None,
    }
}

/// The error reported for a tree with a syntax error: malformed source, located at the first
/// error or missing node.
pub open spec fn malformed_error_is(path: Seq<char>, source: Seq<char>, root: SyntaxNode, e: ParseError) -> bool {
    &&& e.kind == ParseErrorKind::MalformedSource
    &&& e.message@ == "malformed JavaScript/TypeScript source"@
    &&& match first_error_node(root) {
        Some(er) => e.location matches Some(l) && l.file@ == path && (l.line as int, l.column as int)
            == location_at(source, er.start_byte as int),
        None => e.location is None,
    }
}

/// The error reported when the parser accepts no tree for a module.
pub open spec fn parse_error_is(path: Seq<char>, source: Seq<char>, e: ParseError) -> bool {
    match typescript_outcome(source, tsx_file(path)) {
        SyntaxOutcome::LanguageRejected(message) => e.kind == ParseErrorKind::ProviderFailure && e.message@
            == message@ && e.location is None,
        SyntaxOutcome::NoTree => e.kind == ParseErrorKind::ProviderFailure && e.message@
            == "parser did not produce a syntax tree"@ && e.location is None,
        SyntaxOutcome::Tree(root) => malformed_error_is(path, source, root, e),
    }
}

/// The error for a syntax tree with an error in it (see `malformed_error_is`).
pub fn malformed_error(module: &ModulePath, source: &str, root: &SyntaxNode) -> (r: ParseError)
    requires
        byte_len(source@) < usize::MAX,
    ensures
        malformed_error_is(module@, source@, *root, r),
{
    let text = match SourceText::new(chars_of(source)) {
        Some(t) => t,
        None => {
            assert(false);
            return ParseError {
                kind: ParseErrorKind::MalformedSource,
                message: owned("malformed JavaScript/TypeScript source"),
                location: None,
            };
        },
    };
    let location = match first_error_of(root) {
        Some(node) => Some(location_of(&text, module.0.as_str(), node.start_byte)),
        None => None,
    };
    ParseError {
        kind: ParseErrorKind::MalformedSource,
        message: owned("malformed JavaScript/TypeScript source"),
        location,
    }
}

/// Parses a module's source with the grammar its extension selects and returns the accepted
/// tree, or the error that reports why there is none.
pub fn parse_tree(module: &ModulePath, source: &str) -> (r: Result<SyntaxNode, ParseError>)
    requires
        byte_len(source@) < usize::MAX,
    ensures
        match r {
            Ok(root) => accepted_tree(module@, source@) == Some(root),
            Err(e) => accepted_tree(module@, source@) is None && parse_error_is(module@, source@, e),
        },
{
    let tsx = extension_is_tsx(module.0.as_str());
    match parse_typescript(source, tsx) {
        SyntaxOutcome::LanguageRejected(message) => Err(
            ParseError { kind: ParseErrorKind::ProviderFailure, message, location: None },
        ),
        SyntaxOutcome::NoTree => Err(
            ParseError {
                kind: ParseErrorKind::ProviderFailure,
                message: owned("parser did not produce a syntax tree"),
                location: None,
            },
        ),
        SyntaxOutcome::Tree(root) => {
            if root.has_error && !accepts_import_attributes(source, tsx) {
                let error = malformed_error(module, source, &root);
                Err(error)
            } else {
                Ok(root)
            }
        },
    }
}

/// The module that the source shows, read from its syntax tree `root`.
pub open spec fn module_read(path: Seq<char>, source: Seq<char>, root: SyntaxNode, m: ParsedModule) -> bool {
    &&& arranged(m.imports@, deps_of(source, root))
    &&& all_of_module(m.imports@, path)
    &&& semantics_of(source, root, m.semantics)
}

/// The dependencies and semantics of a module, read from its syntax tree: the dependencies of
/// `deps_of` in position order without adjacent repetitions, and the directives and exported
/// runtime of `semantics_of`.
pub fn module_from_tree(module: &ModulePath, source: &str, root: &SyntaxNode) -> (r: ParsedModule)
    requires
        byte_len(source@) < usize::MAX,
    ensures
        module_read(module@, source@, *root, r),
{
    let text = match SourceText::new(chars_of(source)) {
        Some(t) => t,
        None => {
            assert(false);
            return ParsedModule::default();
        },
    };
    let mut imports: Vec<Import> = Vec::new();
    collect_dependencies(&text, module.0.as_str(), root, &mut imports);
    assert(views_of(imports@) =~= deps_of(text.chars@, *root));
    let imports = arrange_imports(imports, Ghost(module@));
    let semantics = collect_semantics(&text, root);
    ParsedModule { imports, semantics }
}

/// A source-file parser: the dependencies and semantics of a module.
pub trait ParserAdapter {
    /// `r` is what parsing `source` as `module` gives.
    spec fn parses_to(&self, module: ModulePath, source: Seq<char>, r: Result<ParsedModule, ParseError>) -> bool;

    fn parse_module(&self, module: &ModulePath, source: &str) -> (r: Result<ParsedModule, ParseError>)
        requires
            byte_len(source@) < usize::MAX,
        ensures
            self.parses_to(*module, source@, r),
    ;

    /// The imports of the parsed module, or the error of its parse.
    fn parse_imports(&self, module: &ModulePath, source: &str) -> (r: Result<Vec<Import>, ParseError>)
        requires
            byte_len(source@) < usize::MAX,
        ensures
            exists|m: Result<ParsedModule, ParseError>|
                #[trigger] self.parses_to(*module, source@, m) && match m {
                    Ok(pm) => r == Ok::<Vec<Import>, ParseError>(pm.imports),
                    Err(e) => r == Err::<Vec<Import>, ParseError>(e),
                },
    {
        match self.parse_module(module, source) {
            Ok(module) => Ok(module.imports),
            Err(error) => Err(error),
        }
    }
}

/// The JavaScript/TypeScript parser, reading dependencies from the tree-sitter syntax tree.
#[derive(Debug, Default)]
pub struct JsTsParser;

impl ParserAdapter for JsTsParser {
    open spec fn parses_to(&self, module: ModulePath, source: Seq<char>, r: Result<ParsedModule, ParseError>) -> bool {
        match r {
            Ok(m) => accepted_tree(module@, source) matches Some(root) && module_read(module@, source, root, m),
            Err(e) => accepted_tree(module@, source) is None && parse_error_is(module@, source, e),
        }
    }

    fn parse_module(&self, module: &ModulePath, source: &str) -> (r: Result<ParsedModule, ParseError>)
        ensures
            match r {
                Ok(m) => accepted_tree(module@, source@) matches Some(root) && module_read(
                    module@,
                    source@,
                    root,
                    m,
                ),
                Err(e) => accepted_tree(module@, source@) is None && parse_error_is(module@, source@, e),
            },
    {
        match parse_tree(module, source) {
            Ok(root) => Ok(module_from_tree(module, source, &root)),
            Err(error) => Err(error),
        }
    }

    fn parse_imports(&self, module: &ModulePath, source: &str) -> (r: Result<Vec<Import>, ParseError>)
        ensures
            match r {
                Ok(imports) => accepted_tree(module@, source@) matches Some(root) && arranged(
                    imports@,
                    deps_of(source@, root),
                ) && all_of_module(imports@, module@),
                Err(e) => accepted_tree(module@, source@) is None && parse_error_is(module@, source@, e),
            },
    {
        let parsed = self.parse_module(module, source);
        proof {
            assert(self.parses_to(*module, source@, parsed));
        }
        match parsed {
            Ok(module) => Ok(module.imports),
            Err(error) => Err(error),
        }
    }
}


/// The first node of a kind is a node of `s` of that kind; with none, no node of `s` has it.
proof fn lemma_first_of_kind_in(s: Seq<SyntaxNode>, kind: Seq<char>)
    ensures
        match first_of_kind_in(s, kind) {
            Some(c) => exists|i: int| 0 <= i < s.len() && s[i] == c && c.kind@ == kind,
            None => forall|i: int| 0 <= i < s.len() ==> (#[trigger] s[i]).kind@ != kind,
        },
    decreases s.len(),
{
    if s.len() > 0 && s[0].kind@ != kind {
        let rest = s.drop_first();
        lemma_first_of_kind_in(rest, kind);
        match first_of_kind_in(rest, kind) {
            Some(c) => {
                let i = choose|i: int| 0 <= i < rest.len() && rest[i] == c && c.kind@ == kind;
                assert(s[i + 1] == rest[i]);
            },
            None => {
                assert forall|i: int| 0 <= i < s.len() implies (#[trigger] s[i]).kind@ != kind by {
                    if i > 0 {
                        assert(s[i] == rest[i - 1]);
                    }
                }
            },
        }
    }
}

/// An import clause that is a single list of type-only specifiers (`import { type A } ...`).
pub open spec fn typed_list_clause(src: Seq<char>, clause: SyntaxNode) -> bool {
    let parts = named_children(clause);
    parts.len() == 1 && parts[0].kind@ == "named_imports"@ && all_specifiers_typed(src, parts[0], "import_specifier"@)
}

/// An import statement is either static or type-only; written with `type` it is type-only, and
/// without it only an import clause that is a single list of type-only specifiers makes it so.
/// In particular a side-effect import (`import './polyfill';`), which has no clause, is static:
/// the module runs at load time.
pub proof fn lemma_import_kind(src: Seq<char>, n: SyntaxNode)
    ensures
        classify_import(src, n) == ImportKind::Static || classify_import(src, n) == ImportKind::TypeOnly,
        has_type_keyword(n) ==> classify_import(src, n) == ImportKind::TypeOnly,
        (classify_import(src, n) == ImportKind::TypeOnly && !has_type_keyword(n)) ==> exists|i: int|
            0 <= i < named_children(n).len() && (#[trigger] named_children(n)[i]).kind@ == "import_clause"@
                && typed_list_clause(src, named_children(n)[i]),
        (!has_type_keyword(n) && forall|i: int|
            0 <= i < named_children(n).len() ==> (#[trigger] named_children(n)[i]).kind@ != "import_clause"@)
            ==> classify_import(src, n) == ImportKind::Static,
{
    lemma_first_of_kind_in(named_children(n), "import_clause"@);
}


/// A re-exporting export statement is either a re-export or type-only; written with `type` it is
/// type-only, and without it only a clause whose specifiers are all type-only makes it so: an
/// `export * from` (no clause) is a re-export.
pub proof fn lemma_export_kind(src: Seq<char>, n: SyntaxNode)
    ensures
        classify_export(src, n) == ImportKind::ReExport || classify_export(src, n) == ImportKind::TypeOnly,
        has_type_keyword(n) ==> classify_export(src, n) == ImportKind::TypeOnly,
        (classify_export(src, n) == ImportKind::TypeOnly && !has_type_keyword(n)) ==> exists|i: int|
            0 <= i < named_children(n).len() && (#[trigger] named_children(n)[i]).kind@ == "export_clause"@
                && all_specifiers_typed(src, named_children(n)[i], "export_specifier"@),
        (!has_type_keyword(n) && forall|i: int|
            0 <= i < named_children(n).len() ==> (#[trigger] named_children(n)[i]).kind@ != "export_clause"@)
            ==> classify_export(src, n) == ImportKind::ReExport,
{
    lemma_first_of_kind_in(named_children(n), "export_clause"@);
}

} // verus!
