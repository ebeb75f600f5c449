//! Syntax trees of JavaScript/TypeScript sources as tree-sitter builds them, and the byte
//! positions that tree-sitter reports, mapped back to the characters of the source.
use vstd::prelude::*;

verus! {

/// One node of a tree-sitter syntax tree: its kind, whether it is named, error and missing
/// markers, whether an error lies anywhere within it, its byte range in the source, the field
/// name under which its parent holds it, and its children in order.
#[derive(Debug, PartialEq, Eq)]
pub struct SyntaxNode {
    pub kind: String,
    pub named: bool,
    pub error: bool,
    pub missing: bool,
    pub has_error: bool,
    pub start_byte: usize,
    pub end_byte: usize,
    pub field: Option<String>,
    pub children: Vec<SyntaxNode>,
}

/// What parsing with a grammar gives: a tree, no tree, or the grammar's rejection by the parser.
#[derive(Debug, PartialEq, Eq)]
pub enum SyntaxOutcome {
    Tree(SyntaxNode),
    NoTree,
    LanguageRejected(String),
}

#[verifier::external_type_specification]
#[verifier::external_body]
pub struct ExTreeSitterNode<'tree>(tree_sitter::Node<'tree>);

/// The tree-sitter TypeScript grammar's parse of `source` (the TSX grammar when `tsx`).
pub uninterp spec fn typescript_outcome(source: Seq<char>, tsx: bool) -> SyntaxOutcome;

/// Copies a tree-sitter node and its descendants, field by field, into a `SyntaxNode`; `field`
/// is the field name under which the parent holds the node (`Node::field_name_for_child`).
#[verifier::external_body]
fn copy_node(node: tree_sitter::Node<'_>, field: Option<&str>) -> SyntaxNode {
    let children = (0..node.child_count())
        .filter_map(|index| node.child(index).map(|child| copy_node(child, node.field_name_for_child(index))))
        .collect();
    SyntaxNode {
        kind: node.kind().to_string(),
        named: node.is_named(),
        error: node.is_error(),
        missing: node.is_missing(),
        has_error: node.has_error(),
        start_byte: node.start_byte(),
        end_byte: node.end_byte(),
        field: field.map(String::from),
        children,
    }
}

/// Parses `source` with `tree_sitter::Parser` set to `tree_sitter_typescript::LANGUAGE_TSX` or
/// `LANGUAGE_TYPESCRIPT`, and copies the tree. The contract names the outcome: parsing is a
/// function of the source and the grammar; nothing is claimed of the tree's shape.
#[verifier::external_body]
pub fn parse_typescript(source: &str, tsx: bool) -> (r: SyntaxOutcome)
    ensures
        r == typescript_outcome(source@, tsx),
{
    let mut parser = tree_sitter::Parser::new();
    let language = if tsx { tree_sitter_typescript::LANGUAGE_TSX } else { tree_sitter_typescript::LANGUAGE_TYPESCRIPT };
    match parser.set_language(&language.into()) {
        Err(error) => SyntaxOutcome::LanguageRejected(error.to_string()),
        Ok(()) => match parser.parse(source, None) {
            Some(tree) => SyntaxOutcome::Tree(copy_node(tree.root_node(), None)),
            None => SyntaxOutcome::NoTree,
        },
    }
}

/// The number of bytes of the UTF-8 encoding of `c`.
pub open spec fn utf8_width(c: char) -> nat {
    let u = c as u32;
    if u < 0x80 {
        1
    } else if u < 0x800 {
        2
    } else if u < 0x10000 {
        3
    } else {
        4
    }
}

/// The number of bytes of the UTF-8 encoding of `s`.
pub open spec fn byte_len(s: Seq<char>) -> nat
    decreases s.len(),
{
    if s.len() == 0 {
        0
    } else {
        byte_len(s.drop_last()) + utf8_width(s.last())
    }
}

/// The characters of `s` that the byte range `start..end` of its encoding holds, when both ends
/// fall on character boundaries (what `Node::utf8_text` gives).
pub open spec fn text_at(s: Seq<char>, start: int, end: int) -> Option<Seq<char>> {
    if exists|i: int, j: int|
        0 <= i <= j <= s.len() && byte_len(s.take(i)) == start && byte_len(s.take(j)) == end {
        let (i, j) = choose|i: int, j: int|
            0 <= i <= j <= s.len() && byte_len(s.take(i)) == start && byte_len(s.take(j)) == end;
        Some(s.subrange(i, j))
    } else {
        None
    }
}

/// The number of characters whose encoding ends at or before byte `b`.
pub open spec fn chars_within(s: Seq<char>, b: int) -> int
    decreases s.len(),
{
    if s.len() == 0 || byte_len(s) <= b {
        s.len() as int
    } else {
        chars_within(s.drop_last(), b)
    }
}

/// The number of line breaks in `s`.
pub open spec fn line_breaks(s: Seq<char>) -> nat
    decreases s.len(),
{
    if s.len() == 0 {
        0
    } else {
        line_breaks(s.drop_last()) + if s.last() == '\n' {
            1nat
        } else {
            0nat
        }
    }
}

/// The number of characters after the last line break of `s`.
pub open spec fn last_line_len(s: Seq<char>) -> nat
    decreases s.len(),
{
    if s.len() == 0 {
        0
    } else if s.last() == '\n' {
        0
    } else {
        last_line_len(s.drop_last()) + 1
    }
}

proof fn lemma_byte_len_take_step(s: Seq<char>, k: int)
    requires
        0 <= k < s.len(),
    ensures
        byte_len(s.take(k + 1)) == byte_len(s.take(k)) + utf8_width(s[k]),
{
    assert(s.take(k + 1).drop_last() =~= s.take(k));
}

/// Byte lengths grow with the prefix.
pub proof fn lemma_byte_len_monotone(s: Seq<char>, i: int, j: int)
    requires
        0 <= i <= j <= s.len(),
    ensures
        byte_len(s.take(i)) <= byte_len(s.take(j)),
        i < j ==> byte_len(s.take(i)) < byte_len(s.take(j)),
    decreases j - i,
{
    if i < j {
        lemma_byte_len_take_step(s, j - 1);
        lemma_byte_len_monotone(s, i, j - 1);
    }
}

/// The byte offset at which each character starts, and the total length at the end.
pub open spec fn offsets_of(offsets: Seq<usize>, s: Seq<char>) -> bool {
    &&& offsets.len() == s.len() + 1
    &&& forall|k: int| 0 <= k <= s.len() ==> #[trigger] offsets[k] == byte_len(s.take(k))
}

fn width_of(c: char) -> (r: usize)
    ensures
        r == utf8_width(c),
{
    let u = c as u32;
    if u < 0x80 {
        1
    } else if u < 0x800 {
        2
    } else if u < 0x10000 {
        3
    } else {
        4
    }
}

/// The characters of a source and the byte offset of each.
pub struct SourceText {
    pub chars: Vec<char>,
    pub offsets: Vec<usize>,
}

impl SourceText {
    pub open spec fn valid(&self) -> bool {
        offsets_of(self.offsets@, self.chars@)
    }

    /// The characters of `source` with their byte offsets; `None` when its encoding does not
    /// fit in a `usize` with room to spare.
    pub fn new(chars: Vec<char>) -> (r: Option<SourceText>)
        ensures
            match r {
                Some(t) => t.valid() && t.chars@ == chars@ && byte_len(chars@) < usize::MAX,
                None => byte_len(chars@) >= usize::MAX,
            },
    {
        let mut offsets: Vec<usize> = Vec::new();
        offsets.push(0);
        assert(chars@.take(0) =~= Seq::<char>::empty());
        let mut total: usize = 0;
        let mut k: usize = 0;
        while k < chars.len()
            invariant
                k <= chars@.len(),
                offsets@.len() == k + 1,
                total == byte_len(chars@.take(k as int)),
                total < usize::MAX,
                forall|m: int| 0 <= m <= k ==> #[trigger] offsets@[m] == byte_len(chars@.take(m)),
            decreases chars@.len() - k,
        {
            let w = width_of(chars[k]);
            proof {
                lemma_byte_len_take_step(chars@, k as int);
            }
            if total >= usize::MAX - w {
                proof {
                    lemma_byte_len_monotone(chars@, k + 1, chars@.len() as int);
                    assert(chars@.take(chars@.len() as int) =~= chars@);
                }
                return None;
            }
            total = total + w;
            offsets.push(total);
            k = k + 1;
        }
        assert(chars@.take(k as int) =~= chars@);
        Some(SourceText { chars, offsets })
    }

    /// The position of the character starting at byte `b`, or the end when `b` is the length.
    fn index_at(&self, b: usize) -> (r: Option<usize>)
        requires
            self.valid(),
        ensures
            match r {
                Some(k) => k <= self.chars@.len() && byte_len(self.chars@.take(k as int)) == b,
                None => forall|k: int| 0 <= k <= self.chars@.len() ==> byte_len(self.chars@.take(k)) != b,
            },
    {
        let mut k: usize = 0;
        while k < self.offsets.len()
            invariant
                self.valid(),
                k <= self.offsets@.len(),
                forall|m: int| 0 <= m < k ==> byte_len(self.chars@.take(m)) != b,
            decreases self.offsets@.len() - k,
        {
            assert(self.offsets@[k as int] == byte_len(self.chars@.take(k as int)));
            if self.offsets[k] == b {
                return Some(k);
            }
            k = k + 1;
        }
        None
    }

    /// The text of the byte range `start..end` (`Node::utf8_text`), when it falls on character
    /// boundaries.
    pub fn text(&self, start: usize, end: usize) -> (r: Option<String>)
        requires
            self.valid(),
        ensures
            match r {
                Some(t) => text_at(self.chars@, start as int, end as int) == Some(t@),
                None => text_at(self.chars@, start as int, end as int) is None,
            },
    {
        let ghost s = self.chars@;
        match (self.index_at(start), self.index_at(end)) {
            (Some(i), Some(j)) => {
                if i > j {
                    proof {
                        lemma_byte_len_monotone(s, j as int, i as int);
                        assert forall|a: int, b: int|
                            0 <= a <= b <= s.len() && byte_len(s.take(a)) == start && byte_len(s.take(b))
                                == end implies false by {
                            lemma_byte_len_unique(s, a, i as int);
                            lemma_byte_len_unique(s, b, j as int);
                        }
                    }
                    return None;
                }
                let mut out: Vec<char> = Vec::new();
                let mut k: usize = i;
                while k < j
                    invariant
                        i <= k <= j <= self.chars@.len(),
                        out@ == self.chars@.subrange(i as int, k as int),
                    decreases j - k,
                {
                    out.push(self.chars[k]);
                    assert(self.chars@.subrange(i as int, k + 1) =~= self.chars@.subrange(i as int, k as int).push(
                        self.chars@[k as int],
                    ));
                    k = k + 1;
                }
                proof {
                    let (a, b) = choose|a: int, b: int|
                        0 <= a <= b <= s.len() && byte_len(s.take(a)) == start && byte_len(s.take(b)) == end;
                    lemma_byte_len_unique(s, a, i as int);
                    lemma_byte_len_unique(s, b, j as int);
                }
                Some(crate::text::string_from(out.as_slice()))
            },
            _ => None,
        }
    }

    /// The number of characters whose encoding ends at or before byte `b`.
    pub fn chars_within(&self, b: usize) -> (r: usize)
        requires
            self.valid(),
        ensures
            r == chars_within(self.chars@, b as int),
    {
        let mut k: usize = self.chars.len();
        assert(self.chars@.take(k as int) =~= self.chars@);
        while k > 0 && self.offsets[k] > b
            invariant
                self.valid(),
                k <= self.chars@.len(),
                chars_within(self.chars@.take(k as int), b as int) == chars_within(self.chars@, b as int),
            decreases k,
        {
            proof {
                let t = self.chars@.take(k as int);
                assert(t.drop_last() =~= self.chars@.take(k - 1));
                assert(self.offsets@[k as int] == byte_len(t));
            }
            k = k - 1;
        }
        proof {
            let t = self.chars@.take(k as int);
            if k > 0 {
                assert(self.offsets@[k as int] == byte_len(t));
            }
        }
        k
    }
}

/// Distinct prefixes have distinct byte lengths.
pub proof fn lemma_byte_len_unique(s: Seq<char>, a: int, b: int)
    requires
        0 <= a <= s.len(),
        0 <= b <= s.len(),
        byte_len(s.take(a)) == byte_len(s.take(b)),
    ensures
        a == b,
{
    if a < b {
        lemma_byte_len_monotone(s, a, b);
    } else if b < a {
        lemma_byte_len_monotone(s, b, a);
    }
}

/// Every character takes at least one byte.
pub proof fn lemma_len_le_byte_len(s: Seq<char>)
    ensures
        s.len() <= byte_len(s),
    decreases s.len(),
{
    if s.len() > 0 {
        lemma_len_le_byte_len(s.drop_last());
    }
}

/// A byte range with text lies within the encoding.
pub proof fn lemma_text_at_bounds(s: Seq<char>, start: int, end: int)
    requires
        text_at(s, start, end) is Some,
    ensures
        0 <= start <= end <= byte_len(s),
{
    let (i, j) = choose|i: int, j: int|
        0 <= i <= j <= s.len() && byte_len(s.take(i)) == start && byte_len(s.take(j)) == end;
    lemma_byte_len_monotone(s, i, j);
    lemma_byte_len_monotone(s, j, s.len() as int);
    assert(s.take(s.len() as int) =~= s);
}

} // verus!
