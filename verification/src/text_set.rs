//! Sets of texts kept in ascending order (the order of `BTreeSet<String>`).
use crate::text::{append, lemma_text_lt_total, lemma_text_lt_transitive, text_equal, text_less, text_lt};
use vstd::prelude::*;

verus! {

/// The text of a sequence of strings.
pub open spec fn texts_of(v: Seq<String>) -> Seq<Seq<char>> {
    v.map_values(|s: String| s@)
}

/// The texts joined with `sep` between each two of them.
pub open spec fn joined(a: Seq<Seq<char>>, sep: Seq<char>) -> Seq<char>
    decreases a.len(),
{
    if a.len() == 0 {
        Seq::empty()
    } else if a.len() == 1 {
        a[0]
    } else {
        joined(a.drop_last(), sep) + sep + a.last()
    }
}

/// The texts of `items` joined with `sep` between each two of them.
pub fn join_texts(items: &[String], sep: &str) -> (r: String)
    ensures
        r@ == joined(texts_of(items@), sep@),
{
    let ghost a = texts_of(items@);
    let mut out = String::new();
    let mut i: usize = 0;
    while i < items.len()
        invariant
            i <= items@.len(),
            a == texts_of(items@),
            out@ == joined(a.take(i as int), sep@),
        decreases items@.len() - i,
    {
        proof {
            assert(a.take(i + 1).drop_last() =~= a.take(i as int));
        }
        if i > 0 {
            append(&mut out, sep);
        }
        append(&mut out, items[i].as_str());
        proof {
            if i == 0 {
                assert(out@ =~= a.take(1)[0]);
            }
        }
        i = i + 1;
    }
    assert(a.take(i as int) =~= a);
    out
}

/// The texts are strictly ascending.
pub open spec fn ascending(s: Seq<Seq<char>>) -> bool {
    forall|i: int, j: int| 0 <= i < j < s.len() ==> text_lt(s[i], s[j])
}

/// Distinct texts in ascending order.
#[derive(Debug, PartialEq, Eq)]
pub struct TextSet {
    items: Vec<String>,
}

impl TextSet {
    #[verifier::type_invariant]
    spec fn well_formed(self) -> bool {
        ascending(texts_of(self.items@))
    }

    /// The texts, in ascending order.
    pub closed spec fn members(&self) -> Seq<Seq<char>> {
        texts_of(self.items@)
    }

    pub fn new() -> (r: Self)
        ensures
            r.members().len() == 0,
    {
        TextSet { items: Vec::new() }
    }

    pub fn contains(&self, text: &str) -> (r: bool)
        ensures
            r == self.members().contains(text@),
    {
        let mut i: usize = 0;
        while i < self.items.len()
            invariant
                i <= self.items@.len(),
                forall|k: int| 0 <= k < i ==> self.items@[k]@ != text@,
            decreases self.items@.len() - i,
        {
            if text_equal(self.items[i].as_str(), text) {
                proof {
                    assert(self.members()[i as int] == text@);
                }
                return true;
            }
            i = i + 1;
        }
        false
    }

    /// The texts, in ascending order.
    pub fn iter(&self) -> (r: &[String])
        ensures
            texts_of(r@) == self.members(),
            ascending(self.members()),
    {
        proof {
            use_type_invariant(self);
        }
        self.items.as_slice()
    }

    /// Adds a text unless it is there.
    pub fn insert(&mut self, text: String)
        ensures
            forall|x: Seq<char>| #[trigger] final(self).members().contains(x) <==> (old(self).members().contains(x) || x == text@),
    {
        proof {
            use_type_invariant(&*self);
        }
        let ghost m0 = self.members();
        let mut i: usize = 0;
        while i < self.items.len() && text_less(self.items[i].as_str(), text.as_str())
            invariant
                i <= self.items@.len(),
                m0 == texts_of(self.items@),
                forall|k: int| 0 <= k < i ==> text_lt(m0[k], text@),
            decreases self.items@.len() - i,
        {
            i = i + 1;
        }
        if i < self.items.len() && text_equal(self.items[i].as_str(), text.as_str()) {
            proof {
                assert(m0[i as int] == text@);
            }
            return;
        }
        proof {
            if i < m0.len() {
                assert(!text_lt(m0[i as int], text@));
                assert(m0[i as int] != text@);
                lemma_text_lt_total(m0[i as int], text@);
            }
        }
        let mut items: Vec<String> = Vec::new();
        std::mem::swap(&mut items, &mut self.items);
        let ghost c = text@;
        items.insert(i, text);
        let ghost m1 = texts_of(items@);
        proof {
            assert(m1 =~= m0.insert(i as int, c));
            assert forall|a: int, b: int| 0 <= a < b < m1.len() implies text_lt(m1[a], m1[b]) by {
                if b < i {
                } else if b == i {
                    assert(m1[a] == m0[a]);
                } else if a < i {
                    assert(m1[b] == m0[b - 1]);
                    if a < b - 1 {
                    }
                    if i < m0.len() {
                        assert(text_lt(c, m0[i as int]));
                        if b - 1 > i {
                            lemma_text_lt_transitive(m0[a], c, m0[i as int]);
                            lemma_text_lt_transitive(m0[a], m0[i as int], m0[b - 1]);
                        } else {
                            lemma_text_lt_transitive(m0[a], c, m0[i as int]);
                        }
                    }
                } else if a == i {
                    assert(m1[b] == m0[b - 1]);
                    if b - 1 > i {
                        lemma_text_lt_transitive(c, m0[i as int], m0[b - 1]);
                    }
                } else {
                    assert(m1[a] == m0[a - 1]);
                    assert(m1[b] == m0[b - 1]);
                }
            }
        }
        self.items = items;
        proof {
            assert forall|x: Seq<char>| #[trigger] self.members().contains(x) <==> (m0.contains(x) || x == c) by {
                if m0.contains(x) {
                    let k = choose|k: int| 0 <= k < m0.len() && m0[k] == x;
                    if k < i {
                        assert(m1[k] == x);
                    } else {
                        assert(m1[k + 1] == x);
                    }
                }
                if x == c {
                    assert(m1[i as int] == x);
                }
                if m1.contains(x) {
                    let k = choose|k: int| 0 <= k < m1.len() && m1[k] == x;
                    if k < i {
                        assert(m0[k] == x);
                    } else if k > i {
                        assert(m0[k - 1] == x);
                    }
                }
            }
        }
    }

    /// The number of texts.
    pub fn len(&self) -> (r: usize)
        ensures
            r == self.members().len(),
    {
        self.items.len()
    }
}


/// Whether some string of `v` is `s`.
pub fn texts_contain(v: &Vec<String>, s: &str) -> (r: bool)
    ensures
        r == texts_of(v@).contains(s@),
{
    let mut i: usize = 0;
    while i < v.len()
        invariant
            i <= v@.len(),
            forall|k: int| 0 <= k < i ==> v@[k]@ != s@,
        decreases v@.len() - i,
    {
        if text_equal(v[i].as_str(), s) {
            proof {
                assert(texts_of(v@)[i as int] == s@);
            }
            return true;
        }
        i = i + 1;
    }
    proof {
        if texts_of(v@).contains(s@) {
            let k = choose|k: int| 0 <= k < texts_of(v@).len() && texts_of(v@)[k] == s@;
            assert(v@[k]@ == s@);
        }
    }
    false
}

/// A copy of each string, in order.
pub fn copy_texts(v: &Vec<String>) -> (r: Vec<String>)
    ensures
        texts_of(r@) == texts_of(v@),
{
    let mut out: Vec<String> = Vec::new();
    let mut i: usize = 0;
    while i < v.len()
        invariant
            i <= v@.len(),
            texts_of(out@) == texts_of(v@.take(i as int)),
        decreases v@.len() - i,
    {
        let ghost before = out@;
        out.push(v[i].clone());
        proof {
            assert(texts_of(out@) =~= texts_of(before).push(v@[i as int]@));
            assert(texts_of(v@.take(i + 1)) =~= texts_of(v@.take(i as int)).push(v@[i as int]@));
        }
        i = i + 1;
    }
    assert(v@.take(i as int) =~= v@);
    out
}

} // verus!
