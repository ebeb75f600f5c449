//! A map keyed by text, kept in key order (the order of `str`), so iteration is deterministic.
use crate::text::{lemma_text_lt_irreflexive, lemma_text_lt_total, lemma_text_lt_transitive, text_equal, text_less, text_lt};
use vstd::prelude::*;

verus! {

/// A value that is identified by a text key.
pub trait TextKey: Sized {
    spec fn key_view(&self) -> Seq<char>;

    fn key_text(&self) -> (r: &str)
        ensures
            r@ == self.key_view(),
    ;

    fn copy_key(&self) -> (r: Self)
        ensures
            r.key_view() == self.key_view(),
    ;
}

impl TextKey for String {
    open spec fn key_view(&self) -> Seq<char> {
        self@
    }

    fn key_text(&self) -> (r: &str) {
        self.as_str()
    }

    fn copy_key(&self) -> (r: Self) {
        self.clone()
    }
}

/// Keys strictly increase in text order.
pub open spec fn keys_ascending<K: TextKey, V>(s: Seq<(K, V)>) -> bool {
    forall|i: int, j: int| 0 <= i < j < s.len() ==> text_lt(s[i].0.key_view(), s[j].0.key_view())
}

/// Some entry holds `key`.
pub open spec fn has_key<K: TextKey, V>(s: Seq<(K, V)>, key: Seq<char>) -> bool {
    exists|i: int| 0 <= i < s.len() && s[i].0.key_view() == key
}

/// The entry index holding `key`, if any.
pub open spec fn index_of_key<K: TextKey, V>(s: Seq<(K, V)>, key: Seq<char>) -> Option<int> {
    if has_key(s, key) {
        Some(choose|i: int| 0 <= i < s.len() && s[i].0.key_view() == key)
    } else {
        None
    }
}

proof fn lemma_unique_index<K: TextKey, V>(s: Seq<(K, V)>, key: Seq<char>, i: int)
    requires
        keys_ascending(s),
        0 <= i < s.len(),
        s[i].0.key_view() == key,
    ensures
        index_of_key(s, key) == Some(i),
{
    assert(has_key(s, key));
    let j = choose|i: int| 0 <= i < s.len() && s[i].0.key_view() == key;
    assert(index_of_key(s, key) is Some);
    let k2 = index_of_key(s, key)->0;
    assert(0 <= k2 < s.len() && s[k2].0.key_view() == key);
    let j = k2;
    if j != i {
        if j < i {
            assert(text_lt(s[j].0.key_view(), s[i].0.key_view()));
        } else {
            assert(text_lt(s[i].0.key_view(), s[j].0.key_view()));
        }
        lemma_text_lt_irreflexive(key);
    }
}

/// `after` is `before` with `(key, value)` put at `i`: over the entry with that key if
/// there is one (which then stands at `i`), else inserted there.
pub open spec fn placed_at<K: TextKey, V>(
    before: Seq<(K, V)>,
    after: Seq<(K, V)>,
    i: int,
    key: K,
    value: V,
) -> bool {
    if has_key(before, key.key_view()) {
        &&& i < before.len()
        &&& before[i].0.key_view() == key.key_view()
        &&& after == before.update(i, (key, value))
    } else {
        after == before.insert(i, (key, value))
    }
}

/// The keys of the entries are pairwise distinct.
pub open spec fn keys_distinct<K: TextKey, V>(s: Seq<(K, V)>) -> bool {
    forall|i: int, j: int|
        0 <= i < s.len() && 0 <= j < s.len() && i != j ==> s[i].0.key_view() != s[j].0.key_view()
}

/// A map whose entries are stored in ascending key order.
#[derive(Debug, PartialEq, Eq, Hash)]
pub struct OrderedMap<K: TextKey, V> {
    entries: Vec<(K, V)>,
}

impl<K: TextKey, V> OrderedMap<K, V> {
    #[verifier::type_invariant]
    pub open spec fn ordered(self) -> bool {
        keys_ascending(self.pairs())
    }

    /// The entries in key order.
    pub closed spec fn pairs(&self) -> Seq<(K, V)> {
        self.entries@
    }

    /// The entries' keys strictly increase (every map keeps this).
    pub open spec fn well_formed(&self) -> bool {
        keys_ascending(self.pairs())
    }

    /// The value stored under `key`.
    pub open spec fn lookup(&self, key: Seq<char>) -> Option<V> {
        match index_of_key(self.pairs(), key) {
            Some(i) => Some(self.pairs()[i].1),
            None => None,
        }
    }

    /// The entries hold distinct keys, and `lookup` gives back the value of the entry with the
    /// key asked for.
    pub proof fn lemma_entries(&self)
        requires
            self.well_formed(),
        ensures
            keys_distinct(self.pairs()),
            forall|i: int|
                0 <= i < self.pairs().len() ==> self.lookup(#[trigger] self.pairs()[i].0.key_view())
                    == Some(self.pairs()[i].1),
            forall|q: Seq<char>| #[trigger] self.lookup(q) is Some <==> has_key(self.pairs(), q),
    {
        let s = self.entries@;
        assert forall|i: int, j: int|
            0 <= i < s.len() && 0 <= j < s.len() && i != j implies s[i].0.key_view()
            != s[j].0.key_view() by {
            if s[i].0.key_view() == s[j].0.key_view() {
                lemma_text_lt_irreflexive(s[i].0.key_view());
            }
        }
        assert forall|i: int| 0 <= i < s.len() implies self.lookup(#[trigger] s[i].0.key_view())
            == Some(s[i].1) by {
            lemma_unique_index(s, s[i].0.key_view(), i);
        }
    }

    pub fn new() -> (r: Self)
        ensures
            r.pairs() == Seq::<(K, V)>::empty(),
            r.well_formed(),
    {
        OrderedMap { entries: Vec::new() }
    }

    pub fn len(&self) -> (r: usize)
        ensures
            r == self.pairs().len(),
    {
        self.entries.len()
    }

    pub fn is_empty(&self) -> (r: bool)
        ensures
            r == (self.pairs().len() == 0),
    {
        self.entries.len() == 0
    }

    /// The entries, in ascending key order.
    pub fn entries(&self) -> (r: &[(K, V)])
        ensures
            r@ == self.pairs(),
    {
        self.entries.as_slice()
    }

    /// The position of `key` among the entries, if present.
    pub fn position(&self, key: &str) -> (r: Option<usize>)
        ensures
            r matches Some(i) ==> i < self.pairs().len() && self.pairs()[i as int].0.key_view()
                == key@,
            r is None ==> forall|i: int|
                0 <= i < self.pairs().len() ==> self.pairs()[i].0.key_view() != key@,
    {
        let mut i: usize = 0;
        while i < self.entries.len()
            invariant
                i <= self.entries@.len(),
                forall|k: int| 0 <= k < i ==> self.entries@[k].0.key_view() != key@,
            decreases self.entries@.len() - i,
        {
            if text_equal(self.entries[i].0.key_text(), key) {
                return Some(i);
            }
            i = i + 1;
        }
        None
    }

    pub fn get(&self, key: &str) -> (r: Option<&V>)
        ensures
            match r {
                Some(v) => self.lookup(key@) == Some(*v),
                None => self.lookup(key@) is None,
            },
    {
        match self.position(key) {
            Some(i) => {
                proof {
                    use_type_invariant(self);
                    lemma_unique_index(self.entries@, key@, i as int);
                }
                Some(&self.entries[i].1)
            },
            None => None,
        }
    }

    pub fn contains_key(&self, key: &str) -> (r: bool)
        ensures
            r == (self.lookup(key@) is Some),
    {
        self.position(key).is_some()
    }

    /// Stores `value` under `key`, replacing any earlier value; every other key is unchanged.
    pub fn insert(&mut self, key: K, value: V)
        ensures
            final(self).well_formed(),
            final(self).lookup(key.key_view()) == Some(value),
            forall|q: Seq<char>|
                q != key.key_view() ==> #[trigger] final(self).lookup(q) == old(self).lookup(q),
            forall|q: Seq<char>|
                #[trigger] has_key(final(self).pairs(), q) <==> (q == key.key_view() || has_key(
                    old(self).pairs(),
                    q,
                )),
            exists|i: int|
                0 <= i <= old(self).pairs().len() && #[trigger] placed_at(
                    old(self).pairs(),
                    final(self).pairs(),
                    i,
                    key,
                    value,
                ),
    {
        proof {
            use_type_invariant(&*self);
        }
        let ghost k = key.key_view();
        let ghost before = self.entries@;
        let ghost new_key = key;
        let ghost new_value = value;
        let mut i: usize = 0;
        while i < self.entries.len()
            invariant
                self.entries@ == before,
                keys_ascending(before),
                i <= before.len(),
                k == key.key_view(),
                forall|m: int| 0 <= m < i ==> text_lt(#[trigger] before[m].0.key_view(), k),
            ensures
                i <= before.len(),
                forall|m: int| 0 <= m < i ==> text_lt(#[trigger] before[m].0.key_view(), k),
                i == before.len() || !text_lt(before[i as int].0.key_view(), k),
            decreases before.len() - i,
        {
            if !text_less(self.entries[i].0.key_text(), key.key_text()) {
                break;
            }
            i = i + 1;
        }
        // every entry from i on is not below the new key
        proof {
            assert forall|m: int| i <= m < before.len() implies !text_lt(
                #[trigger] before[m].0.key_view(),
                k,
            ) by {
                if m > i {
                    assert(text_lt(before[i as int].0.key_view(), before[m].0.key_view()));
                    if text_lt(before[m].0.key_view(), k) {
                        lemma_text_lt_transitive(
                            before[i as int].0.key_view(),
                            before[m].0.key_view(),
                            k,
                        );
                    }
                }
            }
        }
        let replace = i < self.entries.len() && text_equal(
            self.entries[i].0.key_text(),
            key.key_text(),
        );
        let mut entries: Vec<(K, V)> = Vec::new();
        std::mem::swap(&mut entries, &mut self.entries);
        if replace {
            entries.set(i, (key, value));
            proof {
                let after = entries@;
                assert forall|a: int, b: int| 0 <= a < b < after.len() implies text_lt(
                    after[a].0.key_view(),
                    after[b].0.key_view(),
                ) by {
                    if a == i {
                        assert(before[a].0.key_view() == k);
                    }
                    if b == i {
                        assert(before[b].0.key_view() == k);
                    }
                }
            }
        } else {
            entries.insert(i, (key, value));
            proof {
                let after = entries@;
                assert forall|a: int, b: int| 0 <= a < b < after.len() implies text_lt(
                    after[a].0.key_view(),
                    after[b].0.key_view(),
                ) by {
                    if b == i {
                        assert(after[a] == before[a]);
                    } else if a == i {
                        assert(after[b] == before[b - 1]);
                        lemma_text_lt_total(k, before[b - 1].0.key_view());
                        if b - 1 > i {
                            assert(text_lt(before[i as int].0.key_view(), before[b - 1].0.key_view()));
                            lemma_text_lt_total(k, before[i as int].0.key_view());
                            if text_lt(before[i as int].0.key_view(), k) {
                            } else if before[i as int].0.key_view() == k {
                            } else {
                                lemma_text_lt_transitive(
                                    k,
                                    before[i as int].0.key_view(),
                                    before[b - 1].0.key_view(),
                                );
                            }
                        }
                    } else if b < i {
                    } else if a < i {
                        assert(after[b] == before[b - 1]);
                    } else {
                        assert(after[b] == before[b - 1]);
                        assert(after[a] == before[a - 1]);
                    }
                }
            }
        }
        self.entries = entries;
        proof {
            let after = self.entries@;
            if replace {
                assert(has_key(before, k));
            } else {
                assert forall|m: int| 0 <= m < before.len() implies before[m].0.key_view() != k by {
                    if m < i {
                        if before[m].0.key_view() == k {
                            lemma_text_lt_irreflexive(k);
                        }
                    } else if m > i {
                        lemma_text_lt_total(k, before[i as int].0.key_view());
                        assert(text_lt(before[i as int].0.key_view(), before[m].0.key_view()));
                        lemma_text_lt_transitive(
                            k,
                            before[i as int].0.key_view(),
                            before[m].0.key_view(),
                        );
                        if before[m].0.key_view() == k {
                            lemma_text_lt_irreflexive(k);
                        }
                    }
                }
                assert(!has_key(before, k));
            }
            assert(placed_at(before, after, i as int, new_key, new_value));
            assert(after[i as int].0.key_view() == k);
            lemma_unique_index(after, k, i as int);
            assert forall|q: Seq<char>| q != k implies #[trigger] self.lookup(q) == old(
                self,
            ).lookup(q) by {
                if exists|m: int| 0 <= m < before.len() && before[m].0.key_view() == q {
                    let m = choose|m: int| 0 <= m < before.len() && before[m].0.key_view() == q;
                    lemma_unique_index(before, q, m);
                    let m2 = if replace || m < i {
                        m
                    } else {
                        m + 1
                    };
                    assert(after[m2] == before[m]);
                    lemma_unique_index(after, q, m2);
                } else {
                    assert forall|m: int| 0 <= m < after.len() implies after[m].0.key_view()
                        != q by {
                        if m != i {
                            let m0 = if replace || m < i {
                                m
                            } else {
                                m - 1
                            };
                            assert(after[m] == before[m0]);
                        }
                    }
                }
            }
            assert forall|q: Seq<char>| #[trigger] has_key(after, q) <==> (q == k || has_key(before, q)) by {
                if has_key(after, q) {
                    let m = choose|m: int| 0 <= m < after.len() && after[m].0.key_view() == q;
                    if m != i {
                        let m0 = if replace || m < i {
                            m
                        } else {
                            m - 1
                        };
                        assert(after[m] == before[m0]);
                    }
                }
                if q == k {
                    assert(after[i as int].0.key_view() == q);
                } else if has_key(before, q) {
                    let m = choose|m: int| 0 <= m < before.len() && before[m].0.key_view() == q;
                    let m2 = if replace || m < i {
                        m
                    } else {
                        m + 1
                    };
                    assert(after[m2] == before[m]);
                }
            }
        }
    }
}

impl<K: TextKey, V: Clone> Clone for OrderedMap<K, V> {
    /// A copy with the same keys in the same order.
    fn clone(&self) -> (r: Self)
        ensures
            r.pairs().len() == self.pairs().len(),
            forall|i: int|
                0 <= i < self.pairs().len() ==> #[trigger] r.pairs()[i].0.key_view()
                    == self.pairs()[i].0.key_view(),
    {
        proof {
            use_type_invariant(self);
        }
        let mut entries: Vec<(K, V)> = Vec::new();
        let mut i: usize = 0;
        while i < self.entries.len()
            invariant
                i <= self.entries@.len(),
                keys_ascending(self.entries@),
                entries@.len() == i,
                forall|k: int|
                    0 <= k < i ==> #[trigger] entries@[k].0.key_view()
                        == self.entries@[k].0.key_view(),
            decreases self.entries@.len() - i,
        {
            entries.push((self.entries[i].0.copy_key(), self.entries[i].1.clone()));
            i = i + 1;
        }
        OrderedMap { entries }
    }
}

impl<K: TextKey, V> Default for OrderedMap<K, V> {
    fn default() -> (r: Self)
        ensures
            r.pairs() == Seq::<(K, V)>::empty(),
    {
        OrderedMap::new()
    }
}

} // verus!
