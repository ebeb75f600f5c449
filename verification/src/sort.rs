//! Deterministic ordering of values by a strict weak order, with a stable insertion sort.
use vstd::multiset::Multiset;
use vstd::prelude::*;

verus! {

broadcast use vstd::seq_lib::group_to_multiset_ensures;

/// A strict weak order on values: `precedes` is irreflexive, transitive and its negation is
/// transitive, so "neither precedes the other" is an equivalence.
pub trait Ranked: Sized {
    spec fn precedes(&self, other: &Self) -> bool;

    proof fn lemma_irreflexive(a: &Self)
        ensures
            !a.precedes(a),
    ;

    proof fn lemma_transitive(a: &Self, b: &Self, c: &Self)
        requires
            a.precedes(b),
            b.precedes(c),
        ensures
            a.precedes(c),
    ;

    proof fn lemma_negatively_transitive(a: &Self, b: &Self, c: &Self)
        requires
            !a.precedes(b),
            !b.precedes(c),
        ensures
            !a.precedes(c),
    ;

    fn comes_before(&self, other: &Self) -> (r: bool)
        ensures
            r == self.precedes(other),
    ;
}

/// No element is preceded by a later one.
pub open spec fn is_sorted<T: Ranked>(s: Seq<T>) -> bool {
    forall|i: int, j: int| 0 <= i < j < s.len() ==> !s[j].precedes(&s[i])
}

/// The first position whose element does not precede `x`, in a sorted vector.
fn lower_bound<T: Ranked>(v: &Vec<T>, x: &T) -> (r: usize)
    requires
        is_sorted(v@),
    ensures
        r <= v@.len(),
        forall|k: int| 0 <= k < r ==> v@[k].precedes(x),
        forall|k: int| r <= k < v@.len() ==> !v@[k].precedes(x),
{
    let mut lo: usize = 0;
    let mut hi: usize = v.len();
    while lo < hi
        invariant
            is_sorted(v@),
            lo <= hi <= v@.len(),
            forall|k: int| 0 <= k < lo ==> v@[k].precedes(x),
            forall|k: int| hi <= k < v@.len() ==> !v@[k].precedes(x),
        decreases hi - lo,
    {
        let mid = lo + (hi - lo) / 2;
        if v[mid].comes_before(x) {
            proof {
                assert forall|k: int| 0 <= k <= mid implies v@[k].precedes(x) by {
                    if k < mid && !v@[k].precedes(x) {
                        assert(!v@[mid as int].precedes(&v@[k]));
                        T::lemma_negatively_transitive(&v@[mid as int], &v@[k], x);
                    }
                }
            }
            lo = mid + 1;
        } else {
            proof {
                assert forall|k: int| mid <= k < v@.len() implies !v@[k].precedes(x) by {
                    if k > mid {
                        assert(!v@[k].precedes(&v@[mid as int]));
                        T::lemma_negatively_transitive(&v@[k], &v@[mid as int], x);
                    }
                }
            }
            hi = mid;
        }
    }
    lo
}

/// Sorts `v` by `precedes` (stable insertion sort): the result is sorted and holds exactly the
/// same elements.
pub fn sort_ranked<T: Ranked>(v: Vec<T>) -> (r: Vec<T>)
    ensures
        is_sorted(r@),
        r@.to_multiset() == v@.to_multiset(),
        r@.len() == v@.len(),
{
    let mut out: Vec<T> = Vec::new();
    let mut rest = v;
    let ghost original = rest@;
    // consume from the back of `rest`, inserting each element
    while rest.len() > 0
        invariant
            is_sorted(out@),
            out@.to_multiset().add(rest@.to_multiset()) == original.to_multiset(),
        decreases rest@.len(),
    {
        let ghost before = rest@;
        let x = rest.pop().unwrap();
        proof {
            assert(before =~= rest@.push(x));
        }
        let pos = lower_bound(&out, &x);
        let ghost prev = out@;
        out.insert(pos, x);
        proof {
            assert(out@.remove(pos as int) =~= prev);
            assert(out@[pos as int] == x);
            assert(out@.to_multiset() =~= prev.to_multiset().insert(x));
            assert forall|i: int, j: int| 0 <= i < j < out@.len() implies !out@[j].precedes(
                &out@[i],
            ) by {
                if j < pos {
                } else if j == pos {
                    assert(prev[i].precedes(&x));
                    if x.precedes(&prev[i]) {
                        T::lemma_transitive(&x, &prev[i], &x);
                        T::lemma_irreflexive(&x);
                    }
                } else if i < pos {
                    assert(out@[j] == prev[j - 1]);
                    assert(!prev[j - 1].precedes(&prev[i])) by {
                        if i < j - 1 {
                        } else {
                            T::lemma_irreflexive(&prev[i]);
                        }
                    }
                } else if i == pos {
                    assert(!prev[j - 1].precedes(&x));
                } else {
                    assert(out@[j] == prev[j - 1]);
                    assert(out@[i] == prev[i - 1]);
                }
            }
        }
    }
    proof {
        assert(rest@.to_multiset() =~= Multiset::empty());
        assert(out@.to_multiset() =~= original.to_multiset());
        out@.to_multiset_ensures();
        original.to_multiset_ensures();
    }
    out
}


/// A reordering holds the same elements.
pub proof fn lemma_reorder_contains<T>(s: Seq<T>, t: Seq<T>, x: T)
    requires
        s.to_multiset() == t.to_multiset(),
    ensures
        s.contains(x) <==> t.contains(x),
{
    s.to_multiset_ensures();
    t.to_multiset_ensures();
    assert(s.contains(x) <==> s.to_multiset().count(x) > 0);
    assert(t.contains(x) <==> t.to_multiset().count(x) > 0);
    assert(s.to_multiset().count(x) == t.to_multiset().count(x));
}

/// A reordering keeps the images of the elements under `f`.
pub proof fn lemma_reorder_image<T, V>(s: Seq<T>, t: Seq<T>, f: spec_fn(T) -> V, y: V)
    requires
        s.to_multiset() == t.to_multiset(),
    ensures
        s.map_values(f).contains(y) <==> t.map_values(f).contains(y),
{
    if s.map_values(f).contains(y) {
        let i = choose|i: int| 0 <= i < s.len() && s.map_values(f)[i] == y;
        lemma_reorder_contains(s, t, s[i]);
        let j = choose|j: int| 0 <= j < t.len() && t[j] == s[i];
        assert(t.map_values(f)[j] == y);
    }
    if t.map_values(f).contains(y) {
        let j = choose|j: int| 0 <= j < t.len() && t.map_values(f)[j] == y;
        lemma_reorder_contains(s, t, t[j]);
        let i = choose|i: int| 0 <= i < s.len() && s[i] == t[j];
        assert(s.map_values(f)[i] == y);
    }
}

/// A reordering of elements with pairwise distinct images under `f` has pairwise distinct
/// images too.
pub proof fn lemma_reorder_distinct<T, V>(s: Seq<T>, t: Seq<T>, f: spec_fn(T) -> V)
    requires
        s.to_multiset() == t.to_multiset(),
        forall|i: int, j: int| 0 <= i < j < t.len() ==> f(t[i]) != f(t[j]),
    ensures
        forall|i: int, j: int| 0 <= i < j < s.len() ==> f(s[i]) != f(s[j]),
{
    assert(t.no_duplicates()) by {
        assert forall|i: int, j: int| 0 <= i < t.len() && 0 <= j < t.len() && i != j implies t[i] != t[j] by {
            if i < j {
                assert(f(t[i]) != f(t[j]));
            } else {
                assert(f(t[j]) != f(t[i]));
            }
        }
    }
    t.lemma_multiset_has_no_duplicates();
    s.lemma_multiset_has_no_duplicates_conv();
    assert forall|i: int, j: int| 0 <= i < j < s.len() implies f(s[i]) != f(s[j]) by {
        lemma_reorder_contains(s, t, s[i]);
        lemma_reorder_contains(s, t, s[j]);
        let p = choose|p: int| 0 <= p < t.len() && t[p] == s[i];
        let q = choose|q: int| 0 <= q < t.len() && t[q] == s[j];
        assert(s[i] != s[j]);
        if p < q {
            assert(f(t[p]) != f(t[q]));
        } else {
            assert(p != q);
            assert(f(t[q]) != f(t[p]));
        }
    }
}

} // verus!
