//! Resolution of intentional semantic overlap after independent rule evaluation. Arbitration is
//! deterministic and cannot depend on the order in which rules happen to run.
use crate::diagnostic::Diagnostic;
use crate::domain::{ModuleId, Severity};
use crate::module_graph::{duplicate_all, ids_of};
use crate::text::{append, lemma_text_lt_irreflexive, lemma_text_lt_negatively_transitive, lemma_text_lt_total,
    lemma_text_lt_transitive, owned, text_equal, text_less, text_lt};
use crate::text_set::{ascending, texts_of, TextSet};
use vstd::prelude::*;

verus! {

/// The rules whose findings on one dependency path overlap (feature visibility).
pub open spec fn in_overlap_family(rule: Seq<char>) -> bool {
    rule == "ARCH-004"@ || rule == "ARCH-005"@
}

/// A diagnostic that competes with the others on its dependency path.
pub open spec fn grouped(d: Diagnostic) -> bool {
    in_overlap_family(d.rule_id@) && d.dependency_path@.len() > 0
}

/// The dependency path of a diagnostic, as module ids.
pub open spec fn path_key(d: Diagnostic) -> Seq<Seq<char>> {
    ids_of(d.dependency_path@)
}

pub open spec fn severity_rank(s: Severity) -> int {
    match s {
        Severity::Error => 3,
        Severity::Warning => 2,
        Severity::Info => 1,
    }
}

/// The more specific finding wins a tie: a private import over a feature boundary.
pub open spec fn specificity(rule: Seq<char>) -> int {
    if rule == "ARCH-005"@ {
        2
    } else if rule == "ARCH-004"@ {
        1
    } else {
        0
    }
}

/// `a` is preferred to `b`: higher severity, then higher specificity, then the smaller rule id.
pub open spec fn outranks(a: Diagnostic, b: Diagnostic) -> bool {
    ||| severity_rank(a.severity) > severity_rank(b.severity)
    ||| (severity_rank(a.severity) == severity_rank(b.severity) && specificity(a.rule_id@) > specificity(b.rule_id@))
    ||| (severity_rank(a.severity) == severity_rank(b.severity) && specificity(a.rule_id@) == specificity(b.rule_id@)
        && text_lt(a.rule_id@, b.rule_id@))
}

pub proof fn lemma_outranks_irreflexive(a: Diagnostic)
    ensures
        !outranks(a, a),
{
    lemma_text_lt_irreflexive(a.rule_id@);
}

pub proof fn lemma_outranks_transitive(a: Diagnostic, b: Diagnostic, c: Diagnostic)
    requires
        outranks(a, b),
        outranks(b, c),
    ensures
        outranks(a, c),
{
    if text_lt(a.rule_id@, b.rule_id@) && text_lt(b.rule_id@, c.rule_id@) {
        lemma_text_lt_transitive(a.rule_id@, b.rule_id@, c.rule_id@);
    }
}

pub proof fn lemma_outranks_negatively_transitive(a: Diagnostic, b: Diagnostic, c: Diagnostic)
    requires
        !outranks(a, b),
        !outranks(b, c),
    ensures
        !outranks(a, c),
{
    if !text_lt(a.rule_id@, b.rule_id@) && !text_lt(b.rule_id@, c.rule_id@) {
        lemma_text_lt_negatively_transitive(a.rule_id@, b.rule_id@, c.rule_id@);
    }
    lemma_text_lt_total(a.rule_id@, b.rule_id@);
    lemma_text_lt_total(b.rule_id@, c.rule_id@);
    if text_lt(a.rule_id@, c.rule_id@) {
        if text_lt(c.rule_id@, b.rule_id@) {
            lemma_text_lt_transitive(a.rule_id@, c.rule_id@, b.rule_id@);
        }
        if text_lt(b.rule_id@, a.rule_id@) {
            lemma_text_lt_transitive(b.rule_id@, a.rule_id@, c.rule_id@);
        }
    }
}

/// The diagnostics that compete with no other, in input order.
pub open spec fn ungrouped_of(s: Seq<Diagnostic>) -> Seq<Diagnostic>
    decreases s.len(),
{
    if s.len() == 0 {
        s
    } else if grouped(s.last()) {
        ungrouped_of(s.drop_last())
    } else {
        ungrouped_of(s.drop_last()).push(s.last())
    }
}

/// The dependency paths of the competing diagnostics, each once, in order of first appearance.
pub open spec fn keys_of(s: Seq<Diagnostic>) -> Seq<Seq<Seq<char>>>
    decreases s.len(),
{
    if s.len() == 0 {
        Seq::empty()
    } else {
        let k = keys_of(s.drop_last());
        if grouped(s.last()) && !k.contains(path_key(s.last())) {
            k.push(path_key(s.last()))
        } else {
            k
        }
    }
}

/// The competing diagnostics on one dependency path, in input order.
pub open spec fn members_of(s: Seq<Diagnostic>, key: Seq<Seq<char>>) -> Seq<Diagnostic>
    decreases s.len(),
{
    if s.len() == 0 {
        s
    } else if grouped(s.last()) && path_key(s.last()) == key {
        members_of(s.drop_last(), key).push(s.last())
    } else {
        members_of(s.drop_last(), key)
    }
}

/// `g[b]` is preferred to no member and strictly preferred to every member before it.
pub open spec fn winner_at(g: Seq<Diagnostic>, b: int) -> bool {
    &&& 0 <= b < g.len()
    &&& forall|m: int| 0 <= m < g.len() ==> !outranks(#[trigger] g[m], g[b])
    &&& forall|m: int| 0 <= m < b ==> outranks(g[b], #[trigger] g[m])
}

/// Parts joined by a separator.
pub open spec fn joined(parts: Seq<Seq<char>>, sep: Seq<char>) -> Seq<char>
    decreases parts.len(),
{
    if parts.len() == 0 {
        Seq::empty()
    } else if parts.len() == 1 {
        parts[0]
    } else {
        joined(parts.drop_last(), sep) + sep + parts.last()
    }
}

/// The rule ids of a group.
pub open spec fn rules_of(g: Seq<Diagnostic>) -> Set<Seq<char>> {
    g.map_values(|d: Diagnostic| d.rule_id@).to_set()
}

/// `w` is `g[b]`, with the `related_rules` metadata entry set to every rule id of the group in
/// ascending order, joined by commas, when the group holds more than one rule.
pub open spec fn reported_as(w: Diagnostic, g: Seq<Diagnostic>, b: int) -> bool {
    &&& w == (Diagnostic { metadata: w.metadata, ..g[b] })
    &&& if exists|m: int| 0 <= m < g.len() && g[m].rule_id@ != g[b].rule_id@ {
        &&& exists|s: Seq<Seq<char>>| ascending(s) && s.to_set() == rules_of(g)
            && (w.metadata.lookup("related_rules"@) matches Some(v) && v@ == joined(s, ","@))
        &&& forall|q: Seq<char>| q != "related_rules"@ ==> #[trigger] w.metadata.lookup(q) == g[b].metadata.lookup(q)
    } else {
        w.metadata == g[b].metadata
    }
}

/// `w` reports the preferred member of group `g` (see `winner_at` and `reported_as`).
pub open spec fn chosen_from(w: Diagnostic, g: Seq<Diagnostic>) -> bool {
    exists|b: int| winner_at(g, b) && reported_as(w, g, b)
}

proof fn lemma_keys_distinct(s: Seq<Diagnostic>)
    ensures
        forall|i: int, j: int| 0 <= i < j < keys_of(s).len() ==> keys_of(s)[i] != keys_of(s)[j],
    decreases s.len(),
{
    if s.len() > 0 {
        lemma_keys_distinct(s.drop_last());
        let k = keys_of(s.drop_last());
        if grouped(s.last()) && !k.contains(path_key(s.last())) {
            assert forall|i: int, j: int| 0 <= i < j < keys_of(s).len() implies keys_of(s)[i] != keys_of(s)[j] by {
                if j == k.len() {
                    assert(k.contains(k[i]));
                }
            }
        }
    }
}

proof fn lemma_members_keyed(s: Seq<Diagnostic>, key: Seq<Seq<char>>)
    requires
        members_of(s, key).len() > 0,
    ensures
        keys_of(s).contains(key),
    decreases s.len(),
{
    let p = s.drop_last();
    let k = keys_of(p);
    if members_of(p, key).len() > 0 {
        lemma_members_keyed(p, key);
        if grouped(s.last()) && !k.contains(path_key(s.last())) {
            let i = choose|i: int| 0 <= i < k.len() && k[i] == key;
            assert(keys_of(s)[i] == key);
        }
    } else {
        if !k.contains(key) {
            assert(keys_of(s)[k.len() as int] == key);
        }
    }
}

proof fn lemma_keyed_members(s: Seq<Diagnostic>, key: Seq<Seq<char>>)
    requires
        keys_of(s).contains(key),
    ensures
        members_of(s, key).len() > 0,
    decreases s.len(),
{
    let p = s.drop_last();
    if keys_of(p).contains(key) {
        lemma_keyed_members(p, key);
    }
}

/// The text of one ascending sequence of rule ids joined by commas.
fn join_texts(parts: &[String], sep: &str) -> (r: String)
    ensures
        r@ == joined(texts_of(parts@), sep@),
{
    let ghost t = texts_of(parts@);
    let mut out = String::new();
    let mut i: usize = 0;
    while i < parts.len()
        invariant
            t == texts_of(parts@),
            i <= parts@.len(),
            out@ == joined(t.take(i as int), sep@),
        decreases parts@.len() - i,
    {
        proof {
            assert(t.take(i + 1).drop_last() =~= t.take(i as int));
        }
        if i > 0 {
            append(&mut out, sep);
        }
        append(&mut out, parts[i].as_str());
        proof {
            if i == 0 {
                assert(out@ =~= t[0]);
            } else {
                assert(t.take(i + 1).last() == t[i as int]);
            }
        }
        i = i + 1;
    }
    proof {
        assert(t.take(i as int) =~= t);
    }
    out
}

/// `a` is preferred to `b` (see `outranks`).
fn prefers(a: &Diagnostic, b: &Diagnostic) -> (r: bool)
    ensures
        r == outranks(*a, *b),
{
    let ra: u8 = match a.severity {
        Severity::Error => 3,
        Severity::Warning => 2,
        Severity::Info => 1,
    };
    let rb: u8 = match b.severity {
        Severity::Error => 3,
        Severity::Warning => 2,
        Severity::Info => 1,
    };
    if ra != rb {
        return ra > rb;
    }
    let sa = rule_specificity(a.rule_id.0.as_str());
    let sb = rule_specificity(b.rule_id.0.as_str());
    if sa != sb {
        return sa > sb;
    }
    text_less(a.rule_id.0.as_str(), b.rule_id.0.as_str())
}

fn rule_specificity(rule: &str) -> (r: u8)
    ensures
        r == specificity(rule@),
{
    if text_equal(rule, "ARCH-005") {
        2
    } else if text_equal(rule, "ARCH-004") {
        1
    } else {
        0
    }
}

fn same_path(a: &Vec<ModuleId>, b: &Vec<ModuleId>) -> (r: bool)
    ensures
        r == (ids_of(a@) == ids_of(b@)),
{
    if a.len() != b.len() {
        proof {
            assert(ids_of(a@).len() != ids_of(b@).len());
        }
        return false;
    }
    let mut i: usize = 0;
    while i < a.len()
        invariant
            a@.len() == b@.len(),
            i <= a@.len(),
            forall|k: int| 0 <= k < i ==> a@[k]@ == b@[k]@,
        decreases a@.len() - i,
    {
        if !text_equal(a[i].0.as_str(), b[i].0.as_str()) {
            proof {
                assert(ids_of(a@)[i as int] != ids_of(b@)[i as int]);
            }
            return false;
        }
        i = i + 1;
    }
    proof {
        assert(ids_of(a@) =~= ids_of(b@));
    }
    true
}


/// The ids of each path in a list of paths.
pub open spec fn key_views(keys: Seq<Vec<ModuleId>>) -> Seq<Seq<Seq<char>>> {
    keys.map_values(|p: Vec<ModuleId>| ids_of(p@))
}

fn find_key(keys: &Vec<Vec<ModuleId>>, path: &Vec<ModuleId>) -> (r: Option<usize>)
    ensures
        match r {
            Some(k) => k < keys@.len() && key_views(keys@)[k as int] == ids_of(path@),
            None => !key_views(keys@).contains(ids_of(path@)),
        },
{
    let mut k: usize = 0;
    while k < keys.len()
        invariant
            k <= keys@.len(),
            forall|m: int| 0 <= m < k ==> key_views(keys@)[m] != ids_of(path@),
        decreases keys@.len() - k,
    {
        if same_path(&keys[k], path) {
            return Some(k);
        }
        k = k + 1;
    }
    None
}

/// The preferred member of a non-empty group, reported with every rule of the group.
fn select(group: Vec<Diagnostic>) -> (w: Diagnostic)
    requires
        group@.len() > 0,
    ensures
        chosen_from(w, group@),
{
    let ghost g = group@;
    let mut best: usize = 0;
    let mut j: usize = 1;
    proof {
        lemma_outranks_irreflexive(g[0]);
    }
    while j < group.len()
        invariant
            group@ == g,
            1 <= j <= g.len(),
            best < j,
            forall|m: int| 0 <= m < j ==> !outranks(#[trigger] g[m], g[best as int]),
            forall|m: int| 0 <= m < best ==> outranks(g[best as int], #[trigger] g[m]),
        decreases g.len() - j,
    {
        if prefers(&group[j], &group[best]) {
            proof {
                let nb = g[j as int];
                let ob = g[best as int];
                assert forall|m: int| 0 <= m < j + 1 implies !outranks(#[trigger] g[m], nb) by {
                    if m == j {
                        lemma_outranks_irreflexive(nb);
                    } else if outranks(g[m], nb) {
                        lemma_outranks_transitive(g[m], nb, ob);
                    }
                }
                assert forall|m: int| 0 <= m < j implies outranks(nb, #[trigger] g[m]) by {
                    if !outranks(nb, g[m]) {
                        assert(!outranks(g[m], ob));
                        lemma_outranks_negatively_transitive(nb, g[m], ob);
                    }
                }
            }
            best = j;
        }
        j = j + 1;
    }
    proof {
        lemma_outranks_irreflexive(g[best as int]);
    }
    let ghost rules_view = g.map_values(|d: Diagnostic| d.rule_id@);
    let mut rules = TextSet::new();
    let mut i: usize = 0;
    while i < group.len()
        invariant
            group@ == g,
            i <= g.len(),
            rules_view == g.map_values(|d: Diagnostic| d.rule_id@),
            forall|x: Seq<char>| #[trigger] rules.members().contains(x) <==> rules_view.take(i as int).contains(x),
        decreases g.len() - i,
    {
        let ghost before = rules.members();
        rules.insert(group[i].rule_id.0.clone());
        proof {
            let t0 = rules_view.take(i as int);
            let t1 = rules_view.take(i + 1);
            assert(t1 =~= t0.push(rules_view[i as int]));
            assert forall|x: Seq<char>| #[trigger] rules.members().contains(x) <==> t1.contains(x) by {
                assert(before.contains(x) <==> t0.contains(x));
                assert(t1[t0.len() as int] == rules_view[i as int]);
                if t1.contains(x) {
                    let k = choose|k: int| 0 <= k < t1.len() && t1[k] == x;
                    if k < t0.len() {
                        assert(t0[k] == x);
                    }
                }
                if t0.contains(x) {
                    let k = choose|k: int| 0 <= k < t0.len() && t0[k] == x;
                    assert(t1[k] == x);
                }
            }
        }
        i = i + 1;
    }
    proof {
        assert(rules_view.take(i as int) =~= rules_view);
    }
    let listed = rules.iter();
    let mut group = group;
    let mut w = group.remove(best);
    let ghost members = rules.members();
    let ghost orig = w;
    proof {
        assert(orig == g[best as int]);
        let set = rules_of(g);
        assert forall|x: Seq<char>| members.to_set().contains(x) <==> set.contains(x) by {
            assert(members.contains(x) <==> rules_view.contains(x));
        }
        assert(members.to_set() =~= set);
        assert(members.contains(rules_view[best as int])) by {
            assert(rules_view.contains(rules_view[best as int]));
        }
        let other = exists|m: int| 0 <= m < g.len() && g[m].rule_id@ != g[best as int].rule_id@;
        if other {
            let m = choose|m: int| 0 <= m < g.len() && g[m].rule_id@ != g[best as int].rule_id@;
            assert(rules_view[m] == g[m].rule_id@);
            assert(members.contains(rules_view[m])) by {
                assert(rules_view.contains(rules_view[m]));
            }
            if members.len() <= 1 {
                let a = choose|a: int| 0 <= a < members.len() && members[a] == rules_view[m];
                let c = choose|c: int| 0 <= c < members.len() && members[c] == rules_view[best as int];
                assert(a == c);
            }
        }
        if members.len() > 1 {
            let v0 = members[0];
            let v1 = members[1];
            assert(ascending(members));
            assert(text_lt(v0, v1));
            lemma_text_lt_irreflexive(v0);
            assert(members.contains(v0) && members.contains(v1));
            assert(rules_view.contains(v0) && rules_view.contains(v1));
            let a = choose|a: int| 0 <= a < g.len() && rules_view[a] == v0;
            let c = choose|c: int| 0 <= c < g.len() && rules_view[c] == v1;
            if g[a].rule_id@ == g[best as int].rule_id@ {
                assert(g[c].rule_id@ != g[best as int].rule_id@);
            }
        }
    }
    if rules.len() > 1 {
        let text = join_texts(listed, ",");
        w.metadata.insert(owned("related_rules"), text);
        proof {
            assert(ascending(members));
        }
    }
    proof {
        assert(winner_at(g, best as int));
        assert(reported_as(w, g, best as int));
    }
    w
}

impl DiagnosticArbitrator {
    /// Competing diagnostics (feature-visibility findings on one dependency path) are reduced to
    /// the preferred one, which records every competing rule; the rest pass through. The result
    /// holds the uncontested diagnostics in input order, then one diagnostic per contested path
    /// in order of the path's first appearance.
    pub fn arbitrate(diagnostics: Vec<Diagnostic>) -> (r: Vec<Diagnostic>)
        ensures
            r@.len() == ungrouped_of(diagnostics@).len() + keys_of(diagnostics@).len(),
            r@.take(ungrouped_of(diagnostics@).len() as int) == ungrouped_of(diagnostics@),
            forall|i: int| ungrouped_of(diagnostics@).len() <= i < r@.len() ==> chosen_from(
                #[trigger] r@[i],
                members_of(diagnostics@, keys_of(diagnostics@)[i - ungrouped_of(diagnostics@).len()]),
            ),
    {
        let ghost input = diagnostics@;
        let mut rest = diagnostics;
        let mut output: Vec<Diagnostic> = Vec::new();
        let mut keys: Vec<Vec<ModuleId>> = Vec::new();
        let mut groups: Vec<Vec<Diagnostic>> = Vec::new();
        let ghost mut n: int = 0;
        proof {
            assert(input.skip(0) =~= input);
            assert(input.take(0) =~= Seq::<Diagnostic>::empty());
            assert(key_views(keys@) =~= Seq::<Seq<Seq<char>>>::empty());
        }
        while rest.len() > 0
            invariant
                0 <= n <= input.len(),
                rest@ == input.skip(n),
                output@ == ungrouped_of(input.take(n)),
                keys@.len() == groups@.len(),
                key_views(keys@) == keys_of(input.take(n)),
                forall|k: int| 0 <= k < groups@.len() ==> (#[trigger] groups@[k])@ == members_of(input.take(n), keys_of(input.take(n))[k]),
            decreases rest@.len(),
        {
            let ghost p = input.take(n);
            let ghost p1 = input.take(n + 1);
            let d = rest.remove(0);
            proof {
                assert(d == input[n]);
                assert(rest@ =~= input.skip(n + 1));
                assert(p1.drop_last() =~= p);
                assert(p1.last() == d);
                lemma_keys_distinct(p);
            }
            if d.dependency_path.len() > 0 && (text_equal(d.rule_id.0.as_str(), "ARCH-004") || text_equal(d.rule_id.0.as_str(), "ARCH-005")) {
                proof {
                    assert(grouped(d));
                    assert(ungrouped_of(p1) == ungrouped_of(p));
                }
                let ghost g0 = groups@;
                match find_key(&keys, &d.dependency_path) {
                    Some(k) => {
                        proof {
                            assert(keys_of(p).contains(path_key(d))) by {
                                assert(keys_of(p)[k as int] == path_key(d));
                            }
                            assert(keys_of(p1) == keys_of(p));
                        }
                        groups[k].push(d);
                        proof {
                            assert forall|m: int| 0 <= m < groups@.len() implies (#[trigger] groups@[m])@ == members_of(p1, keys_of(p1)[m]) by {
                                if m == k {
                                    assert(members_of(p1, keys_of(p)[m]) == members_of(p, keys_of(p)[m]).push(d));
                                } else {
                                    assert(keys_of(p)[m] != keys_of(p)[k as int]);
                                    assert(groups@[m] == g0[m]);
                                }
                            }
                        }
                    },
                    None => {
                        let key = duplicate_all(&d.dependency_path);
                        proof {
                            assert(!keys_of(p).contains(path_key(d)));
                            assert(keys_of(p1) == keys_of(p).push(path_key(d)));
                            if members_of(p, path_key(d)).len() > 0 {
                                lemma_members_keyed(p, path_key(d));
                            }
                            assert(members_of(p, path_key(d)) =~= Seq::<Diagnostic>::empty());
                        }
                        let ghost kv0 = key_views(keys@);
                        keys.push(key);
                        let mut fresh: Vec<Diagnostic> = Vec::new();
                        fresh.push(d);
                        groups.push(fresh);
                        proof {
                            assert(key_views(keys@) =~= kv0.push(path_key(d)));
                            assert forall|m: int| 0 <= m < groups@.len() implies (#[trigger] groups@[m])@ == members_of(p1, keys_of(p1)[m]) by {
                                if m == g0.len() {
                                    assert(members_of(p1, path_key(d)) =~= seq![d]);
                                } else {
                                    assert(keys_of(p1)[m] == keys_of(p)[m]);
                                    assert(keys_of(p)[m] != path_key(d)) by {
                                        assert(keys_of(p).contains(keys_of(p)[m]));
                                    }
                                    assert(groups@[m] == g0[m]);
                                }
                            }
                        }
                    },
                }
            } else {
                proof {
                    assert(!grouped(d));
                    assert(keys_of(p1) == keys_of(p));
                    assert forall|m: int| 0 <= m < groups@.len() implies (#[trigger] groups@[m])@ == members_of(p1, keys_of(p1)[m]) by {
                        assert(members_of(p1, keys_of(p)[m]) == members_of(p, keys_of(p)[m]));
                    }
                }
                output.push(d);
            }
            proof {
                n = n + 1;
            }
        }
        proof {
            assert(input.skip(n).len() == 0);
            assert(input.take(n) =~= input);
        }
        let ghost ks = keys_of(input);
        let ghost u = output@.len();
        let ghost all_groups = groups@;
        proof {
            assert forall|k: int| 0 <= k < ks.len() implies members_of(input, #[trigger] ks[k]).len() > 0 by {
                assert(ks.contains(ks[k]));
                lemma_keyed_members(input, ks[k]);
            }
            assert(all_groups.skip(0) =~= all_groups);
            assert(output@.take(u as int) =~= output@);
        }
        let mut out = output;
        let ghost mut c: int = 0;
        while groups.len() > 0
            invariant
                0 <= c <= all_groups.len(),
                all_groups.len() == ks.len(),
                groups@ == all_groups.skip(c),
                out@.len() == u + c,
                u == ungrouped_of(input).len(),
                out@.take(u as int) == ungrouped_of(input),
                forall|k: int| 0 <= k < all_groups.len() ==> (#[trigger] all_groups[k])@ == members_of(input, ks[k]),
                forall|k: int| 0 <= k < ks.len() ==> members_of(input, #[trigger] ks[k]).len() > 0,
                forall|i: int| u <= i < u + c ==> chosen_from(#[trigger] out@[i], members_of(input, ks[i - u])),
            decreases groups@.len(),
        {
            let group = groups.remove(0);
            proof {
                assert(group == all_groups[c]);
                assert(group@ == members_of(input, ks[c]));
                assert(groups@ =~= all_groups.skip(c + 1));
                assert(group@.len() > 0) by {
                    assert(members_of(input, ks[c]).len() > 0);
                }
            }
            let w = select(group);
            let ghost out0 = out@;
            out.push(w);
            proof {
                assert(out@.take(u as int) =~= out0.take(u as int));
                assert forall|i: int| u <= i < u + c + 1 implies chosen_from(#[trigger] out@[i], members_of(input, ks[i - u])) by {
                    if i < u + c {
                        assert(out@[i] == out0[i]);
                    } else {
                        assert(out@[i] == w);
                    }
                }
                c = c + 1;
            }
        }
        proof {
            assert(c == ks.len());
        }
        out
    }
}

/// Resolves intentional semantic overlap between rule findings.
pub struct DiagnosticArbitrator;


/// Arbitration does not depend on the order in which rules ran: in any reordering of a group,
/// the preferred member has the same rule and severity.
pub proof fn lemma_selection_ignores_order(g1: Seq<Diagnostic>, g2: Seq<Diagnostic>, b1: int, b2: int)
    requires
        g1.to_multiset() == g2.to_multiset(),
        winner_at(g1, b1),
        winner_at(g2, b2),
    ensures
        g1[b1].rule_id@ == g2[b2].rule_id@,
        g1[b1].severity == g2[b2].severity,
{
    crate::sort::lemma_reorder_contains(g1, g2, g2[b2]);
    crate::sort::lemma_reorder_contains(g1, g2, g1[b1]);
    assert(g2.contains(g2[b2]));
    assert(g1.contains(g1[b1]));
    let m1 = choose|m: int| 0 <= m < g1.len() && g1[m] == g2[b2];
    let m2 = choose|m: int| 0 <= m < g2.len() && g2[m] == g1[b1];
    assert(!outranks(g1[m1], g1[b1]));
    assert(!outranks(g2[m2], g2[b2]));
    lemma_text_lt_total(g1[b1].rule_id@, g2[b2].rule_id@);
}


/// Severity `a` is at least severity `b`: errors over warnings over infos.
pub open spec fn at_least_as_severe(a: Severity, b: Severity) -> bool {
    match a {
        Severity::Error => true,
        Severity::Warning => !(b is Error),
        Severity::Info => b is Info,
    }
}

/// The diagnostic kept for a group of competing diagnostics is one of its members and is at
/// least as severe as every member: arbitration never trades a finding for a milder one; among
/// the most severe, a private-import finding (`ARCH-005`) is the one kept.
pub proof fn lemma_chosen_most_severe(w: Diagnostic, g: Seq<Diagnostic>)
    requires
        chosen_from(w, g),
    ensures
        exists|b: int| 0 <= b < g.len() && w.rule_id == (#[trigger] g[b]).rule_id && w.severity == g[b].severity,
        forall|m: int| 0 <= m < g.len() ==> at_least_as_severe(w.severity, (#[trigger] g[m]).severity),
        forall|m: int|
            0 <= m < g.len() && (#[trigger] g[m]).rule_id@ == "ARCH-005"@ && g[m].severity == w.severity
                ==> w.rule_id@ == "ARCH-005"@,
{
    let b = choose|b: int| winner_at(g, b) && reported_as(w, g, b);
    assert(w.severity == g[b].severity);
    assert forall|m: int| 0 <= m < g.len() implies at_least_as_severe(w.severity, (#[trigger] g[m]).severity) by {
        assert(!outranks(g[m], g[b]));
    }
    reveal_strlit("ARCH-005");
    reveal_strlit("ARCH-004");
    assert forall|m: int|
        0 <= m < g.len() && (#[trigger] g[m]).rule_id@ == "ARCH-005"@ && g[m].severity == w.severity
            implies w.rule_id@ == "ARCH-005"@ by {
        assert(!outranks(g[m], g[b]));
        assert("ARCH-005"@ != "ARCH-004"@) by {
            assert("ARCH-005"@[7] != "ARCH-004"@[7]);
        }
    }
}

/// Every diagnostic that arbitration reports for a contested dependency path is at least as
/// severe as each competing diagnostic of the input on that path.
pub proof fn lemma_arbitration_keeps_most_severe(input: Seq<Diagnostic>, r: Seq<Diagnostic>, i: int, d: Diagnostic)
    requires
        ungrouped_of(input).len() <= i < r.len(),
        chosen_from(r[i], members_of(input, keys_of(input)[i - ungrouped_of(input).len()])),
        members_of(input, keys_of(input)[i - ungrouped_of(input).len()]).contains(d),
    ensures
        at_least_as_severe(r[i].severity, d.severity),
{
    let g = members_of(input, keys_of(input)[i - ungrouped_of(input).len()]);
    lemma_chosen_most_severe(r[i], g);
    let m = choose|m: int| 0 <= m < g.len() && g[m] == d;
    assert(at_least_as_severe(r[i].severity, g[m].severity));
}

} // verus!
