//! Layer policies of the architecture model and the canonical ownership decision per module.
use crate::domain::{LayerId, ModuleId};
use crate::map::{has_key, keys_distinct, placed_at, OrderedMap, TextKey};
use crate::text::{owned, text_equal, text_lt};
use vstd::prelude::*;

verus! {

/// The canonical ownership decision for a discovered source module.
#[derive(Clone, Debug, PartialEq, Eq)]
pub enum LayerOwnership {
    Assigned(LayerId),
    Exempt(String),
    Unassigned,
    Overlap(Vec<LayerId>),
}

/// The ownership decision of every source module, in module order.
#[derive(Clone, Debug, PartialEq, Eq)]
pub struct ArchitectureOwnershipIndex {
    entries: OrderedMap<ModuleId, LayerOwnership>,
}

/// How many entries satisfy `pred`.
pub open spec fn count_owned(pairs: Seq<(ModuleId, LayerOwnership)>, which: u8) -> nat
    decreases pairs.len(),
{
    if pairs.len() == 0 {
        0
    } else {
        count_owned(pairs.drop_last(), which) + if of_kind(pairs.last().1, which) {
            1nat
        } else {
            0nat
        }
    }
}

/// Kind 0 is `Assigned`, 1 is `Exempt`, 2 is `Unassigned`, 3 is `Overlap`.
pub open spec fn of_kind(o: LayerOwnership, which: u8) -> bool {
    match o {
        LayerOwnership::Assigned(_) => which == 0,
        LayerOwnership::Exempt(_) => which == 1,
        LayerOwnership::Unassigned => which == 2,
        LayerOwnership::Overlap(_) => which == 3,
    }
}

/// The modules whose entry in `pairs` is of kind `which`.
pub open spec fn modules_of_kind(pairs: Seq<(ModuleId, LayerOwnership)>, which: u8) -> Set<Seq<char>>
    decreases pairs.len(),
{
    if pairs.len() == 0 {
        Set::empty()
    } else {
        let s = modules_of_kind(pairs.drop_last(), which);
        if of_kind(pairs.last().1, which) {
            s.insert(pairs.last().0.key_view())
        } else {
            s
        }
    }
}

/// Over entries with distinct modules, the count of a kind is the number of modules of it.
proof fn lemma_kind_count(pairs: Seq<(ModuleId, LayerOwnership)>, which: u8)
    requires
        keys_distinct(pairs),
    ensures
        modules_of_kind(pairs, which).finite(),
        modules_of_kind(pairs, which).len() == count_owned(pairs, which),
        forall|m: Seq<char>| #[trigger] modules_of_kind(pairs, which).contains(m) <==> exists|i: int|
            0 <= i < pairs.len() && pairs[i].0.key_view() == m && of_kind(pairs[i].1, which),
    decreases pairs.len(),
{
    if pairs.len() > 0 {
        let rest = pairs.drop_last();
        assert forall|i: int, j: int| 0 <= i < rest.len() && 0 <= j < rest.len() && i != j implies rest[i].0.key_view()
            != rest[j].0.key_view() by {
            assert(rest[i] == pairs[i] && rest[j] == pairs[j]);
        }
        lemma_kind_count(rest, which);
        let last = pairs.len() - 1;
        assert(pairs.last() == pairs[last]);
        assert forall|m: Seq<char>| #[trigger] modules_of_kind(pairs, which).contains(m) <==> exists|i: int|
            0 <= i < pairs.len() && pairs[i].0.key_view() == m && of_kind(pairs[i].1, which) by {
            if modules_of_kind(rest, which).contains(m) {
                let i = choose|i: int| 0 <= i < rest.len() && rest[i].0.key_view() == m && of_kind(rest[i].1, which);
                assert(pairs[i] == rest[i]);
            }
            if exists|i: int| 0 <= i < pairs.len() && pairs[i].0.key_view() == m && of_kind(pairs[i].1, which) {
                let i = choose|i: int| 0 <= i < pairs.len() && pairs[i].0.key_view() == m && of_kind(pairs[i].1, which);
                if i < last {
                    assert(rest[i] == pairs[i]);
                }
            }
        }
        if of_kind(pairs.last().1, which) {
            if modules_of_kind(rest, which).contains(pairs.last().0.key_view()) {
                let i = choose|i: int|
                    0 <= i < rest.len() && rest[i].0.key_view() == pairs.last().0.key_view() && of_kind(rest[i].1, which);
                assert(rest[i] == pairs[i]);
            }
        }
    }
}

/// 1 where `o` is of kind `which`, else 0.
pub open spec fn kind_count(o: LayerOwnership, which: u8) -> nat {
    if of_kind(o, which) {
        1
    } else {
        0
    }
}

proof fn lemma_count_concat(a: Seq<(ModuleId, LayerOwnership)>, b: Seq<(ModuleId, LayerOwnership)>, which: u8)
    ensures
        count_owned(a + b, which) == count_owned(a, which) + count_owned(b, which),
    decreases b.len(),
{
    if b.len() == 0 {
        assert(a + b =~= a);
    } else {
        assert((a + b).drop_last() =~= a + b.drop_last());
        lemma_count_concat(a, b.drop_last(), which);
    }
}

proof fn lemma_count_single(x: (ModuleId, LayerOwnership), which: u8)
    ensures
        count_owned(seq![x], which) == kind_count(x.1, which),
{
    reveal_with_fuel(count_owned, 2);
    assert(seq![x].drop_last() =~= Seq::<(ModuleId, LayerOwnership)>::empty());
    assert(seq![x].last() == x);
}

proof fn lemma_unassigned_members(p: Seq<(ModuleId, LayerOwnership)>, q: Seq<char>)
    ensures
        (exists|k: int| 0 <= k < unassigned_of(p).len() && #[trigger] unassigned_of(p)[k]@ == q)
            <==> (exists|i: int| 0 <= i < p.len() && #[trigger] p[i].0@ == q && p[i].1 is Unassigned),
    decreases p.len(),
{
    if p.len() > 0 {
        let d = p.drop_last();
        lemma_unassigned_members(d, q);
        let u = unassigned_of(p);
        let ud = unassigned_of(d);
        if exists|i: int| 0 <= i < p.len() && #[trigger] p[i].0@ == q && p[i].1 is Unassigned {
            let i = choose|i: int| 0 <= i < p.len() && #[trigger] p[i].0@ == q && p[i].1 is Unassigned;
            if i == p.len() - 1 {
                assert(u[ud.len() as int]@ == q);
            } else {
                assert(d[i].0@ == q);
                let k = choose|k: int| 0 <= k < ud.len() && #[trigger] ud[k]@ == q;
                assert(u[k] == ud[k]);
            }
        }
        if exists|k: int| 0 <= k < u.len() && #[trigger] u[k]@ == q {
            let k = choose|k: int| 0 <= k < u.len() && #[trigger] u[k]@ == q;
            if k < ud.len() {
                assert(ud[k]@ == q);
                let i = choose|i: int| 0 <= i < d.len() && #[trigger] d[i].0@ == q && d[i].1 is Unassigned;
                assert(p[i] == d[i]);
            } else {
                assert(p[p.len() - 1].0@ == q);
            }
        }
    }
}

proof fn lemma_unassigned_ascending(p: Seq<(ModuleId, LayerOwnership)>)
    requires
        forall|i: int, j: int| 0 <= i < j < p.len() ==> text_lt(p[i].0@, p[j].0@),
    ensures
        forall|k: int| 0 <= k < unassigned_of(p).len() ==> exists|a: int| 0 <= a < p.len() && #[trigger] unassigned_of(p)[k] == p[a].0,
        forall|k: int, l: int| 0 <= k < l < unassigned_of(p).len() ==> text_lt(unassigned_of(p)[k]@, unassigned_of(p)[l]@),
    decreases p.len(),
{
    if p.len() > 0 {
        let d = p.drop_last();
        lemma_unassigned_ascending(d);
        let u = unassigned_of(p);
        let ud = unassigned_of(d);
        assert forall|k: int| 0 <= k < ud.len() implies exists|a: int| 0 <= a < p.len() && #[trigger] ud[k] == p[a].0 by {
            let a = choose|a: int| 0 <= a < d.len() && ud[k] == d[a].0;
            assert(d[a] == p[a]);
        }
        if p.last().1 is Unassigned {
            assert forall|k: int| 0 <= k < u.len() implies exists|a: int| 0 <= a < p.len() && #[trigger] u[k] == p[a].0 by {
                if k < ud.len() {
                    assert(u[k] == ud[k]);
                } else {
                    assert(u[k] == p[p.len() - 1].0);
                }
            }
            assert forall|k: int, l: int| 0 <= k < l < u.len() implies text_lt(u[k]@, u[l]@) by {
                assert(u[k] == ud[k]);
                if l < ud.len() {
                    assert(u[l] == ud[l]);
                } else {
                    let a = choose|a: int| 0 <= a < d.len() && ud[k] == d[a].0;
                    assert(d[a] == p[a]);
                    assert(u[l] == p[p.len() - 1].0);
                }
            }
        }
    }
}

proof fn lemma_partition(p: Seq<(ModuleId, LayerOwnership)>)
    ensures
        count_owned(p, 0) + count_owned(p, 1) + unassigned_of(p).len() + count_owned(p, 3) == p.len(),
    decreases p.len(),
{
    if p.len() > 0 {
        lemma_partition(p.drop_last());
    }
}

/// The modules whose ownership is `Unassigned`, in order.
pub open spec fn unassigned_of(pairs: Seq<(ModuleId, LayerOwnership)>) -> Seq<ModuleId>
    decreases pairs.len(),
{
    if pairs.len() == 0 {
        Seq::empty()
    } else if pairs.last().1 is Unassigned {
        unassigned_of(pairs.drop_last()).push(pairs.last().0)
    } else {
        unassigned_of(pairs.drop_last())
    }
}

/// Percentage of enforceable (non-exempt) modules that are assigned, capped at 100; 100 when
/// nothing is enforceable.
pub open spec fn coverage_of(source: nat, assigned: nat, exempted: nat) -> nat {
    let enforceable = if source >= exempted {
        (source - exempted) as nat
    } else {
        0nat
    };
    let scaled = if assigned * 100 > usize::MAX {
        usize::MAX as nat
    } else {
        assigned * 100
    };
    if enforceable == 0 {
        100
    } else if scaled / enforceable > 100 {
        100
    } else {
        scaled / enforceable
    }
}

fn count_matching(pairs: &[(ModuleId, LayerOwnership)], which: u8) -> (r: usize)
    requires
        which < 4,
    ensures
        r == count_owned(pairs@, which),
        r <= pairs@.len(),
{
    let mut count: usize = 0;
    let mut i: usize = 0;
    while i < pairs.len()
        invariant
            i <= pairs@.len(),
            count <= i,
            count == count_owned(pairs@.take(i as int), which),
        decreases pairs@.len() - i,
    {
        let hit = match &pairs[i].1 {
            LayerOwnership::Assigned(_) => which == 0,
            LayerOwnership::Exempt(_) => which == 1,
            LayerOwnership::Unassigned => which == 2,
            LayerOwnership::Overlap(_) => which == 3,
        };
        assert(pairs@.take(i + 1).drop_last() =~= pairs@.take(i as int));
        if hit {
            count = count + 1;
        }
        i = i + 1;
    }
    assert(pairs@.take(i as int) =~= pairs@);
    count
}

impl ArchitectureOwnershipIndex {
    /// The ownership entries in module order.
    pub closed spec fn pairs(&self) -> Seq<(ModuleId, LayerOwnership)> {
        self.entries.pairs()
    }

    /// The ownership recorded for a module.
    pub closed spec fn ownership_of(&self, module: Seq<char>) -> Option<LayerOwnership> {
        self.entries.lookup(module)
    }

    /// The entries are kept in ascending module order (every index keeps this).
    pub closed spec fn well_formed(&self) -> bool {
        self.entries.well_formed()
    }

    pub fn new() -> (r: Self)
        ensures
            r.pairs().len() == 0,
            r.well_formed(),
    {
        ArchitectureOwnershipIndex { entries: OrderedMap::new() }
    }

    /// Records the ownership of `module`, replacing an earlier decision for it: a module
    /// already present is not counted twice, and each count moves from its old decision to
    /// the new one.
    pub fn insert(&mut self, module: ModuleId, ownership: LayerOwnership)
        ensures
            final(self).well_formed(),
            final(self).ownership_of(module@) == Some(ownership),
            forall|q: Seq<char>|
                q != module@ ==> #[trigger] final(self).ownership_of(q) == old(self).ownership_of(
                    q,
                ),
            final(self).pairs().len() == old(self).pairs().len() + if old(self).ownership_of(
                module@,
            ) is Some {
                0nat
            } else {
                1nat
            },
            forall|w: u8|
                #[trigger] count_owned(final(self).pairs(), w) + match old(self).ownership_of(
                    module@,
                ) {
                    Some(o) => kind_count(o, w),
                    None => 0nat,
                } == count_owned(old(self).pairs(), w) + kind_count(ownership, w),
    {
        proof {
            use_type_invariant(&self.entries);
            self.entries.lemma_entries();
        }
        let ghost before = self.entries.pairs();
        let ghost m = module;
        let ghost o = ownership;
        self.entries.insert(module, ownership);
        proof {
            let after = self.entries.pairs();
            let i = choose|i: int|
                0 <= i <= before.len() && #[trigger] placed_at(before, after, i, m, o);
            assert(placed_at(before, after, i, m, o));
            if has_key(before, m@) {
                assert(old(self).ownership_of(m@) == Some(before[i].1));
                assert forall|w: u8| #[trigger] count_owned(after, w) + kind_count(before[i].1, w)
                    == count_owned(before, w) + kind_count(o, w) by {
                    let t = before.take(i);
                    let r = before.skip(i + 1);
                    assert(before =~= t + seq![before[i]] + r);
                    assert(after =~= t + seq![(m, o)] + r);
                    lemma_count_concat(t + seq![before[i]], r, w);
                    lemma_count_concat(t, seq![before[i]], w);
                    lemma_count_concat(t + seq![(m, o)], r, w);
                    lemma_count_concat(t, seq![(m, o)], w);
                    lemma_count_single(before[i], w);
                    lemma_count_single((m, o), w);
                }
            } else {
                assert(old(self).ownership_of(m@) is None);
                assert forall|w: u8| #[trigger] count_owned(after, w) + 0nat == count_owned(
                    before,
                    w,
                ) + kind_count(o, w) by {
                    let t = before.take(i);
                    let r = before.skip(i);
                    assert(before =~= t + r);
                    assert(after =~= t + seq![(m, o)] + r);
                    lemma_count_concat(t, r, w);
                    lemma_count_concat(t + seq![(m, o)], r, w);
                    lemma_count_concat(t, seq![(m, o)], w);
                    lemma_count_single((m, o), w);
                }
            }
        }
    }

    /// The entries name distinct modules; each entry's decision is what `get` gives for its
    /// module, and `get` gives a decision exactly for the modules that have an entry.
    pub proof fn lemma_entries_are_ownership(&self)
        requires
            self.well_formed(),
        ensures
            forall|i: int, j: int|
                0 <= i < self.pairs().len() && 0 <= j < self.pairs().len() && i != j
                    ==> #[trigger] self.pairs()[i].0@ != #[trigger] self.pairs()[j].0@,
            forall|i: int|
                0 <= i < self.pairs().len() ==> self.ownership_of(#[trigger] self.pairs()[i].0@)
                    == Some(self.pairs()[i].1),
            forall|q: Seq<char>|
                #[trigger] self.ownership_of(q) is Some <==> exists|i: int|
                    0 <= i < self.pairs().len() && #[trigger] self.pairs()[i].0@ == q,
    {
        self.entries.lemma_entries();
        let p = self.pairs();
        assert forall|q: Seq<char>|
            #[trigger] self.ownership_of(q) is Some <==> exists|i: int|
                0 <= i < p.len() && #[trigger] p[i].0@ == q by {
            if has_key(p, q) {
                let i = choose|i: int| 0 <= i < p.len() && p[i].0.key_view() == q;
                assert(p[i].0@ == q);
            }
            if exists|i: int| 0 <= i < p.len() && #[trigger] p[i].0@ == q {
                let i = choose|i: int| 0 <= i < p.len() && #[trigger] p[i].0@ == q;
                assert(p[i].0.key_view() == q);
            }
        }
    }

    /// A module is listed by `unassigned_modules` exactly when its recorded decision is
    /// `Unassigned`.
    pub proof fn lemma_unassigned_matches_ownership(&self, q: Seq<char>)
        requires
            self.well_formed(),
        ensures
            (exists|k: int|
                0 <= k < unassigned_of(self.pairs()).len() && #[trigger] unassigned_of(
                    self.pairs(),
                )[k]@ == q) <==> self.ownership_of(q) == Some(LayerOwnership::Unassigned),
    {
        self.entries.lemma_entries();
        let p = self.pairs();
        lemma_unassigned_members(p, q);
        if self.ownership_of(q) == Some(LayerOwnership::Unassigned) {
            assert(has_key(p, q));
            let i = choose|i: int| 0 <= i < p.len() && p[i].0.key_view() == q;
            assert(p[i].0@ == q);
        }
    }

    /// Every module is assigned, exempt, unassigned or overlapping, and only one of them:
    /// The number of modules assigned to a layer (kind 0), exempted (1), unassigned (2) or in an
    /// overlap (3) is the number of modules whose recorded ownership is of that kind.
    pub proof fn lemma_count_by_module(&self, which: u8)
        requires
            self.well_formed(),
        ensures
            count_owned(self.pairs(), which) == Set::new(
                |m: Seq<char>|
                    match self.ownership_of(m) {
                        Some(o) => of_kind(o, which),
                        None => false,
                    },
            ).len(),
    {
        self.entries.lemma_entries();
        let p = self.pairs();
        lemma_kind_count(p, which);
        let owned = Set::new(
            |m: Seq<char>|
                match self.ownership_of(m) {
                    Some(o) => of_kind(o, which),
                    None => false,
                },
        );
        assert forall|m: Seq<char>| owned.contains(m) <==> #[trigger] modules_of_kind(p, which).contains(m) by {
            if owned.contains(m) {
                assert(self.entries.lookup(m) is Some);
                assert(has_key(p, m));
                let i = choose|i: int| 0 <= i < p.len() && p[i].0.key_view() == m;
                assert(self.entries.lookup(p[i].0.key_view()) == Some(p[i].1));
            }
            if modules_of_kind(p, which).contains(m) {
                let i = choose|i: int| 0 <= i < p.len() && p[i].0.key_view() == m && of_kind(p[i].1, which);
                assert(self.entries.lookup(p[i].0.key_view()) == Some(p[i].1));
            }
        }
        assert(owned =~= modules_of_kind(p, which));
    }

    /// the four counts add up to the number of source modules.
    pub proof fn lemma_counts_partition(&self)
        ensures
            count_owned(self.pairs(), 0) + count_owned(self.pairs(), 1) + unassigned_of(
                self.pairs(),
            ).len() + count_owned(self.pairs(), 3) == self.pairs().len(),
    {
        lemma_partition(self.pairs());
    }

    pub fn get(&self, module: &ModuleId) -> (r: Option<&LayerOwnership>)
        ensures
            match r {
                Some(o) => self.ownership_of(module@) == Some(*o),
                None => self.ownership_of(module@) is None,
            },
    {
        self.entries.get(module.0.as_str())
    }

    /// The entries in module order.
    pub fn iter(&self) -> (r: &[(ModuleId, LayerOwnership)])
        ensures
            r@ == self.pairs(),
    {
        self.entries.entries()
    }

    pub fn source_modules(&self) -> (r: usize)
        ensures
            r == self.pairs().len(),
    {
        self.entries.len()
    }

    pub fn assigned_modules(&self) -> (r: usize)
        ensures
            r == count_owned(self.pairs(), 0),
    {
        count_matching(self.entries.entries(), 0)
    }

    pub fn exempted_modules(&self) -> (r: usize)
        ensures
            r == count_owned(self.pairs(), 1),
    {
        count_matching(self.entries.entries(), 1)
    }

    /// The modules without a layer, in module order.
    pub fn unassigned_modules(&self) -> (r: Vec<&ModuleId>)
        ensures
            r@.len() == unassigned_of(self.pairs()).len(),
            forall|i: int| 0 <= i < r@.len() ==> *#[trigger] r@[i] == unassigned_of(self.pairs())[i],
            forall|i: int, j: int| 0 <= i < j < r@.len() ==> text_lt(r@[i]@, r@[j]@),
    {
        proof {
            use_type_invariant(&self.entries);
            let p = self.pairs();
            assert forall|i: int, j: int| 0 <= i < j < p.len() implies text_lt(p[i].0@, p[j].0@) by {
                assert(text_lt(p[i].0.key_view(), p[j].0.key_view()));
            }
            lemma_unassigned_ascending(p);
        }
        let pairs = self.entries.entries();
        let mut out: Vec<&ModuleId> = Vec::new();
        let mut i: usize = 0;
        while i < pairs.len()
            invariant
                i <= pairs@.len(),
                pairs@ == self.pairs(),
                out@.len() == unassigned_of(pairs@.take(i as int)).len(),
                forall|k: int|
                    0 <= k < out@.len() ==> *#[trigger] out@[k] == unassigned_of(
                        pairs@.take(i as int),
                    )[k],
            decreases pairs@.len() - i,
        {
            assert(pairs@.take(i + 1).drop_last() =~= pairs@.take(i as int));
            if let LayerOwnership::Unassigned = &pairs[i].1 {
                out.push(&pairs[i].0);
            }
            i = i + 1;
        }
        assert(pairs@.take(i as int) =~= pairs@);
        out
    }

    /// Assigned modules as a percentage of the non-exempt modules (100 when there are none).
    pub fn coverage_percent(&self) -> (r: u8)
        ensures
            r == coverage_of(
                self.pairs().len(),
                count_owned(self.pairs(), 0),
                count_owned(self.pairs(), 1),
            ),
    {
        let source = self.source_modules();
        let exempted = self.exempted_modules();
        let assigned = self.assigned_modules();
        let enforceable = source.saturating_sub(exempted);
        let scaled = if assigned > usize::MAX / 100 {
            usize::MAX
        } else {
            assigned * 100
        };
        if enforceable == 0 {
            100
        } else {
            let q = scaled / enforceable;
            if q > 100 {
                100
            } else {
                q as u8
            }
        }
    }
}

impl Default for ArchitectureOwnershipIndex {
    fn default() -> (r: Self)
        ensures
            r.pairs().len() == 0,
            r.well_formed(),
    {
        ArchitectureOwnershipIndex::new()
    }
}

#[derive(Clone, Debug, PartialEq, Eq)]
pub struct LayerPolicy {
    pub name: String,
    pub patterns: Vec<String>,
    pub can_import: Vec<String>,
}

impl LayerPolicy {
    /// A layer named `name` with no patterns and no permitted imports.
    pub fn new(name: &str) -> (r: Self)
        ensures
            r.name@ == name@,
            r.patterns@.len() == 0,
            r.can_import@.len() == 0,
    {
        LayerPolicy { name: owned(name), patterns: Vec::new(), can_import: Vec::new() }
    }

    pub fn with_patterns(self, patterns: Vec<String>) -> (r: Self)
        ensures
            r == (LayerPolicy { patterns, ..self }),
    {
        LayerPolicy { patterns, ..self }
    }

    pub fn with_can_import(self, can_import: Vec<String>) -> (r: Self)
        ensures
            r == (LayerPolicy { can_import, ..self }),
    {
        LayerPolicy { can_import, ..self }
    }
}

impl Default for LayerPolicy {
    fn default() -> (r: Self)
        ensures
            r.name@ == Seq::<char>::empty(),
            r.patterns@.len() == 0,
            r.can_import@.len() == 0,
    {
        LayerPolicy { name: String::new(), patterns: Vec::new(), can_import: Vec::new() }
    }
}

#[derive(Clone, Debug, PartialEq, Eq)]
pub struct ArchitectureModel {
    pub layers: Vec<LayerPolicy>,
}

/// The index of the first layer named `name`.
pub open spec fn first_layer(layers: Seq<LayerPolicy>, name: Seq<char>) -> Option<int>
    decreases layers.len(),
{
    if layers.len() == 0 {
        None
    } else if layers[0].name@ == name {
        Some(0)
    } else {
        match first_layer(layers.drop_first(), name) {
            Some(i) => Some(i + 1),
            None => None,
        }
    }
}

/// Whether some string of `v` has the text `t`.
pub open spec fn lists(v: Seq<String>, t: Seq<char>) -> bool {
    exists|i: int| 0 <= i < v.len() && v[i]@ == t
}

/// Whether some layer is named `t`.
pub open spec fn names_layer(layers: Seq<LayerPolicy>, t: Seq<char>) -> bool {
    exists|i: int| 0 <= i < layers.len() && layers[i].name@ == t
}

/// The permitted imports of one layer that name no layer, each paired with that layer's name.
pub open spec fn invalid_targets(
    name: Seq<char>,
    targets: Seq<String>,
    layers: Seq<LayerPolicy>,
) -> Seq<(Seq<char>, Seq<char>)>
    decreases targets.len(),
{
    if targets.len() == 0 {
        Seq::empty()
    } else {
        let rest = invalid_targets(name, targets.drop_last(), layers);
        if names_layer(layers, targets.last()@) {
            rest
        } else {
            rest.push((name, targets.last()@))
        }
    }
}

/// Every reference to an unknown layer, layer by layer.
pub open spec fn invalid_of(prefix: Seq<LayerPolicy>, layers: Seq<LayerPolicy>) -> Seq<
    (Seq<char>, Seq<char>),
>
    decreases prefix.len(),
{
    if prefix.len() == 0 {
        Seq::empty()
    } else {
        invalid_of(prefix.drop_last(), layers) + invalid_targets(
            prefix.last().name@,
            prefix.last().can_import@,
            layers,
        )
    }
}

fn lists_text(v: &Vec<String>, t: &str) -> (r: bool)
    ensures
        r == lists(v@, t@),
{
    let mut i: usize = 0;
    while i < v.len()
        invariant
            i <= v@.len(),
            forall|k: int| 0 <= k < i ==> v@[k]@ != t@,
        decreases v@.len() - i,
    {
        if text_equal(v[i].as_str(), t) {
            return true;
        }
        i = i + 1;
    }
    false
}

impl ArchitectureModel {
    pub fn new(layers: Vec<LayerPolicy>) -> (r: Self)
        ensures
            r.layers == layers,
    {
        ArchitectureModel { layers }
    }

    /// The first layer named `name`.
    pub fn layer(&self, name: &str) -> (r: Option<&LayerPolicy>)
        ensures
            match first_layer(self.layers@, name@) {
                Some(i) => r == Some(&self.layers@[i]),
                None => r is None,
            },
    {
        let mut i: usize = 0;
        assert(self.layers@.skip(0) =~= self.layers@);
        while i < self.layers.len()
            invariant
                i <= self.layers@.len(),
                forall|k: int| 0 <= k < i ==> self.layers@[k].name@ != name@,
                first_layer(self.layers@, name@) == match first_layer(
                    self.layers@.skip(i as int),
                    name@,
                ) {
                    Some(j) => Some(j + i),
                    None => None,
                },
            decreases self.layers@.len() - i,
        {
            assert(self.layers@.skip(i as int).drop_first() =~= self.layers@.skip(i + 1));
            if text_equal(self.layers[i].name.as_str(), name) {
                return Some(&self.layers[i]);
            }
            i = i + 1;
        }
        None
    }

    /// A layer may always import itself; otherwise the first layer named `from_layer` must list
    /// `to_layer` among its permitted imports.
    pub fn can_import(&self, from_layer: &str, to_layer: &str) -> (r: bool)
        ensures
            r == (from_layer@ == to_layer@ || match first_layer(self.layers@, from_layer@) {
                Some(i) => lists(self.layers@[i].can_import@, to_layer@),
                None => false,
            }),
    {
        if text_equal(from_layer, to_layer) {
            return true;
        }
        match self.layer(from_layer) {
            Some(layer) => lists_text(&layer.can_import, to_layer),
            None => false,
        }
    }

    /// Each permitted import that names no configured layer, as (layer, unknown target), in
    /// layer order and then list order.
    pub fn invalid_references(&self) -> (r: Vec<(String, String)>)
        ensures
            r@.map_values(|p: (String, String)| (p.0@, p.1@)) == invalid_of(
                self.layers@,
                self.layers@,
            ),
    {
        let mut out: Vec<(String, String)> = Vec::new();
        let mut i: usize = 0;
        while i < self.layers.len()
            invariant
                i <= self.layers@.len(),
                out@.map_values(|p: (String, String)| (p.0@, p.1@)) == invalid_of(
                    self.layers@.take(i as int),
                    self.layers@,
                ),
            decreases self.layers@.len() - i,
        {
            let layer = &self.layers[i];
            let ghost before = out@.map_values(|p: (String, String)| (p.0@, p.1@));
            let mut j: usize = 0;
            while j < layer.can_import.len()
                invariant
                    j <= layer.can_import@.len(),
                    *layer == self.layers@[i as int],
                    out@.map_values(|p: (String, String)| (p.0@, p.1@)) == before + invalid_targets(
                        layer.name@,
                        layer.can_import@.take(j as int),
                        self.layers@,
                    ),
                decreases layer.can_import@.len() - j,
            {
                let target = &layer.can_import[j];
                let known = self.names(target.as_str());
                assert(layer.can_import@.take(j + 1).drop_last() =~= layer.can_import@.take(
                    j as int,
                ));
                if !known {
                    let ghost prev = out@;
                    out.push((layer.name.clone(), target.clone()));
                    assert(out@.map_values(|p: (String, String)| (p.0@, p.1@)) =~= prev.map_values(
                        |p: (String, String)| (p.0@, p.1@),
                    ).push((layer.name@, target@)));
                }
                j = j + 1;
            }
            assert(layer.can_import@.take(j as int) =~= layer.can_import@);
            assert(self.layers@.take(i + 1).drop_last() =~= self.layers@.take(i as int));
            i = i + 1;
        }
        assert(self.layers@.take(i as int) =~= self.layers@);
        out
    }

    fn names(&self, t: &str) -> (r: bool)
        ensures
            r == names_layer(self.layers@, t@),
    {
        let mut i: usize = 0;
        while i < self.layers.len()
            invariant
                i <= self.layers@.len(),
                forall|k: int| 0 <= k < i ==> self.layers@[k].name@ != t@,
            decreases self.layers@.len() - i,
        {
            if text_equal(self.layers[i].name.as_str(), t) {
                return true;
            }
            i = i + 1;
        }
        false
    }
}

impl Default for ArchitectureModel {
    fn default() -> (r: Self)
        ensures
            r.layers@.len() == 0,
    {
        ArchitectureModel { layers: Vec::new() }
    }
}

} // verus!
