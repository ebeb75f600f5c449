//! The package graph: one node per workspace package and one edge for each pair of packages
//! joined by a module dependency that crosses between them.
use crate::domain::{Dependency, DependencyKind, Module, ModuleId, PackageName, Project, SourceLocation};
use crate::module_graph::{arc_lt, arc_of, ids_of, walk_ids, with_arc, with_id, ArcView, GraphEngine, ModuleGraph,
    ModuleGraphBuilder, lemma_with_arc_contains, lemma_with_id_contains};
use crate::sort::{lemma_reorder_distinct, lemma_reorder_image, sort_ranked, Ranked};
use crate::text::{lemma_text_lt_irreflexive, lemma_text_lt_negatively_transitive, lemma_text_lt_total,
    lemma_text_lt_transitive, text_equal, text_less, text_lt};
use vstd::prelude::*;

verus! {

/// A dependency of one package on another.
#[derive(Clone, Debug, PartialEq, Eq, Hash)]
pub struct PackageDependency {
    pub from: PackageName,
    pub to: PackageName,
}

/// A package edge as plain values.
pub open spec fn pair_of(d: PackageDependency) -> (Seq<char>, Seq<char>) {
    (d.from@, d.to@)
}

/// The order of package edges: by source name, then target name.
pub open spec fn pair_lt(a: (Seq<char>, Seq<char>), b: (Seq<char>, Seq<char>)) -> bool {
    text_lt(a.0, b.0) || (a.0 == b.0 && text_lt(a.1, b.1))
}

impl Ranked for PackageName {
    open spec fn precedes(&self, other: &Self) -> bool {
        text_lt(self@, other@)
    }

    proof fn lemma_irreflexive(a: &Self) {
        lemma_text_lt_irreflexive(a@);
    }

    proof fn lemma_transitive(a: &Self, b: &Self, c: &Self) {
        lemma_text_lt_transitive(a@, b@, c@);
    }

    proof fn lemma_negatively_transitive(a: &Self, b: &Self, c: &Self) {
        lemma_text_lt_negatively_transitive(a@, b@, c@);
    }

    fn comes_before(&self, other: &Self) -> (r: bool) {
        text_less(self.0.as_str(), other.0.as_str())
    }
}

impl Ranked for PackageDependency {
    open spec fn precedes(&self, other: &Self) -> bool {
        pair_lt(pair_of(*self), pair_of(*other))
    }

    proof fn lemma_irreflexive(a: &Self) {
        lemma_text_lt_irreflexive(a.from@);
        lemma_text_lt_irreflexive(a.to@);
    }

    proof fn lemma_transitive(a: &Self, b: &Self, c: &Self) {
        if text_lt(a.from@, b.from@) && text_lt(b.from@, c.from@) {
            lemma_text_lt_transitive(a.from@, b.from@, c.from@);
        }
        if text_lt(a.to@, b.to@) && text_lt(b.to@, c.to@) {
            lemma_text_lt_transitive(a.to@, b.to@, c.to@);
        }
    }

    proof fn lemma_negatively_transitive(a: &Self, b: &Self, c: &Self) {
        lemma_text_lt_negatively_transitive(a.from@, b.from@, c.from@);
        if !text_lt(a.to@, b.to@) && !text_lt(b.to@, c.to@) {
            lemma_text_lt_negatively_transitive(a.to@, b.to@, c.to@);
        }
        lemma_text_lt_total(a.from@, b.from@);
        lemma_text_lt_total(b.from@, c.from@);
    }

    fn comes_before(&self, other: &Self) -> (r: bool) {
        let a = self.from.0.as_str();
        let b = other.from.0.as_str();
        if text_less(a, b) {
            return true;
        }
        if !text_equal(a, b) {
            return false;
        }
        text_less(self.to.0.as_str(), other.to.0.as_str())
    }
}

/// The last module record with id `x`.
pub open spec fn last_module(modules: Seq<Module>, x: Seq<char>) -> Option<Module>
    decreases modules.len(),
{
    if modules.len() == 0 {
        None
    } else if modules.last().id@ == x {
        Some(modules.last())
    } else {
        last_module(modules.drop_last(), x)
    }
}

/// The package of the last module record with id `x`.
pub open spec fn package_of(p: Project, x: Seq<char>) -> Option<Seq<char>> {
    match last_module(p.modules@, x) {
        Some(m) => Some(m.package@),
        None => None,
    }
}

/// A module dependency leads from package `a` to a different package `b`.
pub open spec fn crosses(p: Project, a: Seq<char>, b: Seq<char>) -> bool {
    &&& a != b
    &&& exists|k: int| 0 <= k < p.dependencies@.len() && package_of(p, #[trigger] p.dependencies@[k].from@) == Some(a)
            && package_of(p, p.dependencies@[k].to@) == Some(b)
}

/// A package record of the project has this name.
pub open spec fn package_known(p: Project, x: Seq<char>) -> bool {
    exists|i: int| 0 <= i < p.packages@.len() && p.packages@[i].name@ == x
}

/// The names in `v` are pairwise distinct.
pub open spec fn distinct_names(v: Seq<PackageName>) -> bool {
    forall|i: int, j: int| 0 <= i < j < v.len() ==> v[i]@ != v[j]@
}

/// The edges in `v` are pairwise distinct.
pub open spec fn distinct_pairs(v: Seq<PackageDependency>) -> bool {
    forall|i: int, j: int| 0 <= i < j < v.len() ==> pair_of(v[i]) != pair_of(v[j])
}

/// The names of a sequence of packages.
pub open spec fn names_of(v: Seq<PackageName>) -> Seq<Seq<char>> {
    v.map_values(|p: PackageName| p@)
}

/// The edges of a sequence of package dependencies as plain values.
pub open spec fn pairs_of(v: Seq<PackageDependency>) -> Seq<(Seq<char>, Seq<char>)> {
    v.map_values(|d: PackageDependency| pair_of(d))
}

#[derive(Debug)]
pub struct PackageGraph {
    nodes: Vec<PackageName>,
    edges: Vec<PackageDependency>,
}

/// The package of the last module record with the given id.
fn find_package<'a>(project: &'a Project, id: &ModuleId) -> (r: Option<&'a PackageName>)
    ensures
        match r {
            Some(name) => package_of(*project, id@) == Some(name@),
            None => package_of(*project, id@) is None,
        },
{
    let mut i: usize = project.modules.len();
    proof {
        assert(project.modules@.take(i as int) =~= project.modules@);
    }
    while i > 0
        invariant
            i <= project.modules@.len(),
            last_module(project.modules@, id@) == last_module(project.modules@.take(i as int), id@),
        decreases i,
    {
        let ghost prefix = project.modules@.take(i as int);
        proof {
            assert(prefix.drop_last() =~= project.modules@.take(i - 1));
            assert(prefix.last() == project.modules@[i - 1]);
        }
        if text_equal(project.modules[i - 1].id.0.as_str(), id.0.as_str()) {
            return Some(&project.modules[i - 1].package);
        }
        i = i - 1;
    }
    None
}

/// Adds a name unless it is there.
fn add_name(nodes: &mut Vec<PackageName>, name: &PackageName)
    requires
        distinct_names(old(nodes)@),
    ensures
        distinct_names(final(nodes)@),
        names_of(final(nodes)@) == with_id(names_of(old(nodes)@), name@),
{
    let ghost before = names_of(nodes@);
    let mut i: usize = 0;
    while i < nodes.len()
        invariant
            i <= nodes@.len(),
            nodes@ == old(nodes)@,
            before == names_of(nodes@),
            distinct_names(nodes@),
            forall|k: int| 0 <= k < i ==> nodes@[k]@ != name@,
        decreases nodes@.len() - i,
    {
        if text_equal(nodes[i].0.as_str(), name.0.as_str()) {
            proof {
                assert(before[i as int] == name@);
            }
            return;
        }
        i = i + 1;
    }
    proof {
        assert(!before.contains(name@)) by {
            if before.contains(name@) {
                let k = choose|k: int| 0 <= k < before.len() && before[k] == name@;
                assert(nodes@[k]@ == name@);
            }
        }
    }
    nodes.push(name.duplicate());
    proof {
        assert(names_of(nodes@) =~= before.push(name@));
    }
}

/// Lifts distinct, sorted-by-`precedes` names to strictly ordered ones.
proof fn lemma_strict_names(v: Seq<PackageName>)
    requires
        distinct_names(v),
        forall|i: int, j: int| 0 <= i < j < v.len() ==> !v[j].precedes(&v[i]),
    ensures
        forall|i: int, j: int| 0 <= i < j < v.len() ==> text_lt(v[i]@, v[j]@),
{
    assert forall|i: int, j: int| 0 <= i < j < v.len() implies text_lt(v[i]@, v[j]@) by {
        assert(!v[j].precedes(&v[i]));
        assert(v[i]@ != v[j]@);
        lemma_text_lt_total(v[i]@, v[j]@);
    }
}

impl PackageGraph {
    #[verifier::type_invariant]
    spec fn well_formed(self) -> bool {
        &&& distinct_names(self.nodes@)
        &&& distinct_pairs(self.edges@)
    }

    /// The package names, in node order.
    pub closed spec fn names(&self) -> Seq<Seq<char>> {
        names_of(self.nodes@)
    }

    /// The edges as plain values, in edge order.
    pub closed spec fn pairs(&self) -> Seq<(Seq<char>, Seq<char>)> {
        pairs_of(self.edges@)
    }

    pub fn new() -> (r: Self)
        ensures
            r.names().len() == 0,
            r.pairs().len() == 0,
    {
        PackageGraph { nodes: Vec::new(), edges: Vec::new() }
    }

    /// The graph of a project: a node for each package and each package at either end of an
    /// edge, and an edge for each dependency between modules of different packages (a module id
    /// names its last record); nodes ordered by name and edges by source then target.
    pub fn from_project(project: &Project) -> (r: Self)
        ensures
            forall|x: Seq<char>| #[trigger] r.names().contains(x) <==> (package_known(*project, x)
                || exists|y: Seq<char>| crosses(*project, x, y) || crosses(*project, y, x)),
            forall|a: Seq<char>, b: Seq<char>| #[trigger] r.pairs().contains((a, b)) <==> crosses(*project, a, b),
            forall|i: int, j: int| 0 <= i < j < r.names().len() ==> text_lt(r.names()[i], r.names()[j]),
            forall|i: int, j: int| 0 <= i < j < r.pairs().len() ==> pair_lt(r.pairs()[i], r.pairs()[j]),
    {
        let mut nodes: Vec<PackageName> = Vec::new();
        let mut i: usize = 0;
        while i < project.packages.len()
            invariant
                i <= project.packages@.len(),
                distinct_names(nodes@),
                forall|x: Seq<char>| #[trigger] names_of(nodes@).contains(x) <==> exists|k: int|
                    0 <= k < i && project.packages@[k].name@ == x,
            decreases project.packages@.len() - i,
        {
            let ghost before = names_of(nodes@);
            add_name(&mut nodes, &project.packages[i].name);
            proof {
                assert forall|x: Seq<char>| #[trigger] names_of(nodes@).contains(x) <==> exists|k: int|
                    0 <= k < i + 1 && project.packages@[k].name@ == x by {
                    lemma_with_id_contains(before, project.packages@[i as int].name@, x);
                    if x == project.packages@[i as int].name@ {
                        assert(project.packages@[i as int].name@ == x);
                    }
                }
            }
            i = i + 1;
        }
        let mut edges: Vec<PackageDependency> = Vec::new();
        let mut k: usize = 0;
        while k < project.dependencies.len()
            invariant
                k <= project.dependencies@.len(),
                distinct_names(nodes@),
                distinct_pairs(edges@),
                forall|x: Seq<char>| #[trigger] names_of(nodes@).contains(x) <==> (package_known(*project, x)
                    || exists|e: int| 0 <= e < edges@.len() && (edges@[e].from@ == x || edges@[e].to@ == x)),
                forall|a: Seq<char>, b: Seq<char>| #[trigger] pairs_of(edges@).contains((a, b)) <==> {
                    &&& a != b
                    &&& exists|l: int| 0 <= l < k && package_of(*project, #[trigger] project.dependencies@[l].from@) == Some(a)
                        && package_of(*project, project.dependencies@[l].to@) == Some(b)
                },
            decreases project.dependencies@.len() - k,
        {
            let dependency = &project.dependencies[k];
            let ghost names0 = names_of(nodes@);
            let ghost pairs0 = pairs_of(edges@);
            let ghost edges0 = edges@;
            let from = find_package(project, &dependency.from);
            let to = find_package(project, &dependency.to);
            match (from, to) {
                (Some(a), Some(b)) => {
                    if !text_equal(a.0.as_str(), b.0.as_str()) {
                        add_name(&mut nodes, a);
                        let ghost names1 = names_of(nodes@);
                        add_name(&mut nodes, b);
                        let mut present = false;
                        let mut e: usize = 0;
                        while e < edges.len()
                            invariant
                                e <= edges@.len(),
                                present <==> exists|m: int| 0 <= m < e && pair_of(edges@[m]) == (a@, b@),
                            decreases edges@.len() - e,
                        {
                            if text_equal(edges[e].from.0.as_str(), a.0.as_str()) && text_equal(edges[e].to.0.as_str(), b.0.as_str()) {
                                present = true;
                            }
                            e = e + 1;
                        }
                        if !present {
                            edges.push(PackageDependency { from: a.duplicate(), to: b.duplicate() });
                        }
                        proof {
                            let pairs1 = pairs_of(edges@);
                            assert(present <==> pairs0.contains((a@, b@))) by {
                                if present {
                                    let m = choose|m: int| 0 <= m < edges0.len() && pair_of(edges0[m]) == (a@, b@);
                                    assert(pairs0[m] == (a@, b@));
                                }
                                if pairs0.contains((a@, b@)) {
                                    let m = choose|m: int| 0 <= m < pairs0.len() && pairs0[m] == (a@, b@);
                                    assert(pair_of(edges0[m]) == (a@, b@));
                                }
                            }
                            if !present {
                                assert(pairs1 =~= pairs0.push((a@, b@)));
                                assert forall|i: int, j: int| 0 <= i < j < edges@.len() implies pair_of(edges@[i]) != pair_of(edges@[j]) by {
                                    if j == edges0.len() {
                                        assert(pairs0[i] == pair_of(edges0[i]));
                                    } else {
                                        assert(edges@[i] == edges0[i] && edges@[j] == edges0[j]);
                                    }
                                }
                            } else {
                                assert(pairs1 == pairs0);
                            }
                            assert(pairs1 == with_pair(pairs0, (a@, b@)));
                            assert forall|x: Seq<char>, y: Seq<char>| #[trigger] pairs1.contains((x, y)) <==> {
                                &&& x != y
                                &&& exists|l: int| 0 <= l < k + 1 && package_of(*project, #[trigger] project.dependencies@[l].from@) == Some(x)
                                    && package_of(*project, project.dependencies@[l].to@) == Some(y)
                            } by {
                                lemma_with_pair_contains(pairs0, (a@, b@), (x, y));
                                if x == a@ && y == b@ {
                                    assert(package_of(*project, project.dependencies@[k as int].from@) == Some(x));
                                }
                                if exists|l: int| 0 <= l < k + 1 && package_of(*project, #[trigger] project.dependencies@[l].from@) == Some(x)
                                    && package_of(*project, project.dependencies@[l].to@) == Some(y) {
                                    let l = choose|l: int| 0 <= l < k + 1 && package_of(*project, #[trigger] project.dependencies@[l].from@) == Some(x)
                                        && package_of(*project, project.dependencies@[l].to@) == Some(y);
                                    if l < k {
                                        assert(package_of(*project, project.dependencies@[l].from@) == Some(x));
                                    }
                                }
                            }
                            assert forall|x: Seq<char>| #[trigger] names_of(nodes@).contains(x) <==> (package_known(*project, x)
                                || exists|e: int| 0 <= e < edges@.len() && (edges@[e].from@ == x || edges@[e].to@ == x)) by {
                                lemma_with_id_contains(names0, a@, x);
                                lemma_with_id_contains(names1, b@, x);
                                if exists|e: int| 0 <= e < edges0.len() && (edges0[e].from@ == x || edges0[e].to@ == x) {
                                    let e = choose|e: int| 0 <= e < edges0.len() && (edges0[e].from@ == x || edges0[e].to@ == x);
                                    assert(edges@[e] == edges0[e]);
                                }
                                if exists|e: int| 0 <= e < edges@.len() && (edges@[e].from@ == x || edges@[e].to@ == x) {
                                    let e = choose|e: int| 0 <= e < edges@.len() && (edges@[e].from@ == x || edges@[e].to@ == x);
                                    if e < edges0.len() {
                                        assert(edges0[e] == edges@[e]);
                                    }
                                }
                                if x == a@ || x == b@ {
                                    if present {
                                        let m = choose|m: int| 0 <= m < edges0.len() && pair_of(edges0[m]) == (a@, b@);
                                        assert(edges@[m] == edges0[m]);
                                    } else {
                                        assert(edges@[edges0.len() as int].from@ == a@);
                                    }
                                }
                            }
                        }
                    } else {
                        proof {
                            self_pair_unchanged(project, k as int, pairs0);
                        }
                    }
                },
                _ => {
                    proof {
                        missing_pair_unchanged(project, k as int, pairs0);
                    }
                },
            }
            k = k + 1;
        }
        let ghost nodes0 = nodes@;
        let ghost edges0 = edges@;
        let nodes = sort_ranked(nodes);
        let edges = sort_ranked(edges);
        proof {
            let vn = |p: PackageName| p@;
            let vp = |d: PackageDependency| pair_of(d);
            assert(names_of(nodes@) == nodes@.map_values(vn));
            assert(pairs_of(edges@) == edges@.map_values(vp));
            lemma_reorder_distinct(nodes@, nodes0, vn);
            lemma_reorder_distinct(edges@, edges0, vp);
            assert forall|x: Seq<char>| #[trigger] names_of(nodes@).contains(x) <==> names_of(nodes0).contains(x) by {
                lemma_reorder_image(nodes@, nodes0, vn, x);
            }
            assert forall|a: Seq<char>, b: Seq<char>| #[trigger] pairs_of(edges@).contains((a, b)) <==> pairs_of(edges0).contains((a, b)) by {
                lemma_reorder_image(edges@, edges0, vp, (a, b));
            }
            lemma_strict_names(nodes@);
            assert forall|i: int, j: int| 0 <= i < j < edges@.len() implies pair_lt(pair_of(edges@[i]), pair_of(edges@[j])) by {
                assert(!edges@[j].precedes(&edges@[i]));
                assert(vp(edges@[i]) != vp(edges@[j]));
                lemma_text_lt_total(edges@[i].from@, edges@[j].from@);
                lemma_text_lt_total(edges@[i].to@, edges@[j].to@);
            }
            assert forall|x: Seq<char>| #[trigger] names_of(nodes0).contains(x) <==> (package_known(*project, x)
                || exists|y: Seq<char>| crosses(*project, x, y) || crosses(*project, y, x)) by {
                if exists|e: int| 0 <= e < edges0.len() && (edges0[e].from@ == x || edges0[e].to@ == x) {
                    let e = choose|e: int| 0 <= e < edges0.len() && (edges0[e].from@ == x || edges0[e].to@ == x);
                    assert(pairs_of(edges0)[e] == pair_of(edges0[e]));
                    assert(pairs_of(edges0).contains((edges0[e].from@, edges0[e].to@)));
                    assert(crosses(*project, edges0[e].from@, edges0[e].to@));
                }
                if exists|y: Seq<char>| crosses(*project, x, y) || crosses(*project, y, x) {
                    let y = choose|y: Seq<char>| crosses(*project, x, y) || crosses(*project, y, x);
                    if crosses(*project, x, y) {
                        assert(pairs_of(edges0).contains((x, y)));
                        let e = choose|e: int| 0 <= e < pairs_of(edges0).len() && pairs_of(edges0)[e] == (x, y);
                        assert(edges0[e].from@ == x);
                    } else {
                        assert(pairs_of(edges0).contains((y, x)));
                        let e = choose|e: int| 0 <= e < pairs_of(edges0).len() && pairs_of(edges0)[e] == (y, x);
                        assert(edges0[e].to@ == x);
                    }
                }
            }
        }
        PackageGraph { nodes, edges }
    }

    /// The package names, ordered as built.
    pub fn nodes(&self) -> (r: &[PackageName])
        ensures
            names_of(r@) == self.names(),
    {
        self.nodes.as_slice()
    }

    /// The edges, ordered as built.
    pub fn edges(&self) -> (r: &[PackageDependency])
        ensures
            pairs_of(r@) == self.pairs(),
    {
        self.edges.as_slice()
    }

    /// There is an edge from `from` to `to`.
    pub fn has_edge(&self, from: &PackageName, to: &PackageName) -> (r: bool)
        ensures
            r == self.pairs().contains((from@, to@)),
    {
        let mut e: usize = 0;
        while e < self.edges.len()
            invariant
                e <= self.edges@.len(),
                forall|m: int| 0 <= m < e ==> pair_of(self.edges@[m]) != (from@, to@),
            decreases self.edges@.len() - e,
        {
            if text_equal(self.edges[e].from.0.as_str(), from.0.as_str()) && text_equal(self.edges[e].to.0.as_str(), to.0.as_str()) {
                proof {
                    assert(self.pairs()[e as int] == (from@, to@));
                }
                return true;
            }
            e = e + 1;
        }
        proof {
            if self.pairs().contains((from@, to@)) {
                let m = choose|m: int| 0 <= m < self.pairs().len() && self.pairs()[m] == (from@, to@);
                assert(pair_of(self.edges@[m]) == (from@, to@));
            }
        }
        false
    }

    /// The packages that `package` depends on, ordered by name.
    pub fn outgoing(&self, package: &PackageName) -> (r: Vec<PackageName>)
        ensures
            forall|x: Seq<char>| #[trigger] names_of(r@).contains(x) <==> self.pairs().contains((package@, x)),
            forall|i: int, j: int| 0 <= i < j < r@.len() ==> text_lt(r@[i]@, r@[j]@),
    {
        proof {
            use_type_invariant(self);
        }
        let mut found: Vec<PackageName> = Vec::new();
        let ghost mut src: Seq<int> = Seq::empty();
        let mut e: usize = 0;
        while e < self.edges.len()
            invariant
                e <= self.edges@.len(),
                distinct_pairs(self.edges@),
                forall|l: int| 0 <= l < e && self.edges@[l].from@ == package@ ==> names_of(found@).contains(#[trigger] self.edges@[l].to@),
                distinct_names(found@),
                src.len() == found@.len(),
                forall|m: int| 0 <= m < found@.len() ==> 0 <= #[trigger] src[m] < e && self.edges@[src[m]].from@ == package@ && found@[m]@ == self.edges@[src[m]].to@,
            decreases self.edges@.len() - e,
        {
            let edge = &self.edges[e];
            if text_equal(edge.from.0.as_str(), package.0.as_str()) {
                let ghost f0 = found@;
                proof {
                    assert forall|m: int| 0 <= m < f0.len() implies f0[m]@ != edge.to@ by {
                        let l = src[m];
                        assert(pair_of(self.edges@[l]) != pair_of(self.edges@[e as int]));
                    }
                }
                found.push(edge.to.duplicate());
                proof {
                    assert(found@[f0.len() as int]@ == edge.to@);
                    assert forall|l: int| 0 <= l < e + 1 && self.edges@[l].from@ == package@ implies names_of(found@).contains(#[trigger] self.edges@[l].to@) by {
                        if l < e {
                            let m = choose|m: int| 0 <= m < names_of(f0).len() && names_of(f0)[m] == self.edges@[l].to@;
                            assert(names_of(found@)[m] == self.edges@[l].to@);
                        } else {
                            assert(names_of(found@)[f0.len() as int] == self.edges@[l].to@);
                        }
                    }
                    src = src.push(e as int);
                    assert forall|m: int| 0 <= m < found@.len() implies 0 <= #[trigger] src[m] < e + 1 && self.edges@[src[m]].from@ == package@ && found@[m]@ == self.edges@[src[m]].to@ by {
                        if m < f0.len() {
                            assert(found@[m] == f0[m]);
                        }
                    }
                }
            }
            e = e + 1;
        }
        let ghost f0 = found@;
        let sorted = sort_ranked(found);
        proof {
            let vn = |p: PackageName| p@;
            assert(names_of(sorted@) == sorted@.map_values(vn));
            assert(names_of(f0) == f0.map_values(vn));
            lemma_reorder_distinct(sorted@, f0, vn);
            lemma_strict_names(sorted@);
            assert forall|x: Seq<char>| #[trigger] names_of(sorted@).contains(x) <==> self.pairs().contains((package@, x)) by {
                lemma_reorder_image(sorted@, f0, vn, x);
                if names_of(f0).contains(x) {
                    let m = choose|m: int| 0 <= m < names_of(f0).len() && names_of(f0)[m] == x;
                    assert(f0[m]@ == x);
                    let l = src[m];
                    assert(self.pairs()[l] == (package@, x));
                }
                if self.pairs().contains((package@, x)) {
                    let l = choose|l: int| 0 <= l < self.pairs().len() && self.pairs()[l] == (package@, x);
                    assert(pair_of(self.edges@[l]) == (package@, x));
                    assert(names_of(f0).contains(self.edges@[l].to@));
                }
            }
        }
        sorted
    }

    /// The packages that depend on `package`, ordered by name.
    pub fn incoming(&self, package: &PackageName) -> (r: Vec<PackageName>)
        ensures
            forall|x: Seq<char>| #[trigger] names_of(r@).contains(x) <==> self.pairs().contains((x, package@)),
            forall|i: int, j: int| 0 <= i < j < r@.len() ==> text_lt(r@[i]@, r@[j]@),
    {
        proof {
            use_type_invariant(self);
        }
        let mut found: Vec<PackageName> = Vec::new();
        let ghost mut src: Seq<int> = Seq::empty();
        let mut e: usize = 0;
        while e < self.edges.len()
            invariant
                e <= self.edges@.len(),
                distinct_pairs(self.edges@),
                forall|l: int| 0 <= l < e && self.edges@[l].to@ == package@ ==> names_of(found@).contains(#[trigger] self.edges@[l].from@),
                distinct_names(found@),
                src.len() == found@.len(),
                forall|m: int| 0 <= m < found@.len() ==> 0 <= #[trigger] src[m] < e && self.edges@[src[m]].to@ == package@ && found@[m]@ == self.edges@[src[m]].from@,
            decreases self.edges@.len() - e,
        {
            let edge = &self.edges[e];
            if text_equal(edge.to.0.as_str(), package.0.as_str()) {
                let ghost f0 = found@;
                proof {
                    assert forall|m: int| 0 <= m < f0.len() implies f0[m]@ != edge.from@ by {
                        let l = src[m];
                        assert(pair_of(self.edges@[l]) != pair_of(self.edges@[e as int]));
                    }
                }
                found.push(edge.from.duplicate());
                proof {
                    assert(found@[f0.len() as int]@ == edge.from@);
                    assert forall|l: int| 0 <= l < e + 1 && self.edges@[l].to@ == package@ implies names_of(found@).contains(#[trigger] self.edges@[l].from@) by {
                        if l < e {
                            let m = choose|m: int| 0 <= m < names_of(f0).len() && names_of(f0)[m] == self.edges@[l].from@;
                            assert(names_of(found@)[m] == self.edges@[l].from@);
                        } else {
                            assert(names_of(found@)[f0.len() as int] == self.edges@[l].from@);
                        }
                    }
                    src = src.push(e as int);
                    assert forall|m: int| 0 <= m < found@.len() implies 0 <= #[trigger] src[m] < e + 1 && self.edges@[src[m]].to@ == package@ && found@[m]@ == self.edges@[src[m]].from@ by {
                        if m < f0.len() {
                            assert(found@[m] == f0[m]);
                        }
                    }
                }
            }
            e = e + 1;
        }
        let ghost f0 = found@;
        let sorted = sort_ranked(found);
        proof {
            let vn = |p: PackageName| p@;
            assert(names_of(sorted@) == sorted@.map_values(vn));
            assert(names_of(f0) == f0.map_values(vn));
            lemma_reorder_distinct(sorted@, f0, vn);
            lemma_strict_names(sorted@);
            assert forall|x: Seq<char>| #[trigger] names_of(sorted@).contains(x) <==> self.pairs().contains((x, package@)) by {
                lemma_reorder_image(sorted@, f0, vn, x);
                if names_of(f0).contains(x) {
                    let m = choose|m: int| 0 <= m < names_of(f0).len() && names_of(f0)[m] == x;
                    assert(f0[m]@ == x);
                    let l = src[m];
                    assert(self.pairs()[l] == (x, package@));
                }
                if self.pairs().contains((x, package@)) {
                    let l = choose|l: int| 0 <= l < self.pairs().len() && self.pairs()[l] == (x, package@);
                    assert(pair_of(self.edges@[l]) == (x, package@));
                    assert(names_of(f0).contains(self.edges@[l].from@));
                }
            }
        }
        sorted
    }
}

/// The edges with `a` appended unless it is already there.
pub open spec fn with_pair(pairs: Seq<(Seq<char>, Seq<char>)>, a: (Seq<char>, Seq<char>)) -> Seq<(Seq<char>, Seq<char>)> {
    if pairs.contains(a) {
        pairs
    } else {
        pairs.push(a)
    }
}

proof fn lemma_with_pair_contains(pairs: Seq<(Seq<char>, Seq<char>)>, a: (Seq<char>, Seq<char>), b: (Seq<char>, Seq<char>))
    ensures
        with_pair(pairs, a).contains(b) <==> (pairs.contains(b) || b == a),
{
    if !pairs.contains(a) {
        assert(pairs.push(a)[pairs.len() as int] == a);
        if pairs.contains(b) {
            let i = choose|i: int| 0 <= i < pairs.len() && pairs[i] == b;
            assert(pairs.push(a)[i] == b);
        }
        if pairs.push(a).contains(b) {
            let i = choose|i: int| 0 <= i < pairs.len() + 1 && pairs.push(a)[i] == b;
            if i < pairs.len() {
                assert(pairs[i] == b);
            }
        }
    }
}

/// A dependency within one package adds no edge.
proof fn self_pair_unchanged(project: &Project, k: int, pairs0: Seq<(Seq<char>, Seq<char>)>)
    requires
        0 <= k < project.dependencies@.len(),
        package_of(*project, project.dependencies@[k].from@) is Some,
        package_of(*project, project.dependencies@[k].from@) == package_of(*project, project.dependencies@[k].to@),
        forall|a: Seq<char>, b: Seq<char>| #[trigger] pairs0.contains((a, b)) <==> {
            &&& a != b
            &&& exists|l: int| 0 <= l < k && package_of(*project, #[trigger] project.dependencies@[l].from@) == Some(a)
                && package_of(*project, project.dependencies@[l].to@) == Some(b)
        },
    ensures
        forall|a: Seq<char>, b: Seq<char>| #[trigger] pairs0.contains((a, b)) <==> {
            &&& a != b
            &&& exists|l: int| 0 <= l < k + 1 && package_of(*project, #[trigger] project.dependencies@[l].from@) == Some(a)
                && package_of(*project, project.dependencies@[l].to@) == Some(b)
        },
{
    assert forall|a: Seq<char>, b: Seq<char>| #[trigger] pairs0.contains((a, b)) <==> {
        &&& a != b
        &&& exists|l: int| 0 <= l < k + 1 && package_of(*project, #[trigger] project.dependencies@[l].from@) == Some(a)
            && package_of(*project, project.dependencies@[l].to@) == Some(b)
    } by {
        if a != b && exists|l: int| 0 <= l < k + 1 && package_of(*project, #[trigger] project.dependencies@[l].from@) == Some(a)
            && package_of(*project, project.dependencies@[l].to@) == Some(b) {
            let l = choose|l: int| 0 <= l < k + 1 && package_of(*project, #[trigger] project.dependencies@[l].from@) == Some(a)
                && package_of(*project, project.dependencies@[l].to@) == Some(b);
            assert(l != k);
        }
    }
}

/// A dependency with an end that has no module record adds no edge.
proof fn missing_pair_unchanged(project: &Project, k: int, pairs0: Seq<(Seq<char>, Seq<char>)>)
    requires
        0 <= k < project.dependencies@.len(),
        package_of(*project, project.dependencies@[k].from@) is None || package_of(*project, project.dependencies@[k].to@) is None,
        forall|a: Seq<char>, b: Seq<char>| #[trigger] pairs0.contains((a, b)) <==> {
            &&& a != b
            &&& exists|l: int| 0 <= l < k && package_of(*project, #[trigger] project.dependencies@[l].from@) == Some(a)
                && package_of(*project, project.dependencies@[l].to@) == Some(b)
        },
    ensures
        forall|a: Seq<char>, b: Seq<char>| #[trigger] pairs0.contains((a, b)) <==> {
            &&& a != b
            &&& exists|l: int| 0 <= l < k + 1 && package_of(*project, #[trigger] project.dependencies@[l].from@) == Some(a)
                && package_of(*project, project.dependencies@[l].to@) == Some(b)
        },
{
    assert forall|a: Seq<char>, b: Seq<char>| #[trigger] pairs0.contains((a, b)) <==> {
        &&& a != b
        &&& exists|l: int| 0 <= l < k + 1 && package_of(*project, #[trigger] project.dependencies@[l].from@) == Some(a)
            && package_of(*project, project.dependencies@[l].to@) == Some(b)
    } by {
        if a != b && exists|l: int| 0 <= l < k + 1 && package_of(*project, #[trigger] project.dependencies@[l].from@) == Some(a)
            && package_of(*project, project.dependencies@[l].to@) == Some(b) {
            let l = choose|l: int| 0 <= l < k + 1 && package_of(*project, #[trigger] project.dependencies@[l].from@) == Some(a)
                && package_of(*project, project.dependencies@[l].to@) == Some(b);
            assert(l != k);
        }
    }
}


/// The names of each walk of packages.
pub open spec fn package_walks(r: Seq<Vec<PackageName>>) -> Seq<Seq<Seq<char>>> {
    r.map_values(|c: Vec<PackageName>| names_of(c@))
}

/// Some pair has `x` as an end.
pub open spec fn touches(pairs: Seq<(Seq<char>, Seq<char>)>, x: Seq<char>) -> bool {
    exists|l: int| 0 <= l < pairs.len() && (pairs[l].0 == x || pairs[l].1 == x)
}

proof fn lemma_touches_push(pairs: Seq<(Seq<char>, Seq<char>)>, p: (Seq<char>, Seq<char>), x: Seq<char>)
    ensures
        touches(pairs.push(p), x) <==> (touches(pairs, x) || p.0 == x || p.1 == x),
{
    if touches(pairs, x) {
        let l = choose|l: int| 0 <= l < pairs.len() && (pairs[l].0 == x || pairs[l].1 == x);
        assert(pairs.push(p)[l] == pairs[l]);
    }
    if p.0 == x || p.1 == x {
        assert(pairs.push(p)[pairs.len() as int] == p);
    }
    if touches(pairs.push(p), x) {
        let l = choose|l: int| 0 <= l < pairs.len() + 1 && (pairs.push(p)[l].0 == x || pairs.push(p)[l].1 == x);
        if l < pairs.len() {
            assert(pairs.push(p)[l] == pairs[l]);
        }
    }
}

proof fn lemma_push_has<A>(s: Seq<A>, v: A, x: A)
    ensures
        s.push(v).contains(x) <==> (s.contains(x) || x == v),
{
    if s.contains(x) {
        let i = choose|i: int| 0 <= i < s.len() && s[i] == x;
        assert(s.push(v)[i] == x);
    }
    if x == v {
        assert(s.push(v)[s.len() as int] == x);
    }
    if s.push(v).contains(x) {
        let i = choose|i: int| 0 <= i < s.len() + 1 && s.push(v)[i] == x;
        if i < s.len() {
            assert(s[i] == x);
        }
    }
}

impl PackageGraph {
    /// `w` follows package edges from its first package to its last.
    pub open spec fn follows(&self, w: Seq<Seq<char>>) -> bool {
        &&& w.len() >= 1
        &&& forall|i: int| 0 <= i < w.len() - 1 ==> self.pairs().contains((#[trigger] w[i], w[i + 1]))
    }

    /// Package `b` can be reached from `a` over at least one edge.
    pub open spec fn package_reaches(&self, a: Seq<char>, b: Seq<char>) -> bool {
        exists|w: Seq<Seq<char>>| #[trigger] self.follows(w) && w.len() >= 2 && w[0] == a && w.last() == b
    }

    /// A walk of a graph whose edges are package edges follows package edges.
    proof fn lemma_walk_follows(&self, graph: ModuleGraph, q: Seq<Seq<char>>)
        requires
            forall|x: Seq<char>, y: Seq<char>| #[trigger] graph.linked(x, y) ==> self.pairs().contains((x, y)),
            graph.is_walk(q),
        ensures
            self.follows(q),
    {
        assert forall|i: int| 0 <= i < q.len() - 1 implies self.pairs().contains((#[trigger] q[i], q[i + 1])) by {
            assert(graph.linked(q[i], q[i + 1]));
        }
    }

    /// Following package edges of a graph that has each of them gives a walk of the graph.
    proof fn lemma_follows_walk(&self, graph: ModuleGraph, w: Seq<Seq<char>>)
        requires
            graph.well_formed(),
            forall|x: Seq<char>, y: Seq<char>| #[trigger] self.pairs().contains((x, y)) ==> graph.linked(x, y),
            self.follows(w),
            w.len() >= 2,
        ensures
            graph.is_walk(w),
    {
        assert forall|i: int| 0 <= i < w.len() - 1 implies graph.linked(#[trigger] w[i], w[i + 1]) by {
            assert(self.pairs().contains((w[i], w[i + 1])));
        }
        assert forall|i: int| 0 <= i < w.len() implies graph.has_id(#[trigger] w[i]) by {
            if i < w.len() - 1 {
                assert(graph.linked(w[i], w[i + 1]));
                graph.lemma_linked_has_ids(w[i], w[i + 1]);
            } else {
                assert(graph.linked(w[i - 1], w[i]));
                graph.lemma_linked_has_ids(w[i - 1], w[i]);
            }
        }
    }

    /// A graph with the same edges reaches what the package graph reaches.
    proof fn lemma_reaches_agree(&self, graph: ModuleGraph, a: Seq<char>, b: Seq<char>)
        requires
            graph.well_formed(),
            forall|x: Seq<char>, y: Seq<char>| #[trigger] graph.linked(x, y) ==> self.pairs().contains((x, y)),
            forall|x: Seq<char>, y: Seq<char>| #[trigger] self.pairs().contains((x, y)) ==> graph.linked(x, y),
        ensures
            graph.reaches(a, b) <==> self.package_reaches(a, b),
    {
        if graph.reaches(a, b) {
            let q = choose|q: Seq<Seq<char>>| #[trigger] graph.is_walk(q) && q.len() >= 2 && q[0] == a && q.last() == b;
            self.lemma_walk_follows(graph, q);
        }
        if self.package_reaches(a, b) {
            let w = choose|w: Seq<Seq<char>>| #[trigger] self.follows(w) && w.len() >= 2 && w[0] == a && w.last() == b;
            self.lemma_follows_walk(graph, w);
        }
    }

    /// The names of the graph's cycles, taken over to packages, keep what the graph's cycles
    /// promise.
    proof fn lemma_cycles_lift(&self, graph: ModuleGraph, found: Seq<Vec<ModuleId>>, out: Seq<Vec<PackageName>>)
        requires
            graph.well_formed(),
            forall|x: Seq<char>, y: Seq<char>| #[trigger] graph.linked(x, y) ==> self.pairs().contains((x, y)),
            forall|x: Seq<char>, y: Seq<char>| #[trigger] self.pairs().contains((x, y)) ==> graph.linked(x, y),
            graph.cycle_cover(found),
            out.len() == found.len(),
            forall|d: int, i: int| 0 <= d < out.len() ==> out[d]@.len() == found[d]@.len()
                && (0 <= i < out[d]@.len() ==> #[trigger] out[d]@[i]@ == found[d]@[i]@),
        ensures
            forall|c: int, i: int| 0 <= c < out.len() && 0 <= i < out[c]@.len() ==>
                #[trigger] out[c]@[i]@ == out[c]@[0]@ || (self.package_reaches(out[c]@[i]@, out[c]@[0]@)
                    && self.package_reaches(out[c]@[0]@, out[c]@[i]@)),
            forall|c: int, d: int| 0 <= c < d < out.len() ==> !(#[trigger] out[c]@[0]@ == #[trigger] out[d]@[0]@
                || (self.package_reaches(out[c]@[0]@, out[d]@[0]@) && self.package_reaches(out[d]@[0]@, out[c]@[0]@))),
            forall|w: Seq<Seq<char>>| #[trigger] self.follows(w) && w.len() >= 2 && w[0] == w.last() ==> exists|c: int|
                0 <= c < out.len() && (#[trigger] out[c]@[0]@ == w[0] || (self.package_reaches(out[c]@[0]@, w[0])
                    && self.package_reaches(w[0], out[c]@[0]@))),
    {
        assert forall|d: int, i: int| 0 <= d < out.len() && 0 <= i < out[d]@.len() implies
            #[trigger] out[d]@[i]@ == out[d]@[0]@ || (self.package_reaches(out[d]@[i]@, out[d]@[0]@)
                && self.package_reaches(out[d]@[0]@, out[d]@[i]@)) by {
            assert(out[d]@[i]@ == found[d]@[i]@);
            assert(out[d]@[0]@ == found[d]@[0]@);
            assert(found[d]@[i]@ == found[d]@[0]@ || (graph.reaches(found[d]@[i]@, found[d]@[0]@)
                && graph.reaches(found[d]@[0]@, found[d]@[i]@)));
            self.lemma_reaches_agree(graph, found[d]@[i]@, found[d]@[0]@);
            self.lemma_reaches_agree(graph, found[d]@[0]@, found[d]@[i]@);
        }
        assert forall|c1: int, d1: int| 0 <= c1 < d1 < out.len() implies !(#[trigger] out[c1]@[0]@ == #[trigger] out[d1]@[0]@
            || (self.package_reaches(out[c1]@[0]@, out[d1]@[0]@) && self.package_reaches(out[d1]@[0]@, out[c1]@[0]@))) by {
            assert(found[c1]@.len() >= 2 && found[d1]@.len() >= 2);
            assert(out[c1]@[0]@ == found[c1]@[0]@);
            assert(out[d1]@[0]@ == found[d1]@[0]@);
            assert(!(found[c1]@[0]@ == found[d1]@[0]@ || (graph.reaches(found[c1]@[0]@, found[d1]@[0]@)
                && graph.reaches(found[d1]@[0]@, found[c1]@[0]@))));
            self.lemma_reaches_agree(graph, found[c1]@[0]@, found[d1]@[0]@);
            self.lemma_reaches_agree(graph, found[d1]@[0]@, found[c1]@[0]@);
        }
        assert forall|w: Seq<Seq<char>>| #[trigger] self.follows(w) && w.len() >= 2 && w[0] == w.last() implies exists|c: int|
            0 <= c < out.len() && (#[trigger] out[c]@[0]@ == w[0] || (self.package_reaches(out[c]@[0]@, w[0])
                && self.package_reaches(w[0], out[c]@[0]@))) by {
            self.lemma_follows_walk(graph, w);
            let d = choose|d: int| 0 <= d < found.len() && (#[trigger] found[d]@[0]@ == w[0] || (graph.reaches(found[d]@[0]@, w[0])
                && graph.reaches(w[0], found[d]@[0]@)));
            assert(found[d]@.len() >= 2);
            assert(out[d]@[0]@ == found[d]@[0]@);
            self.lemma_reaches_agree(graph, found[d]@[0]@, w[0]);
            self.lemma_reaches_agree(graph, w[0], found[d]@[0]@);
        }
    }

    /// `g` is the package graph as a module graph: a node for each package and each end of an
    /// edge, ordered by name, and a static edge for each package edge, ordered by its ends.
    pub open spec fn as_module_graph(&self, g: ModuleGraph) -> bool {
        &&& forall|x: Seq<char>| #[trigger] g.has_id(x) <==> (self.names().contains(x) || touches(self.pairs(), x))
        &&& forall|i: int, j: int| 0 <= i < j < g.ids().len() ==> text_lt(g.ids()[i], g.ids()[j])
        &&& forall|a: ArcView| #[trigger] g.arcs().contains(a) <==> (a.2 == DependencyKind::Static && self.pairs().contains((a.0, a.1)))
        &&& forall|i: int, j: int| 0 <= i < j < g.arcs().len() ==> arc_lt(g.arcs()[i], g.arcs()[j])
    }

    /// The package graph as a module graph (see `as_module_graph`).
    #[verifier::spinoff_prover]
    fn as_graph(&self) -> (graph: ModuleGraph)
        ensures
            self.as_module_graph(graph),
            graph.well_formed(),
            forall|x: Seq<char>, y: Seq<char>| #[trigger] graph.linked(x, y) ==> self.pairs().contains((x, y)),
            forall|x: Seq<char>, y: Seq<char>| #[trigger] self.pairs().contains((x, y)) ==> graph.linked(x, y),
    {
        let mut builder = ModuleGraphBuilder::new();
        let mut i: usize = 0;
        while i < self.nodes.len()
            invariant
                i <= self.nodes@.len(),
                builder.arcs().len() == 0,
                forall|x: Seq<char>| #[trigger] builder.ids().contains(x) <==> self.names().take(i as int).contains(x),
            decreases self.nodes@.len() - i,
        {
            let ghost ids0 = builder.ids();
            builder = builder.add_node(ModuleId(self.nodes[i].0.clone()));
            proof {
                assert(self.names().take(i + 1) =~= self.names().take(i as int).push(self.nodes@[i as int]@));
                assert forall|x: Seq<char>| #[trigger] builder.ids().contains(x) <==> self.names().take(i + 1).contains(x) by {
                    lemma_with_id_contains(ids0, self.nodes@[i as int]@, x);
                    lemma_push_has(self.names().take(i as int), self.nodes@[i as int]@, x);
                }
            }
            i = i + 1;
        }
        proof {
            assert(self.names().take(i as int) =~= self.names());
        }
        let mut k: usize = 0;
        while k < self.edges.len()
            invariant
                k <= self.edges@.len(),
                forall|a: ArcView| #[trigger] builder.arcs().contains(a) ==> a.2 == DependencyKind::Static
                    && self.pairs().contains((a.0, a.1)),
                forall|l: int| 0 <= l < k ==> builder.arcs().contains((#[trigger] self.pairs()[l].0, self.pairs()[l].1, DependencyKind::Static)),
                forall|a: ArcView| #[trigger] builder.arcs().contains(a) ==> self.pairs().take(k as int).contains((a.0, a.1)),
                forall|x: Seq<char>| #[trigger] builder.ids().contains(x) <==> (self.names().contains(x) || touches(self.pairs().take(k as int), x)),
            decreases self.edges@.len() - k,
        {
            let edge = &self.edges[k];
            let dependency = Dependency {
                from: ModuleId(edge.from.0.clone()),
                to: ModuleId(edge.to.0.clone()),
                kind: DependencyKind::Static,
                location: SourceLocation::unknown(),
            };
            let ghost arcs0 = builder.arcs();
            let ghost ids0 = builder.ids();
            proof {
                assert(self.pairs()[k as int] == (edge.from@, edge.to@));
            }
            builder = builder.add_edge(dependency);
            proof {
                assert forall|a: ArcView| #[trigger] builder.arcs().contains(a) implies a.2 == DependencyKind::Static
                    && self.pairs().contains((a.0, a.1)) by {
                    lemma_with_arc_contains(arcs0, arc_of(dependency), a);
                }
                assert forall|l: int| 0 <= l < k + 1 implies builder.arcs().contains((#[trigger] self.pairs()[l].0, self.pairs()[l].1, DependencyKind::Static)) by {
                    lemma_with_arc_contains(arcs0, arc_of(dependency), (self.pairs()[l].0, self.pairs()[l].1, DependencyKind::Static));
                }
                let pk = self.pairs().take(k as int);
                let pk1 = self.pairs().take(k + 1);
                assert(pk1 =~= pk.push(self.pairs()[k as int]));
                assert forall|a: ArcView| #[trigger] builder.arcs().contains(a) implies pk1.contains((a.0, a.1)) by {
                    lemma_with_arc_contains(arcs0, arc_of(dependency), a);
                    lemma_push_has(pk, self.pairs()[k as int], (a.0, a.1));
                }
                assert forall|x: Seq<char>| #[trigger] builder.ids().contains(x) <==> (self.names().contains(x) || touches(pk1, x)) by {
                    lemma_touches_push(pk, self.pairs()[k as int], x);
                    if arcs0.contains(arc_of(dependency)) {
                        assert(pk.contains((edge.from@, edge.to@)));
                        let l = choose|l: int| 0 <= l < pk.len() && pk[l] == (edge.from@, edge.to@);
                        if x == edge.from@ || x == edge.to@ {
                            assert(touches(pk, x));
                        }
                    } else {
                        lemma_with_id_contains(ids0, edge.from@, x);
                        lemma_with_id_contains(with_id(ids0, edge.from@), edge.to@, x);
                    }
                }
            }
            k = k + 1;
        }
        let ghost barcs = builder.arcs();
        let ghost bids = builder.ids();
        let graph = builder.build();
        proof {
            use_type_invariant(&graph);
            assert(self.pairs().take(k as int) =~= self.pairs());
            assert forall|a: ArcView| #[trigger] graph.arcs().contains(a) <==> (a.2 == DependencyKind::Static
                && self.pairs().contains((a.0, a.1))) by {
                if a.2 == DependencyKind::Static && self.pairs().contains((a.0, a.1)) {
                    let l = choose|l: int| 0 <= l < self.pairs().len() && self.pairs()[l] == (a.0, a.1);
                    assert(barcs.contains((self.pairs()[l].0, self.pairs()[l].1, DependencyKind::Static)));
                }
            }
            assert forall|x: Seq<char>| #[trigger] graph.has_id(x) <==> (self.names().contains(x) || touches(self.pairs(), x)) by {
                assert(bids.contains(x) <==> graph.ids().contains(x));
            }
            assert(self.as_module_graph(graph));
            assert forall|x: Seq<char>, y: Seq<char>| #[trigger] graph.linked(x, y) implies self.pairs().contains((x, y)) by {
                if graph.linked(x, y) {
                    let t = choose|t: int| 0 <= t < graph.arcs().len() && graph.arcs()[t].0 == x && graph.arcs()[t].1 == y;
                    assert(graph.arcs().contains(graph.arcs()[t]));
                    assert(barcs.contains(graph.arcs()[t]));
                }
            }
            assert forall|x: Seq<char>, y: Seq<char>| #[trigger] self.pairs().contains((x, y)) implies graph.linked(x, y) by {
                if self.pairs().contains((x, y)) {
                    let l = choose|l: int| 0 <= l < self.pairs().len() && self.pairs()[l] == (x, y);
                    assert(barcs.contains((self.pairs()[l].0, self.pairs()[l].1, DependencyKind::Static)));
                    assert(graph.arcs().contains((x, y, DependencyKind::Static)));
                    let t = choose|t: int| 0 <= t < graph.arcs().len() && graph.arcs()[t] == (x, y, DependencyKind::Static);
                    assert(graph.arcs()[t].0 == x && graph.arcs()[t].1 == y);
                }
            }
        }
        graph
    }

    /// Naming the module walks of the package graph's module graph by package keeps what they
    /// represent and that they repeat no node.
    proof fn lemma_names_walks(&self, graph: ModuleGraph, found: Seq<Vec<ModuleId>>, out: Seq<Vec<PackageName>>)
        requires
            exists|parts: Seq<Seq<Seq<char>>>| graph.components_are(parts) && #[trigger] graph.represents(parts, walk_ids(found)),
            forall|c: int, i: int, j: int| 0 <= c < found.len() && 0 <= i < j < found[c]@.len() - 1 ==> #[trigger] found[c]@[i]@
                != #[trigger] found[c]@[j]@,
            out.len() == found.len(),
            forall|d: int, i: int| 0 <= d < out.len() ==> out[d]@.len() == found[d]@.len()
                && (0 <= i < out[d]@.len() ==> #[trigger] out[d]@[i]@ == found[d]@[i]@),
        ensures
            exists|parts: Seq<Seq<Seq<char>>>| graph.components_are(parts) && #[trigger] graph.represents(parts, package_walks(out)),
            forall|c: int, i: int, j: int| 0 <= c < out.len() && 0 <= i < j < out[c]@.len() - 1 ==> #[trigger] out[c]@[i]@
                != #[trigger] out[c]@[j]@,
    {
        let parts = choose|parts: Seq<Seq<Seq<char>>>| graph.components_are(parts) && #[trigger] graph.represents(parts, walk_ids(found));
        assert forall|d: int| 0 <= d < out.len() implies #[trigger] package_walks(out)[d] == walk_ids(found)[d] by {
            assert(out[d]@[0]@ == out[d]@[0]@);
            assert(out[d]@.len() == found[d]@.len());
            assert forall|i: int| 0 <= i < out[d]@.len() implies names_of(out[d]@)[i] == ids_of(found[d]@)[i] by {
                assert(out[d]@[i]@ == found[d]@[i]@);
            }
            assert(names_of(out[d]@) =~= ids_of(found[d]@));
        }
        assert(package_walks(out) =~= walk_ids(found));
        assert(graph.represents(parts, package_walks(out)));
        assert forall|c: int, i: int, j: int| 0 <= c < out.len() && 0 <= i < j < out[c]@.len() - 1 implies #[trigger] out[c]@[i]@
            != #[trigger] out[c]@[j]@ by {
            assert(out[c]@[i]@ == found[c]@[i]@);
            assert(out[c]@.len() == found[c]@.len());
            assert(out[c]@[j]@ == found[c]@[j]@);
            assert(found[c]@[i]@ != found[c]@[j]@);
        }
    }

    /// One closed walk for each component of the package graph that holds a cycle: every
    /// package of a returned walk shares the component of its first package, no two walks lie
    /// in the same component, and every closed walk over package edges lies in the component of
    /// one of them.
    #[verifier::spinoff_prover]
    pub fn cycles(&self) -> (r: Vec<Vec<PackageName>>)
        ensures
            exists|g: ModuleGraph, parts: Seq<Seq<Seq<char>>>| {
                &&& self.as_module_graph(g)
                &&& g.components_are(parts)
                &&& #[trigger] g.represents(parts, package_walks(r@))
            },
            forall|c: int, i: int, j: int| 0 <= c < r@.len() && 0 <= i < j < r@[c]@.len() - 1 ==> #[trigger] r@[c]@[i]@
                != #[trigger] r@[c]@[j]@,
            forall|c: int, i: int| 0 <= c < r@.len() && 0 <= i < r@[c]@.len() ==>
                #[trigger] r@[c]@[i]@ == r@[c]@[0]@ || (self.package_reaches(r@[c]@[i]@, r@[c]@[0]@)
                    && self.package_reaches(r@[c]@[0]@, r@[c]@[i]@)),
            forall|c: int, d: int| 0 <= c < d < r@.len() ==> !(#[trigger] r@[c]@[0]@ == #[trigger] r@[d]@[0]@
                || (self.package_reaches(r@[c]@[0]@, r@[d]@[0]@) && self.package_reaches(r@[d]@[0]@, r@[c]@[0]@))),
            forall|w: Seq<Seq<char>>| #[trigger] self.follows(w) && w.len() >= 2 && w[0] == w.last() ==> exists|c: int|
                0 <= c < r@.len() && (#[trigger] r@[c]@[0]@ == w[0] || (self.package_reaches(r@[c]@[0]@, w[0])
                    && self.package_reaches(w[0], r@[c]@[0]@))),
            forall|c: int| 0 <= c < r@.len() ==> {
                &&& (#[trigger] r@[c])@.len() >= 2
                &&& r@[c]@[0]@ == r@[c]@.last()@
                &&& forall|i: int| 0 <= i < r@[c]@.len() - 1 ==> self.pairs().contains((#[trigger] r@[c]@[i]@, r@[c]@[i + 1]@))
            },
    {
        let graph = self.as_graph();
        let found = graph.cycles();
        let mut out: Vec<Vec<PackageName>> = Vec::new();
        let mut c: usize = 0;
        while c < found.len()
            invariant
                c <= found@.len(),
                forall|a: ArcView| #[trigger] graph.arcs().contains(a) ==> self.pairs().contains((a.0, a.1)),
                forall|d: int| 0 <= d < found@.len() ==> {
                    &&& (#[trigger] found@[d])@.len() >= 2
                    &&& graph.is_walk(ids_of(found@[d]@))
                    &&& found@[d]@[0]@ == found@[d]@.last()@
                },
                forall|d: int| 0 <= d < out@.len() ==> {
                    &&& (#[trigger] out@[d])@.len() >= 2
                    &&& out@[d]@[0]@ == out@[d]@.last()@
                    &&& forall|i: int| 0 <= i < out@[d]@.len() - 1 ==> self.pairs().contains((#[trigger] out@[d]@[i]@, out@[d]@[i + 1]@))
                },
                out@.len() == c,
                forall|d: int, i: int| 0 <= d < out@.len() ==> out@[d]@.len() == found@[d]@.len()
                    && (0 <= i < out@[d]@.len() ==> #[trigger] out@[d]@[i]@ == found@[d]@[i]@),
            decreases found@.len() - c,
        {
            let cycle = &found[c];
            let mut names: Vec<PackageName> = Vec::new();
            let mut j: usize = 0;
            while j < cycle.len()
                invariant
                    j <= cycle@.len(),
                    names@.len() == j,
                    forall|m: int| 0 <= m < j ==> #[trigger] names@[m]@ == cycle@[m]@,
                decreases cycle@.len() - j,
            {
                names.push(PackageName(cycle[j].0.clone()));
                j = j + 1;
            }
            proof {
                let q = ids_of(cycle@);
                assert(graph.is_walk(q));
                assert forall|m: int| 0 <= m < names@.len() - 1 implies self.pairs().contains((#[trigger] names@[m]@, names@[m + 1]@)) by {
                    assert(q[m] == cycle@[m]@ && q[m + 1] == cycle@[m + 1]@);
                    assert(graph.linked(q[m], q[m + 1]));
                    let x = choose|x: int| 0 <= x < graph.arcs().len() && graph.arcs()[x].0 == q[m] && graph.arcs()[x].1 == q[m + 1];
                    assert(graph.arcs().contains(graph.arcs()[x]));
                }
                assert(names@[names@.len() - 1]@ == cycle@[cycle@.len() - 1]@);
            }
            let ghost out0 = out@;
            out.push(names);
            proof {
                assert forall|d: int| 0 <= d < out@.len() implies {
                    &&& (#[trigger] out@[d])@.len() >= 2
                    &&& out@[d]@[0]@ == out@[d]@.last()@
                    &&& forall|i: int| 0 <= i < out@[d]@.len() - 1 ==> self.pairs().contains((#[trigger] out@[d]@[i]@, out@[d]@[i + 1]@))
                } by {
                    if d < out0.len() {
                        assert(out@[d] == out0[d]);
                    }
                }
                assert forall|d: int, i: int| 0 <= d < out@.len() implies out@[d]@.len() == found@[d]@.len()
                    && (0 <= i < out@[d]@.len() ==> #[trigger] out@[d]@[i]@ == found@[d]@[i]@) by {
                    if d < out0.len() {
                        assert(out@[d] == out0[d]);
                    }
                }
            }
            c = c + 1;
        }
        proof {
            self.lemma_cycles_lift(graph, found@, out@);
            self.lemma_names_walks(graph, found@, out@);
        }
        out
    }
}

impl GraphEngine {
    /// The package graph of a project (see `PackageGraph::from_project`).
    pub fn build_package_graph(project: &Project) -> (r: PackageGraph)
        ensures
            forall|x: Seq<char>| #[trigger] r.names().contains(x) <==> (package_known(*project, x)
                || exists|y: Seq<char>| crosses(*project, x, y) || crosses(*project, y, x)),
            forall|a: Seq<char>, b: Seq<char>| #[trigger] r.pairs().contains((a, b)) <==> crosses(*project, a, b),
            forall|i: int, j: int| 0 <= i < j < r.names().len() ==> text_lt(r.names()[i], r.names()[j]),
            forall|i: int, j: int| 0 <= i < j < r.pairs().len() ==> pair_lt(r.pairs()[i], r.pairs()[j]),
    {
        PackageGraph::from_project(project)
    }
}

} // verus!
