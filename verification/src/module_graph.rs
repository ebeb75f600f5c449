//! The module dependency graph: deduplicated edges over distinct module ids, with adjacency in
//! edge order, and the traversals over it (reachability, shortest paths, strongly connected
//! components and cycles).
use crate::domain::{Dependency, DependencyKind, ModuleId, Project, SourceLocation};
use crate::text_set::{texts_of, TextSet};
use crate::sort::{lemma_reorder_distinct, lemma_reorder_image, sort_ranked, Ranked};
use crate::text::{lemma_text_lt_irreflexive, lemma_text_lt_negatively_transitive,
    lemma_text_lt_total, lemma_text_lt_transitive, text_equal, text_less, text_lt};
use vstd::prelude::*;

verus! {

/// An edge as plain values: source id, target id and dependency kind.
pub type ArcView = (Seq<char>, Seq<char>, DependencyKind);

pub open spec fn arc_of(d: Dependency) -> ArcView {
    (d.from@, d.to@, d.kind)
}

/// A dependency as plain values, its location included.
pub type LocatedView = (Seq<char>, Seq<char>, DependencyKind, Seq<char>, usize, usize);

pub open spec fn located_of(d: Dependency) -> LocatedView {
    (d.from@, d.to@, d.kind, d.location.file@, d.location.line, d.location.column)
}

/// The targets of the arcs leaving `a`, in arc order.
pub open spec fn targets_in(arcs: Seq<ArcView>, a: Seq<char>) -> Seq<Seq<char>>
    decreases arcs.len(),
{
    if arcs.len() == 0 {
        Seq::empty()
    } else if arcs.last().0 == a {
        targets_in(arcs.drop_last(), a).push(arcs.last().1)
    } else {
        targets_in(arcs.drop_last(), a)
    }
}

/// The sources of the arcs entering `a`, in arc order.
pub open spec fn sources_in(arcs: Seq<ArcView>, a: Seq<char>) -> Seq<Seq<char>>
    decreases arcs.len(),
{
    if arcs.len() == 0 {
        Seq::empty()
    } else if arcs.last().1 == a {
        sources_in(arcs.drop_last(), a).push(arcs.last().0)
    } else {
        sources_in(arcs.drop_last(), a)
    }
}

/// Indices of the arc targets leaving node `i`, in arc order.
pub open spec fn succ(ends: Seq<(usize, usize)>, i: int) -> Seq<usize>
    decreases ends.len(),
{
    if ends.len() == 0 {
        Seq::empty()
    } else if ends.last().0 == i {
        succ(ends.drop_last(), i).push(ends.last().1)
    } else {
        succ(ends.drop_last(), i)
    }
}

/// Indices of the arc sources entering node `i`, in arc order.
pub open spec fn pred(ends: Seq<(usize, usize)>, i: int) -> Seq<usize>
    decreases ends.len(),
{
    if ends.len() == 0 {
        Seq::empty()
    } else if ends.last().1 == i {
        pred(ends.drop_last(), i).push(ends.last().0)
    } else {
        pred(ends.drop_last(), i)
    }
}

pub proof fn lemma_succ_contains(ends: Seq<(usize, usize)>, i: int, j: usize)
    ensures
        succ(ends, i).contains(j) <==> exists|k: int|
            0 <= k < ends.len() && ends[k].0 == i && ends[k].1 == j,
    decreases ends.len(),
{
    if ends.len() > 0 {
        let prefix = ends.drop_last();
        lemma_succ_contains(prefix, i, j);
        let last = ends.last();
        assert forall|k: int| 0 <= k < prefix.len() implies prefix[k] == ends[k] by {}
        if succ(ends, i).contains(j) {
            let m = choose|m: int| 0 <= m < succ(ends, i).len() && succ(ends, i)[m] == j;
            if last.0 == i && m == succ(prefix, i).len() {
                assert(ends[ends.len() - 1].0 == i && ends[ends.len() - 1].1 == j);
            } else {
                assert(succ(prefix, i)[m] == j);
                assert(succ(prefix, i).contains(j));
                let k = choose|k: int| 0 <= k < prefix.len() && prefix[k].0 == i && prefix[k].1 == j;
                assert(ends[k].0 == i && ends[k].1 == j);
            }
        }
        if exists|k: int| 0 <= k < ends.len() && ends[k].0 == i && ends[k].1 == j {
            let k = choose|k: int| 0 <= k < ends.len() && ends[k].0 == i && ends[k].1 == j;
            if k == ends.len() - 1 {
                assert(succ(ends, i)[succ(ends, i).len() - 1] == j);
            } else {
                assert(prefix[k].0 == i && prefix[k].1 == j);
                assert(succ(prefix, i).contains(j));
                let m = choose|m: int| 0 <= m < succ(prefix, i).len() && succ(prefix, i)[m] == j;
                assert(succ(ends, i)[m] == j);
            }
        }
    }
}

pub proof fn lemma_pred_contains(ends: Seq<(usize, usize)>, i: int, j: usize)
    ensures
        pred(ends, i).contains(j) <==> exists|k: int|
            0 <= k < ends.len() && ends[k].1 == i && ends[k].0 == j,
    decreases ends.len(),
{
    if ends.len() > 0 {
        let prefix = ends.drop_last();
        lemma_pred_contains(prefix, i, j);
        let last = ends.last();
        assert forall|k: int| 0 <= k < prefix.len() implies prefix[k] == ends[k] by {}
        if pred(ends, i).contains(j) {
            let m = choose|m: int| 0 <= m < pred(ends, i).len() && pred(ends, i)[m] == j;
            if last.1 == i && m == pred(prefix, i).len() {
                assert(ends[ends.len() - 1].1 == i && ends[ends.len() - 1].0 == j);
            } else {
                assert(pred(prefix, i)[m] == j);
                assert(pred(prefix, i).contains(j));
                let k = choose|k: int| 0 <= k < prefix.len() && prefix[k].1 == i && prefix[k].0 == j;
                assert(ends[k].1 == i && ends[k].0 == j);
            }
        }
        if exists|k: int| 0 <= k < ends.len() && ends[k].1 == i && ends[k].0 == j {
            let k = choose|k: int| 0 <= k < ends.len() && ends[k].1 == i && ends[k].0 == j;
            if k == ends.len() - 1 {
                assert(pred(ends, i)[pred(ends, i).len() - 1] == j);
            } else {
                assert(prefix[k].1 == i && prefix[k].0 == j);
                assert(pred(prefix, i).contains(j));
                let m = choose|m: int| 0 <= m < pred(prefix, i).len() && pred(prefix, i)[m] == j;
                assert(pred(ends, i)[m] == j);
            }
        }
    }
}

/// The ids with `x` appended unless it is already there.
pub open spec fn with_id(ids: Seq<Seq<char>>, x: Seq<char>) -> Seq<Seq<char>> {
    if ids.contains(x) {
        ids
    } else {
        ids.push(x)
    }
}

/// The edges with `a` appended unless it is already there.
pub open spec fn with_arc(arcs: Seq<ArcView>, a: ArcView) -> Seq<ArcView> {
    if arcs.contains(a) {
        arcs
    } else {
        arcs.push(a)
    }
}

/// Nodes, edges and adjacency of a graph under construction.
#[derive(Clone, Debug)]
struct GraphData {
    nodes: Vec<ModuleId>,
    edges: Vec<Dependency>,
    ends: Vec<(usize, usize)>,
    outgoing: Vec<Vec<usize>>,
    incoming: Vec<Vec<usize>>,
}

impl GraphData {
    spec fn ids(&self) -> Seq<Seq<char>> {
        self.nodes@.map_values(|m: ModuleId| m@)
    }

    spec fn arcs(&self) -> Seq<ArcView> {
        self.edges@.map_values(|d: Dependency| arc_of(d))
    }

    spec fn located(&self) -> Seq<LocatedView> {
        self.edges@.map_values(|d: Dependency| located_of(d))
    }

    spec fn wf(&self) -> bool {
        let n = self.nodes@.len();
        &&& n == self.nodes.len()
        &&& forall|i: int, j: int| 0 <= i < j < n ==> self.nodes@[i]@ != self.nodes@[j]@
        &&& self.ends@.len() == self.edges@.len()
        &&& forall|k: int|
            0 <= k < self.ends@.len() ==> {
                &&& self.ends@[k].0 < n
                &&& self.ends@[k].1 < n
                &&& self.nodes@[self.ends@[k].0 as int]@ == self.edges@[k].from@
                &&& self.nodes@[self.ends@[k].1 as int]@ == self.edges@[k].to@
            }
        &&& forall|k: int, l: int|
            0 <= k < l < self.edges@.len() ==> arc_of(self.edges@[k]) != arc_of(self.edges@[l])
        &&& self.outgoing@.len() == n
        &&& self.incoming@.len() == n
        &&& forall|i: int| 0 <= i < n ==> self.outgoing@[i]@ == succ(self.ends@, i)
        &&& forall|i: int| 0 <= i < n ==> self.incoming@[i]@ == pred(self.ends@, i)
    }

    proof fn lemma_arcs_contains(&self, a: ArcView)
        ensures
            self.arcs().contains(a) <==> exists|k: int| 0 <= k < self.edges@.len() && arc_of(self.edges@[k]) == a,
    {
        if self.arcs().contains(a) {
            let k = choose|k: int| 0 <= k < self.arcs().len() && self.arcs()[k] == a;
            assert(arc_of(self.edges@[k]) == a);
        }
        if exists|k: int| 0 <= k < self.edges@.len() && arc_of(self.edges@[k]) == a {
            let k = choose|k: int| 0 <= k < self.edges@.len() && arc_of(self.edges@[k]) == a;
            assert(self.arcs()[k] == a);
        }
    }

    fn empty() -> (r: Self)
        ensures
            r.wf(),
            r.nodes@.len() == 0,
            r.edges@.len() == 0,
    {
        GraphData {
            nodes: Vec::new(),
            edges: Vec::new(),
            ends: Vec::new(),
            outgoing: Vec::new(),
            incoming: Vec::new(),
        }
    }

    /// The index of the node with the same id.
    fn find(&self, node: &ModuleId) -> (r: Option<usize>)
        ensures
            match r {
                Some(i) => i < self.nodes@.len() && self.nodes@[i as int]@ == node@,
                None => forall|i: int| 0 <= i < self.nodes@.len() ==> self.nodes@[i]@ != node@,
            },
    {
        let mut i: usize = 0;
        while i < self.nodes.len()
            invariant
                i <= self.nodes@.len(),
                forall|k: int| 0 <= k < i ==> self.nodes@[k]@ != node@,
            decreases self.nodes@.len() - i,
        {
            if text_equal(self.nodes[i].0.as_str(), node.0.as_str()) {
                return Some(i);
            }
            i = i + 1;
        }
        None
    }

    /// Adds the node unless a node with its id exists; returns its index.
    fn add_node(&mut self, node: ModuleId) -> (r: usize)
        requires
            old(self).wf(),
        ensures
            final(self).wf(),
            r < final(self).nodes@.len(),
            final(self).nodes@[r as int]@ == node@,
            final(self).edges@ == old(self).edges@,
            final(self).ends@ == old(self).ends@,
            (exists|i: int| 0 <= i < old(self).nodes@.len() && old(self).nodes@[i]@ == node@)
                ==> final(self).nodes@ == old(self).nodes@,
            !(exists|i: int| 0 <= i < old(self).nodes@.len() && old(self).nodes@[i]@ == node@)
                ==> final(self).nodes@ == old(self).nodes@.push(node),
            final(self).ids() == with_id(old(self).ids(), node@),
    {
        match self.find(&node) {
            Some(i) => {
                proof {
                    assert(self.ids()[i as int] == node@);
                }
                i
            },
            None => {
                let ghost ids0 = self.ids();
                proof {
                    assert(!ids0.contains(node@)) by {
                        if ids0.contains(node@) {
                            let j = choose|j: int| 0 <= j < ids0.len() && ids0[j] == node@;
                            assert(self.nodes@[j]@ == node@);
                        }
                    }
                }
                let index = self.nodes.len();
                let ghost n = index as int;
                proof {
                    assert forall|k: int| 0 <= k < self.ends@.len() implies self.ends@[k].0 != n
                        && self.ends@[k].1 != n by {}
                    lemma_succ_absent(self.ends@, n);
                    lemma_pred_absent(self.ends@, n);
                }
                self.nodes.push(node);
                self.outgoing.push(Vec::new());
                self.incoming.push(Vec::new());
                proof {
                    assert(self.outgoing@[n]@ =~= succ(self.ends@, n));
                    assert(self.incoming@[n]@ =~= pred(self.ends@, n));
                    assert(self.ids() =~= ids0.push(node@));
                }
                index
            },
        }
    }

    /// The index of an edge with the same endpoints and kind.
    fn find_edge(&self, edge: &Dependency) -> (r: bool)
        ensures
            r == exists|k: int| 0 <= k < self.edges@.len() && arc_of(self.edges@[k]) == arc_of(*edge),
    {
        let mut k: usize = 0;
        while k < self.edges.len()
            invariant
                k <= self.edges@.len(),
                forall|m: int| 0 <= m < k ==> arc_of(self.edges@[m]) != arc_of(*edge),
            decreases self.edges@.len() - k,
        {
            let e = &self.edges[k];
            if e.kind == edge.kind && text_equal(e.from.0.as_str(), edge.from.0.as_str())
                && text_equal(e.to.0.as_str(), edge.to.0.as_str()) {
                return true;
            }
            k = k + 1;
        }
        false
    }

    /// Adds the edge (and its endpoints) unless an edge with the same endpoints and kind exists.
    fn add_edge(&mut self, edge: Dependency)
        requires
            old(self).wf(),
        ensures
            final(self).wf(),
            (exists|k: int| 0 <= k < old(self).edges@.len() && arc_of(old(self).edges@[k]) == arc_of(edge))
                ==> final(self).nodes@ == old(self).nodes@ && final(self).edges@ == old(self).edges@,
            !(exists|k: int| 0 <= k < old(self).edges@.len() && arc_of(old(self).edges@[k]) == arc_of(edge))
                ==> final(self).edges@ == old(self).edges@.push(edge),
            final(self).ids() == old(self).ids() || final(self).ids() == old(self).ids().push(edge.from@)
                || final(self).ids() == old(self).ids().push(edge.to@)
                || final(self).ids() == old(self).ids().push(edge.from@).push(edge.to@),
            old(self).ids().contains(edge.from@) && old(self).ids().contains(edge.to@) ==> final(self).nodes@
                == old(self).nodes@,
            forall|x: Seq<char>| #[trigger] final(self).ids().contains(x) <==> (old(self).ids().contains(x)
                || (!(exists|k: int| 0 <= k < old(self).edges@.len() && arc_of(old(self).edges@[k]) == arc_of(edge))
                && (x == edge.from@ || x == edge.to@))),
        final(self).arcs() == with_arc(old(self).arcs(), arc_of(edge)),
            !old(self).arcs().contains(arc_of(edge)) ==> final(self).ids() == with_id(
                with_id(old(self).ids(), edge.from@),
                edge.to@,
            ),
            old(self).arcs().contains(arc_of(edge)) ==> final(self).ids() == old(self).ids(),
    {
        proof {
            self.lemma_arcs_contains(arc_of(edge));
        }
        if self.find_edge(&edge) {
            return;
        }
        let ghost arcs0 = self.arcs();
        let ghost ids0 = self.ids();
        let ghost nodes0 = self.nodes@;
        proof {
            if ids0.contains(edge.from@) {
                let i = choose|i: int| 0 <= i < ids0.len() && ids0[i] == edge.from@;
                assert(nodes0[i]@ == edge.from@);
            }
            if ids0.contains(edge.to@) {
                let i = choose|i: int| 0 <= i < ids0.len() && ids0[i] == edge.to@;
                assert(nodes0[i]@ == edge.to@);
            }
        }
        let from_index = self.add_node(edge.from.duplicate());
        let ghost ids1 = self.ids();
        let to_index = self.add_node(edge.to.duplicate());
        let ghost ids2 = self.ids();
        let ghost old_ends = self.ends@;
        let ghost edges_before = self.edges@;
        let ghost out_before = self.outgoing@;
        let ghost in_before = self.incoming@;
        self.edges.push(edge);
        self.ends.push((from_index, to_index));
        self.outgoing[from_index].push(to_index);
        self.incoming[to_index].push(from_index);
        proof {
            let n = self.nodes@.len();
            let ends = self.ends@;
            assert(ends.drop_last() == old_ends);
            assert forall|i: int| 0 <= i < n implies self.outgoing@[i]@ == succ(ends, i) by {
                if i == from_index {
                    assert(self.outgoing@[i]@ =~= out_before[i]@.push(to_index));
                    assert(succ(ends, i) == succ(old_ends, i).push(to_index));
                } else {
                    assert(succ(ends, i) == succ(old_ends, i));
                    assert(self.outgoing@[i] == out_before[i]);
                }
            }
            assert forall|i: int| 0 <= i < n implies self.incoming@[i]@ == pred(ends, i) by {
                if i == to_index {
                    assert(self.incoming@[i]@ =~= in_before[i]@.push(from_index));
                    assert(pred(ends, i) == pred(old_ends, i).push(from_index));
                } else {
                    assert(pred(ends, i) == pred(old_ends, i));
                    assert(self.incoming@[i] == in_before[i]);
                }
            }
            assert forall|k: int, l: int| 0 <= k < l < self.edges@.len() implies arc_of(
                self.edges@[k],
            ) != arc_of(self.edges@[l]) by {
                if l == self.edges@.len() - 1 {
                    assert(self.edges@[k] == edges_before[k]);
                }
            }
            assert forall|x: Seq<char>| #[trigger] self.ids().contains(x) <==> (ids0.contains(x) || x
                == edge.from@ || x == edge.to@) by {
                if self.ids().contains(x) {
                    let i = choose|i: int| 0 <= i < self.ids().len() && self.ids()[i] == x;
                    if i < ids1.len() && i < ids0.len() {
                        assert(ids0[i] == x);
                    }
                }
                if ids0.contains(x) {
                    let i = choose|i: int| 0 <= i < ids0.len() && ids0[i] == x;
                    assert(self.ids()[i] == x);
                }
                if x == edge.from@ {
                    assert(self.ids()[from_index as int] == x);
                }
                if x == edge.to@ {
                    assert(self.ids()[to_index as int] == x);
                }
            }
            assert(ids1 == ids0 || ids1 == ids0.push(edge.from@));
            assert(ids2 == ids1 || ids2 == ids1.push(edge.to@));
            assert(self.arcs() =~= arcs0.push(arc_of(edge)));
        }
    }
}

/// `n` copies of `x`.
fn filled<T: Copy>(x: T, n: usize) -> (r: Vec<T>)
    ensures
        r@.len() == n,
        forall|i: int| 0 <= i < n ==> r@[i] == x,
{
    let mut v: Vec<T> = Vec::new();
    let mut i: usize = 0;
    while i < n
        invariant
            i <= n,
            v@.len() == i,
            forall|k: int| 0 <= k < i ==> v@[k] == x,
        decreases n - i,
    {
        v.push(x);
        i = i + 1;
    }
    v
}

/// The outcome of a breadth-first exploration from one node.
struct Explored {
    /// Visited nodes in discovery order; the start node first.
    order: Vec<usize>,
    visited: Vec<bool>,
    /// The node from which each visited node was discovered.
    prev: Vec<usize>,
    /// The number of edges on the tree path to each visited node.
    dist: Vec<usize>,
}

impl GraphData {
    /// There is an edge from node `i` to node `j`.
    spec fn adj(&self, i: int, j: int) -> bool {
        exists|k: int| 0 <= k < self.ends@.len() && self.ends@[k].0 == i && self.ends@[k].1 == j
    }

    /// `p` is a walk of node indices whose nodes after the first are all allowed.
    spec fn is_iwalk(&self, p: Seq<int>, al: Seq<bool>) -> bool {
        &&& p.len() >= 1
        &&& forall|i: int| 0 <= i < p.len() ==> 0 <= #[trigger] p[i] < self.nodes@.len()
        &&& forall|i: int| 1 <= i < p.len() ==> al[#[trigger] p[i]]
        &&& forall|i: int| 0 <= i < p.len() - 1 ==> self.adj(#[trigger] p[i], p[i + 1])
    }

    /// `v` is reachable from `s` over at most `d` edges through allowed nodes.
    spec fn within(&self, s: int, v: int, d: int, al: Seq<bool>) -> bool {
        exists|p: Seq<int>|
            #[trigger] self.is_iwalk(p, al) && p[0] == s && p.last() == v && p.len() <= d + 1
    }

    proof fn lemma_within_zero(&self, s: int, v: int, al: Seq<bool>)
        requires
            self.within(s, v, 0, al),
        ensures
            v == s,
    {
        let p = choose|p: Seq<int>| #[trigger] self.is_iwalk(p, al) && p[0] == s && p.last() == v && p.len() <= 1;
    }

    proof fn lemma_within_start(&self, s: int, al: Seq<bool>)
        requires
            0 <= s < self.nodes@.len(),
        ensures
            self.within(s, s, 0, al),
    {
        let p = seq![s];
        assert(self.is_iwalk(p, al));
    }

    proof fn lemma_within_mono(&self, s: int, v: int, d: int, e: int, al: Seq<bool>)
        requires
            self.within(s, v, d, al),
            d <= e,
        ensures
            self.within(s, v, e, al),
    {
        let p = choose|p: Seq<int>| #[trigger] self.is_iwalk(p, al) && p[0] == s && p.last() == v && p.len() <= d + 1;
        assert(self.is_iwalk(p, al) && p[0] == s && p.last() == v && p.len() <= e + 1);
    }

    proof fn lemma_within_extend(&self, s: int, u: int, v: int, d: int, al: Seq<bool>)
        requires
            self.within(s, u, d, al),
            self.adj(u, v),
            0 <= v < self.nodes@.len(),
            al[v],
        ensures
            self.within(s, v, d + 1, al),
    {
        let p = choose|p: Seq<int>| #[trigger] self.is_iwalk(p, al) && p[0] == s && p.last() == u && p.len() <= d + 1;
        let q = p.push(v);
        assert forall|i: int| 0 <= i < q.len() - 1 implies self.adj(#[trigger] q[i], q[i + 1]) by {
            if i < p.len() - 1 {
                assert(q[i] == p[i] && q[i + 1] == p[i + 1]);
            }
        }
        assert forall|i: int| 1 <= i < q.len() implies al[#[trigger] q[i]] by {
            if i < p.len() {
                assert(q[i] == p[i]);
            }
        }
        assert(self.is_iwalk(q, al));
    }

    /// The last step of a walk of more than `d` edges comes from a node within `d - 1`.
    proof fn lemma_within_step_back(&self, s: int, v: int, d: int, al: Seq<bool>) -> (u: int)
        requires
            self.within(s, v, d, al),
            !self.within(s, v, d - 1, al),
            d >= 1,
        ensures
            self.within(s, u, d - 1, al),
            self.adj(u, v),
            al[v],
            0 <= u < self.nodes@.len(),
    {
        let p = choose|p: Seq<int>| #[trigger] self.is_iwalk(p, al) && p[0] == s && p.last() == v && p.len() <= d + 1;
        if p.len() <= d {
            assert(self.is_iwalk(p, al) && p[0] == s && p.last() == v && p.len() <= (d - 1) + 1);
        }
        let q = p.drop_last();
        assert(p.len() >= 2);
        assert(self.adj(p[p.len() - 2], p[p.len() - 1]));
        assert(self.is_iwalk(q, al));
        assert(q.last() == p[p.len() - 2]);
        p[p.len() - 2]
    }

    /// Facts about one visited node of an exploration from `s`.
    spec fn node_ok(&self, s: int, al: Seq<bool>, visited: Seq<bool>, prev: Seq<usize>, dist: Seq<usize>, v: int) -> bool {
        &&& self.within(s, v, dist[v] as int, al)
        &&& forall|e: int| #[trigger] self.within(s, v, e, al) ==> dist[v] <= e
        &&& (dist[v] == 0 <==> v == s)
        &&& v != s ==> {
            &&& prev[v] < self.nodes@.len()
            &&& visited[prev[v] as int]
            &&& dist[prev[v] as int] + 1 == dist[v]
            &&& self.adj(prev[v] as int, v)
            &&& al[v]
        }
    }

    /// The bookkeeping of an exploration from `s` is consistent.
    spec fn sound(&self, s: int, al: Seq<bool>, visited: Seq<bool>, prev: Seq<usize>, dist: Seq<usize>, order: Seq<usize>) -> bool {
        let n = self.nodes@.len();
        &&& self.nodes@.len() == self.nodes.len()
        &&& visited.len() == n
        &&& prev.len() == n
        &&& dist.len() == n
        &&& al.len() == n
        &&& 0 <= s < n
        &&& order.len() >= 1
        &&& order[0] == s
        &&& forall|k: int| 0 <= k < order.len() ==> #[trigger] order[k] < n
        &&& forall|k: int, l: int| 0 <= k < l < order.len() ==> order[k] != order[l]
        &&& forall|v: int| 0 <= v < n ==> (#[trigger] visited[v] <==> order.contains(v as usize))
        &&& forall|v: int| 0 <= v < n && #[trigger] visited[v] ==> self.node_ok(s, al, visited, prev, dist, v)
    }

    /// Recording `nb` as discovered from `u` keeps the bookkeeping consistent.
    proof fn lemma_discover(
        &self,
        s: int,
        al: Seq<bool>,
        visited: Seq<bool>,
        prev: Seq<usize>,
        dist: Seq<usize>,
        order: Seq<usize>,
        u: usize,
        nb: usize,
        d: usize,
    )
        requires
            self.sound(s, al, visited, prev, dist, order),
            u < self.nodes@.len(),
            nb < self.nodes@.len(),
            d < self.nodes@.len(),
            visited[u as int],
            dist[u as int] == d,
            !visited[nb as int],
            al[nb as int],
            self.adj(u as int, nb as int),
            forall|v: int| 0 <= v < self.nodes@.len() && #[trigger] self.within(s, v, d as int, al) ==> visited[v],
        ensures
            self.sound(
                s,
                al,
                visited.update(nb as int, true),
                prev.update(nb as int, u),
                dist.update(nb as int, (d + 1) as usize),
                order.push(nb),
            ),
    {
        self.lemma_discover_order(s, visited, order, nb);
        self.lemma_discover_nodes(s, al, visited, prev, dist, order, u, nb, d);
    }

    proof fn lemma_discover_order(&self, s: int, visited: Seq<bool>, order: Seq<usize>, nb: usize)
        requires
            self.nodes@.len() == self.nodes.len(),
            visited.len() == self.nodes@.len(),
            forall|k: int| 0 <= k < order.len() ==> #[trigger] order[k] < self.nodes@.len(),
            forall|k: int, l: int| 0 <= k < l < order.len() ==> order[k] != order[l],
            forall|v: int| 0 <= v < self.nodes@.len() ==> (#[trigger] visited[v] <==> order.contains(v as usize)),
            nb < self.nodes@.len(),
            !visited[nb as int],
        ensures
            ({
                let v2 = visited.update(nb as int, true);
                let o2 = order.push(nb);
                &&& forall|k: int| 0 <= k < o2.len() ==> #[trigger] o2[k] < self.nodes@.len()
                &&& forall|k: int, l: int| 0 <= k < l < o2.len() ==> o2[k] != o2[l]
                &&& forall|v: int| 0 <= v < self.nodes@.len() ==> (#[trigger] v2[v] <==> o2.contains(v as usize))
            }),
    {
        let n = self.nodes@.len();
        let v2 = visited.update(nb as int, true);
        let o2 = order.push(nb);
        assert(!order.contains(nb));
        assert forall|v: int| 0 <= v < n implies (#[trigger] v2[v] <==> o2.contains(v as usize)) by {
            if v == nb as int {
                assert(o2[o2.len() - 1] == nb);
            } else if o2.contains(v as usize) {
                let k = choose|k: int| 0 <= k < o2.len() && o2[k] == v as usize;
                assert(order[k] == v as usize);
            } else if order.contains(v as usize) {
                let k = choose|k: int| 0 <= k < order.len() && order[k] == v as usize;
                assert(o2[k] == v as usize);
            }
        }
        assert forall|k: int, l: int| 0 <= k < l < o2.len() implies o2[k] != o2[l] by {
            if l == o2.len() - 1 {
                assert(order[k] == o2[k]);
                assert(order.contains(o2[k]));
            } else {
                assert(order[k] == o2[k] && order[l] == o2[l]);
            }
        }
        assert forall|k: int| 0 <= k < o2.len() implies #[trigger] o2[k] < n by {
            if k < order.len() {
                assert(order[k] == o2[k]);
            }
        }
    }

    #[verifier::rlimit(40)]
    proof fn lemma_discover_nodes(
        &self,
        s: int,
        al: Seq<bool>,
        visited: Seq<bool>,
        prev: Seq<usize>,
        dist: Seq<usize>,
        order: Seq<usize>,
        u: usize,
        nb: usize,
        d: usize,
    )
        requires
            self.sound(s, al, visited, prev, dist, order),
            u < self.nodes@.len(),
            nb < self.nodes@.len(),
            d < self.nodes@.len(),
            visited[u as int],
            dist[u as int] == d,
            !visited[nb as int],
            al[nb as int],
            self.adj(u as int, nb as int),
            forall|v: int| 0 <= v < self.nodes@.len() && #[trigger] self.within(s, v, d as int, al) ==> visited[v],
        ensures
            forall|v: int|
                0 <= v < self.nodes@.len() && #[trigger] visited.update(nb as int, true)[v] ==> self.node_ok(
                    s,
                    al,
                    visited.update(nb as int, true),
                    prev.update(nb as int, u),
                    dist.update(nb as int, (d + 1) as usize),
                    v,
                ),
    {
        let n = self.nodes@.len();
        let v2 = visited.update(nb as int, true);
        let p2 = prev.update(nb as int, u);
        let d2 = dist.update(nb as int, (d + 1) as usize);
        assert(self.node_ok(s, al, visited, prev, dist, u as int));
        self.lemma_within_extend(s, u as int, nb as int, d as int, al);
        assert forall|e: int| #[trigger] self.within(s, nb as int, e, al) implies d + 1 <= e by {
            if e <= d {
                self.lemma_within_mono(s, nb as int, e, d as int, al);
            }
        }
        assert(visited[s]) by {
            assert(order[0] == s as usize);
            assert(order.contains(s as usize));
        }
        assert(d2[nb as int] == d + 1);
        assert(p2[nb as int] == u);
        assert(self.node_ok(s, al, v2, p2, d2, nb as int));
        assert forall|v: int| 0 <= v < n && #[trigger] v2[v] implies self.node_ok(s, al, v2, p2, d2, v) by {
            if v != nb as int {
                assert(visited[v]);
                assert(self.node_ok(s, al, visited, prev, dist, v));
                if v != s {
                    assert(visited[prev[v] as int]);
                    assert(prev[v] != nb);
                }
            }
        }
    }

    /// Discovers the unvisited allowed successors of `u`, a node at distance `d`.
    fn expand(
        &self,
        u: usize,
        d: usize,
        start: usize,
        allowed: &Vec<bool>,
        visited: &mut Vec<bool>,
        prev: &mut Vec<usize>,
        dist: &mut Vec<usize>,
        order: &mut Vec<usize>,
    )
        requires
            self.wf(),
            self.sound(start as int, allowed@, old(visited)@, old(prev)@, old(dist)@, old(order)@),
            u < self.nodes@.len(),
            old(visited)@[u as int],
            old(dist)@[u as int] == d,
            d < self.nodes@.len(),
            forall|v: int| 0 <= v < self.nodes@.len() && #[trigger] self.within(start as int, v, d as int, allowed@) ==> old(visited)@[v],
        ensures
            self.sound(start as int, allowed@, final(visited)@, final(prev)@, final(dist)@, final(order)@),
            final(order)@.len() >= old(order)@.len(),
            final(order)@.take(old(order)@.len() as int) == old(order)@,
            forall|k: int| old(order)@.len() <= k < final(order)@.len() ==> final(dist)@[#[trigger] final(order)@[k] as int] == d + 1,
            forall|v: int| 0 <= v < self.nodes@.len() && old(visited)@[v] ==> #[trigger] final(visited)@[v] && final(dist)@[v] == old(dist)@[v],
            forall|j: int| 0 <= j < self.nodes@.len() && #[trigger] self.adj(u as int, j) && allowed@[j] ==> final(visited)@[j],
    {
        let n = self.nodes.len();
        let ghost order0 = order@;
        let ghost visited0 = visited@;
        let ghost dist0 = dist@;
        let row = &self.outgoing[u];
        proof {
            assert forall|q: int| 0 <= q < row@.len() implies #[trigger] row@[q] < n by {
                lemma_succ_contains(self.ends@, u as int, row@[q]);
                assert(row@.contains(row@[q]));
            }
        }
        let mut m: usize = 0;
        while m < row.len()
            invariant
                forall|q: int| 0 <= q < row@.len() ==> #[trigger] row@[q] < n,
                self.wf(),
                n == self.nodes@.len(),
                self.sound(start as int, allowed@, visited@, prev@, dist@, order@),
                u < n,
                visited@[u as int],
                dist@[u as int] == d,
                d < n,
                row@ == succ(self.ends@, u as int),
                m <= row@.len(),
                order@.len() >= order0.len(),
                order@.take(order0.len() as int) == order0,
                forall|k: int| order0.len() <= k < order@.len() ==> dist@[#[trigger] order@[k] as int] == d + 1,
                visited0.len() == n,
                dist0.len() == n,
                forall|v: int| 0 <= v < n && #[trigger] visited0[v] ==> visited@[v],
                forall|v: int| 0 <= v < n && #[trigger] visited0[v] ==> dist@[v] == dist0[v],
                forall|v: int| 0 <= v < n && #[trigger] self.within(start as int, v, d as int, allowed@) ==> visited@[v],
                forall|q: int| 0 <= q < m && allowed@[row@[q] as int] ==> visited@[#[trigger] row@[q] as int],
            decreases row@.len() - m,
        {
            let nb = row[m];
            let ghost vis_before = visited@;
            proof {
                lemma_succ_contains(self.ends@, u as int, nb);
                assert(row@[m as int] == nb);
                assert(row@.contains(nb));
            }
            if allowed[nb] && !visited[nb] {
                let ghost o1 = order@;
                let ghost v1 = visited@;
                let ghost p1 = prev@;
                let ghost d1 = dist@;
                proof {
                    self.lemma_discover(start as int, allowed@, v1, p1, d1, o1, u, nb, d);
                }
                visited.set(nb, true);
                prev.set(nb, u);
                dist.set(nb, d + 1);
                order.push(nb);
                proof {
                    assert(visited@ == v1.update(nb as int, true));
                    assert(order@.take(order0.len() as int) =~= order0) by {
                        assert(o1.take(order0.len() as int) == order0);
                    }
                    assert forall|v: int| 0 <= v < n && #[trigger] visited0[v] implies visited@[v] && dist@[v] == dist0[v] by {
                        assert(v1[v]);
                        assert(v != nb as int);
                        assert(d1[v] == dist0[v]);
                    }
                }
            }
            proof {
                assert(visited@[nb as int] || !allowed@[nb as int]);
                assert forall|v: int| 0 <= v < n && vis_before[v] implies visited@[v] by {}
                assert forall|q: int| 0 <= q < m + 1 && allowed@[row@[q] as int] implies visited@[#[trigger] row@[q] as int] by {
                    if q == m {
                        assert(row@[q] == nb);
                    } else {
                        assert(vis_before[row@[q] as int]);
                    }
                }
            }
            m = m + 1;
        }
        proof {
            assert forall|j: int| 0 <= j < n && #[trigger] self.adj(u as int, j) && allowed@[j] implies visited@[j] by {
                lemma_succ_contains(self.ends@, u as int, j as usize);
                let q = choose|q: int| 0 <= q < row@.len() && row@[q] == j as usize;
                assert(visited@[row@[q] as int]);
            }
        }
    }

    /// Breadth-first exploration from `start` through allowed nodes, level by level, stopping
    /// after the level in which `stop` is discovered.
    #[verifier::spinoff_prover]
    #[verifier::rlimit(40)]
    fn explore(&self, start: usize, allowed: &Vec<bool>, stop: Option<usize>) -> (r: Explored)
        requires
            self.wf(),
            start < self.nodes@.len(),
            allowed@.len() == self.nodes@.len(),
            stop matches Some(t) ==> t < self.nodes@.len(),
        ensures
            self.sound(start as int, allowed@, r.visited@, r.prev@, r.dist@, r.order@),
            (stop matches Some(t) && r.visited@[t as int]) || forall|v: int, e: int|
                0 <= v < self.nodes@.len() && #[trigger] self.within(start as int, v, e, allowed@)
                    ==> r.visited@[v],
            forall|k: int, l: int| 0 <= k < l < r.order@.len() ==> r.dist@[#[trigger] r.order@[k] as int]
                <= r.dist@[#[trigger] r.order@[l] as int],
    {
        let n = self.nodes.len();
        let mut visited = filled(false, n);
        let mut prev = filled(0usize, n);
        let mut dist = filled(0usize, n);
        let mut order: Vec<usize> = Vec::new();
        visited.set(start, true);
        order.push(start);
        proof {
            self.lemma_within_start(start as int, allowed@);
            assert forall|v: int| 0 <= v < n implies (#[trigger] visited@[v] <==> order@.contains(v as usize)) by {
                if v == start {
                    assert(order@[0] == start);
                }
            }
            assert forall|v: int| 0 <= v < n && #[trigger] visited@[v] implies self.node_ok(start as int, allowed@, visited@, prev@, dist@, v) by {
                assert(v == start);
            }
            assert forall|v: int| 0 <= v < n && #[trigger] self.within(start as int, v, 0, allowed@) implies visited@[v] by {
                self.lemma_within_zero(start as int, v, allowed@);
            }
        }
        let mut ls: usize = 0;
        let mut le: usize = 1;
        let mut d: usize = 0;
        loop
            invariant
                self.wf(),
                n == self.nodes@.len(),
                stop matches Some(t) ==> t < n,
                self.sound(start as int, allowed@, visited@, prev@, dist@, order@),
                ls <= le,
                le == order@.len(),
                d <= ls,
                ls == 0 ==> le == 1,
                forall|k: int| 0 <= k < ls ==> dist@[#[trigger] order@[k] as int] < d,
                forall|k: int| ls <= k < le ==> dist@[#[trigger] order@[k] as int] == d,
                forall|k: int, l: int| 0 <= k < l < ls ==> dist@[#[trigger] order@[k] as int]
                    <= dist@[#[trigger] order@[l] as int],
                forall|v: int| 0 <= v < n && #[trigger] self.within(start as int, v, d as int, allowed@) ==> visited@[v],
                forall|k: int, j: int|
                    0 <= k < ls && #[trigger] self.adj(order@[k] as int, j) && 0 <= j < n && allowed@[j]
                        ==> visited@[j],
            ensures
                self.sound(start as int, allowed@, visited@, prev@, dist@, order@),
                (stop matches Some(t) && visited@[t as int]) || forall|v: int, e: int|
                    0 <= v < n && #[trigger] self.within(start as int, v, e, allowed@) ==> visited@[v],
                forall|k: int, l: int| 0 <= k < l < order@.len() ==> dist@[#[trigger] order@[k] as int]
                    <= dist@[#[trigger] order@[l] as int],
            decreases n - ls,
        {
            proof {
                lemma_distinct_count(order@, n as int);
            }
            let done = match stop {
                Some(t) => visited[t],
                None => false,
            };
            if done || ls == le {
                proof {
                    if !done {
                        self.lemma_closed_complete(start as int, visited@, order@, d as int, allowed@);
                    }
                }
                break;
            }
            let mut idx: usize = ls;
            while idx < le
                invariant
                    self.wf(),
                    n == self.nodes@.len(),
                    self.sound(start as int, allowed@, visited@, prev@, dist@, order@),
                    ls < le,
                    ls <= idx <= le,
                    le <= order@.len(),
                    le <= n,
                    d <= ls,
                    forall|k: int| 0 <= k < ls ==> dist@[#[trigger] order@[k] as int] < d,
                    forall|k: int| ls <= k < le ==> dist@[#[trigger] order@[k] as int] == d,
                    forall|k: int| le <= k < order@.len() ==> dist@[#[trigger] order@[k] as int] == d + 1,
                    forall|k: int, l: int| 0 <= k < l < ls ==> dist@[#[trigger] order@[k] as int]
                        <= dist@[#[trigger] order@[l] as int],
                    forall|v: int| 0 <= v < n && #[trigger] self.within(start as int, v, d as int, allowed@) ==> visited@[v],
                    forall|k: int, j: int|
                        0 <= k < idx && #[trigger] self.adj(order@[k] as int, j) && 0 <= j < n && allowed@[j]
                            ==> visited@[j],
                decreases le - idx,
            {
                let u = order[idx];
                let ghost o0 = order@;
                let ghost v0 = visited@;
                let ghost d0 = dist@;
                proof {
                    assert(visited@[u as int]) by {
                        assert(order@[idx as int] == u);
                    }
                }
                self.expand(u, d, start, allowed, &mut visited, &mut prev, &mut dist, &mut order);
                proof {
                    assert forall|k: int| 0 <= k < o0.len() implies order@[k] == o0[k] by {
                        assert(order@.take(o0.len() as int)[k] == o0[k]);
                    }
                    assert forall|k: int| 0 <= k < o0.len() implies dist@[#[trigger] order@[k] as int] == d0[o0[k] as int] by {
                        assert(order@[k] == o0[k]);
                        assert(v0[o0[k] as int]) by { assert(o0.contains(o0[k])); }
                        assert(visited@[o0[k] as int]);
                    }
                    assert forall|k: int| 0 <= k < ls implies dist@[#[trigger] order@[k] as int] < d by {
                        assert(dist@[order@[k] as int] == d0[o0[k] as int]);
                    }
                    assert forall|k: int| ls <= k < le implies dist@[#[trigger] order@[k] as int] == d by {
                        assert(dist@[order@[k] as int] == d0[o0[k] as int]);
                    }
                    assert forall|k: int, l: int| 0 <= k < l < ls implies dist@[#[trigger] order@[k] as int]
                        <= dist@[#[trigger] order@[l] as int] by {
                        assert(dist@[order@[k] as int] == d0[o0[k] as int]);
                        assert(dist@[order@[l] as int] == d0[o0[l] as int]);
                    }
                    assert forall|k: int| le <= k < order@.len() implies dist@[#[trigger] order@[k] as int] == d + 1 by {
                        if k < o0.len() {
                            assert(dist@[order@[k] as int] == d0[o0[k] as int]);
                        }
                    }
                    assert forall|k: int, j: int|
                        0 <= k < idx + 1 && #[trigger] self.adj(order@[k] as int, j) && 0 <= j < n && allowed@[j]
                            implies visited@[j] by {
                        assert(order@[k] == o0[k]);
                        if k < idx {
                            assert(v0[j]);
                        }
                    }
                    lemma_distinct_count(order@, n as int);
                }
                idx = idx + 1;
            }
            proof {
                assert forall|v: int| 0 <= v < n && #[trigger] self.within(start as int, v, d + 1, allowed@) implies visited@[v] by {
                    if !self.within(start as int, v, d as int, allowed@) {
                        let w = self.lemma_within_step_back(start as int, v, d + 1, allowed@);
                        assert(visited@[w]);
                        let k = choose|k: int| 0 <= k < order@.len() && order@[k] == w as usize;
                        if k >= le {
                            assert(self.node_ok(start as int, allowed@, visited@, prev@, dist@, w));
                            assert(dist@[w] == d + 1);
                        }
                        assert(self.adj(order@[k] as int, v));
                    }
                }
                lemma_distinct_count(order@, n as int);
            }
            ls = le;
            le = order.len();
            d = d + 1;
        }
        Explored { order, visited, prev, dist }
    }

    /// With an empty frontier, the visited set is closed under allowed steps and holds every
    /// allowed-reachable node.
    proof fn lemma_closed_complete(&self, s: int, visited: Seq<bool>, order: Seq<usize>, d: int, al: Seq<bool>)
        requires
            visited.len() == self.nodes@.len(),
            al.len() == self.nodes@.len(),
            forall|v: int| 0 <= v < self.nodes@.len() ==> (#[trigger] visited[v] <==> order.contains(v as usize)),
            forall|v: int| 0 <= v < self.nodes@.len() && #[trigger] self.within(s, v, d, al) ==> visited[v],
            forall|k: int, j: int|
                0 <= k < order.len() && #[trigger] self.adj(order[k] as int, j) && 0 <= j < self.nodes@.len() && al[j]
                    ==> visited[j],
            d >= 0,
        ensures
            forall|v: int, e: int| 0 <= v < self.nodes@.len() && #[trigger] self.within(s, v, e, al) ==> visited[v],
    {
        assert forall|v: int, e: int| 0 <= v < self.nodes@.len() && #[trigger] self.within(s, v, e, al) implies visited[v] by {
            self.lemma_closed_complete_at(s, visited, order, d, al, v, e);
        }
    }

    proof fn lemma_closed_complete_at(&self, s: int, visited: Seq<bool>, order: Seq<usize>, d: int, al: Seq<bool>, v: int, e: int)
        requires
            d >= 0,
            visited.len() == self.nodes@.len(),
            al.len() == self.nodes@.len(),
            forall|v: int| 0 <= v < self.nodes@.len() ==> (#[trigger] visited[v] <==> order.contains(v as usize)),
            forall|v: int| 0 <= v < self.nodes@.len() && #[trigger] self.within(s, v, d, al) ==> visited[v],
            forall|k: int, j: int|
                0 <= k < order.len() && #[trigger] self.adj(order[k] as int, j) && 0 <= j < self.nodes@.len() && al[j]
                    ==> visited[j],
            0 <= v < self.nodes@.len(),
            self.within(s, v, e, al),
        ensures
            visited[v],
        decreases e - d,
    {
        if e <= d {
            self.lemma_within_mono(s, v, e, d, al);
        } else if self.within(s, v, e - 1, al) {
            self.lemma_closed_complete_at(s, visited, order, d, al, v, e - 1);
        } else {
            let u = self.lemma_within_step_back(s, v, e, al);
            self.lemma_closed_complete_at(s, visited, order, d, al, u, e - 1);
            let k = choose|k: int| 0 <= k < order.len() && order[k] == u as usize;
            assert(self.adj(order[k] as int, v));
        }
    }
}

/// A sequence of distinct values below `n` has at most `n` elements.
proof fn lemma_distinct_count(s: Seq<usize>, n: int)
    requires
        n >= 0,
        forall|k: int| 0 <= k < s.len() ==> #[trigger] s[k] < n,
        forall|k: int, l: int| 0 <= k < l < s.len() ==> s[k] != s[l],
    ensures
        s.len() <= n,
{
    let t = s.map_values(|x: usize| x as int);
    assert(t.no_duplicates()) by {
        assert forall|k: int, l: int| 0 <= k < t.len() && 0 <= l < t.len() && k != l implies t[k] != t[l] by {
            if k < l {
                assert(s[k] != s[l]);
            } else {
                assert(s[l] != s[k]);
            }
        }
    }
    t.unique_seq_to_set();
    let full = vstd::set_lib::set_int_range(0, n);
    vstd::set_lib::lemma_int_range(0, n);
    assert(t.to_set().subset_of(full)) by {
        assert forall|x: int| t.to_set().contains(x) implies full.contains(x) by {
            let k = choose|k: int| 0 <= k < t.len() && t[k] == x;
            assert(s[k] < n);
        }
    }
    vstd::set_lib::lemma_len_subset(t.to_set(), full);
}

proof fn lemma_succ_absent(ends: Seq<(usize, usize)>, n: int)
    requires
        forall|k: int| 0 <= k < ends.len() ==> ends[k].0 != n,
    ensures
        succ(ends, n) == Seq::<usize>::empty(),
    decreases ends.len(),
{
    if ends.len() > 0 {
        lemma_succ_absent(ends.drop_last(), n);
    }
}

proof fn lemma_pred_absent(ends: Seq<(usize, usize)>, n: int)
    requires
        forall|k: int| 0 <= k < ends.len() ==> ends[k].1 != n,
    ensures
        pred(ends, n) == Seq::<usize>::empty(),
    decreases ends.len(),
{
    if ends.len() > 0 {
        lemma_pred_absent(ends.drop_last(), n);
    }
}

pub open spec fn as_ints(s: Seq<usize>) -> Seq<int> {
    s.map_values(|x: usize| x as int)
}

impl GraphData {
    /// The tree path of an exploration from its start to a visited node.
    #[verifier::spinoff_prover]
    fn trace(&self, ex: &Explored, start: usize, allowed: &Vec<bool>, target: usize) -> (r: Vec<usize>)
        requires
            self.wf(),
            self.sound(start as int, allowed@, ex.visited@, ex.prev@, ex.dist@, ex.order@),
            target < self.nodes@.len(),
            ex.visited@[target as int],
        ensures
            r@.len() == ex.dist@[target as int] + 1,
            r@[0] == start,
            r@.last() == target,
            self.is_iwalk(as_ints(r@), allowed@),
    {
        let n = self.nodes.len();
        let mut rev: Vec<usize> = Vec::new();
        rev.push(target);
        let mut cursor = target;
        while cursor != start
            invariant
                self.sound(start as int, allowed@, ex.visited@, ex.prev@, ex.dist@, ex.order@),
                n == self.nodes@.len(),
                cursor < n,
                ex.visited@[cursor as int],
                rev@.len() >= 1,
                rev@[0] == target,
                rev@.last() == cursor,
                rev@.len() + ex.dist@[cursor as int] == ex.dist@[target as int] + 1,
                forall|i: int| 0 <= i < rev@.len() ==> #[trigger] rev@[i] < n,
                forall|i: int| 0 <= i < rev@.len() - 1 ==> self.adj(#[trigger] rev@[i + 1] as int, rev@[i] as int) && allowed@[rev@[i] as int],
            decreases ex.dist@[cursor as int],
        {
            proof {
                assert(self.node_ok(start as int, allowed@, ex.visited@, ex.prev@, ex.dist@, cursor as int));
            }
            let ghost old_rev = rev@;
            let ghost old_cursor = cursor;
            cursor = ex.prev[cursor];
            rev.push(cursor);
            proof {
                assert forall|i: int| 0 <= i < rev@.len() - 1 implies self.adj(#[trigger] rev@[i + 1] as int, rev@[i] as int) && allowed@[rev@[i] as int] by {
                    if i < old_rev.len() - 1 {
                        assert(rev@[i] == old_rev[i] && rev@[i + 1] == old_rev[i + 1]);
                    } else {
                        assert(rev@[i] == old_cursor);
                    }
                }
            }
        }
        proof {
            assert(self.node_ok(start as int, allowed@, ex.visited@, ex.prev@, ex.dist@, cursor as int));
        }
        let mut path: Vec<usize> = Vec::new();
        let mut j: usize = rev.len();
        while j > 0
            invariant
                j <= rev@.len(),
                path@.len() == rev@.len() - j,
                forall|i: int| 0 <= i < path@.len() ==> #[trigger] path@[i] == rev@[rev@.len() - 1 - i],
            decreases j,
        {
            j = j - 1;
            path.push(rev[j]);
        }
        proof {
            let p = as_ints(path@);
            let len = rev@.len();
            assert(p.len() == len);
            assert forall|i: int| 0 <= i < p.len() implies 0 <= #[trigger] p[i] < n by {
                assert(p[i] == rev@[len - 1 - i] as int);
            }
            assert forall|i: int| 1 <= i < p.len() implies allowed@[#[trigger] p[i]] by {
                assert(p[i] == rev@[len - 1 - i] as int);
                assert(self.adj(rev@[len - 1 - i + 1] as int, rev@[len - 1 - i] as int) && allowed@[rev@[len - 1 - i] as int]);
            }
            assert forall|i: int| 0 <= i < p.len() - 1 implies self.adj(#[trigger] p[i], p[i + 1]) by {
                assert(p[i] == rev@[len - 1 - i] as int);
                assert(p[i + 1] == rev@[len - 1 - (i + 1)] as int);
                let k = len - 1 - (i + 1);
                assert(self.adj(rev@[k + 1] as int, rev@[k] as int));
            }
            assert(path@[0] == rev@[len - 1]);
            assert(path@[path@.len() - 1] == rev@[0]);
        }
        path
    }
}

impl GraphData {
    /// The fewest edges from `u` to `t` through allowed nodes is `d`.
    spec fn near(&self, u: int, t: int, d: int, al: Seq<bool>) -> bool {
        &&& d >= 0
        &&& self.within(u, t, d, al)
        &&& !self.within(u, t, d - 1, al)
    }

    /// Entry `k` of `u`'s successors is the first allowed one from which `t` is `d` edges away.
    spec fn first_closer(&self, u: int, t: int, d: int, al: Seq<bool>, k: int) -> bool {
        &&& 0 <= k < succ(self.ends@, u).len()
        &&& al[succ(self.ends@, u)[k] as int]
        &&& self.near(succ(self.ends@, u)[k] as int, t, d, al)
        &&& forall|j: int|
            0 <= j < k ==> !(al[#[trigger] succ(self.ends@, u)[j] as int] && self.near(
                succ(self.ends@, u)[j] as int,
                t,
                d,
                al,
            ))
    }

    /// From `u` the next node is `v`: the first allowed successor from which `t` is `d` edges away.
    spec fn step_to(&self, u: int, v: int, t: int, d: int, al: Seq<bool>) -> bool {
        exists|k: int| #[trigger] self.first_closer(u, t, d, al, k) && succ(self.ends@, u)[k] == v
    }

    /// `p` goes to `t` by the fewest edges through allowed nodes, each step to the first
    /// successor that is one edge closer.
    spec fn greedy_walk(&self, p: Seq<int>, t: int, al: Seq<bool>) -> bool {
        &&& p.len() >= 1
        &&& 0 <= p[0] < self.nodes@.len()
        &&& p.last() == t
        &&& self.near(p[0], t, p.len() - 1, al)
        &&& forall|i: int| 0 <= i < p.len() - 1 ==> self.step_to(#[trigger] p[i], p[i + 1], t, p.len() - 2 - i, al)
    }

    proof fn lemma_within_prepend(&self, u: int, v: int, t: int, e: int, al: Seq<bool>)
        requires
            self.within(v, t, e, al),
            self.adj(u, v),
            0 <= u < self.nodes@.len(),
            al[v],
        ensures
            self.within(u, t, e + 1, al),
    {
        let p = choose|p: Seq<int>| #[trigger] self.is_iwalk(p, al) && p[0] == v && p.last() == t && p.len() <= e + 1;
        let q = seq![u] + p;
        assert forall|i: int| 0 <= i < q.len() implies 0 <= #[trigger] q[i] < self.nodes@.len() by {
            if i > 0 {
                assert(q[i] == p[i - 1]);
            }
        }
        assert forall|i: int| 1 <= i < q.len() implies al[#[trigger] q[i]] by {
            assert(q[i] == p[i - 1]);
        }
        assert forall|i: int| 0 <= i < q.len() - 1 implies self.adj(#[trigger] q[i], q[i + 1]) by {
            if i > 0 {
                assert(q[i] == p[i - 1] && q[i + 1] == p[i]);
            }
        }
        assert(q.last() == p.last());
        assert(self.is_iwalk(q, al));
    }

    /// One edge from a node `d > 0` edges from `t` leads to a node `d - 1` edges from it.
    proof fn lemma_closer_exists(&self, u: int, t: int, d: int, al: Seq<bool>)
        requires
            self.wf(),
            self.near(u, t, d, al),
            d > 0,
            0 <= u < self.nodes@.len(),
        ensures
            exists|j: int|
                0 <= j < succ(self.ends@, u).len() && al[#[trigger] succ(self.ends@, u)[j] as int] && self.near(
                    succ(self.ends@, u)[j] as int,
                    t,
                    d - 1,
                    al,
                ),
    {
        let p = choose|p: Seq<int>| #[trigger] self.is_iwalk(p, al) && p[0] == u && p.last() == t && p.len() <= d + 1;
        if p.len() == 1 {
            assert(self.within(u, t, d - 1, al)) by {
                assert(self.is_iwalk(p, al) && p[0] == u && p.last() == t && p.len() <= d);
            }
        }
        let v = p[1];
        assert(self.adj(u, v));
        let w = p.skip(1);
        assert forall|i: int| 0 <= i < w.len() implies 0 <= #[trigger] w[i] < self.nodes@.len() by {
            assert(w[i] == p[i + 1]);
        }
        assert forall|i: int| 1 <= i < w.len() implies al[#[trigger] w[i]] by {
            assert(w[i] == p[i + 1]);
        }
        assert forall|i: int| 0 <= i < w.len() - 1 implies self.adj(#[trigger] w[i], w[i + 1]) by {
            assert(w[i] == p[i + 1] && w[i + 1] == p[i + 2]);
        }
        assert(w.last() == p.last());
        assert(self.is_iwalk(w, al));
        assert(self.within(v, t, d - 1, al));
        if self.within(v, t, d - 2, al) {
            self.lemma_within_prepend(u, v, t, d - 2, al);
        }
        let k = choose|k: int| 0 <= k < self.ends@.len() && self.ends@[k].0 == u && self.ends@[k].1 == v;
        lemma_succ_contains(self.ends@, u, v as usize);
        let j = choose|j: int| 0 <= j < succ(self.ends@, u).len() && succ(self.ends@, u)[j] == v as usize;
        assert(al[succ(self.ends@, u)[j] as int]);
    }

    /// `t` is `d` edges from `v` exactly when an exploration from `v` reached `t` at distance `d`.
    proof fn lemma_near_explored(&self, v: int, t: int, d: int, al: Seq<bool>, ex: Explored)
        requires
            self.sound(v, al, ex.visited@, ex.prev@, ex.dist@, ex.order@),
            0 <= t < self.nodes@.len(),
            ex.visited@[t] || forall|w: int, e: int|
                0 <= w < self.nodes@.len() && #[trigger] self.within(v, w, e, al) ==> ex.visited@[w],
        ensures
            self.near(v, t, d, al) <==> (ex.visited@[t] && ex.dist@[t] == d),
    {
        if ex.visited@[t] {
            assert(self.node_ok(v, al, ex.visited@, ex.prev@, ex.dist@, t));
            if self.near(v, t, d, al) {
                assert(ex.dist@[t] <= d);
                if ex.dist@[t] < d {
                    self.lemma_within_mono(v, t, ex.dist@[t] as int, d - 1, al);
                }
            }
            if ex.dist@[t] == d {
                if self.within(v, t, d - 1, al) {
                    assert(ex.dist@[t] <= d - 1);
                }
            }
        } else {
            if self.near(v, t, d, al) {
                assert(self.within(v, t, d, al));
            }
        }
    }

    /// The walk from `start` to `target` by the fewest edges through allowed nodes that always
    /// steps to the first successor one edge closer; `None` when `target` cannot be reached.
    #[verifier::spinoff_prover]
    #[verifier::rlimit(40)]
    fn greedy_path(&self, start: usize, target: usize, mask: &Vec<bool>) -> (r: Option<Vec<usize>>)
        requires
            self.wf(),
            start < self.nodes@.len(),
            target < self.nodes@.len(),
            mask@.len() == self.nodes@.len(),
        ensures
            r is None <==> !exists|e: int| self.within(start as int, target as int, e, mask@),
            r matches Some(p) ==> {
                &&& p@[0] == start
                &&& self.greedy_walk(as_ints(p@), target as int, mask@)
                &&& self.is_iwalk(as_ints(p@), mask@)
            },
    {
        let n = self.nodes.len();
        let ex = self.explore(start, mask, Some(target));
        if !ex.visited[target] {
            proof {
                assert forall|e: int| !self.within(start as int, target as int, e, mask@) by {
                    if self.within(start as int, target as int, e, mask@) {
                        assert(ex.visited@[target as int]);
                    }
                }
            }
            return None;
        }
        let d0 = ex.dist[target];
        proof {
            self.lemma_near_explored(start as int, target as int, d0 as int, mask@, ex);
            assert(self.within(start as int, target as int, d0 as int, mask@));
        }
        let mut path: Vec<usize> = Vec::new();
        path.push(start);
        let mut u = start;
        let mut d = d0;
        proof {
            assert(self.is_iwalk(as_ints(path@), mask@));
        }
        while d > 0
            invariant
                self.wf(),
                n == self.nodes@.len(),
                mask@.len() == n,
                u < n,
                target < n,
                self.near(u as int, target as int, d as int, mask@),
                path@.len() + d == d0 + 1,
                path@[0] == start,
                path@.last() == u,
                self.is_iwalk(as_ints(path@), mask@),
                forall|i: int| 0 <= i < path@.len() - 1 ==> self.step_to(
                    #[trigger] as_ints(path@)[i],
                    as_ints(path@)[i + 1],
                    target as int,
                    d0 - 1 - i,
                    mask@,
                ),
            decreases d,
        {
            let row = &self.outgoing[u];
            let mut chosen: Option<usize> = None;
            let mut k: usize = 0;
            while k < row.len() && chosen.is_none()
                invariant
                    self.wf(),
                    n == self.nodes@.len(),
                    mask@.len() == n,
                    u < n,
                    target < n,
                    d > 0,
                    row@ == succ(self.ends@, u as int),
                    k <= row@.len(),
                    chosen is None ==> forall|j: int| 0 <= j < k ==> !(mask@[#[trigger] row@[j] as int] && self.near(
                        row@[j] as int,
                        target as int,
                        d - 1,
                        mask@,
                    )),
                    chosen matches Some(c) ==> self.first_closer(u as int, target as int, d - 1, mask@, c as int),
                decreases row@.len() - k,
            {
                let v = row[k];
                proof {
                    assert(row@.contains(v));
                    lemma_succ_contains(self.ends@, u as int, v);
                }
                if mask[v] {
                    let ev = self.explore(v, mask, Some(target));
                    proof {
                        self.lemma_near_explored(v as int, target as int, d - 1, mask@, ev);
                    }
                    if ev.visited[target] && ev.dist[target] == d - 1 {
                        chosen = Some(k);
                    }
                }
                k = k + 1;
            }
            proof {
                if chosen is None {
                    self.lemma_closer_exists(u as int, target as int, d as int, mask@);
                }
            }
            let c = chosen.unwrap();
            let v = row[c];
            let ghost p0 = as_ints(path@);
            path.push(v);
            proof {
                let p1 = as_ints(path@);
                assert(p1 =~= p0.push(v as int));
                assert(self.step_to(u as int, v as int, target as int, d - 1, mask@));
                lemma_succ_contains(self.ends@, u as int, v);
                assert(row@.contains(v));
                assert forall|i: int| 0 <= i < p1.len() implies 0 <= #[trigger] p1[i] < n by {
                    if i < p0.len() {
                        assert(p1[i] == p0[i]);
                    }
                }
                assert forall|i: int| 1 <= i < p1.len() implies mask@[#[trigger] p1[i]] by {
                    if i < p0.len() {
                        assert(p1[i] == p0[i]);
                    }
                }
                assert forall|i: int| 0 <= i < p1.len() - 1 implies self.adj(#[trigger] p1[i], p1[i + 1]) by {
                    if i < p0.len() - 1 {
                        assert(p1[i] == p0[i] && p1[i + 1] == p0[i + 1]);
                    } else {
                        assert(p1[i] == u as int && p1[i + 1] == v as int);
                    }
                }
                assert(self.is_iwalk(p1, mask@));
                assert forall|i: int| 0 <= i < p1.len() - 1 implies self.step_to(
                    #[trigger] p1[i],
                    p1[i + 1],
                    target as int,
                    d0 - 1 - i,
                    mask@,
                ) by {
                    if i < p0.len() - 1 {
                        assert(p1[i] == p0[i] && p1[i + 1] == p0[i + 1]);
                        assert(self.step_to(p0[i], p0[i + 1], target as int, d0 - 1 - i, mask@));
                    } else {
                        assert(p1[i] == u as int && p1[i + 1] == v as int);
                    }
                }
            }
            u = v;
            d = d - 1;
        }
        proof {
            let p = as_ints(path@);
            assert(u == target) by {
                assert(self.within(u as int, target as int, 0, mask@));
                self.lemma_within_zero(u as int, target as int, mask@);
            }
            assert(p.last() == target as int);
            assert forall|i: int| 0 <= i < p.len() - 1 implies self.step_to(#[trigger] p[i], p[i + 1], target as int, p.len() - 2 - i, mask@) by {
                assert(self.step_to(p[i], p[i + 1], target as int, d0 - 1 - i, mask@));
            }
            assert(p[0] == start as int);
            assert(self.greedy_walk(p, target as int, mask@));
        }
        Some(path)
    }
}

/// A node mask with every node allowed.
pub open spec fn all_true(n: nat) -> Seq<bool> {
    Seq::new(n, |i: int| true)
}

/// The module dependency graph: distinct nodes, deduplicated edges and adjacency in edge order.
#[derive(Debug)]
pub struct ModuleGraph {
    data: GraphData,
}

impl ModuleGraph {
    #[verifier::type_invariant]
    pub closed spec fn well_formed(self) -> bool {
        self.data.wf()
    }

    /// Both ends of an edge are nodes of the graph.
    pub proof fn lemma_linked_has_ids(&self, a: Seq<char>, b: Seq<char>)
        requires
            self.well_formed(),
            self.linked(a, b),
        ensures
            self.has_id(a),
            self.has_id(b),
    {
        let k = choose|k: int| 0 <= k < self.arcs().len() && self.arcs()[k].0 == a && self.arcs()[k].1 == b;
        assert(self.arcs()[k] == arc_of(self.data.edges@[k]));
        let i = self.data.ends@[k].0 as int;
        let j = self.data.ends@[k].1 as int;
        assert(self.ids()[i] == a);
        assert(self.ids()[j] == b);
    }

    /// The node ids, in node order.
    pub closed spec fn ids(&self) -> Seq<Seq<char>> {
        self.data.ids()
    }

    /// The edges as plain values, in edge order.
    pub closed spec fn arcs(&self) -> Seq<ArcView> {
        self.data.arcs()
    }

    /// The edges with their locations, in edge order.
    pub closed spec fn located(&self) -> Seq<LocatedView> {
        self.data.located()
    }

    pub open spec fn has_id(&self, a: Seq<char>) -> bool {
        self.ids().contains(a)
    }

    /// Some edge goes from `a` to `b`.
    pub open spec fn linked(&self, a: Seq<char>, b: Seq<char>) -> bool {
        exists|k: int| 0 <= k < self.arcs().len() && self.arcs()[k].0 == a && self.arcs()[k].1 == b
    }

    /// `p` is a walk: graph nodes joined by edges.
    pub open spec fn is_walk(&self, p: Seq<Seq<char>>) -> bool {
        &&& p.len() >= 1
        &&& forall|i: int| 0 <= i < p.len() ==> self.has_id(#[trigger] p[i])
        &&& forall|i: int| 0 <= i < p.len() - 1 ==> self.linked(#[trigger] p[i], p[i + 1])
    }

    /// `b` can be reached from `a` over at least one edge.
    pub open spec fn reaches(&self, a: Seq<char>, b: Seq<char>) -> bool {
        exists|p: Seq<Seq<char>>| #[trigger] self.is_walk(p) && p.len() >= 2 && p[0] == a && p.last() == b
    }

    /// The ids of the targets of the edges leaving `a`, in edge order.
    pub open spec fn targets(&self, a: Seq<char>) -> Seq<Seq<char>> {
        targets_in(self.arcs(), a)
    }

    /// The ids of the sources of the edges entering `a`, in edge order.
    pub open spec fn sources(&self, a: Seq<char>) -> Seq<Seq<char>> {
        sources_in(self.arcs(), a)
    }

    pub fn new() -> (r: Self)
        ensures
            r.ids().len() == 0,
            r.arcs().len() == 0,
    {
        ModuleGraph { data: GraphData::empty() }
    }

    pub fn node_count(&self) -> (r: usize)
        ensures
            r == self.ids().len(),
    {
        self.data.nodes.len()
    }

    pub fn edge_count(&self) -> (r: usize)
        ensures
            r == self.arcs().len(),
    {
        self.data.edges.len()
    }

    /// The nodes, in node order.
    pub fn nodes(&self) -> (r: &[ModuleId])
        ensures
            r@.map_values(|m: ModuleId| m@) == self.ids(),
    {
        self.data.nodes.as_slice()
    }

    /// The edges, in edge order.
    pub fn edges(&self) -> (r: &[Dependency])
        ensures
            r@.map_values(|d: Dependency| arc_of(d)) == self.arcs(),
            r@.map_values(|d: Dependency| located_of(d)) == self.located(),
    {
        self.data.edges.as_slice()
    }

    pub fn has_node(&self, node: &ModuleId) -> (r: bool)
        ensures
            r == self.has_id(node@),
    {
        proof {
            use_type_invariant(self);
        }
        match self.data.find(node) {
            Some(i) => {
                assert(self.ids()[i as int] == node@);
                true
            },
            None => {
                assert(!self.ids().contains(node@)) by {
                    if self.ids().contains(node@) {
                        let i = choose|i: int| 0 <= i < self.ids().len() && self.ids()[i] == node@;
                        assert(self.data.nodes@[i]@ == node@);
                    }
                }
                false
            },
        }
    }

    /// The modules `node` imports, one per edge, in edge order (empty for an unknown node).
    pub fn neighbors(&self, node: &ModuleId) -> (r: Vec<ModuleId>)
        ensures
            r@.map_values(|m: ModuleId| m@) == self.targets(node@),
    {
        self.outgoing(node)
    }

    /// The modules `node` imports, one per edge, in edge order (empty for an unknown node).
    pub fn outgoing(&self, node: &ModuleId) -> (r: Vec<ModuleId>)
        ensures
            r@.map_values(|m: ModuleId| m@) == self.targets(node@),
    {
        proof {
            use_type_invariant(self);
        }
        let index = match self.data.find(node) {
            Some(i) => i,
            None => {
                proof {
                    self.data.lemma_targets_absent(node@, self.data.edges@.len() as int);
                    assert(self.data.arcs().take(self.data.edges@.len() as int) =~= self.data.arcs());
                }
                return Vec::new();
            },
        };
        let row = &self.data.outgoing[index];
        let mut out: Vec<ModuleId> = Vec::new();
        let mut m: usize = 0;
        proof {
            self.data.lemma_targets_succ(index as int, self.data.edges@.len() as int);
            assert(self.data.arcs().take(self.data.edges@.len() as int) =~= self.data.arcs());
            assert(self.data.ends@.take(self.data.edges@.len() as int) =~= self.data.ends@);
        }
        while m < row.len()
            invariant
                self.data.wf(),
                index < self.data.nodes@.len(),
                row@ == succ(self.data.ends@, index as int),
                m <= row@.len(),
                succ(self.data.ends@, index as int).map_values(|j: usize| self.data.ids()[j as int]) == self.targets(node@),
                out@.map_values(|x: ModuleId| x@) == row@.take(m as int).map_values(|j: usize| self.data.ids()[j as int]),
            decreases row@.len() - m,
        {
            let j = row[m];
            proof {
                lemma_succ_contains(self.data.ends@, index as int, j);
                assert(row@.contains(j));
            }
            let ghost prev = out@;
            out.push(self.data.nodes[j].duplicate());
            proof {
                assert(row@.take(m + 1) =~= row@.take(m as int).push(j));
                assert(out@.map_values(|x: ModuleId| x@) =~= prev.map_values(|x: ModuleId| x@).push(self.data.ids()[j as int]));
                assert(row@.take(m + 1).map_values(|j: usize| self.data.ids()[j as int]) =~= row@.take(m as int).map_values(|j: usize| self.data.ids()[j as int]).push(self.data.ids()[j as int]));
            }
            m = m + 1;
        }
        assert(row@.take(m as int) =~= row@);
        out
    }

    /// The modules importing `node`, one per edge, in edge order (empty for an unknown node).
    pub fn incoming(&self, node: &ModuleId) -> (r: Vec<ModuleId>)
        ensures
            r@.map_values(|m: ModuleId| m@) == self.sources(node@),
    {
        proof {
            use_type_invariant(self);
        }
        let index = match self.data.find(node) {
            Some(i) => i,
            None => {
                proof {
                    self.data.lemma_sources_absent(node@, self.data.edges@.len() as int);
                    assert(self.data.arcs().take(self.data.edges@.len() as int) =~= self.data.arcs());
                }
                return Vec::new();
            },
        };
        let col = &self.data.incoming[index];
        let mut out: Vec<ModuleId> = Vec::new();
        let mut m: usize = 0;
        proof {
            self.data.lemma_sources_pred(index as int, self.data.edges@.len() as int);
            assert(self.data.arcs().take(self.data.edges@.len() as int) =~= self.data.arcs());
            assert(self.data.ends@.take(self.data.edges@.len() as int) =~= self.data.ends@);
        }
        while m < col.len()
            invariant
                self.data.wf(),
                index < self.data.nodes@.len(),
                col@ == pred(self.data.ends@, index as int),
                m <= col@.len(),
                pred(self.data.ends@, index as int).map_values(|j: usize| self.data.ids()[j as int]) == self.sources(node@),
                out@.map_values(|x: ModuleId| x@) == col@.take(m as int).map_values(|j: usize| self.data.ids()[j as int]),
            decreases col@.len() - m,
        {
            let j = col[m];
            proof {
                lemma_pred_contains(self.data.ends@, index as int, j);
                assert(col@.contains(j));
            }
            let ghost prev = out@;
            out.push(self.data.nodes[j].duplicate());
            proof {
                assert(col@.take(m + 1) =~= col@.take(m as int).push(j));
                assert(out@.map_values(|x: ModuleId| x@) =~= prev.map_values(|x: ModuleId| x@).push(self.data.ids()[j as int]));
                assert(col@.take(m + 1).map_values(|j: usize| self.data.ids()[j as int]) =~= col@.take(m as int).map_values(|j: usize| self.data.ids()[j as int]).push(self.data.ids()[j as int]));
            }
            m = m + 1;
        }
        assert(col@.take(m as int) =~= col@);
        out
    }
}

impl GraphData {
    proof fn lemma_targets_absent(&self, a: Seq<char>, len: int)
        requires
            self.wf(),
            0 <= len <= self.edges@.len(),
            forall|i: int| 0 <= i < self.nodes@.len() ==> self.nodes@[i]@ != a,
        ensures
            targets_in(self.arcs().take(len), a) == Seq::<Seq<char>>::empty(),
        decreases len,
    {
        if len > 0 {
            self.lemma_targets_absent(a, len - 1);
            assert(self.arcs().take(len).drop_last() =~= self.arcs().take(len - 1));
            assert(self.arcs()[len - 1].0 == self.nodes@[self.ends@[len - 1].0 as int]@);
        }
    }

    proof fn lemma_sources_absent(&self, a: Seq<char>, len: int)
        requires
            self.wf(),
            0 <= len <= self.edges@.len(),
            forall|i: int| 0 <= i < self.nodes@.len() ==> self.nodes@[i]@ != a,
        ensures
            sources_in(self.arcs().take(len), a) == Seq::<Seq<char>>::empty(),
        decreases len,
    {
        if len > 0 {
            self.lemma_sources_absent(a, len - 1);
            assert(self.arcs().take(len).drop_last() =~= self.arcs().take(len - 1));
            assert(self.arcs()[len - 1].1 == self.nodes@[self.ends@[len - 1].1 as int]@);
        }
    }

    proof fn lemma_targets_succ(&self, i: int, len: int)
        requires
            self.wf(),
            0 <= i < self.nodes@.len(),
            0 <= len <= self.edges@.len(),
        ensures
            succ(self.ends@.take(len), i).map_values(|j: usize| self.ids()[j as int]) == targets_in(
                self.arcs().take(len),
                self.ids()[i],
            ),
        decreases len,
    {
        if len > 0 {
            self.lemma_targets_succ(i, len - 1);
            assert(self.arcs().take(len).drop_last() =~= self.arcs().take(len - 1));
            assert(self.ends@.take(len).drop_last() =~= self.ends@.take(len - 1));
            let k = len - 1;
            let e = self.ends@[k];
            assert(self.arcs()[k].0 == self.ids()[e.0 as int]);
            assert(self.arcs()[k].1 == self.ids()[e.1 as int]);
            assert((e.0 as int == i) <==> (self.ids()[e.0 as int] == self.ids()[i]));
            if e.0 as int == i {
                assert(succ(self.ends@.take(len), i).map_values(|j: usize| self.ids()[j as int]) =~= succ(
                    self.ends@.take(len - 1),
                    i,
                ).map_values(|j: usize| self.ids()[j as int]).push(self.ids()[e.1 as int]));
            }
        }
    }

    proof fn lemma_sources_pred(&self, i: int, len: int)
        requires
            self.wf(),
            0 <= i < self.nodes@.len(),
            0 <= len <= self.edges@.len(),
        ensures
            pred(self.ends@.take(len), i).map_values(|j: usize| self.ids()[j as int]) == sources_in(
                self.arcs().take(len),
                self.ids()[i],
            ),
        decreases len,
    {
        if len > 0 {
            self.lemma_sources_pred(i, len - 1);
            assert(self.arcs().take(len).drop_last() =~= self.arcs().take(len - 1));
            assert(self.ends@.take(len).drop_last() =~= self.ends@.take(len - 1));
            let k = len - 1;
            let e = self.ends@[k];
            assert(self.arcs()[k].0 == self.ids()[e.0 as int]);
            assert(self.arcs()[k].1 == self.ids()[e.1 as int]);
            assert((e.1 as int == i) <==> (self.ids()[e.1 as int] == self.ids()[i]));
            if e.1 as int == i {
                assert(pred(self.ends@.take(len), i).map_values(|j: usize| self.ids()[j as int]) =~= pred(
                    self.ends@.take(len - 1),
                    i,
                ).map_values(|j: usize| self.ids()[j as int]).push(self.ids()[e.0 as int]));
            }
        }
    }
}

impl ModuleGraph {
    /// The index holding an id.
    spec fn index_of(&self, x: Seq<char>) -> int {
        choose|i: int| 0 <= i < self.data.nodes@.len() && self.data.nodes@[i]@ == x
    }

    proof fn lemma_index_of(&self, x: Seq<char>)
        requires
            self.data.wf(),
            self.has_id(x),
        ensures
            0 <= self.index_of(x) < self.data.nodes@.len(),
            self.ids()[self.index_of(x)] == x,
            forall|j: int| 0 <= j < self.data.nodes@.len() && self.ids()[j] == x ==> j == self.index_of(x),
    {
        let i = choose|i: int| 0 <= i < self.ids().len() && self.ids()[i] == x;
        assert(self.data.nodes@[i]@ == x);
        let k = self.index_of(x);
        assert forall|j: int| 0 <= j < self.data.nodes@.len() && self.ids()[j] == x implies j == k by {
            assert(self.data.nodes@[j]@ == x);
            if j != k {
                if j < k {
                    assert(self.data.nodes@[j]@ != self.data.nodes@[k]@);
                } else {
                    assert(self.data.nodes@[k]@ != self.data.nodes@[j]@);
                }
            }
        }
    }

    proof fn lemma_adj_linked(&self, i: int, j: int)
        requires
            self.data.wf(),
            0 <= i < self.data.nodes@.len(),
            0 <= j < self.data.nodes@.len(),
        ensures
            self.data.adj(i, j) <==> self.linked(self.ids()[i], self.ids()[j]),
    {
        if self.data.adj(i, j) {
            let k = choose|k: int| 0 <= k < self.data.ends@.len() && self.data.ends@[k].0 == i && self.data.ends@[k].1 == j;
            assert(self.arcs()[k].0 == self.ids()[i] && self.arcs()[k].1 == self.ids()[j]);
        }
        if self.linked(self.ids()[i], self.ids()[j]) {
            let k = choose|k: int| 0 <= k < self.arcs().len() && self.arcs()[k].0 == self.ids()[i] && self.arcs()[k].1 == self.ids()[j];
            let e = self.data.ends@[k];
            assert(self.ids()[e.0 as int] == self.ids()[i]);
            assert(self.ids()[e.1 as int] == self.ids()[j]);
            assert(self.data.nodes@[e.0 as int]@ == self.data.nodes@[i]@);
            assert(self.data.nodes@[e.1 as int]@ == self.data.nodes@[j]@);
            if e.0 as int != i {
                if (e.0 as int) < i {
                    assert(self.data.nodes@[e.0 as int]@ != self.data.nodes@[i]@);
                } else {
                    assert(self.data.nodes@[i]@ != self.data.nodes@[e.0 as int]@);
                }
            }
            if e.1 as int != j {
                if (e.1 as int) < j {
                    assert(self.data.nodes@[e.1 as int]@ != self.data.nodes@[j]@);
                } else {
                    assert(self.data.nodes@[j]@ != self.data.nodes@[e.1 as int]@);
                }
            }
        }
    }

    /// An index walk names an id walk.
    proof fn lemma_walk_ids(&self, p: Seq<int>, al: Seq<bool>)
        requires
            self.data.wf(),
            self.data.is_iwalk(p, al),
        ensures
            self.is_walk(p.map_values(|i: int| self.ids()[i])),
    {
        let q = p.map_values(|i: int| self.ids()[i]);
        assert forall|i: int| 0 <= i < q.len() implies self.has_id(#[trigger] q[i]) by {
            assert(0 <= p[i] < self.data.nodes@.len());
            assert(self.ids()[p[i]] == q[i]);
        }
        assert forall|i: int| 0 <= i < q.len() - 1 implies self.linked(#[trigger] q[i], q[i + 1]) by {
            assert(self.data.adj(p[i], p[i + 1]));
            self.lemma_adj_linked(p[i], p[i + 1]);
        }
    }

    /// An id walk is named by an index walk, when every node is allowed.
    proof fn lemma_ids_walk(&self, q: Seq<Seq<char>>, al: Seq<bool>) -> (p: Seq<int>)
        requires
            self.data.wf(),
            self.is_walk(q),
            al.len() == self.data.nodes@.len(),
            forall|i: int| 0 <= i < al.len() ==> al[i],
        ensures
            self.data.is_iwalk(p, al),
            p.len() == q.len(),
            forall|i: int| 0 <= i < p.len() ==> p[i] == self.index_of(#[trigger] q[i]),
    {
        let p = q.map_values(|x: Seq<char>| self.index_of(x));
        assert forall|i: int| 0 <= i < p.len() implies 0 <= #[trigger] p[i] < self.data.nodes@.len() by {
            assert(self.has_id(q[i]));
            self.lemma_index_of(q[i]);
        }
        assert forall|i: int| 0 <= i < p.len() - 1 implies self.data.adj(#[trigger] p[i], p[i + 1]) by {
            assert(self.has_id(q[i]));
            assert(self.has_id(q[i + 1]));
            self.lemma_index_of(q[i]);
            self.lemma_index_of(q[i + 1]);
            assert(self.linked(q[i], q[i + 1]));
            self.lemma_adj_linked(p[i], p[i + 1]);
        }
        assert forall|i: int| 1 <= i < p.len() implies al[#[trigger] p[i]] by {
            assert(self.has_id(q[i]));
            self.lemma_index_of(q[i]);
        }
        p
    }

    /// The modules reachable from `start` over at least one edge, excluding `start` itself, each
    /// once, in breadth-first discovery order (empty for an unknown module).
    pub fn reachable_from(&self, start: &ModuleId) -> (r: Vec<ModuleId>)
        ensures
            forall|i: int, j: int| 0 <= i < j < r@.len() ==> r@[i]@ != r@[j]@,
            forall|x: Seq<char>|
                #[trigger] ids_of(r@).contains(x) <==> (x != start@ && self.reaches(start@, x)),
    {
        proof {
            use_type_invariant(self);
        }
        let n = self.data.nodes.len();
        let s = match self.data.find(start) {
            Some(i) => i,
            None => {
                proof {
                    assert forall|x: Seq<char>| !self.reaches(start@, x) by {
                        if self.reaches(start@, x) {
                            let p = choose|p: Seq<Seq<char>>| #[trigger] self.is_walk(p) && p.len() >= 2 && p[0] == start@ && p.last() == x;
                            assert(self.has_id(p[0]));
                            let i = choose|i: int| 0 <= i < self.ids().len() && self.ids()[i] == start@;
                            assert(self.data.nodes@[i]@ == start@);
                        }
                    }
                }
                let e: Vec<ModuleId> = Vec::new();
                assert(e@.map_values(|m: ModuleId| m@) =~= Seq::<Seq<char>>::empty());
                return e;
            },
        };
        let allowed = filled(true, n);
        let ex = self.data.explore(s, &allowed, None);
        let mut out: Vec<ModuleId> = Vec::new();
        let mut k: usize = 1;
        while k < ex.order.len()
            invariant
                self.data.wf(),
                1 <= k <= ex.order@.len(),
                self.data.sound(s as int, allowed@, ex.visited@, ex.prev@, ex.dist@, ex.order@),
                out@.len() == k - 1,
                forall|i: int| 0 <= i < out@.len() ==> #[trigger] out@[i]@ == self.ids()[ex.order@[i + 1] as int],
            decreases ex.order@.len() - k,
        {
            out.push(self.data.nodes[ex.order[k]].duplicate());
            k = k + 1;
        }
        proof {
            let ov = out@.map_values(|m: ModuleId| m@);
            assert forall|i: int, j: int| 0 <= i < j < out@.len() implies out@[i]@ != out@[j]@ by {
                let a = ex.order@[i + 1] as int;
                let b = ex.order@[j + 1] as int;
                assert(a != b);
                if a < b {
                    assert(self.data.nodes@[a]@ != self.data.nodes@[b]@);
                } else {
                    assert(self.data.nodes@[b]@ != self.data.nodes@[a]@);
                }
            }
            assert(self.ids()[s as int] == start@);
            self.lemma_index_of(start@);
            assert forall|x: Seq<char>| ov.contains(x) <==> (x != start@ && self.reaches(start@, x)) by {
                if ov.contains(x) {
                    let i = choose|i: int| 0 <= i < ov.len() && ov[i] == x;
                    let v = ex.order@[i + 1] as int;
                    assert(ex.order@.contains(v as usize));
                    assert(ex.visited@[v]);
                    assert(self.data.node_ok(s as int, allowed@, ex.visited@, ex.prev@, ex.dist@, v));
                    assert(v != s as int) by {
                        assert(ex.order@[0] == s);
                    }
                    let p = choose|p: Seq<int>| #[trigger] self.data.is_iwalk(p, allowed@) && p[0] == s as int && p.last() == v && p.len() <= ex.dist@[v] + 1;
                    self.lemma_walk_ids(p, allowed@);
                    let q = p.map_values(|i: int| self.ids()[i]);
                    assert(q[0] == start@);
                    assert(q.last() == x);
                    assert(p.len() >= 2);
                    assert(self.ids()[v] != self.ids()[s as int]) by {
                        if v < s as int {
                            assert(self.data.nodes@[v]@ != self.data.nodes@[s as int]@);
                        } else {
                            assert(self.data.nodes@[s as int]@ != self.data.nodes@[v]@);
                        }
                    }
                }
                if x != start@ && self.reaches(start@, x) {
                    let q = choose|q: Seq<Seq<char>>| #[trigger] self.is_walk(q) && q.len() >= 2 && q[0] == start@ && q.last() == x;
                    let p = self.lemma_ids_walk(q, allowed@);
                    assert(p[0] == s as int);
                    let v = p.last();
                    assert(self.has_id(q.last()));
                    self.lemma_index_of(x);
                    assert(self.data.within(s as int, v, (p.len() - 1) as int, allowed@));
                    assert(ex.visited@[v]);
                    let k = choose|k: int| 0 <= k < ex.order@.len() && ex.order@[k] == v as usize;
                    assert(k != 0) by {
                        if k == 0 {
                            assert(self.ids()[s as int] == start@);
                        }
                    }
                    assert(ov[k - 1] == x);
                }
            }
        }
        out
    }

    /// Whether `to` can be reached from `from`; a known module always reaches itself.
    pub fn has_path(&self, from: &ModuleId, to: &ModuleId) -> (r: bool)
        ensures
            r == if from@ == to@ {
                self.has_id(from@)
            } else {
                self.reaches(from@, to@)
            },
    {
        proof {
            use_type_invariant(self);
        }
        if from.0 == to.0 {
            return self.has_node(from);
        }
        let n = self.data.nodes.len();
        let s = match self.data.find(from) {
            Some(i) => i,
            None => {
                proof {
                    if self.reaches(from@, to@) {
                        let p = choose|p: Seq<Seq<char>>| #[trigger] self.is_walk(p) && p.len() >= 2 && p[0] == from@ && p.last() == to@;
                        assert(self.has_id(p[0]));
                        let i = choose|i: int| 0 <= i < self.ids().len() && self.ids()[i] == from@;
                        assert(self.data.nodes@[i]@ == from@);
                    }
                }
                return false;
            },
        };
        let t = match self.data.find(to) {
            Some(i) => i,
            None => {
                proof {
                    if self.reaches(from@, to@) {
                        let p = choose|p: Seq<Seq<char>>| #[trigger] self.is_walk(p) && p.len() >= 2 && p[0] == from@ && p.last() == to@;
                        assert(self.has_id(p[p.len() - 1]));
                        let i = choose|i: int| 0 <= i < self.ids().len() && self.ids()[i] == to@;
                        assert(self.data.nodes@[i]@ == to@);
                    }
                }
                return false;
            },
        };
        let allowed = filled(true, n);
        let ex = self.data.explore(s, &allowed, None);
        let found = ex.visited[t];
        proof {
            assert(self.ids()[s as int] == from@);
            assert(self.ids()[t as int] == to@);
            self.lemma_index_of(from@);
            self.lemma_index_of(to@);
            if found {
                assert(self.data.node_ok(s as int, allowed@, ex.visited@, ex.prev@, ex.dist@, t as int));
                let p = choose|p: Seq<int>| #[trigger] self.data.is_iwalk(p, allowed@) && p[0] == s as int && p.last() == t as int && p.len() <= ex.dist@[t as int] + 1;
                self.lemma_walk_ids(p, allowed@);
                let q = p.map_values(|i: int| self.ids()[i]);
                assert(p.len() >= 2) by {
                    if p.len() < 2 {
                        assert(p[0] == p.last());
                    }
                }
                assert(q[0] == from@ && q.last() == to@);
            }
            if self.reaches(from@, to@) {
                let q = choose|q: Seq<Seq<char>>| #[trigger] self.is_walk(q) && q.len() >= 2 && q[0] == from@ && q.last() == to@;
                let p = self.lemma_ids_walk(q, allowed@);
                assert(self.data.within(s as int, t as int, (p.len() - 1) as int, allowed@));
            }
        }
        found
    }

    /// The breadth-first walk from `from` to `to`, both included: a shortest one that at each
    /// step takes the first import still on a shortest way; `None` when either module is unknown
    /// or `to` cannot be reached; `[from]` when they are the same module.
    pub fn shortest_path(&self, from: &ModuleId, to: &ModuleId) -> (r: Option<Vec<ModuleId>>)
        ensures
            r is Some <==> (self.has_id(from@) && self.has_id(to@) && (from@ == to@ || self.reaches(from@, to@))),
            r matches Some(p) ==> {
                let q = ids_of(p@);
                &&& self.is_walk(q)
                &&& q[0] == from@
                &&& q.last() == to@
                &&& forall|w: Seq<Seq<char>>| #[trigger] self.is_walk(w) && w[0] == from@ && w.last() == to@ ==> q.len() <= w.len()
                &&& self.breadth_first(q, from@, self.no_mask(), self.only_mask(to@))
            },
    {
        let nodes = self.nodes();
        let mut blocked: Vec<bool> = Vec::new();
        let mut wanted: Vec<bool> = Vec::new();
        let mut i: usize = 0;
        while i < nodes.len()
            invariant
                nodes@.map_values(|m: ModuleId| m@) == self.ids(),
                i <= nodes@.len(),
                blocked@.len() == i,
                wanted@.len() == i,
                forall|k: int| 0 <= k < i ==> !blocked@[k],
                forall|k: int| 0 <= k < i ==> wanted@[k] == (#[trigger] self.ids()[k] == to@),
            decreases nodes@.len() - i,
        {
            proof {
                assert(self.ids()[i as int] == nodes@[i as int]@);
            }
            blocked.push(false);
            wanted.push(text_equal(nodes[i].0.as_str(), to.0.as_str()));
            i = i + 1;
        }
        proof {
            assert(blocked@ =~= self.no_mask());
            assert(wanted@ =~= self.only_mask(to@));
        }
        let r = self.nearest(from, &blocked, &wanted);
        proof {
            assert forall|w: Seq<Seq<char>>|
                #![trigger self.leads_to(w, from@, blocked@, wanted@)]
                #![trigger self.is_walk(w)]
                self.leads_to(w, from@, blocked@, wanted@) <==> (self.is_walk(w) && w[0] == from@ && w.last() == to@) by {
                if self.is_walk(w) {
                    assert(self.avoids(w, blocked@));
                    assert(self.has_id(w[w.len() - 1]));
                    if w.last() == to@ {
                        let j = choose|j: int| 0 <= j < self.ids().len() && self.ids()[j] == w.last();
                        assert(self.marked(wanted@, w.last()));
                    }
                }
            }
            if self.has_id(from@) && self.has_id(to@) && (from@ == to@ || self.reaches(from@, to@)) {
                if from@ == to@ {
                    let w = seq![from@];
                    assert(self.is_walk(w));
                    assert(self.leads_to(w, from@, blocked@, wanted@));
                } else {
                    let w = choose|q: Seq<Seq<char>>| #[trigger] self.is_walk(q) && q.len() >= 2 && q[0] == from@ && q.last() == to@;
                    assert(self.leads_to(w, from@, blocked@, wanted@));
                }
            }
            if exists|w: Seq<Seq<char>>| #[trigger] self.leads_to(w, from@, blocked@, wanted@) {
                let w = choose|w: Seq<Seq<char>>| #[trigger] self.leads_to(w, from@, blocked@, wanted@);
                assert(self.has_id(w[0]));
                assert(self.has_id(w[w.len() - 1]));
                if w.len() >= 2 {
                    assert(self.reaches(from@, to@));
                }
            }
            if r is Some {
                let q = ids_of((r->0)@);
                assert(self.leads_to(q, from@, blocked@, wanted@));
                assert forall|w: Seq<Seq<char>>| #[trigger] self.is_walk(w) && w[0] == from@ && w.last() == to@ implies q.len() <= w.len() by {
                    assert(self.leads_to(w, from@, blocked@, wanted@));
                }
            }
        }
        r
    }
}


/// The position of a dependency kind in the edge order.
pub open spec fn kind_rank(kind: DependencyKind) -> int {
    match kind {
        DependencyKind::Static => 0,
        DependencyKind::Dynamic => 1,
        DependencyKind::TypeOnly => 2,
        DependencyKind::ReExport => 3,
        DependencyKind::Require => 4,
    }
}

fn dependency_kind_rank(kind: DependencyKind) -> (r: u8)
    ensures
        r == kind_rank(kind),
{
    match kind {
        DependencyKind::Static => 0,
        DependencyKind::Dynamic => 1,
        DependencyKind::TypeOnly => 2,
        DependencyKind::ReExport => 3,
        DependencyKind::Require => 4,
    }
}

/// The order of edges: by source id, then target id, then kind.
pub open spec fn arc_lt(a: ArcView, b: ArcView) -> bool {
    ||| text_lt(a.0, b.0)
    ||| (a.0 == b.0 && text_lt(a.1, b.1))
    ||| (a.0 == b.0 && a.1 == b.1 && kind_rank(a.2) < kind_rank(b.2))
}

pub proof fn lemma_arc_lt_total(a: ArcView, b: ArcView)
    ensures
        a == b || arc_lt(a, b) || arc_lt(b, a),
{
    lemma_text_lt_total(a.0, b.0);
    lemma_text_lt_total(a.1, b.1);
}

impl Ranked for ModuleId {
    open spec fn precedes(&self, other: &Self) -> bool {
        text_lt(self@, other@)
    }

    proof fn lemma_irreflexive(a: &Self) {
        lemma_text_lt_irreflexive(a@);
    }

    proof fn lemma_transitive(a: &Self, b: &Self, c: &Self) {
        lemma_text_lt_transitive(a@, b@, c@);
    }

    proof fn lemma_negatively_transitive(a: &Self, b: &Self, c: &Self) {
        lemma_text_lt_negatively_transitive(a@, b@, c@);
    }

    fn comes_before(&self, other: &Self) -> (r: bool) {
        text_less(self.0.as_str(), other.0.as_str())
    }
}

impl Ranked for Dependency {
    open spec fn precedes(&self, other: &Self) -> bool {
        arc_lt(arc_of(*self), arc_of(*other))
    }

    proof fn lemma_irreflexive(a: &Self) {
        lemma_text_lt_irreflexive(a.from@);
        lemma_text_lt_irreflexive(a.to@);
    }

    proof fn lemma_transitive(a: &Self, b: &Self, c: &Self) {
        if text_lt(a.from@, b.from@) && text_lt(b.from@, c.from@) {
            lemma_text_lt_transitive(a.from@, b.from@, c.from@);
        }
        if text_lt(a.to@, b.to@) && text_lt(b.to@, c.to@) {
            lemma_text_lt_transitive(a.to@, b.to@, c.to@);
        }
    }

    proof fn lemma_negatively_transitive(a: &Self, b: &Self, c: &Self) {
        lemma_text_lt_negatively_transitive(a.from@, b.from@, c.from@);
        if !text_lt(a.to@, b.to@) && !text_lt(b.to@, c.to@) {
            lemma_text_lt_negatively_transitive(a.to@, b.to@, c.to@);
        }
        lemma_text_lt_total(a.from@, b.from@);
        lemma_text_lt_total(a.to@, b.to@);
        lemma_text_lt_total(b.from@, c.from@);
        lemma_text_lt_total(b.to@, c.to@);
    }

    fn comes_before(&self, other: &Self) -> (r: bool) {
        let a = self.from.0.as_str();
        let b = other.from.0.as_str();
        if text_less(a, b) {
            return true;
        }
        if !text_equal(a, b) {
            return false;
        }
        let c = self.to.0.as_str();
        let d = other.to.0.as_str();
        if text_less(c, d) {
            return true;
        }
        if !text_equal(c, d) {
            return false;
        }
        dependency_kind_rank(self.kind) < dependency_kind_rank(other.kind)
    }
}

/// Collects nodes and edges in insertion order; `build` orders them.
#[derive(Debug)]
pub struct ModuleGraphBuilder {
    data: GraphData,
}

impl ModuleGraphBuilder {
    #[verifier::type_invariant]
    spec fn well_formed(self) -> bool {
        self.data.wf()
    }

    /// The node ids collected so far, in insertion order.
    pub closed spec fn ids(&self) -> Seq<Seq<char>> {
        self.data.ids()
    }

    /// The distinct edges collected so far, in insertion order.
    pub closed spec fn arcs(&self) -> Seq<ArcView> {
        self.data.arcs()
    }

    /// The edges collected so far with their locations, in insertion order.
    pub closed spec fn located(&self) -> Seq<LocatedView> {
        self.data.located()
    }

    pub fn new() -> (r: Self)
        ensures
            r.ids().len() == 0,
            r.arcs().len() == 0,
            r.located().len() == 0,
    {
        ModuleGraphBuilder { data: GraphData::empty() }
    }

    /// Adds a node unless one with its id is there.
    pub fn add_node(self, node: ModuleId) -> (r: Self)
        ensures
            r.ids() == with_id(self.ids(), node@),
            r.arcs() == self.arcs(),
            r.located() == self.located(),
    {
        proof {
            use_type_invariant(&self);
        }
        let ModuleGraphBuilder { mut data } = self;
        data.add_node(node);
        ModuleGraphBuilder { data }
    }

    /// Adds an edge, and its endpoints where they are missing, unless an edge with the same
    /// endpoints and kind is there.
    pub fn add_edge(self, edge: Dependency) -> (r: Self)
        ensures
            r.arcs() == with_arc(self.arcs(), arc_of(edge)),
            r.located() == (if self.arcs().contains(arc_of(edge)) {
                self.located()
            } else {
                self.located().push(located_of(edge))
            }),
            r.ids() == (if self.arcs().contains(arc_of(edge)) {
                self.ids()
            } else {
                with_id(with_id(self.ids(), edge.from@), edge.to@)
            }),
    {
        proof {
            use_type_invariant(&self);
            self.data.lemma_arcs_contains(arc_of(edge));
        }
        let ModuleGraphBuilder { mut data } = self;
        let ghost before = data.edges@;
        data.add_edge(edge);
        proof {
            if !self.arcs().contains(arc_of(edge)) {
                assert(data.edges@ == before.push(edge));
                assert(data.located() =~= self.located().push(located_of(edge)));
            }
        }
        ModuleGraphBuilder { data }
    }

    /// The graph with the same nodes and edges, nodes ordered by id and edges by source, target
    /// and kind.
    #[verifier::spinoff_prover]
    pub fn build(self) -> (r: ModuleGraph)
        ensures
            forall|i: int, j: int| 0 <= i < j < r.ids().len() ==> text_lt(r.ids()[i], r.ids()[j]),
            r.ids().len() == self.ids().len(),
            forall|x: Seq<char>| r.ids().contains(x) <==> self.ids().contains(x),
            forall|i: int, j: int| 0 <= i < j < r.arcs().len() ==> arc_lt(r.arcs()[i], r.arcs()[j]),
            r.arcs().len() == self.arcs().len(),
            forall|a: ArcView| r.arcs().contains(a) <==> self.arcs().contains(a),
            forall|v: LocatedView| r.located().contains(v) <==> self.located().contains(v),
    {
        proof {
            use_type_invariant(&self);
        }
        let ghost ids0 = self.ids();
        let ghost arcs0 = self.arcs();
        let ghost loc0 = self.located();
        let ModuleGraphBuilder { data } = self;
        let ghost data0 = data;
        let GraphData { nodes, edges, .. } = data;
        let ghost nodes0 = nodes@;
        let ghost edges0 = edges@;
        let nodes = sort_ranked(nodes);
        let edges = sort_ranked(edges);
        let ghost vid = |m: ModuleId| m@;
        let ghost varc = |d: Dependency| arc_of(d);
        let ghost vloc = |d: Dependency| located_of(d);
        let ghost sids = nodes@.map_values(vid);
        let ghost sarcs = edges@.map_values(varc);
        proof {
            assert(ids0 == nodes0.map_values(vid));
            assert(arcs0 == edges0.map_values(varc));
            lemma_reorder_distinct(nodes@, nodes0, vid);
            lemma_reorder_distinct(edges@, edges0, varc);
            assert forall|x: Seq<char>| sids.contains(x) <==> ids0.contains(x) by {
                lemma_reorder_image(nodes@, nodes0, vid, x);
            }
            assert forall|a: ArcView| sarcs.contains(a) <==> arcs0.contains(a) by {
                lemma_reorder_image(edges@, edges0, varc, a);
            }
            assert(loc0 == edges0.map_values(vloc));
            assert forall|v: LocatedView| edges@.map_values(vloc).contains(v) <==> loc0.contains(v) by {
                lemma_reorder_image(edges@, edges0, vloc, v);
            }
            assert forall|i: int, j: int| 0 <= i < j < sids.len() implies text_lt(sids[i], sids[j]) by {
                assert(!nodes@[j].precedes(&nodes@[i]));
                assert(vid(nodes@[i]) != vid(nodes@[j]));
                lemma_text_lt_total(sids[i], sids[j]);
            }
            assert forall|i: int, j: int| 0 <= i < j < sarcs.len() implies arc_lt(sarcs[i], sarcs[j]) by {
                assert(!edges@[j].precedes(&edges@[i]));
                assert(varc(edges@[i]) != varc(edges@[j]));
                lemma_arc_lt_total(sarcs[i], sarcs[j]);
            }
            assert forall|k: int| 0 <= k < sarcs.len() implies ids0.contains(#[trigger] sarcs[k].0) && ids0.contains(sarcs[k].1) by {
                assert(sarcs.contains(sarcs[k]));
                let l = choose|l: int| 0 <= l < arcs0.len() && arcs0[l] == sarcs[k];
                assert(data0.nodes@[data0.ends@[l].0 as int]@ == data0.edges@[l].from@);
                assert(ids0[data0.ends@[l].0 as int] == sarcs[k].0);
                assert(data0.nodes@[data0.ends@[l].1 as int]@ == data0.edges@[l].to@);
                assert(ids0[data0.ends@[l].1 as int] == sarcs[k].1);
            }
        }
        let mut g = GraphData::empty();
        let mut i: usize = 0;
        while i < nodes.len()
            invariant
                g.wf(),
                i <= nodes@.len(),
                sids == nodes@.map_values(vid),
                vid == (|m: ModuleId| m@),
                forall|a: int, b: int| 0 <= a < b < sids.len() ==> text_lt(sids[a], sids[b]),
                g.ids() == sids.take(i as int),
                g.edges@.len() == 0,
            decreases nodes@.len() - i,
        {
            proof {
                assert(!sids.take(i as int).contains(sids[i as int])) by {
                    if sids.take(i as int).contains(sids[i as int]) {
                        let a = choose|a: int| 0 <= a < i && sids.take(i as int)[a] == sids[i as int];
                        lemma_text_lt_irreflexive(sids[i as int]);
                    }
                }
                assert(sids.take(i + 1) =~= sids.take(i as int).push(sids[i as int]));
            }
            g.add_node(nodes[i].duplicate());
            i = i + 1;
        }
        proof {
            assert(sids.take(nodes@.len() as int) =~= sids);
            assert(g.arcs() =~= sarcs.take(0));
            assert(g.located() =~= edges@.map_values(vloc).take(0));
        }
        let mut k: usize = 0;
        while k < edges.len()
            invariant
                g.wf(),
                k <= edges@.len(),
                sarcs == edges@.map_values(varc),
                varc == (|d: Dependency| arc_of(d)),
                forall|a: int, b: int| 0 <= a < b < sarcs.len() ==> arc_lt(sarcs[a], sarcs[b]),
                forall|x: Seq<char>| sids.contains(x) <==> ids0.contains(x),
                forall|l: int| 0 <= l < sarcs.len() ==> ids0.contains(#[trigger] sarcs[l].0) && ids0.contains(sarcs[l].1),
                g.ids() == sids,
                g.arcs() == sarcs.take(k as int),
                vloc == (|d: Dependency| located_of(d)),
                g.located() == edges@.map_values(vloc).take(k as int),
            decreases edges@.len() - k,
        {
            proof {
                assert(!sarcs.take(k as int).contains(sarcs[k as int])) by {
                    if sarcs.take(k as int).contains(sarcs[k as int]) {
                        let a = choose|a: int| 0 <= a < k && sarcs.take(k as int)[a] == sarcs[k as int];
                        assert(arc_lt(sarcs[a], sarcs[k as int]));
                        lemma_text_lt_irreflexive(sarcs[a].0);
                        lemma_text_lt_irreflexive(sarcs[a].1);
                    }
                }
                assert(sarcs.take(k + 1) =~= sarcs.take(k as int).push(sarcs[k as int]));
                assert(sids.contains(sarcs[k as int].0));
                assert(sids.contains(sarcs[k as int].1));
            }
            let e = edges[k].duplicate();
            let ghost g_edges = g.edges@;
            proof {
                assert(arc_of(e) == sarcs[k as int]);
                g.lemma_arcs_contains(arc_of(e));
                assert(located_of(e) == vloc(edges@[k as int]));
            }
            g.add_edge(e);
            proof {
                assert(g.edges@ == g_edges.push(e));
                assert(edges@.map_values(vloc).take(k + 1) =~= edges@.map_values(vloc).take(k as int).push(located_of(e)));
                assert(g.located() =~= edges@.map_values(vloc).take(k + 1));
            }
            k = k + 1;
        }
        proof {
            assert(sarcs.take(edges@.len() as int) =~= sarcs);
            assert(edges@.map_values(vloc).take(edges@.len() as int) =~= edges@.map_values(vloc));
            nodes@.to_multiset_ensures();
            nodes0.to_multiset_ensures();
            edges@.to_multiset_ensures();
            edges0.to_multiset_ensures();
        }
        ModuleGraph { data: g }
    }
}


pub proof fn lemma_with_id_contains(ids: Seq<Seq<char>>, x: Seq<char>, y: Seq<char>)
    ensures
        with_id(ids, x).contains(y) <==> (ids.contains(y) || y == x),
{
    if !ids.contains(x) {
        assert(ids.push(x)[ids.len() as int] == x);
        if ids.contains(y) {
            let i = choose|i: int| 0 <= i < ids.len() && ids[i] == y;
            assert(ids.push(x)[i] == y);
        }
        if ids.push(x).contains(y) {
            let i = choose|i: int| 0 <= i < ids.len() + 1 && ids.push(x)[i] == y;
            if i < ids.len() {
                assert(ids[i] == y);
            }
        }
    }
}

pub proof fn lemma_with_arc_contains(arcs: Seq<ArcView>, a: ArcView, b: ArcView)
    ensures
        with_arc(arcs, a).contains(b) <==> (arcs.contains(b) || b == a),
{
    if !arcs.contains(a) {
        assert(arcs.push(a)[arcs.len() as int] == a);
        if arcs.contains(b) {
            let i = choose|i: int| 0 <= i < arcs.len() && arcs[i] == b;
            assert(arcs.push(a)[i] == b);
        }
        if arcs.push(a).contains(b) {
            let i = choose|i: int| 0 <= i < arcs.len() + 1 && arcs.push(a)[i] == b;
            if i < arcs.len() {
                assert(arcs[i] == b);
            }
        }
    }
}

/// Dependency `j` of the project joins two recorded modules, and no earlier dependency has its
/// source, target and kind.
pub open spec fn first_of_arc(p: Project, j: int) -> bool {
    &&& 0 <= j < p.dependencies@.len()
    &&& module_known(p, p.dependencies@[j].from@)
    &&& module_known(p, p.dependencies@[j].to@)
    &&& forall|l: int| 0 <= l < j ==> arc_of(p.dependencies@[l]) != arc_of(p.dependencies@[j])
}

/// A module record of the project has this id.
pub open spec fn module_known(p: Project, x: Seq<char>) -> bool {
    exists|i: int| 0 <= i < p.modules@.len() && p.modules@[i].id@ == x
}

/// A dependency of the project between two modules it has records for.
pub open spec fn known_arc(p: Project, a: ArcView) -> bool {
    &&& module_known(p, a.0)
    &&& module_known(p, a.1)
    &&& exists|k: int| 0 <= k < p.dependencies@.len() && arc_of(p.dependencies@[k]) == a
}

fn has_module(project: &Project, id: &ModuleId) -> (r: bool)
    ensures
        r == module_known(*project, id@),
{
    let mut i: usize = 0;
    while i < project.modules.len()
        invariant
            i <= project.modules@.len(),
            forall|k: int| 0 <= k < i ==> project.modules@[k].id@ != id@,
        decreases project.modules@.len() - i,
    {
        if text_equal(project.modules[i].id.0.as_str(), id.0.as_str()) {
            return true;
        }
        i = i + 1;
    }
    false
}

impl ModuleGraph {
    /// The graph of a project: a node for each module record and an edge for each dependency
    /// between two recorded modules; nodes ordered by id and edges by source, target and kind.
    /// A dependency on a module without a record adds neither a node nor an edge.
    pub fn from_project(project: &Project) -> (r: Self)
        ensures
            forall|x: Seq<char>| #[trigger] r.has_id(x) <==> module_known(*project, x),
            forall|a: ArcView| #[trigger] r.arcs().contains(a) <==> known_arc(*project, a),
            forall|i: int, j: int| 0 <= i < j < r.ids().len() ==> text_lt(r.ids()[i], r.ids()[j]),
            forall|i: int, j: int| 0 <= i < j < r.arcs().len() ==> arc_lt(r.arcs()[i], r.arcs()[j]),
            forall|v: LocatedView| #[trigger] r.located().contains(v) <==> exists|j: int|
                first_of_arc(*project, j) && located_of(project.dependencies@[j]) == v,
    {
        let mut builder = ModuleGraphBuilder::new();
        let mut i: usize = 0;
        while i < project.modules.len()
            invariant
                i <= project.modules@.len(),
                forall|x: Seq<char>| #[trigger] builder.ids().contains(x) <==> exists|k: int|
                    0 <= k < i && project.modules@[k].id@ == x,
                builder.arcs().len() == 0,
                builder.located().len() == 0,
            decreases project.modules@.len() - i,
        {
            let ghost before = builder.ids();
            let id = project.modules[i].id.duplicate();
            builder = builder.add_node(id);
            proof {
                assert forall|x: Seq<char>| #[trigger] builder.ids().contains(x) <==> exists|k: int|
                    0 <= k < i + 1 && project.modules@[k].id@ == x by {
                    lemma_with_id_contains(before, project.modules@[i as int].id@, x);
                    if x == project.modules@[i as int].id@ {
                        assert(project.modules@[i as int].id@ == x);
                    }
                }
            }
            i = i + 1;
        }
        let mut k: usize = 0;
        while k < project.dependencies.len()
            invariant
                k <= project.dependencies@.len(),
                forall|x: Seq<char>| #[trigger] builder.ids().contains(x) <==> module_known(*project, x),
                forall|a: ArcView| #[trigger] builder.arcs().contains(a) <==> {
                    &&& module_known(*project, a.0)
                    &&& module_known(*project, a.1)
                    &&& exists|l: int| 0 <= l < k && arc_of(project.dependencies@[l]) == a
                },
                forall|v: LocatedView| #[trigger] builder.located().contains(v) <==> exists|j: int|
                    0 <= j < k && first_of_arc(*project, j) && located_of(project.dependencies@[j]) == v,
            decreases project.dependencies@.len() - k,
        {
            let dependency = &project.dependencies[k];
            let ghost ids_before = builder.ids();
            let ghost arcs_before = builder.arcs();
            let ghost dk = arc_of(*dependency);
            let ghost loc_before = builder.located();
            if has_module(project, &dependency.from) && has_module(project, &dependency.to) {
                let dup = dependency.duplicate();
                proof {
                    assert(arc_of(dup) == dk);
                    assert(located_of(dup) == located_of(*dependency));
                }
                builder = builder.add_edge(dup);
                proof {
                    assert forall|v: LocatedView| #[trigger] builder.located().contains(v) <==> exists|j: int|
                        0 <= j < k + 1 && first_of_arc(*project, j) && located_of(project.dependencies@[j]) == v by {
                        if arcs_before.contains(dk) {
                            let l = choose|l: int| 0 <= l < k && arc_of(project.dependencies@[l]) == dk;
                            assert(!first_of_arc(*project, k as int));
                            if exists|j: int| 0 <= j < k + 1 && first_of_arc(*project, j) && located_of(project.dependencies@[j]) == v {
                                let j = choose|j: int| 0 <= j < k + 1 && first_of_arc(*project, j) && located_of(project.dependencies@[j]) == v;
                                assert(j < k);
                            }
                        } else {
                            assert(builder.located() == loc_before.push(located_of(*dependency)));
                            assert forall|l: int| 0 <= l < k implies arc_of(project.dependencies@[l]) != dk by {
                                if arc_of(project.dependencies@[l]) == dk {
                                    assert(arcs_before.contains(dk));
                                }
                            }
                            assert(first_of_arc(*project, k as int));
                            if builder.located().contains(v) {
                                let t = choose|t: int| 0 <= t < builder.located().len() && builder.located()[t] == v;
                                if t < loc_before.len() {
                                    assert(loc_before[t] == v);
                                    assert(loc_before.contains(v));
                                } else {
                                    assert(located_of(project.dependencies@[k as int]) == v);
                                }
                            }
                            if exists|j: int| 0 <= j < k + 1 && first_of_arc(*project, j) && located_of(project.dependencies@[j]) == v {
                                let j = choose|j: int| 0 <= j < k + 1 && first_of_arc(*project, j) && located_of(project.dependencies@[j]) == v;
                                if j < k {
                                    assert(loc_before.contains(v));
                                    let t = choose|t: int| 0 <= t < loc_before.len() && loc_before[t] == v;
                                    assert(builder.located()[t] == v);
                                } else {
                                    assert(builder.located()[loc_before.len() as int] == v);
                                }
                            }
                        }
                    }
                    if !arcs_before.contains(dk) {
                        lemma_with_id_contains(ids_before, dk.0, dk.0);
                        assert(with_id(ids_before, dk.0) == ids_before);
                        assert(with_id(ids_before, dk.1) == ids_before);
                    }
                    assert forall|a: ArcView| #[trigger] builder.arcs().contains(a) <==> {
                        &&& module_known(*project, a.0)
                        &&& module_known(*project, a.1)
                        &&& exists|l: int| 0 <= l < k + 1 && arc_of(project.dependencies@[l]) == a
                    } by {
                        lemma_with_arc_contains(arcs_before, dk, a);
                        if a == dk {
                            assert(arc_of(project.dependencies@[k as int]) == a);
                        }
                    }
                }
            } else {
                proof {
                    assert(!first_of_arc(*project, k as int));
                    assert forall|v: LocatedView| #[trigger] builder.located().contains(v) <==> exists|j: int|
                        0 <= j < k + 1 && first_of_arc(*project, j) && located_of(project.dependencies@[j]) == v by {
                        if exists|j: int| 0 <= j < k + 1 && first_of_arc(*project, j) && located_of(project.dependencies@[j]) == v {
                            let j = choose|j: int| 0 <= j < k + 1 && first_of_arc(*project, j) && located_of(project.dependencies@[j]) == v;
                            assert(j < k);
                        }
                    }
                    assert forall|a: ArcView| #[trigger] builder.arcs().contains(a) <==> {
                        &&& module_known(*project, a.0)
                        &&& module_known(*project, a.1)
                        &&& exists|l: int| 0 <= l < k + 1 && arc_of(project.dependencies@[l]) == a
                    } by {
                        if exists|l: int| 0 <= l < k + 1 && arc_of(project.dependencies@[l]) == a {
                            let l = choose|l: int| 0 <= l < k + 1 && arc_of(project.dependencies@[l]) == a;
                            if l == k && module_known(*project, a.0) && module_known(*project, a.1) {
                                assert(false);
                            }
                        }
                    }
                }
            }
            k = k + 1;
        }
        builder.build()
    }
}

/// Builds the graphs of a project.
pub struct GraphEngine;

impl GraphEngine {
    /// The module graph of a project (see `ModuleGraph::from_project`).
    pub fn build(project: &Project) -> (r: ModuleGraph)
        ensures
            forall|x: Seq<char>| #[trigger] r.has_id(x) <==> module_known(*project, x),
            forall|a: ArcView| #[trigger] r.arcs().contains(a) <==> known_arc(*project, a),
            forall|i: int, j: int| 0 <= i < j < r.ids().len() ==> text_lt(r.ids()[i], r.ids()[j]),
            forall|i: int, j: int| 0 <= i < j < r.arcs().len() ==> arc_lt(r.arcs()[i], r.arcs()[j]),
            forall|v: LocatedView| #[trigger] r.located().contains(v) <==> exists|j: int|
                first_of_arc(*project, j) && located_of(project.dependencies@[j]) == v,
    {
        ModuleGraph::from_project(project)
    }
}


impl GraphData {
    /// The nodes in the order in which a depth-first search over outgoing edges finishes them,
    /// starting from each unvisited node in node order.
    fn finishing_order(&self) -> (r: Vec<usize>)
        requires
            self.wf(),
        ensures
            r@.len() == self.nodes@.len(),
            forall|k: int| 0 <= k < r@.len() ==> #[trigger] r@[k] < self.nodes@.len(),
            forall|k: int, l: int| 0 <= k < l < r@.len() ==> r@[k] != r@[l],
            forall|v: usize| v < self.nodes@.len() ==> r@.contains(v),
    {
        let n = self.nodes.len();
        let mut visited = filled(false, n);
        let mut order: Vec<usize> = Vec::new();
        let ghost mut seen: Seq<usize> = Seq::empty();
        let mut start: usize = 0;
        while start < n
            invariant
                self.wf(),
                n == self.nodes@.len(),
                start <= n,
                visited@.len() == n,
                forall|v: int| 0 <= v < n ==> (#[trigger] visited@[v] <==> seen.contains(v as usize)),
                forall|k: int| 0 <= k < seen.len() ==> #[trigger] seen[k] < n,
                forall|k: int, l: int| 0 <= k < l < seen.len() ==> seen[k] != seen[l],
                forall|v: int| 0 <= v < n ==> (#[trigger] visited@[v] <==> order@.contains(v as usize)),
                forall|k: int| 0 <= k < order@.len() ==> #[trigger] order@[k] < n,
                forall|k: int, l: int| 0 <= k < l < order@.len() ==> order@[k] != order@[l],
                forall|v: int| 0 <= v < start ==> #[trigger] visited@[v],
            decreases n - start,
        {
            if !visited[start] {
                let mut stack: Vec<(usize, bool)> = Vec::new();
                stack.push((start, false));
                while stack.len() > 0
                    invariant
                        self.wf(),
                        n == self.nodes@.len(),
                        start < n,
                        visited@.len() == n,
                        forall|v: int| 0 <= v < n ==> (#[trigger] visited@[v] <==> seen.contains(v as usize)),
                        forall|k: int| 0 <= k < seen.len() ==> #[trigger] seen[k] < n,
                        forall|k: int, l: int| 0 <= k < l < seen.len() ==> seen[k] != seen[l],
                        forall|k: int| 0 <= k < order@.len() ==> #[trigger] order@[k] < n,
                        forall|k: int, l: int| 0 <= k < l < order@.len() ==> order@[k] != order@[l],
                        forall|k: int| 0 <= k < stack@.len() ==> #[trigger] stack@[k].0 < n,
                        forall|k: int| 0 <= k < stack@.len() && #[trigger] stack@[k].1 ==> visited@[stack@[k].0 as int]
                            && !order@.contains(stack@[k].0),
                        forall|k: int, l: int| 0 <= k < l < stack@.len() && stack@[k].1 && stack@[l].1 ==> stack@[k].0 != stack@[l].0,
                        forall|v: int| 0 <= v < n ==> (#[trigger] visited@[v] <==> (order@.contains(v as usize)
                            || exists|k: int| 0 <= k < stack@.len() && stack@[k].1 && stack@[k].0 == v)),
                        visited@[start as int] || (stack@.len() == 1 && stack@[0] == (start, false)),
                        forall|v: int| 0 <= v < start ==> #[trigger] visited@[v],
                    decreases n - seen.len(), stack@.len(),
                {
                    proof {
                        lemma_distinct_count(seen, n as int);
                    }
                    let ghost st0 = stack@;
                    let (node, expanded) = stack.pop().unwrap();
                    proof {
                        assert(st0 =~= stack@.push((node, expanded)));
                        assert(forall|k: int| 0 <= k < stack@.len() ==> stack@[k] == st0[k]);
                    }
                    if expanded {
                        let ghost o0 = order@;
                        order.push(node);
                        proof {
                            assert forall|v: int| 0 <= v < n implies (#[trigger] visited@[v] <==> (order@.contains(v as usize)
                                || exists|k: int| 0 <= k < stack@.len() && stack@[k].1 && stack@[k].0 == v)) by {
                                if visited@[v] && !order@.contains(v as usize) {
                                    assert(!o0.contains(v as usize)) by {
                                        if o0.contains(v as usize) {
                                            let i = choose|i: int| 0 <= i < o0.len() && o0[i] == v as usize;
                                            assert(order@[i] == v as usize);
                                        }
                                    }
                                    let k = choose|k: int| 0 <= k < st0.len() && st0[k].1 && st0[k].0 == v;
                                    if k == st0.len() - 1 {
                                        assert(order@[o0.len() as int] == v as usize);
                                    }
                                }
                                if order@.contains(v as usize) {
                                    let i = choose|i: int| 0 <= i < order@.len() && order@[i] == v as usize;
                                    if i < o0.len() {
                                        assert(o0[i] == v as usize);
                                    } else {
                                        assert(st0[st0.len() - 1].1);
                                    }
                                }
                                if exists|k: int| 0 <= k < stack@.len() && stack@[k].1 && stack@[k].0 == v {
                                    let k = choose|k: int| 0 <= k < stack@.len() && stack@[k].1 && stack@[k].0 == v;
                                    assert(st0[k].1 && st0[k].0 == v);
                                }
                            }
                            assert forall|k: int| 0 <= k < stack@.len() && #[trigger] stack@[k].1 implies visited@[stack@[k].0 as int]
                                && !order@.contains(stack@[k].0) by {
                                assert(st0[k] == stack@[k]);
                                assert(stack@[k].0 != node);
                                if order@.contains(stack@[k].0) {
                                    let i = choose|i: int| 0 <= i < order@.len() && order@[i] == stack@[k].0;
                                    if i < o0.len() {
                                        assert(o0[i] == stack@[k].0);
                                    }
                                }
                            }
                            assert forall|k: int, l: int| 0 <= k < l < order@.len() implies order@[k] != order@[l] by {
                                if l == o0.len() {
                                    assert(st0[st0.len() - 1] == (node, expanded));
                                    assert(!o0.contains(node));
                                    assert(order@[k] == o0[k]);
                                    assert(o0.contains(o0[k]));
                                }
                            }
                        }
                    } else if !visited[node] {
                        let ghost s0 = seen;
                        visited.set(node, true);
                        proof {
                            seen = seen.push(node);
                            assert forall|k: int, l: int| 0 <= k < l < seen.len() implies seen[k] != seen[l] by {
                                if l == s0.len() {
                                    assert(s0.contains(seen[k]));
                                }
                            }
                            assert forall|v: int| 0 <= v < n implies (#[trigger] visited@[v] <==> seen.contains(v as usize)) by {
                                if v != node {
                                    if seen.contains(v as usize) {
                                        let i = choose|i: int| 0 <= i < seen.len() && seen[i] == v as usize;
                                        assert(s0[i] == v as usize);
                                    }
                                    if s0.contains(v as usize) {
                                        let i = choose|i: int| 0 <= i < s0.len() && s0[i] == v as usize;
                                        assert(seen[i] == v as usize);
                                    }
                                } else {
                                    assert(seen[s0.len() as int] == node);
                                }
                            }
                            lemma_distinct_count(seen, n as int);
                        }
                        let ghost st1 = stack@;
                        stack.push((node, true));
                        proof {
                            assert(stack@[st1.len() as int] == (node, true));
                            assert forall|v: int| 0 <= v < n implies (#[trigger] visited@[v] <==> (order@.contains(v as usize)
                                || exists|k: int| 0 <= k < stack@.len() && stack@[k].1 && stack@[k].0 == v)) by {
                                if exists|k: int| 0 <= k < stack@.len() && stack@[k].1 && stack@[k].0 == v {
                                    let k = choose|k: int| 0 <= k < stack@.len() && stack@[k].1 && stack@[k].0 == v;
                                    if k < st1.len() {
                                        assert(st0[k] == stack@[k]);
                                    }
                                }
                                if v != node && visited@[v] && !order@.contains(v as usize) {
                                    let k = choose|k: int| 0 <= k < st0.len() && st0[k].1 && st0[k].0 == v;
                                    assert(k < st1.len());
                                    assert(stack@[k] == st0[k]);
                                }
                            }
                            assert(!order@.contains(node));
                        }
                        let row = &self.outgoing[node];
                        let mut j: usize = row.len();
                        while j > 0
                            invariant
                                self.wf(),
                                n == self.nodes@.len(),
                                node < n,
                                row@ == succ(self.ends@, node as int),
                                j <= row@.len(),
                                visited@.len() == n,
                                forall|k: int| 0 <= k < order@.len() ==> #[trigger] order@[k] < n,
                                forall|k: int| 0 <= k < stack@.len() ==> #[trigger] stack@[k].0 < n,
                                forall|k: int| 0 <= k < stack@.len() && #[trigger] stack@[k].1 ==> visited@[stack@[k].0 as int]
                                    && !order@.contains(stack@[k].0),
                                forall|k: int, l: int| 0 <= k < l < stack@.len() && stack@[k].1 && stack@[l].1 ==> stack@[k].0 != stack@[l].0,
                                forall|v: int| 0 <= v < n ==> (#[trigger] visited@[v] <==> (order@.contains(v as usize)
                                    || exists|k: int| 0 <= k < stack@.len() && stack@[k].1 && stack@[k].0 == v)),
                                stack@.len() >= 1,
                            decreases j,
                        {
                            j = j - 1;
                            let nb = row[j];
                            proof {
                                assert(row@.contains(nb));
                                lemma_succ_contains(self.ends@, node as int, nb);
                            }
                            if !visited[nb] {
                                let ghost st2 = stack@;
                                stack.push((nb, false));
                                proof {
                                    assert forall|k: int| 0 <= k < stack@.len() && #[trigger] stack@[k].1 implies visited@[stack@[k].0 as int]
                                        && !order@.contains(stack@[k].0) by {
                                        assert(stack@[k] == st2[k]);
                                    }
                                    assert forall|k: int, l: int| 0 <= k < l < stack@.len() && stack@[k].1 && stack@[l].1 implies stack@[k].0 != stack@[l].0 by {
                                        assert(stack@[k] == st2[k]);
                                        assert(stack@[l] == st2[l]);
                                    }
                                    assert forall|v: int| 0 <= v < n implies (#[trigger] visited@[v] <==> (order@.contains(v as usize)
                                        || exists|k: int| 0 <= k < stack@.len() && stack@[k].1 && stack@[k].0 == v)) by {
                                        if exists|k: int| 0 <= k < stack@.len() && stack@[k].1 && stack@[k].0 == v {
                                            let k = choose|k: int| 0 <= k < stack@.len() && stack@[k].1 && stack@[k].0 == v;
                                            assert(stack@[k] == st2[k]);
                                        }
                                        if exists|k: int| 0 <= k < st2.len() && st2[k].1 && st2[k].0 == v {
                                            let k = choose|k: int| 0 <= k < st2.len() && st2[k].1 && st2[k].0 == v;
                                            assert(stack@[k] == st2[k]);
                                        }
                                    }
                                }
                            }
                        }
                    }
                }
            }
            start = start + 1;
        }
        proof {
            lemma_distinct_count(order@, n as int);
            assert forall|v: usize| v < n implies order@.contains(v) by {
                assert(visited@[v as int]);
            }
            assert(order@.len() >= n) by {
                lemma_cover_count(order@, n as int);
            }
        }
        order
    }
}

/// A sequence that holds every value below `n` is at least `n` long.
proof fn lemma_cover_count(s: Seq<usize>, n: int)
    requires
        0 <= n <= usize::MAX,
        forall|v: usize| v < n ==> s.contains(v),
    ensures
        s.len() >= n,
{
    let t = s.map_values(|e: usize| e as int).to_set();
    let full = Set::new(|x: int| 0 <= x < n);
    assert(full =~= vstd::set_lib::set_int_range(0, n));
    vstd::set_lib::lemma_int_range(0, n);
    assert forall|x: int| full.contains(x) implies t.contains(x) by {
        assert(s.contains(x as usize));
        let i = choose|i: int| 0 <= i < s.len() && s[i] == x as usize;
        assert(s.map_values(|e: usize| e as int)[i] == x);
    }
    s.map_values(|e: usize| e as int).lemma_cardinality_of_set();
    vstd::set_lib::lemma_len_subset(full, t);
}


/// The nodes claimed for the component under construction: those taken, then those still on the
/// stack, most recent first.
pub open spec fn pending(taken: Seq<usize>, stack: Seq<usize>) -> Seq<usize> {
    taken + stack.reverse()
}

/// Some part holds `v`.
pub open spec fn in_parts(parts: Seq<Vec<usize>>, v: usize) -> bool {
    exists|c: int, i: int| 0 <= c < parts.len() && 0 <= i < parts[c]@.len() && parts[c]@[i] == v
}

impl GraphData {
    /// Node `a` reaches node `b` over at least one edge.
    spec fn ireach(&self, a: int, b: int) -> bool {
        exists|p: Seq<int>|
            #[trigger] self.is_iwalk(p, all_true(self.nodes@.len())) && p.len() >= 2 && p[0] == a && p.last() == b
    }

    /// An edge into a node that reaches `r` (or is `r`) gives a node that reaches `r`.
    proof fn lemma_ireach_prepend(&self, a: int, b: int, r: int)
        requires
            0 <= a < self.nodes@.len(),
            0 <= b < self.nodes@.len(),
            self.adj(a, b),
            b == r || self.ireach(b, r),
        ensures
            self.ireach(a, r),
    {
        let al = all_true(self.nodes@.len());
        if b == r {
            let p = seq![a, b];
            assert(self.is_iwalk(p, al));
        } else {
            let p = choose|p: Seq<int>| #[trigger] self.is_iwalk(p, al) && p.len() >= 2 && p[0] == b && p.last() == r;
            let q = seq![a] + p;
            assert forall|i: int| 0 <= i < q.len() - 1 implies self.adj(#[trigger] q[i], q[i + 1]) by {
                if i > 0 {
                    assert(q[i] == p[i - 1] && q[i + 1] == p[i]);
                }
            }
            assert forall|i: int| 0 <= i < q.len() implies 0 <= #[trigger] q[i] < self.nodes@.len() by {
                if i > 0 {
                    assert(q[i] == p[i - 1]);
                }
            }
            assert(q.last() == p.last());
            assert(self.is_iwalk(q, al));
        }
    }

    /// Nodes `a` and `b` are the same node or reach each other.
    spec fn mutual(&self, a: int, b: int) -> bool {
        a == b || (self.ireach(a, b) && self.ireach(b, a))
    }

    /// The nodes of a walk from its `a`-th to its `b`-th position form a walk.
    proof fn lemma_subwalk(&self, p: Seq<int>, a: int, b: int)
        requires
            self.is_iwalk(p, all_true(self.nodes@.len())),
            0 <= a < b < p.len(),
        ensures
            self.ireach(p[a], p[b]),
    {
        let al = all_true(self.nodes@.len());
        let q = p.subrange(a, b + 1);
        assert forall|i: int| 0 <= i < q.len() implies 0 <= #[trigger] q[i] < self.nodes@.len() by {
            assert(q[i] == p[a + i]);
        }
        assert forall|i: int| 0 <= i < q.len() - 1 implies self.adj(#[trigger] q[i], q[i + 1]) by {
            assert(q[i] == p[a + i] && q[i + 1] == p[a + i + 1]);
        }
        assert(q[0] == p[a] && q.last() == p[b]);
        assert(self.is_iwalk(q, al));
    }

    proof fn lemma_ireach_trans(&self, a: int, b: int, c: int)
        requires
            self.ireach(a, b),
            self.ireach(b, c),
        ensures
            self.ireach(a, c),
    {
        let al = all_true(self.nodes@.len());
        let p = choose|p: Seq<int>| #[trigger] self.is_iwalk(p, al) && p.len() >= 2 && p[0] == a && p.last() == b;
        let q = choose|q: Seq<int>| #[trigger] self.is_iwalk(q, al) && q.len() >= 2 && q[0] == b && q.last() == c;
        let r = p + q.skip(1);
        assert forall|i: int| 0 <= i < r.len() implies 0 <= #[trigger] r[i] < self.nodes@.len() by {
            if i >= p.len() {
                assert(r[i] == q[i - p.len() + 1]);
            }
        }
        assert forall|i: int| 0 <= i < r.len() - 1 implies self.adj(#[trigger] r[i], r[i + 1]) by {
            if i + 1 < p.len() {
                assert(r[i] == p[i] && r[i + 1] == p[i + 1]);
            } else if i + 1 == p.len() {
                assert(r[i] == p.last() && r[i + 1] == q[1]);
                assert(q[0] == b);
            } else {
                assert(r[i] == q[i - p.len() + 1] && r[i + 1] == q[i - p.len() + 2]);
            }
        }
        assert(r.last() == q.last());
        assert(self.is_iwalk(r, al));
    }

    proof fn lemma_mutual_trans(&self, a: int, b: int, c: int)
        requires
            self.mutual(a, b),
            self.mutual(b, c),
        ensures
            self.mutual(a, c),
    {
        if a != b && b != c && a != c {
            self.lemma_ireach_trans(a, b, c);
            self.lemma_ireach_trans(c, b, a);
        }
    }

    /// Every node of a walk whose ends reach each other reaches its first node and is reached
    /// from it.
    proof fn lemma_walk_mutual(&self, p: Seq<int>, i: int)
        requires
            self.is_iwalk(p, all_true(self.nodes@.len())),
            0 <= i < p.len(),
            self.mutual(p[0], p.last()),
        ensures
            self.mutual(p[i], p[0]),
    {
        if i > 0 {
            self.lemma_subwalk(p, 0, i);
            if i < p.len() - 1 {
                self.lemma_subwalk(p, i, p.len() - 1);
                if p.last() != p[0] {
                    self.lemma_ireach_trans(p[i], p.last(), p[0]);
                }
            }
        }
    }

    /// A walk over allowed nodes from `s` to another node is a walk over all nodes.
    proof fn lemma_within_ireach(&self, s: int, v: int, d: int, al: Seq<bool>)
        requires
            self.within(s, v, d, al),
            v != s,
        ensures
            self.ireach(s, v),
    {
        let p = choose|p: Seq<int>| #[trigger] self.is_iwalk(p, al) && p[0] == s && p.last() == v && p.len() <= d + 1;
        assert(self.is_iwalk(p, all_true(self.nodes@.len())));
    }

    /// When every node that shares a component with `node` is allowed, each of them is
    /// reached from `node` through allowed nodes.
    proof fn lemma_component_within(&self, node: int, al: Seq<bool>, v: int) -> (e: int)
        requires
            0 <= node < self.nodes@.len(),
            al.len() == self.nodes@.len(),
            forall|y: int| 0 <= y < self.nodes@.len() && #[trigger] self.mutual(y, node) ==> al[y],
            self.mutual(v, node),
        ensures
            self.within(node, v, e, al),
    {
        if v == node {
            self.lemma_within_start(node, al);
            0
        } else {
            let ax = all_true(self.nodes@.len());
            let r = choose|r: Seq<int>| #[trigger] self.is_iwalk(r, ax) && r.len() >= 2 && r[0] == node && r.last() == v;
            assert forall|i: int| 1 <= i < r.len() implies al[#[trigger] r[i]] by {
                self.lemma_walk_mutual(r, i);
            }
            assert(self.is_iwalk(r, al));
            r.len() as int
        }
    }

    /// Walking back along `p` from its last node, a node in `comp` whose predecessors that
    /// `reach` marks are all visited, every node is found in `comp`.
    proof fn lemma_back_closure(
        &self,
        p: Seq<int>,
        reach: Seq<bool>,
        visited: Seq<bool>,
        comp_of: Seq<int>,
        comp: Seq<usize>,
        nc: int,
        i: int,
    )
        requires
            self.is_iwalk(p, all_true(self.nodes@.len())),
            0 <= i < p.len(),
            comp.contains(p.last() as usize),
            forall|k: int| 0 <= k < p.len() ==> #[trigger] reach[p[k]],
            forall|k: int| 0 <= k < p.len() ==> !(#[trigger] visited[p[k]] && 0 <= comp_of[p[k]] < nc),
            forall|k: int, q: int|
                0 <= k < comp.len() && 0 <= q < self.nodes@.len() && self.adj(q, #[trigger] comp[k] as int)
                    && reach[q] ==> #[trigger] visited[q],
            forall|v: int|
                0 <= v < self.nodes@.len() && #[trigger] visited[v] ==> (0 <= comp_of[v] < nc) || (comp_of[v] == nc
                    && comp.contains(v as usize)),
        ensures
            comp.contains(p[i] as usize),
        decreases p.len() - i,
    {
        if i < p.len() - 1 {
            self.lemma_back_closure(p, reach, visited, comp_of, comp, nc, i + 1);
            let k = choose|k: int| 0 <= k < comp.len() && comp[k] == p[i + 1] as usize;
            assert(self.adj(p[i], p[i + 1]));
            assert(reach[p[i]]);
            assert(self.adj(p[i], comp[k] as int));
            assert(visited[p[i]]);
        }
    }

    /// Strongly connected components as node indices: the nodes taken in reverse finishing order,
    /// each unclaimed one collecting the unclaimed nodes that reach it over incoming edges.
    fn scc_indices(&self) -> (r: Vec<Vec<usize>>)
        requires
            self.wf(),
        ensures
            forall|c: int| 0 <= c < r@.len() ==> #[trigger] r@[c]@.len() >= 1,
            forall|c: int, i: int| 0 <= c < r@.len() && 0 <= i < r@[c]@.len() ==> #[trigger] r@[c]@[i] < self.nodes@.len(),
            forall|c: int, i: int, d: int, j: int|
                0 <= c < r@.len() && 0 <= i < r@[c]@.len() && 0 <= d < r@.len() && 0 <= j < r@[d]@.len()
                    && (c != d || i != j) ==> #[trigger] r@[c]@[i] != #[trigger] r@[d]@[j],
            forall|v: usize| v < self.nodes@.len() ==> #[trigger] in_parts(r@, v),
            forall|c: int, i: int| 0 <= c < r@.len() && 0 <= i < r@[c]@.len() ==>
                #[trigger] r@[c]@[i] == r@[c]@[0] || self.ireach(r@[c]@[i] as int, r@[c]@[0] as int),
            forall|c: int, i: int, d: int, j: int|
                0 <= c < r@.len() && 0 <= i < r@[c]@.len() && 0 <= d < r@.len() && 0 <= j < r@[d]@.len() ==>
                    (c == d <==> self.mutual(#[trigger] r@[c]@[i] as int, #[trigger] r@[d]@[j] as int)),
    {
        let n = self.nodes.len();
        let order = self.finishing_order();
        let mut visited = filled(false, n);
        let mut open_mask = filled(true, n);
        let mut components: Vec<Vec<usize>> = Vec::new();
        let ghost mut comp_of: Seq<int> = Seq::new(n as nat, |i: int| 0int);
        let mut idx: usize = n;
        while idx > 0
            invariant
                self.wf(),
                n == self.nodes@.len(),
                idx <= n,
                order@.len() == n,
                forall|k: int| 0 <= k < order@.len() ==> #[trigger] order@[k] < n,
                forall|v: usize| v < n ==> order@.contains(v),
                visited@.len() == n,
                comp_of.len() == n,
                forall|k: int| idx <= k < n ==> visited@[#[trigger] order@[k] as int],
                forall|v: int| 0 <= v < n && #[trigger] visited@[v] ==> 0 <= comp_of[v] < components@.len()
                    && components@[comp_of[v]]@.contains(v as usize),
                forall|c: int| 0 <= c < components@.len() ==> #[trigger] components@[c]@.len() >= 1,
                forall|c: int, i: int| 0 <= c < components@.len() && 0 <= i < components@[c]@.len() ==> {
                    &&& #[trigger] components@[c]@[i] < n
                    &&& visited@[components@[c]@[i] as int]
                    &&& comp_of[components@[c]@[i] as int] == c
                    &&& (components@[c]@[i] == components@[c]@[0] || self.ireach(components@[c]@[i] as int, components@[c]@[0] as int))
                },
                forall|c: int, i: int, j: int| 0 <= c < components@.len() && 0 <= i < j < components@[c]@.len()
                    ==> components@[c]@[i] != components@[c]@[j],
                open_mask@.len() == n,
                forall|v: int| 0 <= v < n ==> #[trigger] open_mask@[v] == !visited@[v],
                forall|c: int, i: int| 0 <= c < components@.len() && 0 <= i < components@[c]@.len() ==>
                    self.mutual(#[trigger] components@[c]@[i] as int, components@[c]@[0] as int),
                forall|c: int, w: int| 0 <= c < components@.len() && 0 <= w < n && #[trigger] self.mutual(w, components@[c]@[0] as int) ==>
                    visited@[w] && comp_of[w] == c,
            decreases idx,
        {
            idx = idx - 1;
            let node = order[idx];
            if !visited[node] {
                let ex = self.explore(node, &open_mask, None);
                proof {
                    let open0 = open_mask@;
                    assert forall|y: int| 0 <= y < n && #[trigger] self.mutual(y, node as int) implies open0[y] by {
                        if visited@[y] {
                            let c = comp_of[y];
                            let i = choose|i: int| 0 <= i < components@[c]@.len() && components@[c]@[i] == y as usize;
                            assert(self.mutual(components@[c]@[i] as int, components@[c]@[0] as int));
                            self.lemma_mutual_trans(node as int, y, components@[c]@[0] as int);
                            assert(visited@[node as int]);
                        }
                    }
                    assert forall|v: int| 0 <= v < n && #[trigger] self.mutual(v, node as int) implies ex.visited@[v] by {
                        let e = self.lemma_component_within(node as int, open0, v);
                    }
                    assert forall|v: int| 0 <= v < n && #[trigger] ex.visited@[v] && v != node as int implies self.ireach(node as int, v) by {
                        assert(self.node_ok(node as int, open0, ex.visited@, ex.prev@, ex.dist@, v));
                        self.lemma_within_ireach(node as int, v, ex.dist@[v] as int, open0);
                    }
                }
                let ghost nc = components@.len() as int;
                let mut stack: Vec<usize> = Vec::new();
                stack.push(node);
                visited.set(node, true);
                open_mask.set(node, false);
                let mut component: Vec<usize> = Vec::new();
                proof {
                    let c0 = comp_of;
                    comp_of = comp_of.update(node as int, nc);
                    assert(stack@.reverse() =~= seq![node]);
                    assert(pending(component@, stack@) =~= seq![node]);
                    assert forall|v: int| 0 <= v < n && #[trigger] visited@[v] implies (0 <= comp_of[v] < nc
                        && components@[comp_of[v]]@.contains(v as usize)) || (comp_of[v] == nc && pending(component@, stack@).contains(v as usize)) by {
                        if v == node as int {
                            assert(pending(component@, stack@)[0] == node);
                        } else {
                            assert(comp_of[v] == c0[v]);
                        }
                    }
                    assert forall|c: int, i: int| 0 <= c < components@.len() && 0 <= i < components@[c]@.len() implies {
                        &&& #[trigger] components@[c]@[i] < n
                        &&& visited@[components@[c]@[i] as int]
                        &&& comp_of[components@[c]@[i] as int] == c
                    } by {
                        assert(components@[c]@[i] != node);
                    }
                }
                while stack.len() > 0
                    invariant
                        self.wf(),
                        n == self.nodes@.len(),
                        node < n,
                        nc == components@.len(),
                        visited@.len() == n,
                        comp_of.len() == n,
                        forall|v: int| 0 <= v < n && #[trigger] visited@[v] ==> (0 <= comp_of[v] < nc
                            && components@[comp_of[v]]@.contains(v as usize)) || (comp_of[v] == nc && pending(component@, stack@).contains(v as usize)),
                        forall|c: int, i: int| 0 <= c < components@.len() && 0 <= i < components@[c]@.len() ==> {
                            &&& #[trigger] components@[c]@[i] < n
                            &&& visited@[components@[c]@[i] as int]
                            &&& comp_of[components@[c]@[i] as int] == c
                        },
                        forall|k: int| 0 <= k < pending(component@, stack@).len() ==> {
                            &&& #[trigger] pending(component@, stack@)[k] < n
                            &&& visited@[pending(component@, stack@)[k] as int]
                            &&& comp_of[pending(component@, stack@)[k] as int] == nc
                            &&& (pending(component@, stack@)[k] == node || self.ireach(pending(component@, stack@)[k] as int, node as int))
                            &&& (pending(component@, stack@)[k] == node || self.ireach(node as int, pending(component@, stack@)[k] as int))
                        },
                        forall|k: int, l: int| 0 <= k < l < pending(component@, stack@).len() ==> pending(component@, stack@)[k]
                            != pending(component@, stack@)[l],
                        component@.len() > 0 ==> component@[0] == node,
                        component@.len() == 0 ==> stack@ == seq![node],
                        open_mask@.len() == n,
                        forall|v: int| 0 <= v < n ==> #[trigger] open_mask@[v] == !visited@[v],
                        ex.visited@.len() == n,
                        forall|v: int| 0 <= v < n && #[trigger] ex.visited@[v] && v != node as int ==> self.ireach(node as int, v),
                        forall|v: int| 0 <= v < n && #[trigger] self.mutual(v, node as int) ==> ex.visited@[v],
                        forall|c: int, i: int| 0 <= c < components@.len() && 0 <= i < components@[c]@.len() ==>
                            self.mutual(#[trigger] components@[c]@[i] as int, components@[c]@[0] as int),
                        forall|c: int, w: int| 0 <= c < components@.len() && 0 <= w < n && #[trigger] self.mutual(w, components@[c]@[0] as int) ==>
                            visited@[w] && comp_of[w] == c,
                        forall|k: int, q: int| 0 <= k < component@.len() && 0 <= q < n && self.adj(q, #[trigger] component@[k] as int)
                            && ex.visited@[q] ==> #[trigger] visited@[q],
                    decreases n - pending(component@, stack@).len(), stack@.len(),
                {
                    proof {
                        lemma_distinct_count(pending(component@, stack@), n as int);
                    }
                    let ghost cs0 = pending(component@, stack@);
                    let ghost s0 = stack@;
                    let ghost c0 = component@;
                    let current = stack.pop().unwrap();
                    component.push(current);
                    let ghost clen = component@.len();
                    proof {
                        assert(s0 =~= stack@.push(current));
                        assert(component@ =~= c0.push(current));
                        let s1 = stack@;
                        assert forall|k: int| 0 <= k < cs0.len() implies pending(component@, stack@)[k] == cs0[k] by {
                            if k < c0.len() {
                                assert(cs0[k] == c0[k]);
                            } else if k == c0.len() {
                                assert(cs0[k] == s0.reverse()[0]);
                                assert(s0.reverse()[0] == s0[s0.len() - 1]);
                            } else {
                                let i = k - c0.len();
                                assert(cs0[k] == s0.reverse()[i]);
                                assert(s0.reverse()[i] == s0[s0.len() - 1 - i]);
                                assert(pending(component@, stack@)[k] == s1.reverse()[i - 1]);
                                assert(s1.reverse()[i - 1] == s1[s1.len() - 1 - (i - 1)]);
                            }
                        }
                        assert(pending(component@, stack@) =~= cs0);
                        assert(cs0[c0.len() as int] == current) by {
                            assert(cs0[c0.len() as int] == s0.reverse()[0]);
                        }
                    }
                    let row = &self.incoming[current];
                    let mut j: usize = 0;
                    while j < row.len()
                        invariant
                            self.wf(),
                            n == self.nodes@.len(),
                            node < n,
                            current < n,
                            current == node || self.ireach(current as int, node as int),
                            row@ == pred(self.ends@, current as int),
                            j <= row@.len(),
                            nc == components@.len(),
                            visited@.len() == n,
                            comp_of.len() == n,
                            component@.len() > 0,
                            component@[0] == node,
                            component@.len() == clen,
                            clen == c0.len() + 1,
                            cs0.len() == c0.len() + s0.len(),
                            pending(component@, stack@).len() >= cs0.len(),
                            forall|v: int| 0 <= v < n && #[trigger] visited@[v] ==> (0 <= comp_of[v] < nc
                                && components@[comp_of[v]]@.contains(v as usize)) || (comp_of[v] == nc && pending(component@, stack@).contains(v as usize)),
                            forall|c: int, i: int| 0 <= c < components@.len() && 0 <= i < components@[c]@.len() ==> {
                                &&& #[trigger] components@[c]@[i] < n
                                &&& visited@[components@[c]@[i] as int]
                                &&& comp_of[components@[c]@[i] as int] == c
                            },
                            forall|k: int| 0 <= k < pending(component@, stack@).len() ==> {
                                &&& #[trigger] pending(component@, stack@)[k] < n
                                &&& visited@[pending(component@, stack@)[k] as int]
                                &&& comp_of[pending(component@, stack@)[k] as int] == nc
                                &&& (pending(component@, stack@)[k] == node || self.ireach(pending(component@, stack@)[k] as int, node as int))
                                &&& (pending(component@, stack@)[k] == node || self.ireach(node as int, pending(component@, stack@)[k] as int))
                            },
                            forall|k: int, l: int| 0 <= k < l < pending(component@, stack@).len() ==> pending(component@, stack@)[k]
                                != pending(component@, stack@)[l],
                            open_mask@.len() == n,
                            forall|v: int| 0 <= v < n ==> #[trigger] open_mask@[v] == !visited@[v],
                            ex.visited@.len() == n,
                            forall|v: int| 0 <= v < n && #[trigger] ex.visited@[v] && v != node as int ==> self.ireach(node as int, v),
                            forall|v: int| 0 <= v < n && #[trigger] self.mutual(v, node as int) ==> ex.visited@[v],
                            forall|c: int, i: int| 0 <= c < components@.len() && 0 <= i < components@[c]@.len() ==>
                                self.mutual(#[trigger] components@[c]@[i] as int, components@[c]@[0] as int),
                            forall|c: int, w: int| 0 <= c < components@.len() && 0 <= w < n && #[trigger] self.mutual(w, components@[c]@[0] as int) ==>
                                visited@[w] && comp_of[w] == c,
                            component@ == c0.push(current),
                            forall|k: int, q: int| 0 <= k < c0.len() && 0 <= q < n && self.adj(q, #[trigger] c0[k] as int)
                                && ex.visited@[q] ==> #[trigger] visited@[q],
                            forall|q: int| 0 <= q < j && #[trigger] ex.visited@[row@[q] as int] ==> visited@[row@[q] as int],
                        decreases row@.len() - j,
                    {
                        let parent = row[j];
                        let ghost vis_before = visited@;
                        proof {
                            assert(row@.contains(parent));
                            lemma_pred_contains(self.ends@, current as int, parent);
                            let k = choose|k: int| 0 <= k < self.ends@.len() && self.ends@[k].1 == current as int && self.ends@[k].0 == parent;
                            assert(self.adj(parent as int, current as int));
                        }
                        if !visited[parent] && ex.visited[parent] {
                            let ghost cs1 = pending(component@, stack@);
                            let ghost st1 = stack@;
                            proof {
                                assert(!cs1.contains(parent)) by {
                                    if cs1.contains(parent) {
                                        let k = choose|k: int| 0 <= k < cs1.len() && cs1[k] == parent;
                                        assert(visited@[cs1[k] as int]);
                                    }
                                }
                                self.lemma_ireach_prepend(parent as int, current as int, node as int);
                            }
                            visited.set(parent, true);
                            open_mask.set(parent, false);
                            stack.push(parent);
                            proof {
                                comp_of = comp_of.update(parent as int, nc);
                                let cs2 = pending(component@, stack@);
                                let cl = component@.len() as int;
                                assert(cs2.len() == cs1.len() + 1);
                                assert forall|k: int| 0 <= k < cs2.len() implies #[trigger] cs2[k] == (if k < cl {
                                    cs1[k]
                                } else if k == cl {
                                    parent
                                } else {
                                    cs1[k - 1]
                                }) by {
                                    if k == cl {
                                        assert(cs2[k] == stack@.reverse()[0]);
                                    } else if k > cl {
                                        let i = k - cl;
                                        assert(cs2[k] == stack@.reverse()[i]);
                                        assert(stack@.reverse()[i] == stack@[stack@.len() - 1 - i]);
                                        assert(stack@[stack@.len() - 1 - i] == st1[st1.len() - 1 - (i - 1)]);
                                        assert(cs1[k - 1] == st1.reverse()[i - 1]);
                                    } else {
                                        assert(cs1[k] == component@[k]);
                                    }
                                }
                                assert forall|v: int| 0 <= v < n && #[trigger] visited@[v] implies (0 <= comp_of[v] < nc
                                    && components@[comp_of[v]]@.contains(v as usize)) || (comp_of[v] == nc && cs2.contains(v as usize)) by {
                                    if v == parent as int {
                                        assert(cs2[cl] == parent);
                                    } else if comp_of[v] == nc {
                                        let k = choose|k: int| 0 <= k < cs1.len() && cs1[k] == v as usize;
                                        if k < cl {
                                            assert(cs2[k] == v as usize);
                                        } else {
                                            assert(cs2[k + 1] == v as usize);
                                        }
                                    }
                                }
                                assert forall|c: int, i: int| 0 <= c < components@.len() && 0 <= i < components@[c]@.len() implies {
                                    &&& #[trigger] components@[c]@[i] < n
                                    &&& visited@[components@[c]@[i] as int]
                                    &&& comp_of[components@[c]@[i] as int] == c
                                } by {
                                    assert(components@[c]@[i] != parent);
                                }
                                assert forall|k: int, l: int| 0 <= k < l < cs2.len() implies cs2[k] != cs2[l] by {
                                    assert(cs2[k] == (if k < cl { cs1[k] } else if k == cl { parent } else { cs1[k - 1] }));
                                    assert(cs2[l] == (if l < cl { cs1[l] } else if l == cl { parent } else { cs1[l - 1] }));
                                    if k == cl {
                                        assert(cs1.contains(cs1[l - 1]));
                                    }
                                    if l == cl {
                                        assert(cs1.contains(cs1[k]));
                                    }
                                }
                                assert forall|k: int| 0 <= k < cs2.len() implies {
                                    &&& #[trigger] cs2[k] < n
                                    &&& visited@[cs2[k] as int]
                                    &&& comp_of[cs2[k] as int] == nc
                                    &&& (cs2[k] == node || self.ireach(cs2[k] as int, node as int))
                                    &&& (cs2[k] == node || self.ireach(node as int, cs2[k] as int))
                                } by {
                                    assert(cs2[k] == (if k < cl { cs1[k] } else if k == cl { parent } else { cs1[k - 1] }));
                                }
                            }
                        }
                        proof {
                            assert(row@[j as int] == parent);
                            assert(ex.visited@[parent as int] ==> visited@[parent as int]);
                            assert forall|v: int| 0 <= v < n && vis_before[v] implies visited@[v] by {}
                            assert forall|q: int| 0 <= q < j + 1 && #[trigger] ex.visited@[row@[q] as int] implies visited@[row@[q] as int] by {
                                if q < j {
                                    assert(row@.contains(row@[q]));
                                    lemma_pred_contains(self.ends@, current as int, row@[q]);
                                    assert(vis_before[row@[q] as int]);
                                }
                            }
                        }
                        j = j + 1;
                    }
                    proof {
                        lemma_distinct_count(pending(component@, stack@), n as int);
                        assert forall|k: int, q: int| 0 <= k < component@.len() && 0 <= q < n && self.adj(q, #[trigger] component@[k] as int)
                            && ex.visited@[q] implies #[trigger] visited@[q] by {
                            if k < c0.len() {
                                assert(component@[k] == c0[k]);
                            } else {
                                assert(component@[k] == current);
                                let kk = choose|kk: int| 0 <= kk < self.ends@.len() && self.ends@[kk].0 == q && self.ends@[kk].1 == current as int;
                                lemma_pred_contains(self.ends@, current as int, q as usize);
                                assert(row@.contains(q as usize));
                                let t = choose|t: int| 0 <= t < row@.len() && row@[t] == q as usize;
                                assert(ex.visited@[row@[t] as int]);
                            }
                        }
                    }
                }
                proof {
                    assert(stack@.reverse() =~= Seq::<usize>::empty());
                    assert(pending(component@, stack@) =~= component@);
                    assert(component@[0] == node);
                    assert(comp_of[node as int] == nc);
                    assert forall|w: int| 0 <= w < n && #[trigger] self.mutual(w, node as int) implies visited@[w] && comp_of[w] == nc by {
                        let ax = all_true(n as nat);
                        let p: Seq<int> = if w == node as int {
                            seq![node as int]
                        } else {
                            choose|p: Seq<int>| #[trigger] self.is_iwalk(p, ax) && p.len() >= 2 && p[0] == w && p.last() == node as int
                        };
                        assert(self.is_iwalk(p, ax));
                        assert(p[0] == w && p.last() == node as int);
                        assert forall|k: int| 0 <= k < p.len() implies #[trigger] ex.visited@[p[k]] by {
                            self.lemma_walk_mutual(p, k);
                            self.lemma_mutual_trans(p[k], w, node as int);
                        }
                        assert forall|k: int| 0 <= k < p.len() implies !(#[trigger] visited@[p[k]] && 0 <= comp_of[p[k]] < nc) by {
                            self.lemma_walk_mutual(p, k);
                            self.lemma_mutual_trans(p[k], w, node as int);
                            if visited@[p[k]] && 0 <= comp_of[p[k]] < nc {
                                let c = comp_of[p[k]];
                                let i = choose|i: int| 0 <= i < components@[c]@.len() && components@[c]@[i] == p[k] as usize;
                                assert(self.mutual(components@[c]@[i] as int, components@[c]@[0] as int));
                                self.lemma_mutual_trans(node as int, p[k], components@[c]@[0] as int);
                                assert(comp_of[node as int] == c);
                            }
                        }
                        assert(component@.contains(node));
                        self.lemma_back_closure(p, ex.visited@, visited@, comp_of, component@, nc, 0);
                        let t = choose|t: int| 0 <= t < component@.len() && component@[t] == w as usize;
                        assert(pending(component@, stack@)[t] == w as usize);
                    }
                }
                let ghost comps0 = components@;
                components.push(component);
                proof {
                    assert forall|c: int| 0 <= c < components@.len() implies #[trigger] components@[c]@.len() >= 1 by {
                        if c < nc {
                            assert(components@[c] == comps0[c]);
                        }
                    }
                    assert forall|c: int, i: int| 0 <= c < components@.len() && 0 <= i < components@[c]@.len() implies
                        self.mutual(#[trigger] components@[c]@[i] as int, components@[c]@[0] as int) by {
                        if c < nc {
                            assert(components@[c] == comps0[c]);
                        } else {
                            assert(pending(components@[c]@, stack@)[i] == components@[c]@[i]);
                        }
                    }
                    assert forall|c: int, w: int| 0 <= c < components@.len() && 0 <= w < n && #[trigger] self.mutual(w, components@[c]@[0] as int) implies
                        visited@[w] && comp_of[w] == c by {
                        if c < nc {
                            assert(components@[c] == comps0[c]);
                        }
                    }
                }
            }
        }
        proof {
            assert forall|v: usize| v < n implies #[trigger] in_parts(components@, v) by {
                assert(order@.contains(v));
                let k = choose|k: int| 0 <= k < order@.len() && order@[k] == v;
                assert(visited@[order@[k] as int]);
                let c = comp_of[v as int];
                let i = choose|i: int| 0 <= i < components@[c]@.len() && components@[c]@[i] == v;
                assert(components@[c]@[i] == v);
            }
            assert forall|c: int, i: int, d: int, j: int|
                0 <= c < components@.len() && 0 <= i < components@[c]@.len() && 0 <= d < components@.len() && 0 <= j < components@[d]@.len()
                    implies (c == d <==> self.mutual(#[trigger] components@[c]@[i] as int, #[trigger] components@[d]@[j] as int)) by {
                let x = components@[c]@[i] as int;
                let y = components@[d]@[j] as int;
                let root = components@[c]@[0] as int;
                assert(self.mutual(x, root));
                if c == d {
                    assert(self.mutual(y, root));
                    self.lemma_mutual_trans(x, root, y);
                }
                if self.mutual(x, y) {
                    self.lemma_mutual_trans(y, x, root);
                    assert(comp_of[y] == c);
                    assert(comp_of[y] == d);
                }
            }
        }
        components
    }
}


/// Some component holds a module with id `x`.
pub open spec fn in_components(parts: Seq<Vec<ModuleId>>, x: Seq<char>) -> bool {
    exists|c: int, i: int| 0 <= c < parts.len() && 0 <= i < parts[c]@.len() && parts[c]@[i]@ == x
}

/// The ids of each walk of modules.
pub open spec fn walk_ids(r: Seq<Vec<ModuleId>>) -> Seq<Seq<Seq<char>>> {
    r.map_values(|c: Vec<ModuleId>| ids_of(c@))
}

/// The ids of a sequence of modules.
pub open spec fn ids_of(p: Seq<ModuleId>) -> Seq<Seq<char>> {
    p.map_values(|m: ModuleId| m@)
}

impl GraphData {
    /// A closed walk inside a component: an edge from one of its nodes into the component,
    /// then a shortest way back through the component; `None` exactly when the component holds
    /// no closed walk.
    fn find_cycle_in_component(&self, component: &Vec<usize>) -> (r: Option<Vec<usize>>)
        requires
            self.wf(),
            forall|i: int| 0 <= i < component@.len() ==> #[trigger] component@[i] < self.nodes@.len(),
        ensures
            r matches Some(p) ==> {
                &&& p@.len() >= 2
                &&& p@[0] == p@.last()
                &&& self.is_iwalk(as_ints(p@), all_true(self.nodes@.len()))
                &&& self.is_iwalk(as_ints(p@), member_mask(component@, self.nodes@.len()))
                &&& component@.contains(p@[0])
            },
            r is None ==> !exists|p: Seq<int>|
                #[trigger] self.is_iwalk(p, member_mask(component@, self.nodes@.len())) && p.len() >= 2 && p[0]
                    == p.last() && component@.contains(p[0] as usize),
            r matches Some(p) ==> exists|a: int, k: int| {
                &&& #[trigger] self.first_attempt(component@, a, k)
                &&& p@[0] == component@[a]
                &&& as_ints(p@)[1] == succ(self.ends@, component@[a] as int)[k] as int
                &&& self.greedy_walk(as_ints(p@).skip(1), component@[a] as int, member_mask(component@, self.nodes@.len()))
            },
    {
        let n = self.nodes.len();
        let ghost m = member_mask(component@, n as nat);
        let mut mask = filled(false, n);
        let mut i: usize = 0;
        while i < component.len()
            invariant
                n == self.nodes@.len(),
                mask@.len() == n,
                i <= component@.len(),
                forall|k: int| 0 <= k < component@.len() ==> #[trigger] component@[k] < n,
                forall|v: int| 0 <= v < n ==> (#[trigger] mask@[v] <==> exists|k: int| 0 <= k < i && component@[k] == v),
            decreases component@.len() - i,
        {
            mask.set(component[i], true);
            proof {
                assert forall|v: int| 0 <= v < n implies (#[trigger] mask@[v] <==> exists|k: int| 0 <= k < i + 1 && component@[k] == v) by {
                    if v == component@[i as int] {
                        assert(0 <= i < i + 1 && component@[i as int] == v);
                    } else if exists|k: int| 0 <= k < i + 1 && component@[k] == v {
                        let k = choose|k: int| 0 <= k < i + 1 && component@[k] == v;
                        assert(k < i);
                    }
                }
            }
            i = i + 1;
        }
        proof {
            assert forall|v: int| 0 <= v < n implies #[trigger] mask@[v] == m[v] by {
                if mask@[v] {
                    let k = choose|k: int| 0 <= k < i && component@[k] == v;
                    assert(component@[k] == v as usize);
                }
                if m[v] {
                    let k = choose|k: int| 0 <= k < component@.len() && component@[k] == v as usize;
                    assert(component@[k] == v);
                }
            }
            assert(mask@ =~= m);
        }
        let mut a: usize = 0;
        while a < component.len()
            invariant
                self.wf(),
                n == self.nodes@.len(),
                mask@ == m,
                mask@.len() == n,
                m == member_mask(component@, n as nat),
                a <= component@.len(),
                forall|k: int| 0 <= k < component@.len() ==> #[trigger] component@[k] < n,
                forall|k: int, t: int, e: int|
                    0 <= k < a && 0 <= t < n && self.adj(component@[k] as int, t) && m[t] ==> !#[trigger] self.within(
                        t,
                        component@[k] as int,
                        e,
                        m,
                    ),
            decreases component@.len() - a,
        {
            let start = component[a];
            let row = &self.outgoing[start];
            let mut j: usize = 0;
            while j < row.len()
                invariant
                    self.wf(),
                    n == self.nodes@.len(),
                    mask@ == m,
                    mask@.len() == n,
                    m == member_mask(component@, n as nat),
                    a < component@.len(),
                    start < n,
                    start == component@[a as int],
                    row@ == succ(self.ends@, start as int),
                    j <= row@.len(),
                    forall|q: int, e: int|
                        0 <= q < j && m[row@[q] as int] ==> !#[trigger] self.within(row@[q] as int, start as int, e, m),
                    forall|k: int, t: int, e: int|
                        0 <= k < a && 0 <= t < n && self.adj(component@[k] as int, t) && m[t] ==> !#[trigger] self.within(
                            t,
                            component@[k] as int,
                            e,
                            m,
                        ),
                    forall|i: int| 0 <= i < component@.len() ==> #[trigger] component@[i] < n,
                decreases row@.len() - j,
            {
                let neighbor = row[j];
                proof {
                    assert(row@.contains(neighbor));
                    lemma_succ_contains(self.ends@, start as int, neighbor);
                }
                if mask[neighbor] {
                    let found = self.greedy_path(neighbor, start, &mask);
                    if let Some(path) = found {
                        let mut cycle: Vec<usize> = Vec::new();
                        cycle.push(start);
                        let mut k: usize = 0;
                        while k < path.len()
                            invariant
                                m == member_mask(component@, n as nat),
                                n == self.nodes@.len(),
                                cycle@ == seq![start] + path@.take(k as int),
                                k <= path@.len(),
                            decreases path@.len() - k,
                        {
                            cycle.push(path[k]);
                            proof {
                                assert(path@.take(k + 1) =~= path@.take(k as int).push(path@[k as int]));
                            }
                            k = k + 1;
                        }
                        proof {
                            assert(path@.take(path@.len() as int) =~= path@);
                            let al = all_true(n as nat);
                            let p = as_ints(path@);
                            let q = as_ints(cycle@);
                            assert(self.is_iwalk(p, m));
                            assert forall|t: int| 0 <= t < q.len() implies 0 <= #[trigger] q[t] < n by {
                                if t > 0 {
                                    assert(q[t] == p[t - 1]);
                                }
                            }
                            assert forall|t: int| 0 <= t < q.len() - 1 implies self.adj(#[trigger] q[t], q[t + 1]) by {
                                if t > 0 {
                                    assert(q[t] == p[t - 1] && q[t + 1] == p[t]);
                                } else {
                                    assert(q[1] == p[0]);
                                    assert(p[0] == neighbor as int);
                                }
                            }
                            assert forall|t: int| 1 <= t < q.len() implies m[#[trigger] q[t]] by {
                                assert(q[t] == p[t - 1]);
                                if t > 1 {
                                    assert(m[p[t - 1]]);
                                } else {
                                    assert(p[0] == neighbor as int);
                                }
                            }
                            assert(q.last() == p.last());
                            assert(self.is_iwalk(q, al));
                            assert(self.is_iwalk(q, m));
                            assert(component@[a as int] == cycle@[0]);
                            assert(component@.contains(cycle@[0]));
                            assert(m == member_mask(component@, self.nodes@.len()));
                            assert(q.skip(1) =~= p);
                            assert(self.back_reachable(neighbor as int, start as int, m));
                            assert forall|jj: int| 0 <= jj < j implies !(m[#[trigger] succ(self.ends@, start as int)[jj] as int]
                                && self.back_reachable(succ(self.ends@, start as int)[jj] as int, start as int, m)) by {
                                if m[row@[jj] as int] && self.back_reachable(row@[jj] as int, start as int, m) {
                                    let e = choose|e: int| self.within(row@[jj] as int, start as int, e, m);
                                }
                            }
                            assert forall|bb: int, t: int| 0 <= bb < a && 0 <= t < n && self.adj(component@[bb] as int, t) && m[t]
                                implies !self.back_reachable(t, component@[bb] as int, m) by {
                                if self.back_reachable(t, component@[bb] as int, m) {
                                    let e = choose|e: int| self.within(t, component@[bb] as int, e, m);
                                }
                            }
                            assert(self.first_attempt(component@, a as int, j as int));
                        }
                        return Some(cycle);
                    }
                    proof {
                        assert forall|e: int| !#[trigger] self.within(neighbor as int, start as int, e, m) by {
                            if self.within(neighbor as int, start as int, e, m) {
                                assert(exists|e: int| self.within(neighbor as int, start as int, e, m));
                            }
                        }
                    }
                }
                j = j + 1;
            }
            proof {
                assert forall|t: int, e: int|
                    0 <= t < n && self.adj(start as int, t) && m[t] implies !#[trigger] self.within(t, start as int, e, m) by {
                    let kk = choose|kk: int| 0 <= kk < self.ends@.len() && self.ends@[kk].0 == start as int && self.ends@[kk].1 == t;
                    lemma_succ_contains(self.ends@, start as int, t as usize);
                    let q = choose|q: int| 0 <= q < row@.len() && row@[q] == t as usize;
                    assert(!self.within(row@[q] as int, start as int, e, m));
                }
                assert forall|k: int, t: int, e: int|
                    0 <= k < a + 1 && 0 <= t < n && self.adj(component@[k] as int, t) && m[t] implies !#[trigger] self.within(
                        t,
                        component@[k] as int,
                        e,
                        m,
                    ) by {
                    if k == a {
                        assert(component@[k] == start);
                    }
                }
            }
            a = a + 1;
        }
        proof {
            assert forall|p: Seq<int>|
                #[trigger] self.is_iwalk(p, m) && p.len() >= 2 && p[0] == p.last() && component@.contains(p[0] as usize)
                    implies false by {
                let k = choose|k: int| 0 <= k < component@.len() && component@[k] == p[0] as usize;
                assert(self.adj(p[0], p[1]));
                let w = p.skip(1);
                assert(w[0] == p[1]);
                assert(w.last() == p.last());
                assert forall|t: int| 0 <= t < w.len() implies 0 <= #[trigger] w[t] < n by {
                    assert(w[t] == p[t + 1]);
                }
                assert forall|t: int| 1 <= t < w.len() implies m[#[trigger] w[t]] by {
                    assert(w[t] == p[t + 1]);
                }
                assert forall|t: int| 0 <= t < w.len() - 1 implies self.adj(#[trigger] w[t], w[t + 1]) by {
                    assert(w[t] == p[t + 1] && w[t + 1] == p[t + 2]);
                }
                assert(self.is_iwalk(w, m));
                assert(self.within(p[1], p[0], p.len() as int, m));
                assert(component@[k] as int == p[0]);
                assert(m[p[1]]);
            }
        }
        None
    }
}

impl GraphData {
    /// `s` can be reached from `v` through allowed nodes.
    spec fn back_reachable(&self, v: int, s: int, m: Seq<bool>) -> bool {
        exists|e: int| self.within(v, s, e, m)
    }

    /// Taking the nodes of `comp` in order, and the successors of each in edge order, entry `k`
    /// of the successors of `comp[a]` is the first that lies in `comp` and leads back to it.
    spec fn first_attempt(&self, comp: Seq<usize>, a: int, k: int) -> bool {
        let m = member_mask(comp, self.nodes@.len());
        &&& 0 <= a < comp.len()
        &&& 0 <= k < succ(self.ends@, comp[a] as int).len()
        &&& m[succ(self.ends@, comp[a] as int)[k] as int]
        &&& self.back_reachable(succ(self.ends@, comp[a] as int)[k] as int, comp[a] as int, m)
        &&& forall|j: int|
            0 <= j < k ==> !(m[#[trigger] succ(self.ends@, comp[a] as int)[j] as int] && self.back_reachable(
                succ(self.ends@, comp[a] as int)[j] as int,
                comp[a] as int,
                m,
            ))
        &&& forall|b: int, t: int|
            0 <= b < a && 0 <= t < self.nodes@.len() && self.adj(comp[b] as int, t) && m[t] ==> !self.back_reachable(
                t,
                comp[b] as int,
                m,
            )
    }

    /// A closed walk runs through the nodes of `part` from one of them.
    spec fn cyclic_part(&self, part: Seq<usize>) -> bool {
        exists|p: Seq<int>|
            #[trigger] self.is_iwalk(p, member_mask(part, self.nodes@.len())) && p.len() >= 2 && p[0] == p.last()
                && part.contains(p[0] as usize)
    }
}

impl GraphData {
    /// `w` is the cycle reported for the component `part`: `[v, v]` for a single node `v`;
    /// otherwise its first node, then that node's first successor inside the component, then
    /// the greedy walk back inside the component.
    spec fn picked(&self, part: Seq<usize>, w: Seq<usize>) -> bool {
        let m = member_mask(part, self.nodes@.len());
        if part.len() == 1 {
            w == seq![part[0], part[0]]
        } else {
            &&& w.len() >= 2
            &&& w[0] == part[0]
            &&& exists|k: int| {
                &&& 0 <= k < succ(self.ends@, part[0] as int).len()
                &&& #[trigger] succ(self.ends@, part[0] as int)[k] == w[1]
                &&& m[w[1] as int]
                &&& forall|j: int| 0 <= j < k ==> !m[#[trigger] succ(self.ends@, part[0] as int)[j] as int]
            }
            &&& self.greedy_walk(as_ints(w).skip(1), part[0] as int, m)
            &&& self.is_iwalk(as_ints(w).skip(1), m)
        }
    }

    /// In a component whose nodes all reach each other and that holds every node reaching its
    /// first node both ways, each node leads back to the first one inside the component.
    proof fn lemma_part_back(&self, part: Seq<usize>, v: int)
        requires
            self.wf(),
            part.len() >= 1,
            forall|i: int| 0 <= i < part.len() ==> #[trigger] part[i] < self.nodes@.len(),
            forall|i: int| 0 <= i < part.len() ==> self.mutual(#[trigger] part[i] as int, part[0] as int),
            forall|y: int| 0 <= y < self.nodes@.len() && #[trigger] self.mutual(y, part[0] as int) ==> part.contains(y as usize),
            0 <= v < self.nodes@.len(),
            member_mask(part, self.nodes@.len())[v],
        ensures
            self.back_reachable(v, part[0] as int, member_mask(part, self.nodes@.len())),
    {
        let n = self.nodes@.len();
        let m = member_mask(part, n);
        let p0 = part[0] as int;
        if v == p0 {
            self.lemma_within_start(p0, m);
        } else {
            let i = choose|i: int| 0 <= i < part.len() && part[i] == v as usize;
            assert(self.mutual(part[i] as int, p0));
            let ax = all_true(n);
            let q = choose|q: Seq<int>| #[trigger] self.is_iwalk(q, ax) && q.len() >= 2 && q[0] == v && q.last() == p0;
            assert forall|t: int| 1 <= t < q.len() implies m[#[trigger] q[t]] by {
                self.lemma_walk_mutual(q, t);
                self.lemma_mutual_trans(q[t], v, p0);
            }
            assert(self.is_iwalk(q, m));
            assert(self.within(v, p0, q.len() as int, m));
        }
    }

    /// A component of two nodes or more holds a closed walk from its first node.
    proof fn lemma_part_cyclic(&self, part: Seq<usize>)
        requires
            self.wf(),
            part.len() >= 1,
            forall|i: int| 0 <= i < part.len() ==> #[trigger] part[i] < self.nodes@.len(),
            forall|i: int| 0 <= i < part.len() ==> self.mutual(#[trigger] part[i] as int, part[0] as int),
            forall|y: int| 0 <= y < self.nodes@.len() && #[trigger] self.mutual(y, part[0] as int) ==> part.contains(y as usize),
            forall|i: int, j: int| 0 <= i < j < part.len() ==> part[i] != part[j],
            part.len() >= 2,
        ensures
            self.cyclic_part(part),
    {
        let n = self.nodes@.len();
        let m = member_mask(part, n);
        let p0 = part[0] as int;
        let p1 = part[1] as int;
        assert(self.mutual(p1, p0));
        assert(part[1] != part[0]);
        self.lemma_ireach_trans(p0, p1, p0);
        let ax = all_true(n);
        let q = choose|q: Seq<int>| #[trigger] self.is_iwalk(q, ax) && q.len() >= 2 && q[0] == p0 && q.last() == p0;
        assert forall|t: int| 1 <= t < q.len() implies m[#[trigger] q[t]] by {
            self.lemma_walk_mutual(q, t);
        }
        assert(self.is_iwalk(q, m));
        assert(part.contains(part[0]));
    }

    /// What the search inside a component returns is the component's reported cycle.
    proof fn lemma_part_pick(&self, part: Seq<usize>, w: Seq<usize>)
        requires
            self.wf(),
            part.len() >= 1,
            forall|i: int| 0 <= i < part.len() ==> #[trigger] part[i] < self.nodes@.len(),
            forall|i: int| 0 <= i < part.len() ==> self.mutual(#[trigger] part[i] as int, part[0] as int),
            forall|y: int| 0 <= y < self.nodes@.len() && #[trigger] self.mutual(y, part[0] as int) ==> part.contains(y as usize),
            forall|i: int, j: int| 0 <= i < j < part.len() ==> part[i] != part[j],
            part.len() >= 2,
            w.len() >= 2,
            self.is_iwalk(as_ints(w), member_mask(part, self.nodes@.len())),
            exists|a: int, k: int| {
                &&& #[trigger] self.first_attempt(part, a, k)
                &&& w[0] == part[a]
                &&& as_ints(w)[1] == succ(self.ends@, part[a] as int)[k] as int
                &&& self.greedy_walk(as_ints(w).skip(1), part[a] as int, member_mask(part, self.nodes@.len()))
            },
        ensures
            self.picked(part, w),
            forall|t: int| 0 <= t < w.len() ==> part.contains(#[trigger] w[t]),
    {
        let n = self.nodes@.len();
        let m = member_mask(part, n);
        let p0 = part[0] as int;
        let (a, k) = choose|a: int, k: int| {
            &&& #[trigger] self.first_attempt(part, a, k)
            &&& w[0] == part[a]
            &&& as_ints(w)[1] == succ(self.ends@, part[a] as int)[k] as int
            &&& self.greedy_walk(as_ints(w).skip(1), part[a] as int, member_mask(part, self.nodes@.len()))
        };
        let row = succ(self.ends@, p0);
        if a > 0 {
            let ax = all_true(n);
            let p1 = part[1] as int;
            assert(self.mutual(p1, p0));
            assert(part[1] != part[0]);
            self.lemma_ireach_trans(p0, p1, p0);
            let q = choose|q: Seq<int>| #[trigger] self.is_iwalk(q, ax) && q.len() >= 2 && q[0] == p0 && q.last() == p0;
            self.lemma_walk_mutual(q, 1);
            assert(m[q[1]]);
            self.lemma_part_back(part, q[1]);
            assert(self.adj(part[0] as int, q[1]));
            assert(!self.back_reachable(q[1], part[0] as int, m));
        }
        assert(a == 0);
        assert forall|j: int| 0 <= j < k implies !m[#[trigger] row[j] as int] by {
            assert(row.contains(row[j]));
            lemma_succ_contains(self.ends@, p0, row[j]);
            if m[row[j] as int] {
                self.lemma_part_back(part, row[j] as int);
            }
        }
        let q = as_ints(w);
        let s = q.skip(1);
        assert forall|t: int| 0 <= t < s.len() implies 0 <= #[trigger] s[t] < n by {
            assert(s[t] == q[t + 1]);
        }
        assert forall|t: int| 1 <= t < s.len() implies m[#[trigger] s[t]] by {
            assert(s[t] == q[t + 1]);
        }
        assert forall|t: int| 0 <= t < s.len() - 1 implies self.adj(#[trigger] s[t], s[t + 1]) by {
            assert(s[t] == q[t + 1] && s[t + 1] == q[t + 2]);
        }
        assert(self.is_iwalk(s, m));
        assert(q[1] == w[1] as int);
        assert(m[w[1] as int]);
        assert(row[k] == w[1]);
        assert(self.picked(part, w));
        assert forall|t: int| 0 <= t < w.len() implies part.contains(#[trigger] w[t]) by {
            if t > 0 {
                assert(m[q[t]]);
                assert(q[t] == w[t] as int);
            } else {
                assert(part[0] == w[0]);
            }
        }
    }

    /// The cycle reported for one strongly connected component.
    #[verifier::spinoff_prover]
    fn cycle_of_part(&self, part: &Vec<usize>) -> (r: Option<Vec<usize>>)
        requires
            self.wf(),
            part@.len() >= 1,
            forall|i: int| 0 <= i < part@.len() ==> #[trigger] part@[i] < self.nodes@.len(),
            forall|i: int| 0 <= i < part@.len() ==> self.mutual(#[trigger] part@[i] as int, part@[0] as int),
            forall|y: int| 0 <= y < self.nodes@.len() && #[trigger] self.mutual(y, part@[0] as int) ==> part@.contains(y as usize),
            forall|i: int, j: int| 0 <= i < j < part@.len() ==> part@[i] != part@[j],
        ensures
            r is Some <==> (part@.len() >= 2 || self.adj(part@[0] as int, part@[0] as int)),
            r is None ==> !self.cyclic_part(part@),
            r matches Some(w) ==> {
                &&& w@.len() >= 2
                &&& w@[0] == w@.last()
                &&& self.is_iwalk(as_ints(w@), all_true(self.nodes@.len()))
                &&& forall|k: int| 0 <= k < w@.len() ==> part@.contains(#[trigger] w@[k])
                &&& self.picked(part@, w@)
            },
    {
        let n = self.nodes.len();
        let ghost m = member_mask(part@, n as nat);
        let ghost p0 = part@[0] as int;
        if part.len() == 1 {
            let index = part[0];
            let row = &self.outgoing[index];
            let mut self_loop = false;
            let mut j: usize = 0;
            while j < row.len()
                invariant
                    j <= row@.len(),
                    self_loop <==> exists|q: int| 0 <= q < j && row@[q] == index,
                decreases row@.len() - j,
            {
                if row[j] == index {
                    self_loop = true;
                }
                proof {
                    if exists|q: int| 0 <= q < j + 1 && row@[q] == index {
                        let q = choose|q: int| 0 <= q < j + 1 && row@[q] == index;
                        if q == j {
                            assert(row[j as int] == index);
                        }
                    }
                }
                j = j + 1;
            }
            proof {
                lemma_succ_contains(self.ends@, index as int, index);
                if self.adj(index as int, index as int) {
                    let kk = choose|kk: int| 0 <= kk < self.ends@.len() && self.ends@[kk].0 == index as int && self.ends@[kk].1 == index as int;
                    assert(row@.contains(index));
                }
                if self_loop {
                    let q = choose|q: int| 0 <= q < j && row@[q] == index;
                    assert(row@.contains(index));
                }
                if self.cyclic_part(part@) {
                    let p = choose|p: Seq<int>| #[trigger] self.is_iwalk(p, member_mask(part@, n as nat)) && p.len() >= 2
                        && p[0] == p.last() && part@.contains(p[0] as usize);
                    assert(member_mask(part@, n as nat)[p[1]]);
                    assert(part@.contains(p[1] as usize));
                    assert(p[0] == index as int && p[1] == index as int);
                    assert(self.adj(p[0], p[1]));
                }
            }
            if self_loop {
                let mut w: Vec<usize> = Vec::new();
                w.push(index);
                w.push(index);
                proof {
                    assert(part@.contains(index));
                    let q = as_ints(w@);
                    assert(q[0] == index as int && q[1] == index as int);
                    assert(self.adj(q[0], q[1]));
                    assert(self.is_iwalk(q, all_true(n as nat)));
                    assert(w@ =~= seq![part@[0], part@[0]]);
                }
                return Some(w);
            } else {
                return None;
            }
        }
        proof {
            self.lemma_part_cyclic(part@);
        }
        let f = self.find_cycle_in_component(part);
        let w = f.unwrap();
        proof {
            self.lemma_part_pick(part@, w@);
        }
        Some(w)
    }
}

impl GraphData {
    /// A walk with the fewest edges to its end repeats no node.
    proof fn lemma_near_simple(&self, p: Seq<int>, t: int, al: Seq<bool>)
        requires
            self.is_iwalk(p, al),
            p.last() == t,
            self.near(p[0], t, p.len() - 1, al),
        ensures
            forall|i: int, j: int| 0 <= i < j < p.len() ==> p[i] != p[j],
    {
        assert forall|i: int, j: int| 0 <= i < j < p.len() implies p[i] != p[j] by {
            if p[i] == p[j] {
                let q = p.take(i + 1) + p.skip(j + 1);
                assert forall|x: int| 0 <= x < q.len() implies 0 <= #[trigger] q[x] < self.nodes@.len() by {
                    if x > i {
                        assert(q[x] == p[x + j - i]);
                    }
                }
                assert forall|x: int| 1 <= x < q.len() implies al[#[trigger] q[x]] by {
                    if x > i {
                        assert(q[x] == p[x + j - i]);
                    } else {
                        assert(q[x] == p[x]);
                    }
                }
                assert forall|x: int| 0 <= x < q.len() - 1 implies self.adj(#[trigger] q[x], q[x + 1]) by {
                    if x < i {
                        assert(q[x] == p[x] && q[x + 1] == p[x + 1]);
                    } else if x == i {
                        assert(q[x] == p[j] && q[x + 1] == p[j + 1]);
                    } else {
                        assert(q[x] == p[x + j - i] && q[x + 1] == p[x + 1 + j - i]);
                    }
                }
                if j == p.len() - 1 {
                    assert(q.last() == p[i]);
                } else {
                    assert(q.last() == p.last());
                }
                assert(self.is_iwalk(q, al));
                assert(q[0] == p[0]);
                assert(self.within(p[0], t, p.len() - 2, al));
            }
        }
    }

    /// A reported cycle repeats no node before closing.
    proof fn lemma_picked_simple(&self, part: Seq<usize>, w: Seq<usize>)
        requires
            part.len() >= 1,
            self.picked(part, w),
        ensures
            forall|i: int, j: int| 0 <= i < j < w.len() - 1 ==> w[i] != w[j],
    {
        if part.len() >= 2 {
            let m = member_mask(part, self.nodes@.len());
            let s = as_ints(w).skip(1);
            self.lemma_near_simple(s, part[0] as int, m);
            assert forall|i: int, j: int| 0 <= i < j < w.len() - 1 implies w[i] != w[j] by {
                assert(s[j - 1] == w[j] as int);
                if i == 0 {
                    assert(s.last() == part[0] as int);
                    assert(s[s.len() - 1] == s.last());
                    assert(j - 1 < s.len() - 1);
                } else {
                    assert(s[i - 1] == w[i] as int);
                }
            }
        }
    }
}

/// The mask of the nodes that a component holds.
pub open spec fn member_mask(component: Seq<usize>, n: nat) -> Seq<bool> {
    Seq::new(n, |v: int| component.contains(v as usize))
}

impl ModuleGraph {
    /// The modules at the given node indices.
    fn modules_at(&self, path: &Vec<usize>) -> (r: Vec<ModuleId>)
        requires
            self.data.wf(),
            forall|i: int| 0 <= i < path@.len() ==> #[trigger] path@[i] < self.data.nodes@.len(),
        ensures
            r@.len() == path@.len(),
            forall|i: int| 0 <= i < r@.len() ==> #[trigger] r@[i]@ == self.ids()[path@[i] as int],
            ids_of(r@) == as_ints(path@).map_values(|i: int| self.ids()[i]),
    {
        let mut out: Vec<ModuleId> = Vec::new();
        let mut k: usize = 0;
        while k < path.len()
            invariant
                self.data.wf(),
                k <= path@.len(),
                forall|i: int| 0 <= i < path@.len() ==> #[trigger] path@[i] < self.data.nodes@.len(),
                out@.len() == k,
                forall|i: int| 0 <= i < out@.len() ==> #[trigger] out@[i]@ == self.ids()[path@[i] as int],
            decreases path@.len() - k,
        {
            out.push(self.data.nodes[path[k]].duplicate());
            k = k + 1;
        }
        proof {
            assert(ids_of(out@) =~= as_ints(path@).map_values(|i: int| self.ids()[i]));
        }
        out
    }

    proof fn lemma_ireach_reaches(&self, a: int, b: int)
        requires
            self.data.wf(),
            self.data.ireach(a, b),
        ensures
            self.reaches(self.ids()[a], self.ids()[b]),
    {
        let al = all_true(self.data.nodes@.len());
        let p = choose|p: Seq<int>| #[trigger] self.data.is_iwalk(p, al) && p.len() >= 2 && p[0] == a && p.last() == b;
        self.lemma_walk_ids(p, al);
        let q = p.map_values(|i: int| self.ids()[i]);
        assert(q[0] == self.ids()[a]);
        assert(q.last() == self.ids()[b]);
    }

    /// Index `a` reaches index `b` when their modules reach each other's ids.
    proof fn lemma_reaches_ireach(&self, a: int, b: int)
        requires
            self.data.wf(),
            0 <= a < self.data.nodes@.len(),
            0 <= b < self.data.nodes@.len(),
            self.reaches(self.ids()[a], self.ids()[b]),
        ensures
            self.data.ireach(a, b),
    {
        let q = choose|q: Seq<Seq<char>>| #[trigger] self.is_walk(q) && q.len() >= 2 && q[0] == self.ids()[a] && q.last() == self.ids()[b];
        let al = all_true(self.data.nodes@.len());
        let p = self.lemma_ids_walk(q, al);
        assert(self.has_id(self.ids()[a]));
        assert(self.has_id(self.ids()[b]));
        self.lemma_index_of(self.ids()[a]);
        self.lemma_index_of(self.ids()[b]);
        assert(p[0] == self.index_of(q[0]));
        assert(p[p.len() - 1] == self.index_of(q[q.len() - 1]));
        assert(self.data.is_iwalk(p, al));
    }

    /// Two node indices share a component exactly when their modules have the same id or reach
    /// each other.
    proof fn lemma_mutual_ids(&self, a: int, b: int)
        requires
            self.data.wf(),
            0 <= a < self.data.nodes@.len(),
            0 <= b < self.data.nodes@.len(),
        ensures
            self.data.mutual(a, b) <==> (self.ids()[a] == self.ids()[b] || (self.reaches(self.ids()[a], self.ids()[b])
                && self.reaches(self.ids()[b], self.ids()[a]))),
    {
        assert(self.has_id(self.ids()[a]));
        self.lemma_index_of(self.ids()[a]);
        if self.ids()[a] == self.ids()[b] {
            assert(a == b);
        }
        if a != b && self.data.ireach(a, b) && self.data.ireach(b, a) {
            self.lemma_ireach_reaches(a, b);
            self.lemma_ireach_reaches(b, a);
        }
        if self.reaches(self.ids()[a], self.ids()[b]) && self.reaches(self.ids()[b], self.ids()[a]) {
            self.lemma_reaches_ireach(a, b);
            self.lemma_reaches_ireach(b, a);
        }
    }

    /// The strongly connected components: every module lies in exactly one component, and two
    /// modules lie in the same component exactly when they are the same module or each reaches
    /// the other.
    pub fn strongly_connected_components(&self) -> (r: Vec<Vec<ModuleId>>)
        ensures
            self.components_are(walk_ids(r@)),
            forall|c: int, i: int, d: int, j: int|
                0 <= c < r@.len() && 0 <= i < r@[c]@.len() && 0 <= d < r@.len() && 0 <= j < r@[d]@.len() ==>
                    (c == d <==> (#[trigger] r@[c]@[i]@ == #[trigger] r@[d]@[j]@ || (self.reaches(r@[c]@[i]@, r@[d]@[j]@)
                        && self.reaches(r@[d]@[j]@, r@[c]@[i]@)))),
            forall|c: int| 0 <= c < r@.len() ==> #[trigger] r@[c]@.len() >= 1,
            forall|c: int, i: int| 0 <= c < r@.len() && 0 <= i < r@[c]@.len() ==> self.has_id(#[trigger] r@[c]@[i]@),
            forall|x: Seq<char>| #[trigger] self.has_id(x) ==> in_components(r@, x),
            forall|c: int, i: int, d: int, j: int|
                0 <= c < r@.len() && 0 <= i < r@[c]@.len() && 0 <= d < r@.len() && 0 <= j < r@[d]@.len()
                    && (c != d || i != j) ==> #[trigger] r@[c]@[i]@ != #[trigger] r@[d]@[j]@,
            forall|c: int, i: int| 0 <= c < r@.len() && 0 <= i < r@[c]@.len() ==>
                #[trigger] r@[c]@[i]@ == r@[c]@[0]@ || self.reaches(r@[c]@[i]@, r@[c]@[0]@),
    {
        proof {
            use_type_invariant(self);
        }
        let parts = self.data.scc_indices();
        let mut out: Vec<Vec<ModuleId>> = Vec::new();
        let mut c: usize = 0;
        while c < parts.len()
            invariant
                self.data.wf(),
                c <= parts@.len(),
                out@.len() == c,
                forall|d: int| 0 <= d < parts@.len() ==> #[trigger] parts@[d]@.len() >= 1,
                forall|d: int, i: int| 0 <= d < parts@.len() && 0 <= i < parts@[d]@.len() ==> #[trigger] parts@[d]@[i]
                    < self.data.nodes@.len(),
                forall|d: int| 0 <= d < c ==> #[trigger] out@[d]@.len() == parts@[d]@.len(),
                forall|d: int, i: int| 0 <= d < c && 0 <= i < out@[d]@.len() ==> #[trigger] out@[d]@[i]@
                    == self.ids()[parts@[d]@[i] as int],
            decreases parts@.len() - c,
        {
            let part = &parts[c];
            proof {
                assert forall|i: int| 0 <= i < part@.len() implies #[trigger] part@[i] < self.data.nodes@.len() by {
                    assert(parts@[c as int]@[i] < self.data.nodes@.len());
                }
            }
            let members = self.modules_at(part);
            out.push(members);
            c = c + 1;
        }
        proof {
            let ids = self.ids();
            assert forall|d: int, i: int| 0 <= d < out@.len() && 0 <= i < out@[d]@.len() implies self.has_id(#[trigger] out@[d]@[i]@) by {
                assert(ids[parts@[d]@[i] as int] == out@[d]@[i]@);
            }
            assert forall|x: Seq<char>| #[trigger] self.has_id(x) implies in_components(out@, x) by {
                let k = choose|k: int| 0 <= k < ids.len() && ids[k] == x;
                assert(in_parts(parts@, k as usize));
                let (d, i) = choose|d: int, i: int| 0 <= d < parts@.len() && 0 <= i < parts@[d]@.len() && parts@[d]@[i] == k as usize;
                assert(out@[d]@[i]@ == x);
            }
            assert forall|d: int, i: int, e: int, j: int|
                0 <= d < out@.len() && 0 <= i < out@[d]@.len() && 0 <= e < out@.len() && 0 <= j < out@[e]@.len()
                    && (d != e || i != j) implies #[trigger] out@[d]@[i]@ != #[trigger] out@[e]@[j]@ by {
                assert(parts@[d]@[i] != parts@[e]@[j]);
                self.lemma_index_of(ids[parts@[d]@[i] as int]);
                assert(ids[parts@[d]@[i] as int] != ids[parts@[e]@[j] as int]);
            }
            assert forall|d: int, i: int| 0 <= d < out@.len() && 0 <= i < out@[d]@.len() implies
                #[trigger] out@[d]@[i]@ == out@[d]@[0]@ || self.reaches(out@[d]@[i]@, out@[d]@[0]@) by {
                if parts@[d]@[i] != parts@[d]@[0] {
                    self.lemma_ireach_reaches(parts@[d]@[i] as int, parts@[d]@[0] as int);
                }
            }
            assert forall|c: int, i: int, d: int, j: int|
                0 <= c < out@.len() && 0 <= i < out@[c]@.len() && 0 <= d < out@.len() && 0 <= j < out@[d]@.len() implies
                    (c == d <==> (#[trigger] out@[c]@[i]@ == #[trigger] out@[d]@[j]@ || (self.reaches(out@[c]@[i]@, out@[d]@[j]@)
                        && self.reaches(out@[d]@[j]@, out@[c]@[i]@)))) by {
                assert(parts@[c]@[i] < self.data.nodes@.len());
                assert(parts@[d]@[j] < self.data.nodes@.len());
                assert(out@[c]@[i]@ == ids[parts@[c]@[i] as int]);
                assert(out@[d]@[j]@ == ids[parts@[d]@[j] as int]);
                self.lemma_mutual_ids(parts@[c]@[i] as int, parts@[d]@[j] as int);
                assert(c == d <==> self.data.mutual(parts@[c]@[i] as int, parts@[d]@[j] as int));
            }
        }
        proof {
            let ids = self.ids();
            let pids = walk_ids(out@);
            assert forall|e: int, i: int| 0 <= e < pids.len() && 0 <= i < pids[e].len() implies #[trigger] pids[e][i] == out@[e]@[i]@ by {}
            assert forall|e: int| 0 <= e < pids.len() implies #[trigger] pids[e].len() >= 1 by {
                assert(out@[e]@.len() >= 1);
            }
            assert forall|e: int, i: int| 0 <= e < pids.len() && 0 <= i < pids[e].len() implies self.has_id(#[trigger] pids[e][i]) by {
                assert(self.has_id(out@[e]@[i]@));
            }
            assert forall|x: Seq<char>| #[trigger] self.has_id(x) implies exists|e: int, i: int|
                0 <= e < pids.len() && 0 <= i < pids[e].len() && pids[e][i] == x by {
                assert(in_components(out@, x));
                let (e, i) = choose|e: int, i: int| 0 <= e < out@.len() && 0 <= i < out@[e]@.len() && out@[e]@[i]@ == x;
                assert(pids[e][i] == x);
            }
            assert forall|e: int, i: int, d: int, j: int|
                0 <= e < pids.len() && 0 <= i < pids[e].len() && 0 <= d < pids.len() && 0 <= j < pids[d].len() implies
                    (e == d <==> (#[trigger] pids[e][i] == #[trigger] pids[d][j] || (self.reaches(pids[e][i], pids[d][j])
                        && self.reaches(pids[d][j], pids[e][i])))) by {
                assert(pids[e][i] == out@[e]@[i]@);
                assert(pids[d][j] == out@[d]@[j]@);
            }
            assert forall|e: int, i: int, j: int| 0 <= e < pids.len() && 0 <= i < j < pids[e].len() implies pids[e][i] != pids[e][j] by {
                assert(out@[e]@[i]@ != out@[e]@[j]@);
            }
        }
        out
    }

    /// One closed walk for each component that holds a cycle: a module with an edge to itself,
    /// or a walk through a larger component that ends where it starts.
    /// `w` is a walk whose modules after the first all lie in `part`.
    pub open spec fn walk_inside(&self, w: Seq<Seq<char>>, part: Seq<Seq<char>>) -> bool {
        &&& self.is_walk(w)
        &&& forall|i: int| 1 <= i < w.len() ==> part.contains(#[trigger] w[i])
    }

    /// `b` can be reached from `a` over at most `d` edges by a walk inside `part`.
    pub open spec fn reach_inside(&self, a: Seq<char>, b: Seq<char>, d: int, part: Seq<Seq<char>>) -> bool {
        exists|w: Seq<Seq<char>>| #[trigger] self.walk_inside(w, part) && w[0] == a && w.last() == b && w.len() <= d + 1
    }

    /// The fewest edges from `a` to `b` by a walk inside `part` is `d`.
    pub open spec fn distance_inside(&self, a: Seq<char>, b: Seq<char>, d: int, part: Seq<Seq<char>>) -> bool {
        &&& d >= 0
        &&& self.reach_inside(a, b, d, part)
        &&& !self.reach_inside(a, b, d - 1, part)
    }

    /// `v` is the first target of `u`, in edge order, that lies in `part` and from which `t` is
    /// `d` edges away inside `part`.
    pub open spec fn first_closer_inside(&self, u: Seq<char>, v: Seq<char>, t: Seq<char>, d: int, part: Seq<Seq<char>>) -> bool {
        exists|k: int| {
            &&& 0 <= k < self.targets(u).len()
            &&& #[trigger] self.targets(u)[k] == v
            &&& part.contains(v)
            &&& self.distance_inside(v, t, d, part)
            &&& forall|j: int| 0 <= j < k ==> !(part.contains(#[trigger] self.targets(u)[j]) && self.distance_inside(
                self.targets(u)[j],
                t,
                d,
                part,
            ))
        }
    }

    /// `w` goes to `t` by the fewest edges inside `part`, each step to the first target, in edge
    /// order, that is one edge closer.
    pub open spec fn shortest_inside(&self, w: Seq<Seq<char>>, t: Seq<char>, part: Seq<Seq<char>>) -> bool {
        &&& w.len() >= 1
        &&& w.last() == t
        &&& self.distance_inside(w[0], t, w.len() - 1, part)
        &&& forall|i: int| 0 <= i < w.len() - 1 ==> self.first_closer_inside(#[trigger] w[i], w[i + 1], t, w.len() - 2 - i, part)
    }

    /// The component `part` holds a cycle: it has two modules or more, or its module has an edge
    /// to itself.
    pub open spec fn cyclic(&self, part: Seq<Seq<char>>) -> bool {
        part.len() >= 2 || (part.len() == 1 && self.linked(part[0], part[0]))
    }

    /// `c` is the cycle reported for the component `part`: `[m, m]` for a single module `m`;
    /// otherwise it starts at the component's first module, takes that module's first target
    /// (in edge order) inside the component, and comes back by the fewest edges inside the
    /// component, each step to the first target one edge closer.
    pub open spec fn representative(&self, c: Seq<Seq<char>>, part: Seq<Seq<char>>) -> bool {
        if part.len() == 1 {
            c == seq![part[0], part[0]]
        } else {
            &&& c.len() >= 2
            &&& c[0] == part[0]
            &&& exists|k: int| {
                &&& 0 <= k < self.targets(part[0]).len()
                &&& #[trigger] self.targets(part[0])[k] == c[1]
                &&& part.contains(c[1])
                &&& forall|j: int| 0 <= j < k ==> !part.contains(#[trigger] self.targets(part[0])[j])
            }
            &&& self.shortest_inside(c.skip(1), part[0], part)
        }
    }

    /// `parts` are the strongly connected components: every module lies in exactly one, and two
    /// modules share one exactly when they are the same module or each reaches the other.
    pub open spec fn components_are(&self, parts: Seq<Seq<Seq<char>>>) -> bool {
        &&& forall|c: int| 0 <= c < parts.len() ==> #[trigger] parts[c].len() >= 1
        &&& forall|c: int, i: int| 0 <= c < parts.len() && 0 <= i < parts[c].len() ==> self.has_id(#[trigger] parts[c][i])
        &&& forall|x: Seq<char>| #[trigger] self.has_id(x) ==> exists|c: int, i: int|
            0 <= c < parts.len() && 0 <= i < parts[c].len() && parts[c][i] == x
        &&& forall|c: int, i: int, d: int, j: int|
            0 <= c < parts.len() && 0 <= i < parts[c].len() && 0 <= d < parts.len() && 0 <= j < parts[d].len() ==>
                (c == d <==> (#[trigger] parts[c][i] == #[trigger] parts[d][j] || (self.reaches(parts[c][i], parts[d][j])
                    && self.reaches(parts[d][j], parts[c][i]))))
        &&& forall|c: int, i: int, j: int| 0 <= c < parts.len() && 0 <= i < j < parts[c].len() ==> parts[c][i] != parts[c][j]
    }

    /// `r` holds, in the order of `parts`, the representative cycle of each component that holds
    /// a cycle, and nothing else.
    pub open spec fn represents(&self, parts: Seq<Seq<Seq<char>>>, r: Seq<Seq<Seq<char>>>) -> bool {
        exists|src: Seq<int>| {
            &&& #[trigger] src.len() == r.len()
            &&& forall|c: int| 0 <= c < r.len() ==> 0 <= #[trigger] src[c] < parts.len() && self.cyclic(parts[src[c]])
                && self.representative(r[c], parts[src[c]])
            &&& forall|c: int, d: int| 0 <= c < d < r.len() ==> src[c] < src[d]
            &&& forall|e: int| 0 <= e < parts.len() && #[trigger] self.cyclic(parts[e]) ==> exists|c: int| 0 <= c < r.len() && src[c] == e
        }
    }

    /// A node is in the mask of a component exactly when its id is among the component's ids.
    proof fn lemma_mask_ids(&self, part: Seq<usize>, v: int)
        requires
            self.data.wf(),
            0 <= v < self.data.nodes@.len(),
            forall|i: int| 0 <= i < part.len() ==> #[trigger] part[i] < self.data.nodes@.len(),
        ensures
            member_mask(part, self.data.nodes@.len())[v] <==> part.map_values(|i: usize| self.ids()[i as int]).contains(self.ids()[v]),
    {
        let pid = part.map_values(|i: usize| self.ids()[i as int]);
        if member_mask(part, self.data.nodes@.len())[v] {
            let i = choose|i: int| 0 <= i < part.len() && part[i] == v as usize;
            assert(pid[i] == self.ids()[v]);
        }
        if pid.contains(self.ids()[v]) {
            let i = choose|i: int| 0 <= i < pid.len() && pid[i] == self.ids()[v];
            assert(self.has_id(self.ids()[v]));
            self.lemma_index_of(self.ids()[v]);
            assert(self.ids()[part[i] as int] == self.ids()[v]);
            assert(part[i] as int == v);
            assert(part.contains(v as usize));
        }
    }

    /// Reaching within a component's mask is reaching inside the component's ids.
    proof fn lemma_within_inside(&self, part: Seq<usize>, v: int, t: int, d: int)
        requires
            self.data.wf(),
            0 <= v < self.data.nodes@.len(),
            0 <= t < self.data.nodes@.len(),
            forall|i: int| 0 <= i < part.len() ==> #[trigger] part[i] < self.data.nodes@.len(),
        ensures
            self.data.within(v, t, d, member_mask(part, self.data.nodes@.len())) <==> self.reach_inside(
                self.ids()[v],
                self.ids()[t],
                d,
                part.map_values(|i: usize| self.ids()[i as int]),
            ),
    {
        let n = self.data.nodes@.len();
        let m = member_mask(part, n);
        let pid = part.map_values(|i: usize| self.ids()[i as int]);
        if self.data.within(v, t, d, m) {
            let p = choose|p: Seq<int>| #[trigger] self.data.is_iwalk(p, m) && p[0] == v && p.last() == t && p.len() <= d + 1;
            self.lemma_walk_ids(p, m);
            let w = p.map_values(|i: int| self.ids()[i]);
            assert forall|i: int| 1 <= i < w.len() implies pid.contains(#[trigger] w[i]) by {
                assert(m[p[i]]);
                self.lemma_mask_ids(part, p[i]);
            }
            assert(self.walk_inside(w, pid));
            assert(w[0] == self.ids()[v]);
            assert(w.last() == self.ids()[t]);
        }
        if self.reach_inside(self.ids()[v], self.ids()[t], d, pid) {
            let w = choose|w: Seq<Seq<char>>| #[trigger] self.walk_inside(w, pid) && w[0] == self.ids()[v] && w.last() == self.ids()[t] && w.len() <= d + 1;
            let p = self.lemma_ids_walk(w, all_true(n));
            assert forall|i: int| 1 <= i < p.len() implies m[#[trigger] p[i]] by {
                assert(pid.contains(w[i]));
                assert(self.has_id(w[i]));
                self.lemma_index_of(w[i]);
                self.lemma_mask_ids(part, p[i]);
            }
            assert(self.data.is_iwalk(p, m));
            assert(self.has_id(self.ids()[v]));
            self.lemma_index_of(self.ids()[v]);
            self.lemma_index_of(self.ids()[t]);
            assert(p[0] == v);
            assert(p[p.len() - 1] == t);
        }
    }

    /// The targets of a module are the ids of its node's successors, in edge order.
    proof fn lemma_targets_ids(&self, u: int)
        requires
            self.data.wf(),
            0 <= u < self.data.nodes@.len(),
        ensures
            self.targets(self.ids()[u]) == succ(self.data.ends@, u).map_values(|j: usize| self.ids()[j as int]),
    {
        let len = self.data.edges@.len() as int;
        self.data.lemma_targets_succ(u, len);
        assert(self.data.ends@.take(len) =~= self.data.ends@);
        assert(self.data.arcs().take(len) =~= self.data.arcs());
    }

    proof fn lemma_near_inside(&self, part: Seq<usize>, v: int, t: int, d: int)
        requires
            self.data.wf(),
            0 <= v < self.data.nodes@.len(),
            0 <= t < self.data.nodes@.len(),
            forall|i: int| 0 <= i < part.len() ==> #[trigger] part[i] < self.data.nodes@.len(),
        ensures
            self.data.near(v, t, d, member_mask(part, self.data.nodes@.len())) <==> self.distance_inside(
                self.ids()[v],
                self.ids()[t],
                d,
                part.map_values(|i: usize| self.ids()[i as int]),
            ),
    {
        self.lemma_within_inside(part, v, t, d);
        self.lemma_within_inside(part, v, t, d - 1);
    }

    proof fn lemma_first_closer_inside(&self, part: Seq<usize>, u: int, t: int, d: int, k: int)
        requires
            self.data.wf(),
            0 <= u < self.data.nodes@.len(),
            0 <= t < self.data.nodes@.len(),
            forall|i: int| 0 <= i < part.len() ==> #[trigger] part[i] < self.data.nodes@.len(),
            self.data.first_closer(u, t, d, member_mask(part, self.data.nodes@.len()), k),
        ensures
            self.first_closer_inside(
                self.ids()[u],
                self.ids()[succ(self.data.ends@, u)[k] as int],
                self.ids()[t],
                d,
                part.map_values(|i: usize| self.ids()[i as int]),
            ),
    {
        let n = self.data.nodes@.len();
        let row = succ(self.data.ends@, u);
        let pid = part.map_values(|i: usize| self.ids()[i as int]);
        let tg = self.targets(self.ids()[u]);
        self.lemma_targets_ids(u);
        assert forall|j: int| 0 <= j < row.len() implies #[trigger] row[j] < n by {
            assert(row.contains(row[j]));
            lemma_succ_contains(self.data.ends@, u, row[j]);
        }
        assert(tg[k] == self.ids()[row[k] as int]);
        self.lemma_mask_ids(part, row[k] as int);
        self.lemma_near_inside(part, row[k] as int, t, d);
        assert forall|j: int| 0 <= j < k implies !(pid.contains(#[trigger] tg[j]) && self.distance_inside(tg[j], self.ids()[t], d, pid)) by {
            assert(tg[j] == self.ids()[row[j] as int]);
            self.lemma_mask_ids(part, row[j] as int);
            self.lemma_near_inside(part, row[j] as int, t, d);
            assert(!(member_mask(part, n)[row[j] as int] && self.data.near(row[j] as int, t, d, member_mask(part, n))));
        }
    }

    /// A greedy index walk inside a component's mask names a greedy walk inside its ids.
    proof fn lemma_greedy_inside(&self, part: Seq<usize>, p: Seq<int>, t: int)
        requires
            self.data.wf(),
            0 <= t < self.data.nodes@.len(),
            forall|i: int| 0 <= i < part.len() ==> #[trigger] part[i] < self.data.nodes@.len(),
            self.data.greedy_walk(p, t, member_mask(part, self.data.nodes@.len())),
            self.data.is_iwalk(p, member_mask(part, self.data.nodes@.len())),
        ensures
            self.shortest_inside(
                p.map_values(|i: int| self.ids()[i]),
                self.ids()[t],
                part.map_values(|i: usize| self.ids()[i as int]),
            ),
    {
        let n = self.data.nodes@.len();
        let m = member_mask(part, n);
        let w = p.map_values(|i: int| self.ids()[i]);
        let pid = part.map_values(|i: usize| self.ids()[i as int]);
        self.lemma_near_inside(part, p[0], t, p.len() - 1);
        assert(w[0] == self.ids()[p[0]]);
        assert(w.last() == self.ids()[t]);
        assert forall|i: int| 0 <= i < w.len() - 1 implies self.first_closer_inside(#[trigger] w[i], w[i + 1], self.ids()[t], w.len() - 2 - i, pid) by {
            assert(self.data.step_to(p[i], p[i + 1], t, p.len() - 2 - i, m));
            let k = choose|k: int| #[trigger] self.data.first_closer(p[i], t, p.len() - 2 - i, m, k) && succ(self.data.ends@, p[i])[k] == p[i + 1];
            self.lemma_first_closer_inside(part, p[i], t, p.len() - 2 - i, k);
            assert(w[i] == self.ids()[p[i]]);
            assert(w[i + 1] == self.ids()[p[i + 1]]);
        }
    }

    /// A component's reported index cycle names its reported module cycle.
    proof fn lemma_represent_part(&self, part: Seq<usize>, w: Seq<usize>)
        requires
            self.data.wf(),
            part.len() >= 1,
            forall|i: int| 0 <= i < part.len() ==> #[trigger] part[i] < self.data.nodes@.len(),
            forall|i: int| 0 <= i < w.len() ==> #[trigger] w[i] < self.data.nodes@.len(),
            self.data.picked(part, w),
        ensures
            self.representative(
                w.map_values(|i: usize| self.ids()[i as int]),
                part.map_values(|i: usize| self.ids()[i as int]),
            ),
    {
        let n = self.data.nodes@.len();
        let m = member_mask(part, n);
        let c = w.map_values(|i: usize| self.ids()[i as int]);
        let pid = part.map_values(|i: usize| self.ids()[i as int]);
        let p0 = part[0] as int;
        if part.len() == 1 {
            assert(c =~= seq![pid[0], pid[0]]);
        } else {
            let row = succ(self.data.ends@, p0);
            let k = choose|k: int| {
                &&& 0 <= k < succ(self.data.ends@, part[0] as int).len()
                &&& #[trigger] succ(self.data.ends@, part[0] as int)[k] == w[1]
                &&& m[w[1] as int]
                &&& forall|j: int| 0 <= j < k ==> !m[#[trigger] succ(self.data.ends@, part[0] as int)[j] as int]
            };
            self.lemma_targets_ids(p0);
            let tg = self.targets(pid[0]);
            assert(tg[k] == c[1]);
            self.lemma_mask_ids(part, w[1] as int);
            assert(pid.contains(c[1]));
            assert forall|j: int| 0 <= j < k implies !pid.contains(#[trigger] tg[j]) by {
                assert(row.contains(row[j]));
                lemma_succ_contains(self.data.ends@, p0, row[j]);
                assert(tg[j] == self.ids()[row[j] as int]);
                self.lemma_mask_ids(part, row[j] as int);
            }
            let s = as_ints(w).skip(1);
            self.lemma_greedy_inside(part, s, p0);
            assert(s.map_values(|i: int| self.ids()[i]) =~= c.skip(1));
        }
    }

    /// The index cycles of the components, named by module, are the reported cycles.
    proof fn lemma_cycles_represent(&self, parts: Seq<Vec<usize>>, out: Seq<Vec<ModuleId>>, src: Seq<int>, walks: Seq<Seq<usize>>)
        requires
            self.data.wf(),
            forall|v: usize| v < self.data.nodes@.len() ==> #[trigger] in_parts(parts, v),
            forall|e: int, i: int, d: int, j: int|
                0 <= e < parts.len() && 0 <= i < parts[e]@.len() && 0 <= d < parts.len() && 0 <= j < parts[d]@.len() ==>
                    (e == d <==> self.data.mutual(#[trigger] parts[e]@[i] as int, #[trigger] parts[d]@[j] as int)),
            src.len() == out.len(),
            walks.len() == out.len(),
            forall|d: int| 0 <= d < src.len() ==> 0 <= #[trigger] src[d] < parts.len(),
            forall|d1: int, d2: int| 0 <= d1 < d2 < src.len() ==> src[d1] < src[d2],
            forall|d: int| 0 <= d < out.len() ==> #[trigger] out[d]@.len() == walks[d].len(),
            forall|d: int, k: int| 0 <= d < out.len() && 0 <= k < walks[d].len() ==> #[trigger] out[d]@[k]@
                == self.ids()[walks[d][k] as int] && parts[src[d]]@.contains(walks[d][k]),
            forall|d: int| 0 <= d < parts.len() ==> #[trigger] parts[d]@.len() >= 1,
            forall|d: int, i: int| 0 <= d < parts.len() && 0 <= i < parts[d]@.len() ==> #[trigger] parts[d]@[i] < self.data.nodes@.len(),
            forall|e: int, i: int, d: int, j: int|
                0 <= e < parts.len() && 0 <= i < parts[e]@.len() && 0 <= d < parts.len() && 0 <= j < parts[d]@.len()
                    && (e != d || i != j) ==> #[trigger] parts[e]@[i] != #[trigger] parts[d]@[j],
            forall|d: int| 0 <= d < out.len() ==> #[trigger] self.data.picked(parts[src[d]]@, walks[d]),
            forall|d: int| 0 <= d < src.len() ==> (parts[#[trigger] src[d]]@.len() >= 2 || self.data.adj(
                parts[src[d]]@[0] as int,
                parts[src[d]]@[0] as int,
            )),
            forall|e: int| 0 <= e < parts.len() && (parts[e]@.len() >= 2 || self.data.adj(parts[e]@[0] as int, parts[e]@[0] as int))
                ==> exists|d: int| 0 <= d < src.len() && #[trigger] src[d] == e,
        ensures
            exists|pp: Seq<Seq<Seq<char>>>| self.components_are(pp) && #[trigger] self.represents(pp, walk_ids(out)),
            forall|c: int, i: int, j: int| 0 <= c < out.len() && 0 <= i < j < out[c]@.len() - 1 ==> #[trigger] out[c]@[i]@
                != #[trigger] out[c]@[j]@,
    {
        let n = self.data.nodes@.len();
            let ids = self.ids();
            let pids = parts.map_values(|p: Vec<usize>| p@.map_values(|i: usize| ids[i as int]));
            let rids = walk_ids(out);
            assert forall|e: int, i: int| 0 <= e < pids.len() && 0 <= i < pids[e].len() implies #[trigger] pids[e][i] == ids[parts[e]@[i] as int] by {}
            assert forall|x: Seq<char>| #[trigger] self.has_id(x) implies exists|e: int, i: int|
                0 <= e < pids.len() && 0 <= i < pids[e].len() && pids[e][i] == x by {
                let k = choose|k: int| 0 <= k < ids.len() && ids[k] == x;
                assert(in_parts(parts, k as usize));
                let (e, i) = choose|e: int, i: int| 0 <= e < parts.len() && 0 <= i < parts[e]@.len() && parts[e]@[i] == k as usize;
                assert(pids[e][i] == x);
            }
            assert forall|e: int, i: int| 0 <= e < pids.len() && 0 <= i < pids[e].len() implies self.has_id(#[trigger] pids[e][i]) by {
                assert(parts[e]@[i] < n);
            }
            assert forall|e: int, i: int, d: int, j: int|
                0 <= e < pids.len() && 0 <= i < pids[e].len() && 0 <= d < pids.len() && 0 <= j < pids[d].len() implies
                    (e == d <==> (#[trigger] pids[e][i] == #[trigger] pids[d][j] || (self.reaches(pids[e][i], pids[d][j])
                        && self.reaches(pids[d][j], pids[e][i])))) by {
                assert(parts[e]@[i] < n);
                assert(parts[d]@[j] < n);
                self.lemma_mutual_ids(parts[e]@[i] as int, parts[d]@[j] as int);
                assert(e == d <==> self.data.mutual(parts[e]@[i] as int, parts[d]@[j] as int));
            }
            assert forall|e: int, i: int, j: int| 0 <= e < pids.len() && 0 <= i < j < pids[e].len() implies pids[e][i] != pids[e][j] by {
                assert(parts[e]@[i] != parts[e]@[j]);
                assert(parts[e]@[i] < n);
                self.lemma_index_of(ids[parts[e]@[i] as int]);
            }
            assert forall|e: int| 0 <= e < pids.len() implies #[trigger] pids[e].len() >= 1 by {
                assert(parts[e]@.len() >= 1);
            }
            assert(self.components_are(pids));
            assert forall|d: int| 0 <= d < rids.len() implies 0 <= #[trigger] src[d] < pids.len() && self.cyclic(pids[src[d]])
                && self.representative(rids[d], pids[src[d]]) by {
                let part = parts[src[d]]@;
                assert(pids[src[d]] == part.map_values(|i: usize| ids[i as int]));
                assert forall|i: int| 0 <= i < part.len() implies #[trigger] part[i] < n by {
                    assert(parts[src[d]]@[i] < n);
                }
                assert(out[d]@.len() == walks[d].len());
                assert forall|i: int| 0 <= i < walks[d].len() implies #[trigger] walks[d][i] < n by {
                    assert(out[d]@[i]@ == ids[walks[d][i] as int]);
                    assert(parts[src[d]]@.contains(walks[d][i]));
                }
                self.lemma_represent_part(part, walks[d]);
                assert forall|k: int| 0 <= k < out[d]@.len() implies #[trigger] ids_of(out[d]@)[k] == walks[d].map_values(|i: usize| ids[i as int])[k] by {
                    assert(out[d]@[k]@ == ids[walks[d][k] as int]);
                }
                assert(ids_of(out[d]@) =~= walks[d].map_values(|i: usize| ids[i as int]));
                if part.len() == 1 {
                    self.lemma_adj_linked(part[0] as int, part[0] as int);
                }
            }
            assert forall|e: int| 0 <= e < pids.len() && #[trigger] self.cyclic(pids[e]) implies exists|d: int| 0 <= d < rids.len() && src[d] == e by {
                let part = parts[e]@;
                assert(pids[e] == part.map_values(|i: usize| ids[i as int]));
                if part.len() == 1 {
                    assert(part[0] < n);
                    self.lemma_adj_linked(part[0] as int, part[0] as int);
                }
                let d = choose|d: int| 0 <= d < src.len() && #[trigger] src[d] == e;
            }
            assert(self.represents(pids, rids));
            assert forall|d: int, i: int, j: int| 0 <= d < out.len() && 0 <= i < j < out[d]@.len() - 1 implies #[trigger] out[d]@[i]@
                != #[trigger] out[d]@[j]@ by {
                let part = parts[src[d]]@;
                assert(out[d]@.len() == walks[d].len());
                self.data.lemma_picked_simple(part, walks[d]);
                assert(walks[d][i] != walks[d][j]);
                assert(out[d]@[i]@ == ids[walks[d][i] as int]);
                assert(out[d]@[j]@ == ids[walks[d][j] as int]);
                assert(parts[src[d]]@.contains(walks[d][i]));
                assert(parts[src[d]]@.contains(walks[d][j]));
                let a = choose|a: int| 0 <= a < part.len() && part[a] == walks[d][i];
                let b = choose|b: int| 0 <= b < part.len() && part[b] == walks[d][j];
                assert(part[a] < n && part[b] < n);
                self.lemma_index_of(ids[walks[d][i] as int]);
            }
    }

    /// `r` holds one closed walk for each component of the graph that holds a cycle: each is a
    /// closed walk whose modules share the component of its first module, no two lie in the
    /// same component, and every closed walk of the graph lies in the component of one of them.
    pub open spec fn cycle_cover(&self, r: Seq<Vec<ModuleId>>) -> bool {
        &&& forall|c: int| 0 <= c < r.len() ==> {
            &&& (#[trigger] r[c])@.len() >= 2
            &&& self.is_walk(ids_of(r[c]@))
            &&& r[c]@[0]@ == r[c]@.last()@
        }
        &&& forall|c: int, i: int| 0 <= c < r.len() && 0 <= i < r[c]@.len() ==>
            #[trigger] r[c]@[i]@ == r[c]@[0]@ || (self.reaches(r[c]@[i]@, r[c]@[0]@) && self.reaches(r[c]@[0]@, r[c]@[i]@))
        &&& forall|c: int, d: int| 0 <= c < d < r.len() ==> !(#[trigger] r[c]@[0]@ == #[trigger] r[d]@[0]@
            || (self.reaches(r[c]@[0]@, r[d]@[0]@) && self.reaches(r[d]@[0]@, r[c]@[0]@)))
        &&& forall|w: Seq<Seq<char>>| #[trigger] self.is_walk(w) && w.len() >= 2 && w[0] == w.last() ==> exists|c: int|
            0 <= c < r.len() && (#[trigger] r[c]@[0]@ == w[0] || (self.reaches(r[c]@[0]@, w[0]) && self.reaches(w[0], r[c]@[0]@)))
    }

    /// Every module of a returned walk shares its component with the walk's first module,
    /// no two walks lie in the same component, and every closed walk of the graph lies in the
    /// component of some returned walk.
    #[verifier::spinoff_prover]
    pub fn cycles(&self) -> (r: Vec<Vec<ModuleId>>)
        ensures
            self.cycle_cover(r@),
            exists|parts: Seq<Seq<Seq<char>>>| self.components_are(parts) && #[trigger] self.represents(
                parts,
                walk_ids(r@),
            ),
            forall|c: int, i: int, j: int| 0 <= c < r@.len() && 0 <= i < j < r@[c]@.len() - 1 ==> #[trigger] r@[c]@[i]@
                != #[trigger] r@[c]@[j]@,
    {
        proof {
            use_type_invariant(self);
        }
        let n = self.data.nodes.len();
        let parts = self.data.scc_indices();
        let mut out: Vec<Vec<ModuleId>> = Vec::new();
        let ghost mut src: Seq<int> = Seq::empty();
        let ghost mut walks: Seq<Seq<usize>> = Seq::empty();
        let mut c: usize = 0;
        while c < parts.len()
            invariant
                self.data.wf(),
                n == self.data.nodes@.len(),
                c <= parts@.len(),
                forall|v: usize| v < n ==> #[trigger] in_parts(parts@, v),
                forall|e: int, i: int, d: int, j: int|
                    0 <= e < parts@.len() && 0 <= i < parts@[e]@.len() && 0 <= d < parts@.len() && 0 <= j < parts@[d]@.len() ==>
                        (e == d <==> self.data.mutual(#[trigger] parts@[e]@[i] as int, #[trigger] parts@[d]@[j] as int)),
                src.len() == out@.len(),
                walks.len() == out@.len(),
                forall|d: int| 0 <= d < src.len() ==> 0 <= #[trigger] src[d] < c,
                forall|d1: int, d2: int| 0 <= d1 < d2 < src.len() ==> src[d1] < src[d2],
                forall|d: int| 0 <= d < out@.len() ==> #[trigger] out@[d]@.len() == walks[d].len(),
                forall|d: int, k: int| 0 <= d < out@.len() && 0 <= k < walks[d].len() ==> #[trigger] out@[d]@[k]@
                    == self.ids()[walks[d][k] as int] && parts@[src[d]]@.contains(walks[d][k]),
                forall|e: int| 0 <= e < c && #[trigger] self.data.cyclic_part(parts@[e]@) ==> exists|d: int| 0 <= d < src.len() && src[d] == e,
                forall|d: int| 0 <= d < parts@.len() ==> #[trigger] parts@[d]@.len() >= 1,
                forall|d: int, i: int| 0 <= d < parts@.len() && 0 <= i < parts@[d]@.len() ==> #[trigger] parts@[d]@[i] < n,
                forall|d: int| 0 <= d < out@.len() ==> {
                    &&& (#[trigger] out@[d])@.len() >= 2
                    &&& self.is_walk(ids_of(out@[d]@))
                    &&& out@[d]@[0]@ == out@[d]@.last()@
                },
                forall|e: int, i: int, d: int, j: int|
                    0 <= e < parts@.len() && 0 <= i < parts@[e]@.len() && 0 <= d < parts@.len() && 0 <= j < parts@[d]@.len()
                        && (e != d || i != j) ==> #[trigger] parts@[e]@[i] != #[trigger] parts@[d]@[j],
                forall|d: int| 0 <= d < out@.len() ==> #[trigger] self.data.picked(parts@[src[d]]@, walks[d]),
                forall|d: int| 0 <= d < src.len() ==> (parts@[#[trigger] src[d]]@.len() >= 2 || self.data.adj(
                    parts@[src[d]]@[0] as int,
                    parts@[src[d]]@[0] as int,
                )),
                forall|e: int| 0 <= e < c && (parts@[e]@.len() >= 2 || self.data.adj(parts@[e]@[0] as int, parts@[e]@[0] as int))
                    ==> exists|d: int| 0 <= d < src.len() && #[trigger] src[d] == e,
            decreases parts@.len() - c,
        {
            let part = &parts[c];
            proof {
                assert forall|i: int| 0 <= i < part@.len() implies #[trigger] part@[i] < n by {
                    assert(parts@[c as int]@[i] < n);
                }
            }
            proof {
                assert forall|i: int| 0 <= i < part@.len() implies self.data.mutual(#[trigger] part@[i] as int, part@[0] as int) by {
                    assert(parts@[c as int]@[i] == part@[i]);
                    assert(parts@[c as int]@[0] == part@[0]);
                }
                assert forall|y: int| 0 <= y < n && #[trigger] self.data.mutual(y, part@[0] as int) implies part@.contains(y as usize) by {
                    assert(in_parts(parts@, y as usize));
                    let (d, j) = choose|d: int, j: int| 0 <= d < parts@.len() && 0 <= j < parts@[d]@.len() && parts@[d]@[j] == y as usize;
                    assert(self.data.mutual(parts@[d]@[j] as int, parts@[c as int]@[0] as int));
                    assert(d == c);
                    assert(part@[j] == y as usize);
                }
                assert forall|i: int, j: int| 0 <= i < j < part@.len() implies part@[i] != part@[j] by {
                    assert(parts@[c as int]@[i] != parts@[c as int]@[j]);
                }
            }
            let found = self.data.cycle_of_part(part);
            match found {
                Some(w) => {
                    proof {
                        assert forall|i: int| 0 <= i < w@.len() implies #[trigger] w@[i] < n by {
                            assert(as_ints(w@)[i] == w@[i] as int);
                        }
                    }
                    let members = self.modules_at(&w);
                    proof {
                        self.lemma_walk_ids(as_ints(w@), all_true(n as nat));
                        assert(members@[0]@ == self.ids()[w@[0] as int]);
                        assert(members@.last()@ == members@[members@.len() - 1]@);
                        assert(members@[members@.len() - 1]@ == self.ids()[w@[w@.len() - 1] as int]);
                    }
                    let ghost out0 = out@;
                    let ghost src0 = src;
                    let ghost walks0 = walks;
                    out.push(members);
                    proof {
                        src = src.push(c as int);
                        walks = walks.push(w@);
                        assert forall|d: int, k: int| 0 <= d < out@.len() && 0 <= k < walks[d].len() implies #[trigger] out@[d]@[k]@
                            == self.ids()[walks[d][k] as int] && parts@[src[d]]@.contains(walks[d][k]) by {
                            if d < out0.len() {
                                assert(out@[d] == out0[d]);
                                assert(walks[d] == walks0[d]);
                            } else {
                                assert(walks[d] == w@);
                                assert(out@[d] == members);
                                assert(members@[k]@ == self.ids()[w@[k] as int]);
                                assert(part@.contains(w@[k]));
                            }
                        }
                        assert forall|d: int| 0 <= d < out@.len() implies #[trigger] self.data.picked(parts@[src[d]]@, walks[d]) by {
                            if d < out0.len() {
                                assert(walks[d] == walks0[d]);
                                assert(src[d] == src0[d]);
                            } else {
                                assert(walks[d] == w@);
                                assert(src[d] == c as int);
                            }
                        }
                        assert forall|d: int| 0 <= d < src.len() implies (parts@[#[trigger] src[d]]@.len() >= 2 || self.data.adj(
                            parts@[src[d]]@[0] as int,
                            parts@[src[d]]@[0] as int,
                        )) by {
                            if d < src0.len() {
                                assert(src[d] == src0[d]);
                            } else {
                                assert(src[d] == c as int);
                            }
                        }
                        assert forall|e: int| 0 <= e < c + 1 && (parts@[e]@.len() >= 2 || self.data.adj(parts@[e]@[0] as int, parts@[e]@[0] as int))
                            implies exists|d: int| 0 <= d < src.len() && #[trigger] src[d] == e by {
                            if e < c {
                                let d = choose|d: int| 0 <= d < src0.len() && #[trigger] src0[d] == e;
                                assert(src[d] == e);
                            } else {
                                assert(src[src0.len() as int] == e);
                            }
                        }
                        assert forall|e: int| 0 <= e < c + 1 && #[trigger] self.data.cyclic_part(parts@[e]@) implies exists|d: int|
                            0 <= d < src.len() && src[d] == e by {
                            if e < c {
                                let d = choose|d: int| 0 <= d < src0.len() && src0[d] == e;
                                assert(src[d] == e);
                            } else {
                                assert(src[src0.len() as int] == e);
                            }
                        }
                        assert forall|d: int| 0 <= d < out@.len() implies {
                            &&& (#[trigger] out@[d])@.len() >= 2
                            &&& self.is_walk(ids_of(out@[d]@))
                            &&& out@[d]@[0]@ == out@[d]@.last()@
                        } by {
                            if d < out0.len() {
                                assert(out@[d] == out0[d]);
                            }
                        }
                    }
                },
                None => {
                    proof {
                        assert forall|e: int| 0 <= e < c + 1 && (parts@[e]@.len() >= 2 || self.data.adj(parts@[e]@[0] as int, parts@[e]@[0] as int))
                            implies exists|d: int| 0 <= d < src.len() && #[trigger] src[d] == e by {
                            if e == c {
                                assert(parts@[e] == *part);
                            }
                        }
                        assert forall|e: int| 0 <= e < c + 1 && #[trigger] self.data.cyclic_part(parts@[e]@) implies exists|d: int|
                            0 <= d < src.len() && src[d] == e by {
                            if e == c {
                                assert(!self.data.cyclic_part(part@));
                            }
                        }
                    }
                },
            }
            c = c + 1;
        }
        proof {
            let ids = self.ids();
            let al = all_true(n as nat);
            assert forall|d: int, i: int| 0 <= d < out@.len() && 0 <= i < out@[d]@.len() implies
                #[trigger] out@[d]@[i]@ == out@[d]@[0]@ || (self.reaches(out@[d]@[i]@, out@[d]@[0]@) && self.reaches(out@[d]@[0]@, out@[d]@[i]@)) by {
                let e = src[d];
                assert(out@[d]@[i]@ == ids[walks[d][i] as int]);
                assert(out@[d]@[0]@ == ids[walks[d][0] as int]);
                assert(parts@[e]@.contains(walks[d][i]));
                assert(parts@[e]@.contains(walks[d][0]));
                let a = choose|a: int| 0 <= a < parts@[e]@.len() && parts@[e]@[a] == walks[d][i];
                let b = choose|b: int| 0 <= b < parts@[e]@.len() && parts@[e]@[b] == walks[d][0];
                assert(self.data.mutual(parts@[e]@[a] as int, parts@[e]@[b] as int));
                assert(out@[d]@[i]@ == ids[walks[d][i] as int]);
                assert(out@[d]@[0]@ == ids[walks[d][0] as int]);
                self.lemma_mutual_ids(walks[d][i] as int, walks[d][0] as int);
            }
            assert forall|c1: int, d1: int| 0 <= c1 < d1 < out@.len() implies !(#[trigger] out@[c1]@[0]@ == #[trigger] out@[d1]@[0]@
                || (self.reaches(out@[c1]@[0]@, out@[d1]@[0]@) && self.reaches(out@[d1]@[0]@, out@[c1]@[0]@))) by {
                let e1 = src[c1];
                let e2 = src[d1];
                assert(e1 < e2);
                assert(out@[c1]@.len() >= 2 && out@[d1]@.len() >= 2);
                assert(out@[c1]@[0]@ == ids[walks[c1][0] as int]);
                assert(out@[d1]@[0]@ == ids[walks[d1][0] as int]);
                assert(parts@[e1]@.contains(walks[c1][0]));
                assert(parts@[e2]@.contains(walks[d1][0]));
                let a = choose|a: int| 0 <= a < parts@[e1]@.len() && parts@[e1]@[a] == walks[c1][0];
                let b = choose|b: int| 0 <= b < parts@[e2]@.len() && parts@[e2]@[b] == walks[d1][0];
                assert(!self.data.mutual(parts@[e1]@[a] as int, parts@[e2]@[b] as int));
                assert(out@[c1]@[0]@ == ids[walks[c1][0] as int]);
                assert(out@[d1]@[0]@ == ids[walks[d1][0] as int]);
                self.lemma_mutual_ids(walks[c1][0] as int, walks[d1][0] as int);
            }
            assert forall|w: Seq<Seq<char>>| #[trigger] self.is_walk(w) && w.len() >= 2 && w[0] == w.last() implies exists|d: int|
                0 <= d < out@.len() && (#[trigger] out@[d]@[0]@ == w[0] || (self.reaches(out@[d]@[0]@, w[0]) && self.reaches(w[0], out@[d]@[0]@))) by {
                let p = self.lemma_ids_walk(w, al);
                assert(p[0] == p.last());
                let v0 = p[0] as usize;
                assert(in_parts(parts@, v0));
                let (e, a) = choose|e: int, a: int| 0 <= e < parts@.len() && 0 <= a < parts@[e]@.len() && parts@[e]@[a] == v0;
                let mm = member_mask(parts@[e]@, n as nat);
                assert forall|k: int| 1 <= k < p.len() implies mm[#[trigger] p[k]] by {
                    self.data.lemma_walk_mutual(p, k);
                    let vk = p[k] as usize;
                    assert(in_parts(parts@, vk));
                    let (e2, b) = choose|e2: int, b: int| 0 <= e2 < parts@.len() && 0 <= b < parts@[e2]@.len() && parts@[e2]@[b] == vk;
                    assert(self.data.mutual(parts@[e2]@[b] as int, parts@[e]@[a] as int));
                    assert(parts@[e]@[b] == vk);
                }
                assert(self.data.is_iwalk(p, mm));
                assert(self.data.cyclic_part(parts@[e]@));
                let d = choose|d: int| 0 <= d < src.len() && src[d] == e;
                assert(out@[d]@.len() >= 2);
                assert(out@[d]@[0]@ == ids[walks[d][0] as int]);
                assert(parts@[e]@.contains(walks[d][0]));
                let b = choose|b: int| 0 <= b < parts@[e]@.len() && parts@[e]@[b] == walks[d][0];
                assert(self.data.mutual(parts@[e]@[b] as int, parts@[e]@[a] as int));
                assert(out@[d]@[0]@ == ids[walks[d][0] as int]);
                self.lemma_mutual_ids(walks[d][0] as int, p[0]);
                self.lemma_index_of(w[0]);
                assert(ids[p[0]] == w[0]);
            }
        }
        proof {
            self.lemma_cycles_represent(parts@, out@, src, walks);
        }
        out
    }
}


impl ModuleGraph {
    /// Node `x` is marked in a mask over node positions.
    pub open spec fn marked(&self, mask: Seq<bool>, x: Seq<char>) -> bool {
        exists|j: int| 0 <= j < self.ids().len() && self.ids()[j] == x && mask[j]
    }

    /// No node of `w` after the first is marked in `blocked`.
    pub open spec fn avoids(&self, w: Seq<Seq<char>>, blocked: Seq<bool>) -> bool {
        forall|i: int| 1 <= i < w.len() ==> !self.marked(blocked, #[trigger] w[i])
    }

    /// `w` leads from `start` to a node marked in `wanted`, entering no node marked in `blocked`.
    pub open spec fn leads_to(&self, w: Seq<Seq<char>>, start: Seq<char>, blocked: Seq<bool>, wanted: Seq<bool>) -> bool {
        &&& self.is_walk(w)
        &&& w[0] == start
        &&& self.avoids(w, blocked)
        &&& self.marked(wanted, w.last())
    }

    /// Some shortest walk from `start` to a node marked in `wanted` that enters no node marked in
    /// `blocked` (the start itself may be blocked).
    #[verifier::spinoff_prover]
    #[verifier::rlimit(40)]
    fn nearest_any(&self, start: &ModuleId, blocked: &Vec<bool>, wanted: &Vec<bool>) -> (r: Option<Vec<ModuleId>>)
        requires
            blocked@.len() == self.ids().len(),
            wanted@.len() == self.ids().len(),
        ensures
            r is Some <==> exists|w: Seq<Seq<char>>| #[trigger] self.leads_to(w, start@, blocked@, wanted@),
            r matches Some(p) ==> {
                &&& self.leads_to(ids_of(p@), start@, blocked@, wanted@)
                &&& forall|w: Seq<Seq<char>>| #[trigger] self.leads_to(w, start@, blocked@, wanted@) ==> p@.len() <= w.len()
            },
    {
        proof {
            use_type_invariant(self);
        }
        let n = self.data.nodes.len();
        let s = match self.data.find(start) {
            Some(i) => i,
            None => {
                proof {
                    assert forall|w: Seq<Seq<char>>| !(#[trigger] self.leads_to(w, start@, blocked@, wanted@)) by {
                        if self.leads_to(w, start@, blocked@, wanted@) {
                            assert(self.has_id(w[0]));
                            let i = choose|i: int| 0 <= i < self.ids().len() && self.ids()[i] == start@;
                            assert(self.data.nodes@[i]@ == start@);
                        }
                    }
                }
                return None;
            },
        };
        let mut allowed: Vec<bool> = Vec::new();
        let mut i: usize = 0;
        while i < n
            invariant
                n == blocked@.len(),
                i <= n,
                allowed@.len() == i,
                forall|k: int| 0 <= k < i ==> allowed@[k] == !blocked@[k],
            decreases n - i,
        {
            allowed.push(!blocked[i]);
            i = i + 1;
        }
        let ex = self.data.explore(s, &allowed, None);
        let mut k: usize = 0;
        while k < ex.order.len()
            invariant
                self.data.wf(),
                n == self.data.nodes@.len(),
                wanted@.len() == n,
                k <= ex.order@.len(),
                forall|m: int| 0 <= m < ex.order@.len() ==> #[trigger] ex.order@[m] < n,
                forall|m: int| 0 <= m < k ==> !wanted@[#[trigger] ex.order@[m] as int],
            ensures
                k <= ex.order@.len(),
                forall|m: int| 0 <= m < k ==> !wanted@[#[trigger] ex.order@[m] as int],
                k < ex.order@.len() ==> wanted@[ex.order@[k as int] as int],
            decreases ex.order@.len() - k,
        {
            if wanted[ex.order[k]] {
                break;
            }
            k = k + 1;
        }
        proof {
            assert(self.ids()[s as int] == start@);
            self.lemma_index_of(start@);
        }
        if k == ex.order.len() {
            proof {
                assert forall|w: Seq<Seq<char>>| !(#[trigger] self.leads_to(w, start@, blocked@, wanted@)) by {
                    if self.leads_to(w, start@, blocked@, wanted@) {
                        let p = self.lemma_ids_walk_avoiding(w, blocked@, allowed@);
                        let j = choose|j: int| 0 <= j < self.ids().len() && self.ids()[j] == w.last() && wanted@[j];
                        self.lemma_index_of(w.last());
                        assert(self.data.within(s as int, j, (p.len() - 1) as int, allowed@));
                        assert(ex.visited@[j]);
                        assert(ex.order@.contains(j as usize));
                        let m = choose|m: int| 0 <= m < ex.order@.len() && ex.order@[m] == j as usize;
                        assert(!wanted@[ex.order@[m] as int]);
                    }
                }
            }
            return None;
        }
        let t = ex.order[k];
        proof {
            assert(ex.visited@[t as int]) by {
                assert(ex.order@.contains(t));
            }
        }
        let path = self.data.trace(&ex, s, &allowed, t);
        proof {
            assert forall|m: int| 0 <= m < path@.len() implies #[trigger] path@[m] < n by {
                assert(as_ints(path@)[m] == path@[m] as int);
            }
        }
        let out = self.modules_at(&path);
        proof {
            let pi = as_ints(path@);
            let q = ids_of(out@);
            self.lemma_walk_ids(pi, allowed@);
            assert(q[0] == start@);
            assert(q.last() == self.ids()[t as int]);
            assert(self.ids()[t as int] == q.last() && wanted@[t as int]);
            assert(self.marked(wanted@, q.last()));
            assert forall|m: int| 1 <= m < q.len() implies !self.marked(blocked@, #[trigger] q[m]) by {
                assert(allowed@[pi[m]]);
                if self.marked(blocked@, q[m]) {
                    let j = choose|j: int| 0 <= j < self.ids().len() && self.ids()[j] == q[m] && blocked@[j];
                    self.lemma_index_of(q[m]);
                    assert(q[m] == self.ids()[pi[m]]);
                }
            }
            assert(self.data.node_ok(s as int, allowed@, ex.visited@, ex.prev@, ex.dist@, t as int));
            assert forall|w: Seq<Seq<char>>| #[trigger] self.leads_to(w, start@, blocked@, wanted@) implies out@.len() <= w.len() by {
                let p = self.lemma_ids_walk_avoiding(w, blocked@, allowed@);
                let j = choose|j: int| 0 <= j < self.ids().len() && self.ids()[j] == w.last() && wanted@[j];
                self.lemma_index_of(w.last());
                assert(self.data.within(s as int, j, (p.len() - 1) as int, allowed@));
                assert(ex.visited@[j]);
                assert(ex.order@.contains(j as usize));
                let m = choose|m: int| 0 <= m < ex.order@.len() && ex.order@[m] == j as usize;
                if m < k {
                    assert(!wanted@[ex.order@[m] as int]);
                }
                if k < m {
                    assert(ex.dist@[ex.order@[k as int] as int] <= ex.dist@[ex.order@[m] as int]);
                }
                assert(self.data.node_ok(s as int, allowed@, ex.visited@, ex.prev@, ex.dist@, j));
            }
            assert(self.leads_to(q, start@, blocked@, wanted@));
        }
        Some(out)
    }

    /// A walk that enters no blocked node is an index walk through the unblocked nodes.
    proof fn lemma_ids_walk_avoiding(&self, w: Seq<Seq<char>>, blocked: Seq<bool>, allowed: Seq<bool>) -> (p: Seq<int>)
        requires
            self.data.wf(),
            self.is_walk(w),
            self.avoids(w, blocked),
            blocked.len() == self.ids().len(),
            allowed.len() == self.ids().len(),
            forall|k: int| 0 <= k < allowed.len() ==> allowed[k] == !blocked[k],
        ensures
            self.data.is_iwalk(p, allowed),
            p.len() == w.len(),
            p[0] == self.index_of(w[0]),
            p.last() == self.index_of(w.last()),
    {
        let all = all_true(self.ids().len());
        let p = self.lemma_ids_walk(w, all);
        assert forall|i: int| 1 <= i < p.len() implies allowed[#[trigger] p[i]] by {
            assert(p[i] == self.index_of(w[i]));
            self.lemma_index_of(w[i]);
            if !allowed[p[i]] {
                assert(blocked[p[i]]);
                assert(self.marked(blocked, w[i]));
            }
        }
        assert(p[0] == self.index_of(w[0]));
        assert(p.last() == p[p.len() - 1]);
        assert(p[p.len() - 1] == self.index_of(w[w.len() - 1]));
        p
    }
}


/// A copy of a sequence of modules with the same ids.
pub(crate) fn duplicate_all(v: &Vec<ModuleId>) -> (r: Vec<ModuleId>)
    ensures
        ids_of(r@) == ids_of(v@),
        r@.len() == v@.len(),
{
    let mut out: Vec<ModuleId> = Vec::new();
    let mut i: usize = 0;
    while i < v.len()
        invariant
            i <= v@.len(),
            out@.len() == i,
            forall|k: int| 0 <= k < i ==> #[trigger] out@[k]@ == v@[k]@,
        decreases v@.len() - i,
    {
        out.push(v[i].duplicate());
        i = i + 1;
    }
    proof {
        assert(ids_of(out@) =~= ids_of(v@));
    }
    out
}

/// A sequence with one more element holds what it held, and the new element.
pub proof fn lemma_push_contains<A>(s: Seq<A>, v: A, x: A)
    ensures
        s.push(v).contains(x) <==> (s.contains(x) || x == v),
{
    if s.contains(x) {
        let t = choose|t: int| 0 <= t < s.len() && s[t] == x;
        assert(s.push(v)[t] == x);
    }
    if x == v {
        assert(s.push(v)[s.len() as int] == x);
    }
    if s.push(v).contains(x) {
        let t = choose|t: int| 0 <= t < s.push(v).len() && s.push(v)[t] == x;
        if t < s.len() {
            assert(s[t] == x);
        }
    }
}

/// `h` has the nodes of `g` and every edge of `g` turned around.
pub open spec fn reverses(g: ModuleGraph, h: ModuleGraph) -> bool {
    &&& forall|x: Seq<char>| #[trigger] h.has_id(x) <==> g.has_id(x)
    &&& forall|a: ArcView| #[trigger] h.arcs().contains(a) <==> g.arcs().contains((a.1, a.0, a.2))
}

/// A walk in the graph with the edges turned around is a walk backwards in the graph.
pub proof fn lemma_reversed_reaches(g: ModuleGraph, h: ModuleGraph, a: Seq<char>, b: Seq<char>)
    requires
        reverses(g, h),
        h.reaches(a, b),
    ensures
        g.reaches(b, a),
{
    let p = choose|p: Seq<Seq<char>>| #[trigger] h.is_walk(p) && p.len() >= 2 && p[0] == a && p.last() == b;
    let n = p.len();
    let q = p.reverse();
    assert forall|i: int| 0 <= i < q.len() implies g.has_id(#[trigger] q[i]) by {
        assert(q[i] == p[n - 1 - i]);
        assert(h.has_id(p[n - 1 - i]));
    }
    assert forall|i: int| 0 <= i < q.len() - 1 implies g.linked(#[trigger] q[i], q[i + 1]) by {
        assert(q[i] == p[n - 1 - i]);
        assert(q[i + 1] == p[n - 2 - i]);
        assert(h.linked(p[n - 2 - i], p[n - 1 - i]));
        let k = choose|k: int|
            0 <= k < h.arcs().len() && h.arcs()[k].0 == p[n - 2 - i] && h.arcs()[k].1 == p[n - 1 - i];
        let arc = h.arcs()[k];
        assert(h.arcs().contains(arc));
        assert(g.arcs().contains((arc.1, arc.0, arc.2)));
        let l = choose|l: int| 0 <= l < g.arcs().len() && g.arcs()[l] == (arc.1, arc.0, arc.2);
        assert(g.arcs()[l].0 == q[i] && g.arcs()[l].1 == q[i + 1]);
    }
    assert(g.is_walk(q));
    assert(q[0] == b && q.last() == a);
}

/// The graph is its own reversal, turned around.
pub proof fn lemma_reverses_back(g: ModuleGraph, h: ModuleGraph)
    requires
        reverses(g, h),
    ensures
        reverses(h, g),
{
    assert forall|a: ArcView| #[trigger] g.arcs().contains(a) implies h.arcs().contains((a.1, a.0, a.2)) by {
        let b: ArcView = (a.1, a.0, a.2);
        assert((b.1, b.0, b.2) == a);
    }
    assert forall|a: ArcView| #[trigger] h.arcs().contains((a.1, a.0, a.2)) implies g.arcs().contains(a) by {
        let b: ArcView = (a.1, a.0, a.2);
        assert((b.1, b.0, b.2) == a);
    }
}

impl ModuleGraph {
    /// The graph with the same nodes and every edge turned around.
    pub fn reversed(&self) -> (r: ModuleGraph)
        ensures
            reverses(*self, r),
    {
        proof {
            use_type_invariant(self);
        }
        let ghost ids = self.ids();
        let ghost arcs = self.arcs();
        let mut b = ModuleGraphBuilder::new();
        let mut i: usize = 0;
        while i < self.data.nodes.len()
            invariant
                self.data.wf(),
                ids == self.ids(),
                i <= ids.len(),
                b.arcs().len() == 0,
                forall|x: Seq<char>| #[trigger] b.ids().contains(x) <==> ids.take(i as int).contains(x),
            decreases ids.len() - i,
        {
            let ghost before = b.ids();
            let node = self.data.nodes[i].duplicate();
            assert(node@ == ids[i as int]);
            b = b.add_node(node);
            proof {
                assert forall|x: Seq<char>| #[trigger] b.ids().contains(x) <==> ids.take(i + 1).contains(x) by {
                    lemma_with_id_contains(before, ids[i as int], x);
                    assert(ids.take(i + 1) =~= ids.take(i as int).push(ids[i as int]));
                    lemma_push_contains(ids.take(i as int), ids[i as int], x);
                }
            }
            i = i + 1;
        }
        assert(ids.take(i as int) =~= ids);
        let mut k: usize = 0;
        while k < self.data.edges.len()
            invariant
                self.data.wf(),
                ids == self.ids(),
                arcs == self.arcs(),
                k <= arcs.len(),
                forall|x: Seq<char>| #[trigger] b.ids().contains(x) <==> ids.contains(x),
                forall|a: ArcView|
                    #[trigger] b.arcs().contains(a) <==> arcs.take(k as int).contains((a.1, a.0, a.2)),
            decreases arcs.len() - k,
        {
            let e = &self.data.edges[k];
            let turned = Dependency {
                from: e.to.duplicate(),
                to: e.from.duplicate(),
                kind: e.kind,
                location: SourceLocation::unknown(),
            };
            let ghost ids_before = b.ids();
            let ghost arcs_before = b.arcs();
            proof {
                let ends = self.data.ends@[k as int];
                assert(self.data.nodes@[ends.0 as int]@ == e.from@);
                assert(self.data.nodes@[ends.1 as int]@ == e.to@);
                assert(ids[ends.0 as int] == e.from@);
                assert(ids[ends.1 as int] == e.to@);
                assert(arcs[k as int] == arc_of(*e));
            }
            assert(arc_of(turned) == (e.to@, e.from@, e.kind));
            b = b.add_edge(turned);
            proof {
                assert forall|x: Seq<char>| #[trigger] b.ids().contains(x) <==> ids.contains(x) by {
                    lemma_with_id_contains(ids_before, e.to@, x);
                    lemma_with_id_contains(with_id(ids_before, e.to@), e.from@, x);
                }
                assert(arcs.take(k + 1) =~= arcs.take(k as int).push(arcs[k as int]));
                assert forall|a: ArcView|
                    #[trigger] b.arcs().contains(a) <==> arcs.take(k + 1).contains((a.1, a.0, a.2)) by {
                    lemma_with_arc_contains(arcs_before, arc_of(turned), a);
                    let back: ArcView = (a.1, a.0, a.2);
                    lemma_push_contains(arcs.take(k as int), arcs[k as int], back);
                    assert(back == arc_of(*e) <==> a == arc_of(turned));
                }
            }
            k = k + 1;
        }
        assert(arcs.take(k as int) =~= arcs);
        let r = b.build();
        proof {
            assert forall|x: Seq<char>| #[trigger] r.has_id(x) <==> self.has_id(x) by {}
            assert forall|a: ArcView| #[trigger] r.arcs().contains(a) <==> self.arcs().contains((a.1, a.0, a.2)) by {}
        }
        r
    }

    /// The seeds, and every module from which some seed can be reached: the modules a change to
    /// the seeds can affect through their importers.
    pub fn importers_closure(&self, seeds: &Vec<String>) -> (r: TextSet)
        ensures
            forall|x: Seq<char>|
                #[trigger] r.members().contains(x) <==> (texts_of(seeds@).contains(x) || exists|s: Seq<char>|
                    texts_of(seeds@).contains(s) && self.reaches(x, s)),
    {
        let rev = self.reversed();
        proof {
            lemma_reverses_back(*self, rev);
        }
        let mut set = TextSet::new();
        let mut i: usize = 0;
        while i < seeds.len()
            invariant
                i <= seeds@.len(),
                reverses(*self, rev),
                reverses(rev, *self),
                forall|x: Seq<char>|
                    #[trigger] set.members().contains(x) <==> (texts_of(seeds@).take(i as int).contains(x) || exists|s: Seq<char>|
                        texts_of(seeds@).take(i as int).contains(s) && self.reaches(x, s)),
            decreases seeds@.len() - i,
        {
            let ghost before = set.members();
            let ghost seed = seeds@[i as int]@;
            set.insert(seeds[i].clone());
            let start = ModuleId(seeds[i].clone());
            assert(start@ == seed);
            let found = rev.reachable_from(&start);
            let ghost mid = set.members();
            let mut j: usize = 0;
            while j < found.len()
                invariant
                    j <= found@.len(),
                    forall|x: Seq<char>|
                        #[trigger] set.members().contains(x) <==> (mid.contains(x) || found@.map_values(|m: ModuleId| m@).take(j as int).contains(x)),
                decreases found@.len() - j,
            {
                let ghost b = set.members();
                set.insert(found[j].0.clone());
                proof {
                    let fv = found@.map_values(|m: ModuleId| m@);
                    assert(fv[j as int] == found@[j as int].0@);
                    assert(fv.take(j + 1) =~= fv.take(j as int).push(fv[j as int]));
                    assert forall|x: Seq<char>| #[trigger] set.members().contains(x) <==> (mid.contains(x) || fv.take(j + 1).contains(x)) by {
                        lemma_push_contains(fv.take(j as int), fv[j as int], x);
                    }
                }
                j = j + 1;
            }
            proof {
                let fv = ids_of(found@);
                assert(fv.take(j as int) =~= fv);
                let sv = texts_of(seeds@);
                assert(sv.take(i + 1) =~= sv.take(i as int).push(seed));
                assert forall|x: Seq<char>|
                    #[trigger] set.members().contains(x) <==> (sv.take(i + 1).contains(x) || exists|s: Seq<char>|
                        sv.take(i + 1).contains(s) && self.reaches(x, s)) by {
                    if set.members().contains(x) {
                        if before.contains(x) {
                            if sv.take(i as int).contains(x) {
                                let t = { let q = sv.take(i as int); choose|t: int| 0 <= t < q.len() && q[t] == x };
                                assert(sv.take(i + 1)[t] == x);
                            } else {
                                let s = choose|s: Seq<char>| sv.take(i as int).contains(s) && self.reaches(x, s);
                                let t = { let q = sv.take(i as int); choose|t: int| 0 <= t < q.len() && q[t] == s };
                                assert(sv.take(i + 1)[t] == s);
                            }
                        } else if x == seed {
                            assert(sv.take(i + 1)[i as int] == x);
                        } else {
                            assert(fv.contains(x));
                            assert(rev.reaches(seed, x));
                            lemma_reversed_reaches(*self, rev, seed, x);
                            assert(sv.take(i + 1)[i as int] == seed);
                        }
                    }
                    if sv.take(i + 1).contains(x) {
                        let t = { let q = sv.take(i + 1); choose|t: int| 0 <= t < q.len() && q[t] == x };
                        if t < i {
                            assert(sv.take(i as int)[t] == x);
                        }
                    }
                    if exists|s: Seq<char>| sv.take(i + 1).contains(s) && self.reaches(x, s) {
                        let s = choose|s: Seq<char>| sv.take(i + 1).contains(s) && self.reaches(x, s);
                        let t = { let q = sv.take(i + 1); choose|t: int| 0 <= t < q.len() && q[t] == s };
                        if t < i {
                            assert(sv.take(i as int)[t] == s);
                            assert(sv.take(i as int).contains(s) && self.reaches(x, s));
                        } else {
                            assert(s == seed);
                            if x != seed {
                                lemma_reversed_reaches(rev, *self, x, seed);
                                assert(rev.reaches(seed, x));
                                assert(fv.contains(x));
                            }
                        }
                    }
                }
            }
            i = i + 1;
        }
        proof {
            assert(texts_of(seeds@).take(i as int) =~= texts_of(seeds@));
        }
        set
    }
}


/// `b` is among the targets of the arcs leaving `a` exactly when some arc goes from `a` to `b`.
proof fn lemma_targets_in(arcs: Seq<ArcView>, a: Seq<char>, b: Seq<char>)
    ensures
        targets_in(arcs, a).contains(b) <==> exists|k: int| 0 <= k < arcs.len() && arcs[k].0 == a && arcs[k].1 == b,
    decreases arcs.len(),
{
    if arcs.len() > 0 {
        let rest = arcs.drop_last();
        lemma_targets_in(rest, a, b);
        if targets_in(arcs, a).contains(b) {
            if arcs.last().0 == a && arcs.last().1 == b {
                assert(arcs[arcs.len() - 1].0 == a);
            } else {
                if arcs.last().0 == a {
                    let i = choose|i: int| 0 <= i < targets_in(arcs, a).len() && targets_in(arcs, a)[i] == b;
                    assert(targets_in(arcs, a) == targets_in(rest, a).push(arcs.last().1));
                    assert(targets_in(rest, a)[i] == b);
                }
                let k = choose|k: int| 0 <= k < rest.len() && rest[k].0 == a && rest[k].1 == b;
                assert(arcs[k] == rest[k]);
            }
        }
        if exists|k: int| 0 <= k < arcs.len() && arcs[k].0 == a && arcs[k].1 == b {
            let k = choose|k: int| 0 <= k < arcs.len() && arcs[k].0 == a && arcs[k].1 == b;
            if k == arcs.len() - 1 {
                assert(targets_in(arcs, a) == targets_in(rest, a).push(b));
                assert(targets_in(arcs, a)[targets_in(rest, a).len() as int] == b);
            } else {
                assert(rest[k] == arcs[k]);
                let i = choose|i: int| 0 <= i < targets_in(rest, a).len() && targets_in(rest, a)[i] == b;
                if arcs.last().0 == a {
                    assert(targets_in(arcs, a) == targets_in(rest, a).push(arcs.last().1));
                    assert(targets_in(arcs, a)[i] == b);
                }
            }
        }
    }
}

impl ModuleGraph {
    /// The mask that marks no node.
    pub open spec fn no_mask(&self) -> Seq<bool> {
        Seq::new(self.ids().len(), |i: int| false)
    }

    /// The mask that marks exactly the node `x`.
    pub open spec fn only_mask(&self, x: Seq<char>) -> Seq<bool> {
        Seq::new(self.ids().len(), |i: int| self.ids()[i] == x)
    }

    /// From `x` a walk of at most `d` edges leads to a node marked in `wanted`, entering no node
    /// marked in `blocked`.
    pub open spec fn leads_within(&self, x: Seq<char>, blocked: Seq<bool>, wanted: Seq<bool>, d: int) -> bool {
        exists|w: Seq<Seq<char>>| #[trigger] self.leads_to(w, x, blocked, wanted) && w.len() <= d + 1
    }

    /// `v` is not blocked and from it a wanted node is at most `d` edges away.
    pub open spec fn toward(&self, v: Seq<char>, blocked: Seq<bool>, wanted: Seq<bool>, d: int) -> bool {
        !self.marked(blocked, v) && self.leads_within(v, blocked, wanted, d)
    }

    /// `v` is the first of `u`'s targets, in edge order, that is not blocked and from which a
    /// wanted node is at most `d` edges away.
    pub open spec fn first_toward(&self, u: Seq<char>, v: Seq<char>, blocked: Seq<bool>, wanted: Seq<bool>, d: int) -> bool {
        exists|k: int|
            0 <= k < self.targets(u).len() && #[trigger] self.targets(u)[k] == v && self.toward(v, blocked, wanted, d)
                && forall|j: int| 0 <= j < k ==> !self.toward(#[trigger] self.targets(u)[j], blocked, wanted, d)
    }

    /// `w` is the breadth-first walk from `start` to a wanted node: a shortest one that enters no
    /// blocked node and, at each step, goes to the first target that is still on a shortest way.
    pub open spec fn breadth_first(&self, w: Seq<Seq<char>>, start: Seq<char>, blocked: Seq<bool>, wanted: Seq<bool>) -> bool {
        &&& self.leads_to(w, start, blocked, wanted)
        &&& forall|w2: Seq<Seq<char>>| #[trigger] self.leads_to(w2, start, blocked, wanted) ==> w.len() <= w2.len()
        &&& forall|i: int| 0 <= i < w.len() - 1 ==> self.first_toward(#[trigger] w[i], w[i + 1], blocked, wanted, w.len() - 2 - i)
    }

    /// From one start there is at most one breadth-first walk.
    pub proof fn lemma_breadth_first_unique(&self, w1: Seq<Seq<char>>, w2: Seq<Seq<char>>, start: Seq<char>, blocked: Seq<bool>, wanted: Seq<bool>)
        requires
            self.breadth_first(w1, start, blocked, wanted),
            self.breadth_first(w2, start, blocked, wanted),
        ensures
            w1 == w2,
    {
        assert(w1.len() <= w2.len() && w2.len() <= w1.len());
        assert forall|i: int| 0 <= i < w1.len() implies w1[i] == w2[i] by {
            self.lemma_breadth_first_prefix(w1, w2, start, blocked, wanted, i);
        }
        assert(w1 =~= w2);
    }

    proof fn lemma_breadth_first_prefix(&self, w1: Seq<Seq<char>>, w2: Seq<Seq<char>>, start: Seq<char>, blocked: Seq<bool>, wanted: Seq<bool>, i: int)
        requires
            self.breadth_first(w1, start, blocked, wanted),
            self.breadth_first(w2, start, blocked, wanted),
            w1.len() == w2.len(),
            0 <= i < w1.len(),
        ensures
            w1[i] == w2[i],
        decreases i,
    {
        if i > 0 {
            self.lemma_breadth_first_prefix(w1, w2, start, blocked, wanted, i - 1);
            let u = w1[i - 1];
            let d = w1.len() - 2 - (i - 1);
            assert(self.first_toward(w1[i - 1], w1[i], blocked, wanted, d));
            assert(self.first_toward(w2[i - 1], w2[i], blocked, wanted, d));
            let k1 = choose|k: int|
                0 <= k < self.targets(u).len() && #[trigger] self.targets(u)[k] == w1[i] && self.toward(w1[i], blocked, wanted, d)
                    && forall|j: int| 0 <= j < k ==> !self.toward(#[trigger] self.targets(u)[j], blocked, wanted, d);
            let k2 = choose|k: int|
                0 <= k < self.targets(u).len() && #[trigger] self.targets(u)[k] == w2[i] && self.toward(w2[i], blocked, wanted, d)
                    && forall|j: int| 0 <= j < k ==> !self.toward(#[trigger] self.targets(u)[j], blocked, wanted, d);
            if k1 < k2 {
                assert(!self.toward(self.targets(u)[k1], blocked, wanted, d));
            }
            if k2 < k1 {
                assert(!self.toward(self.targets(u)[k2], blocked, wanted, d));
            }
        }
    }

    /// A walk `w` from `u` that leads to a wanted node without entering a blocked one, prefixed
    /// by `u`'s predecessor `p`, still does so from `p`.
    proof fn lemma_leads_prepend(&self, p: Seq<char>, w: Seq<Seq<char>>, blocked: Seq<bool>, wanted: Seq<bool>)
        requires
            self.leads_to(w, w[0], blocked, wanted),
            self.has_id(p),
            self.linked(p, w[0]),
            !self.marked(blocked, w[0]),
        ensures
            self.leads_to(seq![p] + w, p, blocked, wanted),
    {
        let q = seq![p] + w;
        assert forall|i: int| 0 <= i < q.len() implies self.has_id(#[trigger] q[i]) by {
            if i > 0 {
                assert(q[i] == w[i - 1]);
            }
        }
        assert forall|i: int| 0 <= i < q.len() - 1 implies self.linked(#[trigger] q[i], q[i + 1]) by {
            if i > 0 {
                assert(q[i] == w[i - 1] && q[i + 1] == w[i]);
            } else {
                assert(q[1] == w[0]);
            }
        }
        assert forall|i: int| 1 <= i < q.len() implies !self.marked(blocked, #[trigger] q[i]) by {
            assert(q[i] == w[i - 1]);
        }
        assert(q.last() == w.last());
    }

    /// A node `d > 0` edges from the nearest wanted node has a target `d - 1` edges from one.
    proof fn lemma_leads_closer(&self, u: Seq<char>, blocked: Seq<bool>, wanted: Seq<bool>, d: int)
        requires
            self.leads_within(u, blocked, wanted, d),
            !self.leads_within(u, blocked, wanted, d - 1),
            d > 0,
        ensures
            exists|j: int| 0 <= j < self.targets(u).len() && self.toward(#[trigger] self.targets(u)[j], blocked, wanted, d - 1),
    {
        let w = choose|w: Seq<Seq<char>>| #[trigger] self.leads_to(w, u, blocked, wanted) && w.len() <= d + 1;
        assert(w.len() >= 2);
        let v = w[1];
        let rest = w.skip(1);
        assert forall|i: int| 0 <= i < rest.len() implies self.has_id(#[trigger] rest[i]) by {
            assert(rest[i] == w[i + 1]);
        }
        assert forall|i: int| 0 <= i < rest.len() - 1 implies self.linked(#[trigger] rest[i], rest[i + 1]) by {
            assert(rest[i] == w[i + 1] && rest[i + 1] == w[i + 2]);
        }
        assert forall|i: int| 1 <= i < rest.len() implies !self.marked(blocked, #[trigger] rest[i]) by {
            assert(rest[i] == w[i + 1]);
        }
        assert(rest.last() == w.last());
        assert(self.leads_to(rest, v, blocked, wanted));
        assert(self.linked(w[0], w[1]));
        lemma_targets_in(self.arcs(), u, v);
        let j = choose|j: int| 0 <= j < self.targets(u).len() && self.targets(u)[j] == v;
        assert(self.toward(self.targets(u)[j], blocked, wanted, d - 1));
    }

    /// Whether `x` is marked in `mask`.
    fn is_marked(&self, mask: &Vec<bool>, x: &ModuleId) -> (r: bool)
        requires
            mask@.len() == self.ids().len(),
        ensures
            r == self.marked(mask@, x@),
    {
        proof {
            use_type_invariant(self);
        }
        match self.data.find(x) {
            Some(i) => {
                proof {
                    assert(self.ids()[i as int] == x@);
                    self.lemma_index_of(x@);
                }
                mask[i]
            },
            None => {
                proof {
                    if self.marked(mask@, x@) {
                        let j = choose|j: int| 0 <= j < self.ids().len() && self.ids()[j] == x@ && mask@[j];
                        assert(self.data.nodes@[j]@ == x@);
                    }
                }
                false
            },
        }
    }

    /// The fewest edges from `x` to a wanted node without entering a blocked one, if any.
    fn distance_to(&self, x: &ModuleId, blocked: &Vec<bool>, wanted: &Vec<bool>) -> (r: Option<usize>)
        requires
            blocked@.len() == self.ids().len(),
            wanted@.len() == self.ids().len(),
        ensures
            r is None <==> !exists|w: Seq<Seq<char>>| #[trigger] self.leads_to(w, x@, blocked@, wanted@),
            r matches Some(d) ==> self.leads_within(x@, blocked@, wanted@, d as int) && !self.leads_within(
                x@,
                blocked@,
                wanted@,
                d - 1,
            ),
    {
        match self.nearest_any(x, blocked, wanted) {
            None => None,
            Some(p) => {
                proof {
                    assert(ids_of(p@).len() == p@.len());
                    assert(self.leads_to(ids_of(p@), x@, blocked@, wanted@));
                }
                Some(p.len() - 1)
            },
        }
    }

    /// The breadth-first walk from `start` to a node marked in `wanted` that enters no node
    /// marked in `blocked` (the start itself may be blocked), if any.
    #[verifier::spinoff_prover]
    #[verifier::rlimit(40)]
    pub(crate) fn nearest(&self, start: &ModuleId, blocked: &Vec<bool>, wanted: &Vec<bool>) -> (r: Option<Vec<ModuleId>>)
        requires
            blocked@.len() == self.ids().len(),
            wanted@.len() == self.ids().len(),
        ensures
            r is Some <==> exists|w: Seq<Seq<char>>| #[trigger] self.leads_to(w, start@, blocked@, wanted@),
            r matches Some(p) ==> self.breadth_first(ids_of(p@), start@, blocked@, wanted@),
    {
        let d0 = match self.distance_to(start, blocked, wanted) {
            None => {
                return None;
            },
            Some(d) => d,
        };
        let mut path: Vec<ModuleId> = Vec::new();
        path.push(start.duplicate());
        let mut u = start.duplicate();
        let mut d = d0;
        proof {
            let w0 = choose|w: Seq<Seq<char>>| #[trigger] self.leads_to(w, start@, blocked@, wanted@) && w.len() <= d0 + 1;
            assert(self.has_id(w0[0]));
            assert(ids_of(path@) =~= seq![start@]);
        }
        while d > 0
            invariant
                blocked@.len() == self.ids().len(),
                wanted@.len() == self.ids().len(),
                self.leads_within(u@, blocked@, wanted@, d as int),
                !self.leads_within(u@, blocked@, wanted@, d - 1),
                self.leads_within(start@, blocked@, wanted@, d0 as int),
                !self.leads_within(start@, blocked@, wanted@, d0 - 1),
                path@.len() + d == d0 + 1,
                ids_of(path@)[0] == start@,
                ids_of(path@).last() == u@,
                self.is_walk(ids_of(path@)),
                self.avoids(ids_of(path@), blocked@),
                forall|i: int| 0 <= i < path@.len() - 1 ==> self.first_toward(
                    #[trigger] ids_of(path@)[i],
                    ids_of(path@)[i + 1],
                    blocked@,
                    wanted@,
                    d0 - 1 - i,
                ),
            decreases d,
        {
            let outs = self.outgoing(&u);
            let ghost ts = self.targets(u@);
            let mut chosen: Option<usize> = None;
            let mut k: usize = 0;
            while k < outs.len() && chosen.is_none()
                invariant
                    blocked@.len() == self.ids().len(),
                    wanted@.len() == self.ids().len(),
                    d > 0,
                    outs@.map_values(|m: ModuleId| m@) == ts,
                    ts == self.targets(u@),
                    k <= outs@.len(),
                    chosen is None ==> forall|j: int| 0 <= j < k ==> !self.toward(#[trigger] ts[j], blocked@, wanted@, d - 1),
                    chosen matches Some(c) ==> {
                        &&& c < outs@.len()
                        &&& self.toward(ts[c as int], blocked@, wanted@, d - 1)
                        &&& forall|j: int| 0 <= j < c ==> !self.toward(#[trigger] ts[j], blocked@, wanted@, d - 1)
                    },
                decreases outs@.len() - k,
            {
                let v = &outs[k];
                proof {
                    assert(ts[k as int] == outs@[k as int]@);
                }
                if !self.is_marked(blocked, v) {
                    match self.distance_to(v, blocked, wanted) {
                        Some(e) => {
                            if e <= d - 1 {
                                chosen = Some(k);
                            } else {
                                proof {
                                    if self.leads_within(v@, blocked@, wanted@, d - 1) {
                                        let w = choose|w: Seq<Seq<char>>| #[trigger] self.leads_to(w, v@, blocked@, wanted@) && w.len() <= d;
                                        assert(self.leads_within(v@, blocked@, wanted@, e - 1));
                                    }
                                }
                            }
                        },
                        None => {},
                    }
                }
                k = k + 1;
            }
            proof {
                if chosen is None {
                    self.lemma_leads_closer(u@, blocked@, wanted@, d as int);
                    let j = choose|j: int| 0 <= j < self.targets(u@).len() && self.toward(#[trigger] self.targets(u@)[j], blocked@, wanted@, d - 1);
                    assert(ts.len() == outs@.len());
                }
            }
            let c = chosen.unwrap();
            let v = outs[c].duplicate();
            let ghost p0 = ids_of(path@);
            proof {
                assert(ts[c as int] == v@);
                assert(self.first_toward(u@, v@, blocked@, wanted@, d - 1));
                lemma_targets_in(self.arcs(), u@, v@);
                assert(ts.contains(v@));
                assert(self.linked(u@, v@));
                let wv = choose|w: Seq<Seq<char>>| #[trigger] self.leads_to(w, v@, blocked@, wanted@) && w.len() <= d;
                assert(self.has_id(wv[0]));
                if self.leads_within(v@, blocked@, wanted@, d - 2) {
                    let w2 = choose|w: Seq<Seq<char>>| #[trigger] self.leads_to(w, v@, blocked@, wanted@) && w.len() <= d - 1;
                    self.lemma_leads_prepend(u@, w2, blocked@, wanted@);
                    assert(self.leads_to(seq![u@] + w2, u@, blocked@, wanted@));
                    assert(self.has_id(u@)) by {
                        assert(self.has_id(p0[p0.len() - 1]));
                    }
                }
                assert(self.has_id(u@)) by {
                    assert(self.has_id(p0[p0.len() - 1]));
                }
            }
            path.push(v.duplicate());
            proof {
                let p1 = ids_of(path@);
                assert(p1 =~= p0.push(v@));
                assert forall|i: int| 0 <= i < p1.len() implies self.has_id(#[trigger] p1[i]) by {
                    if i < p0.len() {
                        assert(p1[i] == p0[i]);
                    } else {
                        let wv = choose|w: Seq<Seq<char>>| #[trigger] self.leads_to(w, v@, blocked@, wanted@) && w.len() <= d;
                        assert(self.has_id(wv[0]));
                    }
                }
                assert forall|i: int| 0 <= i < p1.len() - 1 implies self.linked(#[trigger] p1[i], p1[i + 1]) by {
                    if i < p0.len() - 1 {
                        assert(p1[i] == p0[i] && p1[i + 1] == p0[i + 1]);
                    } else {
                        assert(p1[i] == u@ && p1[i + 1] == v@);
                    }
                }
                assert forall|i: int| 1 <= i < p1.len() implies !self.marked(blocked@, #[trigger] p1[i]) by {
                    if i < p0.len() {
                        assert(p1[i] == p0[i]);
                    }
                }
                assert forall|i: int| 0 <= i < p1.len() - 1 implies self.first_toward(
                    #[trigger] p1[i],
                    p1[i + 1],
                    blocked@,
                    wanted@,
                    d0 - 1 - i,
                ) by {
                    if i < p0.len() - 1 {
                        assert(p1[i] == p0[i] && p1[i + 1] == p0[i + 1]);
                    } else {
                        assert(p1[i] == u@ && p1[i + 1] == v@);
                    }
                }
            }
            u = v;
            d = d - 1;
        }
        proof {
            let q = ids_of(path@);
            let wz = choose|w: Seq<Seq<char>>| #[trigger] self.leads_to(w, u@, blocked@, wanted@) && w.len() <= 1;
            assert(wz.last() == wz[0]);
            assert(self.marked(wanted@, q.last()));
            assert(self.leads_to(q, start@, blocked@, wanted@));
            assert forall|w2: Seq<Seq<char>>| #[trigger] self.leads_to(w2, start@, blocked@, wanted@) implies q.len() <= w2.len() by {
                if w2.len() < q.len() {
                    assert(self.leads_within(start@, blocked@, wanted@, d0 - 1));
                }
            }
        }
        Some(path)
    }
}


/// `b` is among the sources of the arcs entering `a` exactly when some arc goes from `b` to `a`.
proof fn lemma_sources_in(arcs: Seq<ArcView>, a: Seq<char>, b: Seq<char>)
    ensures
        sources_in(arcs, a).contains(b) <==> exists|k: int| 0 <= k < arcs.len() && arcs[k].1 == a && arcs[k].0 == b,
    decreases arcs.len(),
{
    if arcs.len() > 0 {
        let rest = arcs.drop_last();
        lemma_sources_in(rest, a, b);
        if sources_in(arcs, a).contains(b) {
            if arcs.last().1 == a && arcs.last().0 == b {
                assert(arcs[arcs.len() - 1].1 == a);
            } else {
                if arcs.last().1 == a {
                    let i = choose|i: int| 0 <= i < sources_in(arcs, a).len() && sources_in(arcs, a)[i] == b;
                    assert(sources_in(arcs, a) == sources_in(rest, a).push(arcs.last().0));
                    assert(sources_in(rest, a)[i] == b);
                }
                let k = choose|k: int| 0 <= k < rest.len() && rest[k].1 == a && rest[k].0 == b;
                assert(arcs[k] == rest[k]);
            }
        }
        if exists|k: int| 0 <= k < arcs.len() && arcs[k].1 == a && arcs[k].0 == b {
            let k = choose|k: int| 0 <= k < arcs.len() && arcs[k].1 == a && arcs[k].0 == b;
            if k == arcs.len() - 1 {
                assert(sources_in(arcs, a) == sources_in(rest, a).push(b));
                assert(sources_in(arcs, a)[sources_in(rest, a).len() as int] == b);
            } else {
                assert(rest[k] == arcs[k]);
                let i = choose|i: int| 0 <= i < sources_in(rest, a).len() && sources_in(rest, a)[i] == b;
                if arcs.last().1 == a {
                    assert(sources_in(arcs, a) == sources_in(rest, a).push(arcs.last().0));
                    assert(sources_in(arcs, a)[i] == b);
                }
            }
        }
    }
}

impl ModuleGraph {
    /// `x` is among the modules that import `y` exactly when `y` is among the modules that `x`
    /// imports.
    pub proof fn lemma_incoming_outgoing(&self, x: Seq<char>, y: Seq<char>)
        ensures
            self.sources(y).contains(x) <==> self.targets(x).contains(y),
    {
        lemma_targets_in(self.arcs(), x, y);
        lemma_sources_in(self.arcs(), y, x);
    }
}

} // verus!
