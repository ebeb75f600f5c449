//! Runtime-aware projection of the module graph. Framework RPC modules (Next.js Server Actions)
//! are terminal boundaries when reached from another module: their implementation dependencies
//! execute remotely and must not leak into the caller's runtime capability set.
use crate::domain::{Module, ModuleId, Project, Runtime};
use crate::map::OrderedMap;
use crate::module_graph::{arc_lt, duplicate_all, ids_of, walk_ids, known_arc, module_known, ArcView, ModuleGraph};
use crate::text::{text_equal, text_lt};
use vstd::prelude::*;

verus! {

/// A runtime that a module needs, with the walk that explains it.
#[derive(Clone, Debug, PartialEq, Eq)]
pub struct RuntimeRequirement {
    pub runtime: Runtime,
    pub path: Vec<ModuleId>,
}

/// The runtime of the last module record with id `x`.
pub open spec fn last_runtime(modules: Seq<Module>, x: Seq<char>) -> Option<Runtime>
    decreases modules.len(),
{
    if modules.len() == 0 {
        None
    } else if modules.last().id@ == x {
        Some(modules.last().runtime)
    } else {
        last_runtime(modules.drop_last(), x)
    }
}

/// The module's framework role is a server-action module.
pub open spec fn is_action_module(m: Module) -> bool {
    match m.framework_metadata.attributes.lookup("role"@) {
        Some(v) => v@ == "server-action-module"@,
        None => false,
    }
}

/// Some module record with id `x` is a server-action module.
pub open spec fn action_among(modules: Seq<Module>, x: Seq<char>) -> bool {
    exists|i: int| 0 <= i < modules.len() && modules[i].id@ == x && is_action_module(modules[i])
}

/// A module record of the project with id `x` is a server-action module.
pub open spec fn action_id(p: Project, x: Seq<char>) -> bool {
    action_among(p.modules@, x)
}

/// Some module of `v` has id `x`.
pub open spec fn holds_id(v: Seq<ModuleId>, x: Seq<char>) -> bool {
    exists|k: int| 0 <= k < v.len() && v[k]@ == x
}

/// The order in which runtime requirements are reported.
pub open spec fn requirement_rank(r: Runtime) -> int {
    match r {
        Runtime::Browser => 0,
        Runtime::Server => 1,
        Runtime::Edge => 2,
        Runtime::Node => 3,
        _ => 4,
    }
}

#[derive(Debug)]
pub struct RuntimeGraph {
    graph: ModuleGraph,
    runtimes: OrderedMap<ModuleId, Runtime>,
    rpc_boundaries: Vec<ModuleId>,
}

impl RuntimeGraph {
    /// The module graph underneath.
    pub closed spec fn graph(&self) -> ModuleGraph {
        self.graph
    }

    /// The runtime recorded for module `x`.
    pub closed spec fn runtime_view(&self, x: Seq<char>) -> Option<Runtime> {
        self.runtimes.lookup(x)
    }

    /// Module `x` is an RPC boundary.
    pub closed spec fn is_boundary(&self, x: Seq<char>) -> bool {
        holds_id(self.rpc_boundaries@, x)
    }

    /// `w` is a walk from `start` that enters no RPC boundary.
    pub open spec fn local_walk(&self, w: Seq<Seq<char>>, start: Seq<char>) -> bool {
        &&& self.graph().is_walk(w)
        &&& w[0] == start
        &&& forall|i: int| 1 <= i < w.len() ==> !self.is_boundary(#[trigger] w[i])
    }

    /// Module `x` runs in one of `targets`.
    pub open spec fn runs_in(&self, x: Seq<char>, targets: Seq<Runtime>) -> bool {
        match self.runtime_view(x) {
            Some(r) => targets.contains(r),
            None => false,
        }
    }

    /// `w` leads from `start`, without entering an RPC boundary, to a module in one of `targets`.
    pub open spec fn runtime_walk(&self, w: Seq<Seq<char>>, start: Seq<char>, targets: Seq<Runtime>) -> bool {
        self.local_walk(w, start) && self.runs_in(w.last(), targets)
    }

    /// `w` leads from `start`, without entering an RPC boundary, to one of `targets`.
    pub open spec fn target_walk(&self, w: Seq<Seq<char>>, start: Seq<char>, targets: Seq<Seq<char>>) -> bool {
        self.local_walk(w, start) && targets.contains(w.last())
    }

    /// The modules that run in one of `targets`.
    pub open spec fn runtime_goal(&self, targets: Seq<Runtime>) -> spec_fn(Seq<char>) -> bool {
        |x: Seq<char>| self.runs_in(x, targets)
    }

    /// The modules among `targets`.
    pub open spec fn target_goal(targets: Seq<Seq<char>>) -> spec_fn(Seq<char>) -> bool {
        |x: Seq<char>| targets.contains(x)
    }

    /// From `x` a walk of at most `d` edges, entering no RPC boundary, reaches a module in `goal`.
    pub open spec fn reaches_within(&self, x: Seq<char>, goal: spec_fn(Seq<char>) -> bool, d: int) -> bool {
        exists|w: Seq<Seq<char>>| #[trigger] self.local_walk(w, x) && goal(w.last()) && w.len() <= d + 1
    }

    /// `v` is the first of `u`'s imports, in edge order, that is no RPC boundary and from which a
    /// module in `goal` is at most `d` edges away.
    pub open spec fn first_local_step(&self, u: Seq<char>, v: Seq<char>, goal: spec_fn(Seq<char>) -> bool, d: int) -> bool {
        exists|k: int|
            0 <= k < self.graph().targets(u).len() && #[trigger] self.graph().targets(u)[k] == v && !self.is_boundary(v)
                && self.reaches_within(v, goal, d) && forall|j: int|
                0 <= j < k ==> !(!self.is_boundary(#[trigger] self.graph().targets(u)[j]) && self.reaches_within(
                    self.graph().targets(u)[j],
                    goal,
                    d,
                ))
    }

    /// `w` is the breadth-first walk from `start` to a module in `goal`: a shortest one that
    /// enters no RPC boundary and, at each step, goes to the first import still on a shortest way.
    pub open spec fn breadth_first_local(&self, w: Seq<Seq<char>>, start: Seq<char>, goal: spec_fn(Seq<char>) -> bool) -> bool {
        &&& self.local_walk(w, start)
        &&& goal(w.last())
        &&& forall|w2: Seq<Seq<char>>| #[trigger] self.local_walk(w2, start) && goal(w2.last()) ==> w.len() <= w2.len()
        &&& forall|i: int| 0 <= i < w.len() - 1 ==> self.first_local_step(#[trigger] w[i], w[i + 1], goal, w.len() - 2 - i)
    }

    /// From one start there is at most one breadth-first walk to a goal, so every function that
    /// reports one reports the same walk.
    pub proof fn lemma_breadth_first_local_unique(&self, w1: Seq<Seq<char>>, w2: Seq<Seq<char>>, start: Seq<char>, goal: spec_fn(Seq<char>) -> bool)
        requires
            self.breadth_first_local(w1, start, goal),
            self.breadth_first_local(w2, start, goal),
        ensures
            w1 == w2,
    {
        assert(w1.len() <= w2.len() && w2.len() <= w1.len());
        assert forall|i: int| 0 <= i < w1.len() implies w1[i] == w2[i] by {
            self.lemma_local_prefix(w1, w2, start, goal, i);
        }
        assert(w1 =~= w2);
    }

    proof fn lemma_local_prefix(&self, w1: Seq<Seq<char>>, w2: Seq<Seq<char>>, start: Seq<char>, goal: spec_fn(Seq<char>) -> bool, i: int)
        requires
            self.breadth_first_local(w1, start, goal),
            self.breadth_first_local(w2, start, goal),
            w1.len() == w2.len(),
            0 <= i < w1.len(),
        ensures
            w1[i] == w2[i],
        decreases i,
    {
        if i > 0 {
            self.lemma_local_prefix(w1, w2, start, goal, i - 1);
            let u = w1[i - 1];
            let d = w1.len() - 2 - (i - 1);
            let ts = self.graph().targets(u);
            assert(self.first_local_step(w1[i - 1], w1[i], goal, d));
            assert(self.first_local_step(w2[i - 1], w2[i], goal, d));
            let k1 = choose|k: int|
                0 <= k < ts.len() && #[trigger] ts[k] == w1[i] && !self.is_boundary(w1[i]) && self.reaches_within(w1[i], goal, d)
                    && forall|j: int| 0 <= j < k ==> !(!self.is_boundary(#[trigger] ts[j]) && self.reaches_within(ts[j], goal, d));
            let k2 = choose|k: int|
                0 <= k < ts.len() && #[trigger] ts[k] == w2[i] && !self.is_boundary(w2[i]) && self.reaches_within(w2[i], goal, d)
                    && forall|j: int| 0 <= j < k ==> !(!self.is_boundary(#[trigger] ts[j]) && self.reaches_within(ts[j], goal, d));
            if k1 < k2 {
                assert(!(!self.is_boundary(ts[k1]) && self.reaches_within(ts[k1], goal, d)));
            }
            if k2 < k1 {
                assert(!(!self.is_boundary(ts[k2]) && self.reaches_within(ts[k2], goal, d)));
            }
        }
    }

    /// The graph's breadth-first walk over masks that follow the boundaries and a goal is the
    /// breadth-first local walk to that goal.
    proof fn lemma_breadth_first_local(&self, w: Seq<Seq<char>>, start: Seq<char>, blocked: Seq<bool>, wanted: Seq<bool>, goal: spec_fn(Seq<char>) -> bool)
        requires
            blocked.len() == self.graph().ids().len(),
            wanted.len() == self.graph().ids().len(),
            forall|i: int| 0 <= i < blocked.len() ==> blocked[i] == self.is_boundary(#[trigger] self.graph().ids()[i]),
            forall|i: int| 0 <= i < wanted.len() ==> wanted[i] == goal(#[trigger] self.graph().ids()[i]),
            self.graph().breadth_first(w, start, blocked, wanted),
        ensures
            self.breadth_first_local(w, start, goal),
    {
        let g = self.graph();
        self.lemma_leads_to(start, blocked, wanted, goal, w);
        assert forall|w2: Seq<Seq<char>>| #[trigger] self.local_walk(w2, start) && goal(w2.last()) implies w.len() <= w2.len() by {
            self.lemma_leads_to(start, blocked, wanted, goal, w2);
        }
        assert forall|x: Seq<char>, d: int| g.leads_within(x, blocked, wanted, d) <==> #[trigger] self.reaches_within(x, goal, d) by {
            if g.leads_within(x, blocked, wanted, d) {
                let v = choose|v: Seq<Seq<char>>| #[trigger] g.leads_to(v, x, blocked, wanted) && v.len() <= d + 1;
                self.lemma_leads_to(x, blocked, wanted, goal, v);
            }
            if self.reaches_within(x, goal, d) {
                let v = choose|v: Seq<Seq<char>>| #[trigger] self.local_walk(v, x) && goal(v.last()) && v.len() <= d + 1;
                self.lemma_leads_to(x, blocked, wanted, goal, v);
            }
        }
        assert forall|x: Seq<char>| g.has_id(x) implies (g.marked(blocked, x) <==> #[trigger] self.is_boundary(x)) by {
            let j = choose|j: int| 0 <= j < g.ids().len() && g.ids()[j] == x;
            assert(blocked[j] == self.is_boundary(g.ids()[j]));
        }
        assert forall|i: int| 0 <= i < w.len() - 1 implies self.first_local_step(#[trigger] w[i], w[i + 1], goal, w.len() - 2 - i) by {
            let d = w.len() - 2 - i;
            let u = w[i];
            let ts = g.targets(u);
            assert(g.first_toward(w[i], w[i + 1], blocked, wanted, d));
            let k = choose|k: int|
                0 <= k < ts.len() && #[trigger] ts[k] == w[i + 1] && g.toward(w[i + 1], blocked, wanted, d)
                    && forall|j: int| 0 <= j < k ==> !g.toward(#[trigger] ts[j], blocked, wanted, d);
            let v = w[i + 1];
            let wv = choose|x: Seq<Seq<char>>| #[trigger] g.leads_to(x, v, blocked, wanted) && x.len() <= d + 1;
            assert(g.has_id(wv[0]));
            assert(self.reaches_within(v, goal, d));
            assert(!self.is_boundary(v));
            assert forall|j: int| 0 <= j < k implies !(!self.is_boundary(#[trigger] ts[j]) && self.reaches_within(ts[j], goal, d)) by {
                if !self.is_boundary(ts[j]) && self.reaches_within(ts[j], goal, d) {
                    let wj = choose|x: Seq<Seq<char>>| #[trigger] self.local_walk(x, ts[j]) && goal(x.last()) && x.len() <= d + 1;
                    assert(g.has_id(wj[0]));
                    assert(g.leads_within(ts[j], blocked, wanted, d));
                    assert(!g.toward(ts[j], blocked, wanted, d));
                }
            }
        }
    }

    pub fn from_project(project: &Project) -> (r: Self)
        ensures
            forall|x: Seq<char>| #[trigger] r.graph().has_id(x) <==> module_known(*project, x),
            forall|a: ArcView| #[trigger] r.graph().arcs().contains(a) <==> known_arc(*project, a),
            forall|i: int, j: int| 0 <= i < j < r.graph().ids().len() ==> text_lt(r.graph().ids()[i], r.graph().ids()[j]),
            forall|i: int, j: int| 0 <= i < j < r.graph().arcs().len() ==> arc_lt(r.graph().arcs()[i], r.graph().arcs()[j]),
            forall|x: Seq<char>| #[trigger] r.runtime_view(x) == last_runtime(project.modules@, x),
            forall|x: Seq<char>| #[trigger] r.is_boundary(x) <==> action_id(*project, x),
    {
        let graph = ModuleGraph::from_project(project);
        let mut runtimes: OrderedMap<ModuleId, Runtime> = OrderedMap::new();
        let mut rpc_boundaries: Vec<ModuleId> = Vec::new();
        let mut i: usize = 0;
        while i < project.modules.len()
            invariant
                i <= project.modules@.len(),
                forall|x: Seq<char>| #[trigger] runtimes.lookup(x) == last_runtime(project.modules@.take(i as int), x),
                forall|x: Seq<char>| #[trigger] holds_id(rpc_boundaries@, x) <==> action_among(project.modules@.take(i as int), x),
            decreases project.modules@.len() - i,
        {
            let module = &project.modules[i];
            let ghost before = project.modules@.take(i as int);
            proof {
                assert(project.modules@.take(i + 1).drop_last() =~= before);
            }
            runtimes.insert(module.id.duplicate(), module.runtime);
            let ghost rb0 = rpc_boundaries@;
            let action = match module.framework_metadata.attributes.get("role") {
                Some(role) => text_equal(role.as_str(), "server-action-module"),
                None => false,
            };
            if action {
                rpc_boundaries.push(module.id.duplicate());
            }
            proof {
                assert(action == is_action_module(*module));
                let after = project.modules@.take(i + 1);
                assert forall|x: Seq<char>| #[trigger] holds_id(rpc_boundaries@, x) <==> action_among(after, x) by {
                    if holds_id(rpc_boundaries@, x) {
                        let k = choose|k: int| 0 <= k < rpc_boundaries@.len() && rpc_boundaries@[k]@ == x;
                        if k < rb0.len() {
                            assert(rb0[k]@ == x);
                            assert(holds_id(rb0, x));
                            let m = choose|m: int| 0 <= m < before.len() && before[m].id@ == x && is_action_module(before[m]);
                            assert(after[m] == before[m]);
                        } else {
                            assert(action);
                            assert(after[i as int] == *module);
                            assert(after[i as int].id@ == x);
                        }
                    }
                    if action_among(after, x) {
                        let m = choose|m: int| 0 <= m < after.len() && after[m].id@ == x && is_action_module(after[m]);
                        if m < i {
                            assert(before[m] == after[m]);
                            assert(action_among(before, x));
                            assert(holds_id(rb0, x));
                            let k = choose|k: int| 0 <= k < rb0.len() && rb0[k]@ == x;
                            assert(rpc_boundaries@[k]@ == x);
                        } else {
                            assert(after[i as int] == *module);
                            assert(action);
                            assert(rpc_boundaries@[rb0.len() as int]@ == x);
                        }
                    }
                }
            }
            i = i + 1;
        }
        proof {
            assert(project.modules@.take(project.modules@.len() as int) =~= project.modules@);
        }
        RuntimeGraph { graph, runtimes, rpc_boundaries }
    }

    /// The runtime recorded for a module.
    pub fn runtime_of(&self, module: &ModuleId) -> (r: Option<Runtime>)
        ensures
            r == self.runtime_view(module@),
    {
        match self.runtimes.get(module.0.as_str()) {
            Some(runtime) => Some(*runtime),
            None => None,
        }
    }

    fn boundary(&self, module: &ModuleId) -> (r: bool)
        ensures
            r == self.is_boundary(module@),
    {
        let mut k: usize = 0;
        while k < self.rpc_boundaries.len()
            invariant
                k <= self.rpc_boundaries@.len(),
                forall|m: int| 0 <= m < k ==> self.rpc_boundaries@[m]@ != module@,
            decreases self.rpc_boundaries@.len() - k,
        {
            if text_equal(self.rpc_boundaries[k].0.as_str(), module.0.as_str()) {
                return true;
            }
            k = k + 1;
        }
        false
    }

    /// The boundary mask over the graph's node positions.
    fn boundary_mask(&self) -> (r: Vec<bool>)
        ensures
            r@.len() == self.graph().ids().len(),
            forall|i: int| 0 <= i < r@.len() ==> r@[i] == self.is_boundary(#[trigger] self.graph().ids()[i]),
    {
        let nodes = self.graph.nodes();
        let mut mask: Vec<bool> = Vec::new();
        let mut i: usize = 0;
        while i < nodes.len()
            invariant
                ids_of(nodes@) == self.graph().ids(),
                i <= nodes@.len(),
                mask@.len() == i,
                forall|k: int| 0 <= k < i ==> mask@[k] == self.is_boundary(#[trigger] self.graph().ids()[k]),
            decreases nodes@.len() - i,
        {
            let b = self.boundary(&nodes[i]);
            proof {
                assert(self.graph().ids()[i as int] == nodes@[i as int]@);
            }
            mask.push(b);
            i = i + 1;
        }
        mask
    }

    /// Masks that follow predicates on the node ids turn the graph's search into one over
    /// local walks.
    proof fn lemma_leads_to(&self, start: Seq<char>, blocked: Seq<bool>, wanted: Seq<bool>, want: spec_fn(Seq<char>) -> bool, w: Seq<Seq<char>>)
        requires
            blocked.len() == self.graph().ids().len(),
            wanted.len() == self.graph().ids().len(),
            forall|i: int| 0 <= i < blocked.len() ==> blocked[i] == self.is_boundary(#[trigger] self.graph().ids()[i]),
            forall|i: int| 0 <= i < wanted.len() ==> wanted[i] == want(#[trigger] self.graph().ids()[i]),
        ensures
            self.graph().leads_to(w, start, blocked, wanted) <==> (self.local_walk(w, start) && want(w.last())),
    {
        let g = self.graph();
        if g.is_walk(w) {
            assert forall|i: int| 1 <= i < w.len() implies (g.marked(blocked, #[trigger] w[i]) <==> self.is_boundary(w[i])) by {
                assert(g.has_id(w[i]));
                let j = choose|j: int| 0 <= j < g.ids().len() && g.ids()[j] == w[i];
                assert(blocked[j] == self.is_boundary(g.ids()[j]));
            }
            assert(g.has_id(w[w.len() - 1]));
            assert(w.last() == w[w.len() - 1]);
            let j = choose|j: int| 0 <= j < g.ids().len() && g.ids()[j] == w.last();
            assert(wanted[j] == want(g.ids()[j]));
        }
    }

    /// A shortest walk from `start`, entering no RPC boundary, to a module that runs in one of
    /// `targets`: the first such module in breadth-first order.
    pub fn shortest_path_to_runtime(&self, start: &ModuleId, targets: &[Runtime]) -> (r: Option<Vec<ModuleId>>)
        ensures
            r is Some <==> exists|w: Seq<Seq<char>>| #[trigger] self.runtime_walk(w, start@, targets@),
            r matches Some(p) ==> {
                &&& self.runtime_walk(ids_of(p@), start@, targets@)
                &&& forall|w: Seq<Seq<char>>| #[trigger] self.runtime_walk(w, start@, targets@) ==> p@.len() <= w.len()
                &&& self.breadth_first_local(ids_of(p@), start@, self.runtime_goal(targets@))
            },
    {
        let blocked = self.boundary_mask();
        let nodes = self.graph.nodes();
        let mut wanted: Vec<bool> = Vec::new();
        let mut i: usize = 0;
        while i < nodes.len()
            invariant
                ids_of(nodes@) == self.graph().ids(),
                i <= nodes@.len(),
                wanted@.len() == i,
                forall|k: int| 0 <= k < i ==> wanted@[k] == self.runs_in(#[trigger] self.graph().ids()[k], targets@),
            decreases nodes@.len() - i,
        {
            let hit = match self.runtime_of(&nodes[i]) {
                Some(runtime) => {
                    let mut found = false;
                    let mut t: usize = 0;
                    while t < targets.len()
                        invariant
                            t <= targets@.len(),
                            found <==> exists|m: int| 0 <= m < t && targets@[m] == runtime,
                        decreases targets@.len() - t,
                    {
                        if targets[t] == runtime {
                            found = true;
                        }
                        t = t + 1;
                    }
                    found
                },
                None => false,
            };
            proof {
                assert(self.graph().ids()[i as int] == nodes@[i as int]@);
            }
            wanted.push(hit);
            i = i + 1;
        }
        let r = self.graph.nearest(start, &blocked, &wanted);
        proof {
            let want = self.runtime_goal(targets@);
            assert forall|w: Seq<Seq<char>>|
                #![trigger self.graph().leads_to(w, start@, blocked@, wanted@)]
                #![trigger self.runtime_walk(w, start@, targets@)]
                self.graph().leads_to(w, start@, blocked@, wanted@) <==> self.runtime_walk(w, start@, targets@) by {
                self.lemma_leads_to(start@, blocked@, wanted@, want, w);
            }
            if r is Some {
                self.lemma_breadth_first_local(ids_of((r->0)@), start@, blocked@, wanted@, want);
            }
        }
        r
    }

    /// A shortest walk from `start`, entering no RPC boundary, to one of `targets`: the first
    /// such module in breadth-first order.
    pub fn shortest_path_to_any(&self, start: &ModuleId, targets: &[ModuleId]) -> (r: Option<Vec<ModuleId>>)
        ensures
            r is Some <==> exists|w: Seq<Seq<char>>| #[trigger] self.target_walk(w, start@, ids_of(targets@)),
            r matches Some(p) ==> {
                &&& self.target_walk(ids_of(p@), start@, ids_of(targets@))
                &&& forall|w: Seq<Seq<char>>| #[trigger] self.target_walk(w, start@, ids_of(targets@)) ==> p@.len() <= w.len()
                &&& self.breadth_first_local(ids_of(p@), start@, Self::target_goal(ids_of(targets@)))
            },
    {
        let blocked = self.boundary_mask();
        let nodes = self.graph.nodes();
        let ghost tids = ids_of(targets@);
        let mut wanted: Vec<bool> = Vec::new();
        let mut i: usize = 0;
        while i < nodes.len()
            invariant
                ids_of(nodes@) == self.graph().ids(),
                tids == ids_of(targets@),
                i <= nodes@.len(),
                wanted@.len() == i,
                forall|k: int| 0 <= k < i ==> wanted@[k] == tids.contains(#[trigger] self.graph().ids()[k]),
            decreases nodes@.len() - i,
        {
            let mut found = false;
            let mut t: usize = 0;
            while t < targets.len()
                invariant
                    tids == ids_of(targets@),
                    i < nodes@.len(),
                    t <= targets@.len(),
                    found <==> exists|m: int| 0 <= m < t && targets@[m]@ == nodes@[i as int]@,
                decreases targets@.len() - t,
            {
                if text_equal(targets[t].0.as_str(), nodes[i].0.as_str()) {
                    found = true;
                }
                t = t + 1;
            }
            proof {
                assert(self.graph().ids()[i as int] == nodes@[i as int]@);
                if found {
                    let m = choose|m: int| 0 <= m < targets@.len() && targets@[m]@ == nodes@[i as int]@;
                    assert(tids[m] == nodes@[i as int]@);
                }
                if tids.contains(nodes@[i as int]@) {
                    let m = choose|m: int| 0 <= m < tids.len() && tids[m] == nodes@[i as int]@;
                    assert(targets@[m]@ == nodes@[i as int]@);
                }
            }
            wanted.push(found);
            i = i + 1;
        }
        let r = self.graph.nearest(start, &blocked, &wanted);
        proof {
            let want = Self::target_goal(tids);
            assert forall|w: Seq<Seq<char>>|
                #![trigger self.graph().leads_to(w, start@, blocked@, wanted@)]
                #![trigger self.target_walk(w, start@, tids)]
                self.graph().leads_to(w, start@, blocked@, wanted@) <==> self.target_walk(w, start@, tids) by {
                self.lemma_leads_to(start@, blocked@, wanted@, want, w);
            }
            if r is Some {
                self.lemma_breadth_first_local(ids_of((r->0)@), start@, blocked@, wanted@, want);
            }
        }
        r
    }

    /// For Browser, Server, Edge and Node in that order, each runtime that `start` reaches
    /// without crossing an RPC boundary, with a shortest explaining walk.
    pub fn requirements(&self, start: &ModuleId) -> (r: Vec<RuntimeRequirement>)
        ensures
            forall|i: int| 0 <= i < r@.len() ==> {
                &&& requirement_rank(#[trigger] r@[i].runtime) < 4
                &&& self.runtime_walk(ids_of(r@[i].path@), start@, seq![r@[i].runtime])
                &&& forall|w: Seq<Seq<char>>| #[trigger] self.runtime_walk(w, start@, seq![r@[i].runtime]) ==> r@[i].path@.len() <= w.len()
                &&& self.breadth_first_local(ids_of(r@[i].path@), start@, self.runtime_goal(seq![r@[i].runtime]))
            },
            forall|i: int, j: int| 0 <= i < j < r@.len() ==> requirement_rank(r@[i].runtime) < requirement_rank(r@[j].runtime),
            forall|rt: Runtime| requirement_rank(rt) < 4 ==> ((exists|i: int| 0 <= i < r@.len() && r@[i].runtime == rt)
                <==> exists|w: Seq<Seq<char>>| #[trigger] self.runtime_walk(w, start@, seq![rt])),
    {
        let order = vec![Runtime::Browser, Runtime::Server, Runtime::Edge, Runtime::Node];
        let mut out: Vec<RuntimeRequirement> = Vec::new();
        let mut k: usize = 0;
        while k < order.len()
            invariant
                order@ == seq![Runtime::Browser, Runtime::Server, Runtime::Edge, Runtime::Node],
                k <= 4,
                forall|i: int| 0 <= i < out@.len() ==> {
                    &&& requirement_rank(#[trigger] out@[i].runtime) < k
                    &&& self.runtime_walk(ids_of(out@[i].path@), start@, seq![out@[i].runtime])
                    &&& forall|w: Seq<Seq<char>>| #[trigger] self.runtime_walk(w, start@, seq![out@[i].runtime]) ==> out@[i].path@.len() <= w.len()
                    &&& self.breadth_first_local(ids_of(out@[i].path@), start@, self.runtime_goal(seq![out@[i].runtime]))
                },
                forall|i: int, j: int| 0 <= i < j < out@.len() ==> requirement_rank(out@[i].runtime) < requirement_rank(out@[j].runtime),
                forall|rt: Runtime| requirement_rank(rt) < k ==> ((exists|i: int| 0 <= i < out@.len() && out@[i].runtime == rt)
                    <==> exists|w: Seq<Seq<char>>| #[trigger] self.runtime_walk(w, start@, seq![rt])),
            decreases 4 - k,
        {
            let runtime = order[k];
            proof {
                assert(requirement_rank(runtime) == k);
            }
            let targets = vec![runtime];
            let ghost out0 = out@;
            match self.shortest_path_to_runtime(start, targets.as_slice()) {
                Some(path) => {
                    out.push(RuntimeRequirement { runtime, path });
                    proof {
                        assert forall|i: int| 0 <= i < out@.len() implies {
                            &&& requirement_rank(#[trigger] out@[i].runtime) < k + 1
                            &&& self.runtime_walk(ids_of(out@[i].path@), start@, seq![out@[i].runtime])
                            &&& forall|w: Seq<Seq<char>>| #[trigger] self.runtime_walk(w, start@, seq![out@[i].runtime]) ==> out@[i].path@.len() <= w.len()
                            &&& self.breadth_first_local(ids_of(out@[i].path@), start@, self.runtime_goal(seq![out@[i].runtime]))
                        } by {
                            if i < out0.len() {
                                assert(out@[i] == out0[i]);
                            } else {
                                assert(targets@ == seq![runtime]);
                            }
                        }
                        assert forall|rt: Runtime| requirement_rank(rt) < k + 1 implies ((exists|i: int| 0 <= i < out@.len() && out@[i].runtime == rt)
                            <==> exists|w: Seq<Seq<char>>| #[trigger] self.runtime_walk(w, start@, seq![rt])) by {
                            if requirement_rank(rt) == k {
                                assert(rt == runtime);
                                assert(out@[out0.len() as int].runtime == rt);
                                assert(targets@ == seq![runtime]);
                            } else {
                                if exists|i: int| 0 <= i < out@.len() && out@[i].runtime == rt {
                                    let i = choose|i: int| 0 <= i < out@.len() && out@[i].runtime == rt;
                                    if i < out0.len() {
                                        assert(out0[i].runtime == rt);
                                    }
                                }
                                if exists|i: int| 0 <= i < out0.len() && out0[i].runtime == rt {
                                    let i = choose|i: int| 0 <= i < out0.len() && out0[i].runtime == rt;
                                    assert(out@[i].runtime == rt);
                                }
                            }
                        }
                    }
                },
                None => {
                    proof {
                        assert forall|rt: Runtime| requirement_rank(rt) < k + 1 implies ((exists|i: int| 0 <= i < out@.len() && out@[i].runtime == rt)
                            <==> exists|w: Seq<Seq<char>>| #[trigger] self.runtime_walk(w, start@, seq![rt])) by {
                            if requirement_rank(rt) == k {
                                assert(rt == runtime);
                                assert(targets@ == seq![runtime]);
                                if exists|i: int| 0 <= i < out@.len() && out@[i].runtime == rt {
                                    let i = choose|i: int| 0 <= i < out@.len() && out@[i].runtime == rt;
                                    assert(requirement_rank(out@[i].runtime) < k);
                                }
                            }
                        }
                    }
                },
            }
            k = k + 1;
        }
        out
    }

    /// No module of `c` is an RPC boundary.
    pub open spec fn boundary_free(&self, c: Seq<ModuleId>) -> bool {
        forall|i: int| 0 <= i < c.len() ==> !self.is_boundary(#[trigger] c[i]@)
    }

    /// `r` is `all` without its walks that pass through an RPC boundary, in the same order.
    pub open spec fn keeps_boundary_free(&self, all: Seq<Vec<ModuleId>>, r: Seq<Vec<ModuleId>>) -> bool {
        exists|idx: Seq<int>| {
            &&& #[trigger] idx.len() == r.len()
            &&& forall|d: int| 0 <= d < idx.len() ==> 0 <= #[trigger] idx[d] < all.len() && ids_of(r[d]@) == ids_of(all[idx[d]]@)
            &&& forall|d1: int, d2: int| 0 <= d1 < d2 < idx.len() ==> idx[d1] < idx[d2]
            &&& forall|e: int| 0 <= e < all.len() ==> (#[trigger] self.boundary_free(all[e]@) <==> exists|d: int|
                0 <= d < idx.len() && idx[d] == e)
        }
    }

    /// The module graph's cycles (one closed walk for each component that holds a cycle) that
    /// pass through no RPC boundary, in the module graph's order.
    pub fn cycles(&self) -> (r: Vec<Vec<ModuleId>>)
        ensures
            exists|all: Seq<Vec<ModuleId>>| #[trigger] self.graph().cycle_cover(all) && self.keeps_boundary_free(all, r@)
                && exists|parts: Seq<Seq<Seq<char>>>| self.graph().components_are(parts) && #[trigger] self.graph().represents(
                    parts,
                    walk_ids(all),
                ),
            forall|c: int| 0 <= c < r@.len() ==> {
                &&& (#[trigger] r@[c])@.len() >= 2
                &&& self.graph().is_walk(ids_of(r@[c]@))
                &&& r@[c]@[0]@ == r@[c]@.last()@
                &&& forall|i: int| 0 <= i < r@[c]@.len() ==> !self.is_boundary(#[trigger] r@[c]@[i]@)
            },
    {
        let all = self.graph.cycles();
        let mut out: Vec<Vec<ModuleId>> = Vec::new();
        let ghost mut idx: Seq<int> = Seq::empty();
        let mut c: usize = 0;
        while c < all.len()
            invariant
                c <= all@.len(),
                idx.len() == out@.len(),
                forall|d: int| 0 <= d < idx.len() ==> 0 <= #[trigger] idx[d] < c && ids_of(out@[d]@) == ids_of(all@[idx[d]]@),
                forall|d1: int, d2: int| 0 <= d1 < d2 < idx.len() ==> idx[d1] < idx[d2],
                forall|e: int| 0 <= e < c ==> (#[trigger] self.boundary_free(all@[e]@) <==> exists|d: int|
                    0 <= d < idx.len() && idx[d] == e),
                forall|d: int| 0 <= d < all@.len() ==> {
                    &&& (#[trigger] all@[d])@.len() >= 2
                    &&& self.graph().is_walk(ids_of(all@[d]@))
                    &&& all@[d]@[0]@ == all@[d]@.last()@
                },
                forall|d: int| 0 <= d < out@.len() ==> {
                    &&& (#[trigger] out@[d])@.len() >= 2
                    &&& self.graph().is_walk(ids_of(out@[d]@))
                    &&& out@[d]@[0]@ == out@[d]@.last()@
                    &&& forall|i: int| 0 <= i < out@[d]@.len() ==> !self.is_boundary(#[trigger] out@[d]@[i]@)
                },
            decreases all@.len() - c,
        {
            let cycle = &all[c];
            let mut crosses = false;
            let mut i: usize = 0;
            while i < cycle.len()
                invariant
                    i <= cycle@.len(),
                    crosses <==> exists|m: int| 0 <= m < i && self.is_boundary(cycle@[m]@),
                    cycle == all@[c as int],
                decreases cycle@.len() - i,
            {
                if self.boundary(&cycle[i]) {
                    crosses = true;
                }
                i = i + 1;
            }
            proof {
                if crosses {
                    let m = choose|m: int| 0 <= m < cycle@.len() && self.is_boundary(cycle@[m]@);
                    assert(!self.boundary_free(all@[c as int]@));
                } else {
                    assert(self.boundary_free(all@[c as int]@));
                }
            }
            if !crosses {
                let ghost out0 = out@;
                let ghost idx0 = idx;
                let copy = duplicate_all(cycle);
                out.push(copy);
                proof {
                    idx = idx.push(c as int);
                    assert forall|d: int| 0 <= d < idx.len() implies 0 <= #[trigger] idx[d] < c + 1 && ids_of(out@[d]@) == ids_of(all@[idx[d]]@) by {
                        if d < idx0.len() {
                            assert(out@[d] == out0[d]);
                        }
                    }
                    assert forall|e: int| 0 <= e < c + 1 implies (#[trigger] self.boundary_free(all@[e]@) <==> exists|d: int|
                        0 <= d < idx.len() && idx[d] == e) by {
                        if e < c {
                            if exists|d: int| 0 <= d < idx0.len() && idx0[d] == e {
                                let d = choose|d: int| 0 <= d < idx0.len() && idx0[d] == e;
                                assert(idx[d] == e);
                            }
                            if exists|d: int| 0 <= d < idx.len() && idx[d] == e {
                                let d = choose|d: int| 0 <= d < idx.len() && idx[d] == e;
                                assert(d < idx0.len());
                            }
                        } else {
                            assert(idx[idx0.len() as int] == e);
                        }
                    }
                    assert forall|d: int| 0 <= d < out@.len() implies {
                        &&& (#[trigger] out@[d])@.len() >= 2
                        &&& self.graph().is_walk(ids_of(out@[d]@))
                        &&& out@[d]@[0]@ == out@[d]@.last()@
                        &&& forall|i: int| 0 <= i < out@[d]@.len() ==> !self.is_boundary(#[trigger] out@[d]@[i]@)
                    } by {
                        if d < out0.len() {
                            assert(out@[d] == out0[d]);
                        } else {
                            let cy = all@[c as int]@;
                            assert(ids_of(out@[d]@) == ids_of(cy));
                            assert(out@[d]@.len() == cy.len());
                            assert(ids_of(cy)[0] == cy[0]@);
                            assert(ids_of(out@[d]@)[0] == out@[d]@[0]@);
                            assert(ids_of(cy)[cy.len() - 1] == cy[cy.len() - 1]@);
                            assert(ids_of(out@[d]@)[cy.len() - 1] == out@[d]@[cy.len() - 1]@);
                            assert(cy.last() == cy[cy.len() - 1]);
                            assert forall|i: int| 0 <= i < out@[d]@.len() implies !self.is_boundary(#[trigger] out@[d]@[i]@) by {
                                assert(ids_of(out@[d]@)[i] == ids_of(cy)[i]);
                                assert(ids_of(cy)[i] == cy[i]@);
                                assert(!self.is_boundary(cy[i]@));
                            }
                        }
                    }
                }
            }
            else {
                proof {
                    assert forall|e: int| 0 <= e < c + 1 implies (#[trigger] self.boundary_free(all@[e]@) <==> exists|d: int|
                        0 <= d < idx.len() && idx[d] == e) by {
                        if e == c {
                            assert(!self.boundary_free(all@[e]@));
                        }
                    }
                }
            }
            c = c + 1;
        }
        proof {
            assert(self.graph().cycle_cover(all@));
            assert(self.keeps_boundary_free(all@, out@));
        }
        out
    }
}

} // verus!
