//! The regions of a project that an edit can affect, for rules that look at single edges.
use crate::diagnostic::Diagnostic;
use crate::domain::{Dependency, ModuleId, Project};
use crate::module_graph::ids_of;
use crate::text::{has_prefix, strip_prefix, text_equal};
use crate::text_set::texts_of;
use vstd::prelude::*;

verus! {

/// Some module of `v` has id `x`.
pub open spec fn names(v: Seq<ModuleId>, x: Seq<char>) -> bool {
    ids_of(v).contains(x)
}

/// A dependency touches a module of `seeds`.
pub open spec fn incident(d: Dependency, seeds: Seq<ModuleId>) -> bool {
    names(seeds, d.from@) || names(seeds, d.to@)
}

/// The affected region: the seeds, and both ends of every dependency that touches a seed.
pub open spec fn in_edge_region(seeds: Seq<ModuleId>, dependencies: Seq<Dependency>, x: Seq<char>) -> bool {
    ||| names(seeds, x)
    ||| exists|k: int| 0 <= k < dependencies.len() && incident(#[trigger] dependencies[k], seeds)
            && (dependencies[k].from@ == x || dependencies[k].to@ == x)
}

/// Whether a module with id `x` is among `v`.
pub fn holds_module(v: &Vec<ModuleId>, x: &ModuleId) -> (r: bool)
    ensures
        r == names(v@, x@),
{
    let mut i: usize = 0;
    while i < v.len()
        invariant
            i <= v@.len(),
            forall|k: int| 0 <= k < i ==> v@[k]@ != x@,
        decreases v@.len() - i,
    {
        if text_equal(v[i].0.as_str(), x.0.as_str()) {
            proof {
                assert(ids_of(v@)[i as int] == x@);
            }
            return true;
        }
        i = i + 1;
    }
    proof {
        if names(v@, x@) {
            let k = choose|k: int| 0 <= k < ids_of(v@).len() && ids_of(v@)[k] == x@;
            assert(v@[k]@ == x@);
        }
    }
    false
}

/// Adds a module unless one with its id is there.
fn add_module(v: &mut Vec<ModuleId>, x: &ModuleId)
    ensures
        forall|y: Seq<char>| #[trigger] names(final(v)@, y) <==> (names(old(v)@, y) || y == x@),
        (forall|i: int, j: int| 0 <= i < j < old(v)@.len() ==> old(v)@[i]@ != old(v)@[j]@) ==> (forall|i: int, j: int|
            0 <= i < j < final(v)@.len() ==> final(v)@[i]@ != final(v)@[j]@),
{
    if holds_module(v, x) {
        return;
    }
    let ghost before = v@;
    v.push(x.duplicate());
    proof {
        assert forall|y: Seq<char>| #[trigger] names(v@, y) <==> (names(before, y) || y == x@) by {
            if names(v@, y) {
                let k = choose|k: int| 0 <= k < ids_of(v@).len() && ids_of(v@)[k] == y;
                if k < before.len() {
                    assert(ids_of(before)[k] == y);
                }
            }
            if names(before, y) {
                let k = choose|k: int| 0 <= k < ids_of(before).len() && ids_of(before)[k] == y;
                assert(ids_of(v@)[k] == y);
            }
            if y == x@ {
                assert(ids_of(v@)[before.len() as int] == y);
            }
        }
        assert forall|i: int, j: int| 0 <= i < j < v@.len() && (forall|a: int, b: int| 0 <= a < b < before.len() ==> before[a]@ != before[b]@) implies v@[i]@ != v@[j]@ by {
            if j == before.len() {
                assert(ids_of(before)[i] == before[i]@);
                assert(ids_of(before).contains(before[i]@));
            } else {
                assert(v@[i] == before[i] && v@[j] == before[j]);
            }
        }
    }
}

/// The smallest conservative region needed by edge-local rules: the seeds (reparsed modules and
/// the endpoints of their previous dependencies) plus the opposite endpoint of every current
/// edge that touches a seed. Each module appears once.
pub fn edge_affected_region(seeds: Vec<ModuleId>, dependencies: &[Dependency]) -> (r: Vec<ModuleId>)
    ensures
        forall|x: Seq<char>| #[trigger] names(r@, x) <==> in_edge_region(seeds@, dependencies@, x),
        forall|i: int, j: int| 0 <= i < j < r@.len() ==> r@[i]@ != r@[j]@,
{
    let mut affected: Vec<ModuleId> = Vec::new();
    let mut i: usize = 0;
    while i < seeds.len()
        invariant
            i <= seeds@.len(),
            forall|x: Seq<char>| #[trigger] names(affected@, x) <==> names(seeds@.take(i as int), x),
            forall|a: int, b: int| 0 <= a < b < affected@.len() ==> affected@[a]@ != affected@[b]@,
        decreases seeds@.len() - i,
    {
        let ghost before = affected@;
        add_module(&mut affected, &seeds[i]);
        proof {
            let t0 = seeds@.take(i as int);
            let t1 = seeds@.take(i + 1);
            assert(t1 =~= t0.push(seeds@[i as int]));
            assert forall|x: Seq<char>| #[trigger] names(affected@, x) <==> names(t1, x) by {
                assert(names(before, x) <==> names(t0, x));
                if names(t1, x) {
                    let k = choose|k: int| 0 <= k < ids_of(t1).len() && ids_of(t1)[k] == x;
                    if k < t0.len() {
                        assert(ids_of(t0)[k] == x);
                    }
                }
                if names(t0, x) {
                    let k = choose|k: int| 0 <= k < ids_of(t0).len() && ids_of(t0)[k] == x;
                    assert(ids_of(t1)[k] == x);
                }
                if x == seeds@[i as int]@ {
                    assert(ids_of(t1)[i as int] == x);
                }
            }
        }
        i = i + 1;
    }
    proof {
        assert(seeds@.take(i as int) =~= seeds@);
    }
    let mut k: usize = 0;
    while k < dependencies.len()
        invariant
            k <= dependencies@.len(),
            forall|x: Seq<char>| #[trigger] names(affected@, x) <==> (names(seeds@, x) || exists|m: int|
                0 <= m < k && incident(#[trigger] dependencies@[m], seeds@) && (dependencies@[m].from@ == x
                    || dependencies@[m].to@ == x)),
            forall|a: int, b: int| 0 <= a < b < affected@.len() ==> affected@[a]@ != affected@[b]@,
        decreases dependencies@.len() - k,
    {
        let dependency = &dependencies[k];
        let ghost before = affected@;
        if holds_module(&seeds, &dependency.from) || holds_module(&seeds, &dependency.to) {
            add_module(&mut affected, &dependency.from);
            let ghost middle = affected@;
            add_module(&mut affected, &dependency.to);
            proof {
                assert forall|x: Seq<char>| #[trigger] names(affected@, x) <==> (names(seeds@, x) || exists|m: int|
                    0 <= m < k + 1 && incident(#[trigger] dependencies@[m], seeds@) && (dependencies@[m].from@ == x
                        || dependencies@[m].to@ == x)) by {
                    assert(names(before, x) <==> (names(seeds@, x) || exists|m: int|
                        0 <= m < k && incident(#[trigger] dependencies@[m], seeds@) && (dependencies@[m].from@ == x
                            || dependencies@[m].to@ == x)));
                    assert(names(middle, x) <==> (names(before, x) || x == dependency.from@));
                    if x == dependency.from@ || x == dependency.to@ {
                        assert(incident(dependencies@[k as int], seeds@));
                    }
                }
            }
        } else {
            proof {
                assert forall|x: Seq<char>| #[trigger] names(affected@, x) <==> (names(seeds@, x) || exists|m: int|
                    0 <= m < k + 1 && incident(#[trigger] dependencies@[m], seeds@) && (dependencies@[m].from@ == x
                        || dependencies@[m].to@ == x)) by {
                    assert(names(before, x) <==> (names(seeds@, x) || exists|m: int|
                        0 <= m < k && incident(#[trigger] dependencies@[m], seeds@) && (dependencies@[m].from@ == x
                            || dependencies@[m].to@ == x)));
                    assert(!incident(dependencies@[k as int], seeds@));
                }
            }
        }
        k = k + 1;
    }
    affected
}

/// The package names of the project's modules that `affected` names.
pub open spec fn affected_package(project: Project, affected: Seq<ModuleId>, p: Seq<char>) -> bool {
    exists|i: int| 0 <= i < project.modules@.len() && names(affected, #[trigger] project.modules@[i].id@)
        && project.modules@[i].package@ == p
}

/// A cached diagnostic belongs to the affected region: a module on its dependency path or its
/// primary file is affected, or its path names (as `package:<name>`) the package of an affected
/// module.
pub open spec fn touches_region(d: Diagnostic, affected: Seq<ModuleId>, project: Project) -> bool {
    ||| exists|i: int| 0 <= i < d.dependency_path@.len() && names(affected, #[trigger] d.dependency_path@[i]@)
    ||| (d.primary_location matches Some(l) && names(affected, l.file@))
    ||| exists|i: int| 0 <= i < d.dependency_path@.len() && has_prefix(#[trigger] d.dependency_path@[i]@, "package:"@)
            && affected_package(project, affected, d.dependency_path@[i]@.skip("package:"@.len() as int))
}

/// Whether a previously cached diagnostic belongs to an affected edge/package region.
/// Diagnostics outside this region are safe to retain when an edge-local rule is reevaluated.
pub fn diagnostic_touches_region(diagnostic: &Diagnostic, affected_modules: &Vec<ModuleId>, project: &Project) -> (r: bool)
    ensures
        r == touches_region(*diagnostic, affected_modules@, *project),
{
    let mut i: usize = 0;
    while i < diagnostic.dependency_path.len()
        invariant
            i <= diagnostic.dependency_path@.len(),
            forall|k: int| 0 <= k < i ==> !names(affected_modules@, #[trigger] diagnostic.dependency_path@[k]@),
        decreases diagnostic.dependency_path@.len() - i,
    {
        if holds_module(affected_modules, &diagnostic.dependency_path[i]) {
            proof {
                assert(names(affected_modules@, diagnostic.dependency_path@[i as int]@));
                assert(touches_region(*diagnostic, affected_modules@, *project));
            }
            return true;
        }
        i = i + 1;
    }
    match &diagnostic.primary_location {
        Some(location) => {
            let id = ModuleId(location.file.clone());
            if holds_module(affected_modules, &id) {
                proof {
                    assert(id@ == location.file@);
                }
                return true;
            }
        },
        None => {},
    }
    let mut packages: Vec<String> = Vec::new();
    let mut m: usize = 0;
    while m < project.modules.len()
        invariant
            m <= project.modules@.len(),
            forall|p: Seq<char>| #[trigger] texts_of(packages@).contains(p) <==> exists|j: int|
                0 <= j < m && names(affected_modules@, #[trigger] project.modules@[j].id@)
                    && project.modules@[j].package@ == p,
        decreases project.modules@.len() - m,
    {
        let module = &project.modules[m];
        let ghost before = packages@;
        if holds_module(affected_modules, &module.id) {
            packages.push(module.package.0.clone());
        }
        proof {
            assert forall|p: Seq<char>| #[trigger] texts_of(packages@).contains(p) <==> exists|j: int|
                0 <= j < m + 1 && names(affected_modules@, #[trigger] project.modules@[j].id@)
                    && project.modules@[j].package@ == p by {
                let bv = texts_of(before);
                let av = texts_of(packages@);
                assert(bv.contains(p) <==> exists|j: int|
                    0 <= j < m && names(affected_modules@, #[trigger] project.modules@[j].id@)
                        && project.modules@[j].package@ == p);
                if av.contains(p) {
                    let k = choose|k: int| 0 <= k < av.len() && av[k] == p;
                    if k < bv.len() {
                        assert(bv[k] == p);
                    } else {
                        assert(project.modules@[m as int].package@ == p);
                    }
                }
                if exists|j: int| 0 <= j < m + 1 && names(affected_modules@, #[trigger] project.modules@[j].id@)
                    && project.modules@[j].package@ == p {
                    let j = choose|j: int| 0 <= j < m + 1 && names(affected_modules@, #[trigger] project.modules@[j].id@)
                        && project.modules@[j].package@ == p;
                    if j < m {
                        let k = choose|k: int| 0 <= k < bv.len() && bv[k] == p;
                        assert(av[k] == p);
                    } else {
                        assert(av[bv.len() as int] == p);
                    }
                }
            }
        }
        m = m + 1;
    }
    let mut k: usize = 0;
    while k < diagnostic.dependency_path.len()
        invariant
            k <= diagnostic.dependency_path@.len(),
            forall|p: Seq<char>| #[trigger] texts_of(packages@).contains(p) <==> affected_package(
                *project,
                affected_modules@,
                p,
            ),
            forall|q: int| 0 <= q < k ==> !(has_prefix(#[trigger] diagnostic.dependency_path@[q]@, "package:"@) && affected_package(
                *project,
                affected_modules@,
                diagnostic.dependency_path@[q]@.skip("package:"@.len() as int),
            )),
        decreases diagnostic.dependency_path@.len() - k,
    {
        match strip_prefix(diagnostic.dependency_path[k].0.as_str(), "package:") {
            Some(name) => {
                let mut n: usize = 0;
                while n < packages.len()
                    invariant
                        n <= packages@.len(),
                        k < diagnostic.dependency_path@.len(),
                        has_prefix(diagnostic.dependency_path@[k as int]@, "package:"@),
                        name@ == diagnostic.dependency_path@[k as int]@.skip("package:"@.len() as int),
                        forall|p: Seq<char>| #[trigger] texts_of(packages@).contains(p) <==> affected_package(
                            *project,
                            affected_modules@,
                            p,
                        ),
                        forall|q: int| 0 <= q < n ==> packages@[q]@ != name@,
                    decreases packages@.len() - n,
                {
                    if text_equal(packages[n].as_str(), name.as_str()) {
                        proof {
                            assert(texts_of(packages@)[n as int] == name@);
                            assert(texts_of(packages@).contains(name@));
                            assert(affected_package(*project, affected_modules@, diagnostic.dependency_path@[k as int]@.skip("package:"@.len() as int)));
                            assert(has_prefix(diagnostic.dependency_path@[k as int]@, "package:"@));
                            let e = diagnostic.dependency_path@[k as int]@;
                            assert(has_prefix(e, "package:"@) && affected_package(*project, affected_modules@, e.skip("package:"@.len() as int)));
                            assert(touches_region(*diagnostic, affected_modules@, *project));
                        }
                        return true;
                    }
                    n = n + 1;
                }
                proof {
                    let pv = texts_of(packages@);
                    if pv.contains(name@) {
                        let q = choose|q: int| 0 <= q < pv.len() && pv[q] == name@;
                        assert(packages@[q]@ == name@);
                    }
                }
            },
            None => {},
        }
        k = k + 1;
    }
    false
}

} // verus!
