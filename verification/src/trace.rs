//! The decisions of a traced resolution: which handler is asked next about which specifier, when
//! a redirect is followed, and when a redirect loop ends the trace.
use crate::resolver::Resolution;
use crate::text::{concat, owned};
use crate::text_set::TextSet;
use vstd::prelude::*;

verus! {

/// Where a traced resolution stands: the specifier being resolved, those already tried, and the
/// handler asked last.
pub struct TraceState {
    pub specifier: String,
    pub visited: TextSet,
    pub handler: usize,
}

/// What the trace does next.
#[derive(Debug)]
pub enum TraceAction {
    /// Ask handler `handler` (counting from 0) to resolve `specifier`.
    Ask { specifier: String, handler: usize },
    /// The trace ends with this resolution.
    Finish(Resolution),
}

/// The message of a redirect that comes back to a specifier already tried.
pub open spec fn loop_message(specifier: Seq<char>) -> Seq<char> {
    "package resolution redirect loop at `"@ + specifier + "`"@
}

/// Starting on `specifier` with `visited` tried before: a loop ends the trace; otherwise the
/// first handler is asked, or, with no handlers, the specifier stays unresolved.
pub open spec fn begins(
    visited: Seq<Seq<char>>,
    specifier: Seq<char>,
    handlers: usize,
    r: (TraceState, TraceAction),
) -> bool {
    if visited.contains(specifier) {
        r.1 matches TraceAction::Finish(Resolution::Invalid(m)) && m@ == loop_message(specifier)
    } else {
        &&& r.0.specifier@ == specifier
        &&& r.0.handler == 0
        &&& forall|x: Seq<char>| #[trigger] r.0.visited.members().contains(x) <==> (visited.contains(x) || x == specifier)
        &&& if handlers == 0 {
            r.1 matches TraceAction::Finish(Resolution::Unresolved)
        } else {
            r.1 matches TraceAction::Ask { specifier: s, handler: h } && s@ == specifier && h == 0
        }
    }
}

fn begin(visited: TextSet, specifier: String, handlers: usize) -> (r: (TraceState, TraceAction))
    ensures
        begins(visited.members(), specifier@, handlers, r),
{
    let mut visited = visited;
    if visited.contains(specifier.as_str()) {
        let head = concat("package resolution redirect loop at `", specifier.as_str());
        let message = concat(head.as_str(), "`");
        return (TraceState { specifier, visited, handler: 0 }, TraceAction::Finish(Resolution::Invalid(message)));
    }
    let ghost before = visited.members();
    visited.insert(owned(specifier.as_str()));
    let action = if handlers == 0 {
        TraceAction::Finish(Resolution::Unresolved)
    } else {
        TraceAction::Ask { specifier: owned(specifier.as_str()), handler: 0 }
    };
    (TraceState { specifier, visited, handler: 0 }, action)
}

/// The first step of a trace of `specifier` through `handlers` handlers.
pub fn trace_start(specifier: &str, handlers: usize) -> (r: (TraceState, TraceAction))
    ensures
        begins(Seq::empty(), specifier@, handlers, r),
{
    let visited = TextSet::new();
    proof {
        assert(visited.members() =~= Seq::<Seq<char>>::empty());
    }
    begin(visited, owned(specifier), handlers)
}

/// The step after handler `state.handler` answered `outcome` about `state.specifier`: a
/// redirect starts over on its target, any other answer ends the trace with it, and no answer
/// asks the next handler, or ends the trace unresolved after the last one.
pub fn trace_step(state: TraceState, handlers: usize, outcome: Option<Resolution>) -> (r: (TraceState, TraceAction))
    ensures
        match outcome {
            Some(Resolution::Redirect(target)) => begins(state.visited.members(), target@, handlers, r),
            Some(other) => r.1 == TraceAction::Finish(other),
            None => if state.handler + 1 < handlers {
                &&& r.1 matches TraceAction::Ask { specifier: s, handler: h }
                &&& s@ == state.specifier@
                &&& h == state.handler + 1
                &&& r.0.specifier@ == state.specifier@
                &&& r.0.handler == state.handler + 1
                &&& r.0.visited.members() == state.visited.members()
            } else {
                r.1 matches TraceAction::Finish(Resolution::Unresolved)
            },
        },
{
    match outcome {
        Some(Resolution::Redirect(target)) => begin(state.visited, target, handlers),
        Some(other) => (state, TraceAction::Finish(other)),
        None => {
            if state.handler < handlers && state.handler + 1 < handlers {
                let next = state.handler + 1;
                let ask = TraceAction::Ask { specifier: owned(state.specifier.as_str()), handler: next };
                (TraceState { specifier: state.specifier, visited: state.visited, handler: next }, ask)
            } else {
                (state, TraceAction::Finish(Resolution::Unresolved))
            }
        },
    }
}

} // verus!
