use wae::resolver::Resolution;
use wae::trace::{trace_start, trace_step, TraceAction};

fn asked(action: &TraceAction) -> (String, usize) {
    match action {
        TraceAction::Ask { specifier, handler } => (specifier.clone(), *handler),
        TraceAction::Finish(_) => panic!("the trace ended early"),
    }
}

#[test]
fn traced_resolution_follows_redirects_and_asks_handlers_in_order() {
    let (state, action) = trace_start("#config", 2);
    assert_eq!(asked(&action), ("#config".to_string(), 0));
    let (state, action) = trace_step(state, 2, None);
    assert_eq!(asked(&action), ("#config".to_string(), 1));
    let (state, action) = trace_step(state, 2, Some(Resolution::Redirect("pkg".into())));
    assert_eq!(asked(&action), ("pkg".to_string(), 0));
    let (_, action) = trace_step(state, 2, Some(Resolution::External("pkg".into())));
    assert!(matches!(action, TraceAction::Finish(Resolution::External(ref name)) if name == "pkg"));
}

#[test]
fn traced_resolution_stops_at_a_redirect_loop_or_after_the_last_handler() {
    let (state, _) = trace_start("a", 1);
    let (state, action) = trace_step(state, 1, Some(Resolution::Redirect("b".into())));
    assert_eq!(asked(&action), ("b".to_string(), 0));
    let (_, action) = trace_step(state, 1, Some(Resolution::Redirect("a".into())));
    assert!(matches!(
        action,
        TraceAction::Finish(Resolution::Invalid(ref m)) if m == "package resolution redirect loop at `a`"
    ));

    let (state, _) = trace_start("x", 1);
    let (_, action) = trace_step(state, 1, None);
    assert!(matches!(action, TraceAction::Finish(Resolution::Unresolved)));
    let (_, action) = trace_start("x", 0);
    assert!(matches!(action, TraceAction::Finish(Resolution::Unresolved)));
}
