use ai4all::network::NodeCapabilities;
use ai4all::registry::CapabilityRegistry;
use ai4all::routing::{AttemptOutcome, Route, RouteError, RouteStep};

fn registry(peers: &[(&str, u64)]) -> CapabilityRegistry {
    let mut registry = CapabilityRegistry::new();
    for (id, memory) in peers {
        registry.update(
            NodeCapabilities {
                node_id: id.to_string(),
                models: vec!["llama3".to_string()],
                memory_mib: *memory,
                layer_ranges: vec![],
            },
            0,
        );
    }
    registry
}

fn route(step: RouteStep) -> Route {
    match step {
        RouteStep::Attempt(route) => route,
        _ => panic!("no attempt"),
    }
}

/// Sends to each provider named until the outcomes run out or the request ends.
fn drive(step: RouteStep, reachable: &[&str]) -> (Vec<String>, RouteStep) {
    let mut tried = Vec::new();
    let mut step = step;
    loop {
        match step {
            RouteStep::Attempt(route) => {
                let provider = route.provider();
                assert_eq!(route.attempts(), tried.len() + 1);
                tried.push(provider.clone());
                let outcome = if reachable.contains(&provider.as_str()) {
                    AttemptOutcome::Delivered(provider.as_bytes().to_vec())
                } else {
                    AttemptOutcome::Unreachable
                };
                step = route.next(outcome);
            }
            other => return (tried, other),
        }
    }
}

#[test]
fn request_goes_to_the_best_provider() {
    let registry = registry(&[("small", 8), ("big", 64), ("medium", 16)]);
    let first = route(Route::begin(&registry, "llama3", 3));
    assert_eq!(first.provider(), "big");
    assert_eq!(first.attempts(), 1);
    match first.next(AttemptOutcome::Delivered(vec![1, 2, 3])) {
        RouteStep::Done { provider_id, response } => {
            assert_eq!(provider_id, "big");
            assert_eq!(response, vec![1, 2, 3]);
        }
        _ => panic!("not done"),
    }
}

#[test]
fn unknown_model_has_no_provider() {
    let registry = registry(&[("a", 8)]);
    assert!(matches!(
        Route::begin(&registry, "mistral", 3),
        RouteStep::Failed(RouteError::NoProviderAvailable)
    ));
    assert!(matches!(
        Route::begin(&registry, "mistral", 0),
        RouteStep::Failed(RouteError::NoProviderAvailable)
    ));
    assert!(matches!(
        Route::begin(&CapabilityRegistry::new(), "llama3", 3),
        RouteStep::Failed(RouteError::NoProviderAvailable)
    ));
}

#[test]
fn no_attempt_allowed_means_unreachable() {
    let registry = registry(&[("a", 8)]);
    assert!(matches!(
        Route::begin(&registry, "llama3", 0),
        RouteStep::Failed(RouteError::AllProvidersUnreachable)
    ));
}

#[test]
fn unreachable_provider_is_followed_by_the_next() {
    let registry = registry(&[("c", 8), ("a", 64), ("b", 16)]);
    let (tried, end) = drive(Route::begin(&registry, "llama3", 5), &["b"]);
    assert_eq!(tried, vec!["a", "b"]);
    match end {
        RouteStep::Done { provider_id, response } => {
            assert_eq!(provider_id, "b");
            assert_eq!(response, b"b".to_vec());
        }
        _ => panic!("not done"),
    }
}

#[test]
fn all_candidates_are_tried_once_before_giving_up() {
    let registry = registry(&[("p1", 8), ("p2", 8), ("p3", 32), ("p4", 16), ("p5", 8)]);
    for limit in [5, 6, 100, usize::MAX] {
        let (tried, end) = drive(Route::begin(&registry, "llama3", limit), &[]);
        assert_eq!(tried, vec!["p3", "p4", "p1", "p2", "p5"]);
        assert!(matches!(end, RouteStep::Failed(RouteError::AllProvidersUnreachable)));
        let mut unique = tried.clone();
        unique.sort();
        unique.dedup();
        assert_eq!(unique.len(), tried.len());
    }
}

#[test]
fn attempts_stop_at_the_limit() {
    let registry = registry(&[("p1", 8), ("p2", 8), ("p3", 32), ("p4", 16), ("p5", 8)]);
    let (tried, end) = drive(Route::begin(&registry, "llama3", 2), &["p1"]);
    assert_eq!(tried, vec!["p3", "p4"]);
    assert!(matches!(end, RouteStep::Failed(RouteError::AllProvidersUnreachable)));
    let (tried, end) = drive(Route::begin(&registry, "llama3", 3), &["p1"]);
    assert_eq!(tried, vec!["p3", "p4", "p1"]);
    assert!(matches!(end, RouteStep::Done { .. }));
    let (tried, end) = drive(Route::begin(&registry, "llama3", 1), &[]);
    assert_eq!(tried, vec!["p3"]);
    assert!(matches!(end, RouteStep::Failed(RouteError::AllProvidersUnreachable)));
}

#[test]
fn single_candidate_fails_after_one_attempt() {
    let registry = registry(&[("only", 8)]);
    let first = route(Route::begin(&registry, "llama3", 3));
    assert_eq!(first.provider(), "only");
    assert!(matches!(
        first.next(AttemptOutcome::Unreachable),
        RouteStep::Failed(RouteError::AllProvidersUnreachable)
    ));
}

#[test]
fn route_is_not_changed_by_later_advertisements() {
    let mut registry = registry(&[("a", 8), ("b", 4)]);
    let first = route(Route::begin(&registry, "llama3", 3));
    registry.remove("b");
    registry.update(
        NodeCapabilities {
            node_id: "c".to_string(),
            models: vec!["llama3".to_string()],
            memory_mib: 6,
            layer_ranges: vec![],
        },
        1,
    );
    let second = route(first.next(AttemptOutcome::Unreachable));
    assert_eq!(second.provider(), "b");
    assert_eq!(second.attempts(), 2);
}
