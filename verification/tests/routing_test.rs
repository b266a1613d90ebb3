use cognitive_compute_mesh::backends::{MockBackend, total_content_bytes};
use cognitive_compute_mesh::protocol::{HealthStatus, InferenceRequest, Message, PolicyType};
use std::collections::HashMap;
use cognitive_compute_mesh::routing::{RouteError, RoutingEngine};

fn names(v: &[&str]) -> Vec<String> {
    v.iter().map(|s| s.to_string()).collect()
}

fn request_messages() -> Vec<Message> {
    vec![Message { role: "user".to_string(), content: "Hello".to_string() }]
}

/// Order key of a non-negative cost: the bits of a non-negative `f64` order as the value does.
fn cost_key(cost: f64) -> u64 {
    if cost == 0.0 { 0 } else { cost.to_bits() }
}

fn mock_cost(backend: &MockBackend, messages: &Vec<Message>) -> f64 {
    let chars = total_content_bytes(messages);
    (chars as f64 / 4.0) * f64::from_bits(backend.simulated_cost_per_token_bits)
}

#[test]
fn test_failover_under_1_second() {
    let local = MockBackend::new_local();
    let cloud = MockBackend::new_cloud();
    let mut engine = RoutingEngine::new(names(&["mock-local", "mock-cloud"]));
    engine.simulate_failure("mock-local");

    let messages = request_messages();
    let keys = vec![cost_key(mock_cost(&local, &messages)), cost_key(mock_cost(&cloud, &messages))];
    let primary = engine.route(&keys).unwrap();
    let mut plan = engine.start_fallback(primary);
    let (backend, attempt) = engine.next_attempt(&mut plan).unwrap();
    assert_eq!(attempt, 1);
    assert_eq!(engine.backends()[backend], "mock-cloud", "Should have routed to mock-cloud");
    engine.on_success(&plan, cloud.simulated_latency_ms, 30);
    assert_eq!(engine.health_tracker().get_status("mock-cloud"), HealthStatus::Healthy);
}

#[test]
fn test_cost_optimized_routes_to_cheapest() {
    let cloud = MockBackend::new_cloud();
    let local = MockBackend::new_local();
    let mut engine = RoutingEngine::new(names(&["mock-cloud", "mock-local"]));
    engine.set_policy(PolicyType::Cost);

    let messages = request_messages();
    let keys = vec![cost_key(mock_cost(&cloud, &messages)), cost_key(mock_cost(&local, &messages))];
    let selected = engine.route(&keys).unwrap();

    assert_eq!(engine.backends()[selected], "mock-local", "Cost-optimized should prefer zero-cost local backend");
}

fn make_request() -> InferenceRequest {
    InferenceRequest {
        id: uuid::Uuid::new_v4().as_u128(),
        model: "auto".to_string(),
        messages: request_messages(),
        max_tokens: Some(100),
        temperature_bits: Some(0.7f32.to_bits()),
        stream: false,
        tools: None,
        metadata: HashMap::new(),
    }
}

fn mock_answer(backend: &MockBackend, request: &InferenceRequest, counter: usize) -> cognitive_compute_mesh::protocol::InferenceResponse {
    let content = backend.response_at(counter);
    let usage = backend.usage_for(request.messages.len(), &content);
    let cost = usage.total_tokens as f64 * f64::from_bits(backend.simulated_cost_per_token_bits);
    backend.respond(request, counter, cost.to_bits())
}

#[test]
fn test_same_code_runs_on_local_and_cloud() {
    let backend_local = MockBackend::new_local();
    let backend_cloud = MockBackend::new_cloud();

    let request = make_request();

    let local_resp = mock_answer(&backend_local, &request, 0);
    let cloud_resp = mock_answer(&backend_cloud, &request, 0);

    assert!(!local_resp.content.is_empty(), "Local backend must return content");
    assert!(!cloud_resp.content.is_empty(), "Cloud backend must return content");
    assert_eq!(local_resp.backend, "mock-local");
    assert_eq!(cloud_resp.backend, "mock-cloud");
    assert_eq!(f64::from_bits(local_resp.cost_usd_bits), 0.0, "Local backend must be free");
    assert!(f64::from_bits(cloud_resp.cost_usd_bits) > 0.0, "Cloud backend must have cost");

    assert_eq!(local_resp.request_id, request.id);
    assert_eq!(cloud_resp.request_id, request.id);
    assert_eq!(local_resp.model, "auto");
    assert_eq!(local_resp.latency_ms, 25);
    assert_eq!(cloud_resp.latency_ms, 100);
    assert!((5..=50).contains(&local_resp.latency_ms));
    assert!((20..=200).contains(&cloud_resp.latency_ms));
    assert_eq!((local_resp.id >> 76) & 0xf, 4);
    assert_eq!((local_resp.id >> 62) & 0x3, 2);
    assert_eq!(local_resp.usage.prompt_tokens, 10);
    assert_ne!(local_resp.id, request.id);
}

#[test]
fn default_policy_prefers_free_local_backend() {
    let cloud = MockBackend::new_cloud();
    let local = MockBackend::new_local();
    let engine = RoutingEngine::new(names(&["mock-cloud", "mock-local"]));
    assert_eq!(engine.get_policy(), PolicyType::Cost);
    let messages = request_messages();
    let keys = vec![cost_key(mock_cost(&cloud, &messages)), cost_key(mock_cost(&local, &messages))];
    assert_eq!(engine.route(&keys).unwrap(), 1);
}

#[test]
fn test_availability_routing_skips_unhealthy() {
    let mut engine = RoutingEngine::new(names(&["mock-local", "mock-cloud"]));
    engine.set_policy(PolicyType::Availability);
    engine.simulate_failure("mock-local");
    let selected = engine.route(&vec![0, 0]).unwrap();
    assert_eq!(engine.backends()[selected], "mock-cloud", "Should skip circuit-open backend");
}

#[test]
fn routing_without_backends_is_an_error() {
    let engine = RoutingEngine::new(vec![]);
    match engine.route(&vec![]) {
        Err(RouteError::NoBackends) => {}
        _ => panic!("expected NoBackends"),
    }
    assert_eq!(RouteError::NoBackends.message(), "No backends configured");
}

#[test]
fn all_circuits_open_refuses_the_request() {
    let mut engine = RoutingEngine::new(names(&["a", "b", "c"]));
    engine.set_policy(PolicyType::Availability);
    engine.simulate_failure("a");
    engine.simulate_failure("b");
    assert_eq!(engine.route(&vec![9, 3, 7]).unwrap(), 2);
    engine.simulate_failure("c");
    for policy in [PolicyType::Availability, PolicyType::Cost, PolicyType::Latency] {
        engine.set_policy(policy);
        match engine.route(&vec![9, 3, 7]) {
            Err(RouteError::AllCircuitsOpen) => {}
            _ => panic!("expected AllCircuitsOpen"),
        }
    }
    assert_eq!(RouteError::AllCircuitsOpen.message(), "All backends have an open circuit");
}

#[test]
fn cost_ties_go_to_the_earlier_backend() {
    let mut engine = RoutingEngine::new(names(&["a", "b", "c"]));
    engine.set_policy(PolicyType::Cost);
    assert_eq!(engine.route(&vec![4, 2, 2]).unwrap(), 1);
    engine.simulate_failure("b");
    assert_eq!(engine.route(&vec![4, 2, 2]).unwrap(), 2);
}

#[test]
fn latency_policy_prefers_unmeasured_then_fastest() {
    let mut engine = RoutingEngine::new(names(&["slow", "fast", "new"]));
    engine.set_policy(PolicyType::Latency);
    // Record latencies through completed attempts.
    for (idx, latency) in [(0usize, 500u64), (1, 50)] {
        let mut plan = engine.start_fallback(idx);
        let (b, _) = engine.next_attempt(&mut plan).unwrap();
        assert_eq!(b, idx);
        engine.on_success(&plan, latency, 10);
    }
    assert_eq!(engine.latency_scores(), vec![500, 50, 0]);
    // The unmeasured backend scores 0 and wins.
    assert_eq!(engine.route(&vec![0, 0, 0]).unwrap(), 2);
    engine.simulate_failure("new");
    assert_eq!(engine.route(&vec![0, 0, 0]).unwrap(), 1);
}

#[test]
fn three_failures_open_circuit_and_success_closes_it() {
    let mut engine = RoutingEngine::new(names(&["x"]));
    assert_eq!(engine.health_tracker().get_status("x"), HealthStatus::Unknown);
    assert!(!engine.health_tracker().is_circuit_open("x"));
    // A call is under way when the circuit trips; its success then closes the circuit.
    let mut plan = engine.start_fallback(0);
    engine.next_attempt(&mut plan).unwrap();
    engine.simulate_failure("x");
    assert!(engine.health_tracker().is_circuit_open("x"));
    assert_eq!(engine.health_tracker().consecutive_failures("x"), 3);
    assert_eq!(engine.health_tracker().get_status("x"), HealthStatus::Unhealthy);
    engine.on_success(&plan, 10, 1);
    assert!(!engine.health_tracker().is_circuit_open("x"));
    assert_eq!(engine.health_tracker().consecutive_failures("x"), 0);
}

#[test]
fn fallback_skips_open_circuits_and_duplicate_names() {
    let mut engine = RoutingEngine::new(names(&["p", "q", "p", "r"]));
    engine.simulate_failure("q");
    let mut plan = engine.start_fallback(0);
    let (b1, a1) = engine.next_attempt(&mut plan).unwrap();
    assert_eq!((b1, a1), (0, 1));
    let failover_to = engine.on_failure(&mut plan, "boom".to_string());
    // The next in order is "q", even though its circuit is open.
    assert_eq!(failover_to, Some(1));
    let (b2, a2) = engine.next_attempt(&mut plan).unwrap();
    assert_eq!((b2, a2), (3, 2));
    assert_eq!(engine.on_failure(&mut plan, "down".to_string()), None);
    assert!(engine.next_attempt(&mut plan).is_none());
    let err = plan.exhausted_error();
    assert_eq!(err.message(), "All backends failed. Last error: down");
    assert_eq!(engine.health_tracker().consecutive_failures("p"), 1);
    let reports = engine.backend_reports();
    assert_eq!(reports[0].total_errors, 1);
    assert_eq!(reports[3].total_errors, 1);
    assert_eq!(reports[1].status, HealthStatus::Unhealthy);
}

#[test]
fn failover_never_calls_a_backend_with_an_open_circuit() {
    let mut engine = RoutingEngine::new(names(&["a", "b"]));
    let mut plan = engine.start_fallback(1);
    // The primary's circuit opened after it was chosen: it is skipped too.
    engine.simulate_failure("b");
    assert_eq!(engine.next_attempt(&mut plan), Some((0, 1)));
    engine.on_failure(&mut plan, "e".to_string());
    assert_eq!(engine.next_attempt(&mut plan), None);
    assert_eq!(plan.exhausted_error().message(), "All backends failed. Last error: e");

    let mut closed = RoutingEngine::new(names(&["a", "b"]));
    closed.simulate_failure("a");
    closed.simulate_failure("b");
    let mut none_left = closed.start_fallback(1);
    assert_eq!(closed.next_attempt(&mut none_left), None);
    let never_tried = none_left.exhausted_error();
    assert_eq!(never_tried.message(), "All backends failed. Last error: unknown");
}

#[test]
fn backend_reports_and_health_lookup() {
    let mut engine = RoutingEngine::new(names(&["a", "b"]));
    let mut plan = engine.start_fallback(0);
    engine.next_attempt(&mut plan).unwrap();
    engine.on_success(&plan, 120, 15);
    let reports = engine.backend_reports();
    assert_eq!(reports.len(), 2);
    assert_eq!(reports[0].name, "a");
    assert_eq!(reports[0].status, HealthStatus::Healthy);
    assert_eq!(reports[0].p50_ms, Some(120));
    assert_eq!(reports[0].p99_ms, Some(120));
    assert_eq!(reports[0].total_requests, 1);
    assert_eq!(reports[0].total_tokens, 15);
    assert_eq!(reports[1].status, HealthStatus::Unknown);
    assert_eq!(reports[1].p50_ms, None);
    assert_eq!(reports[1].total_requests, 0);
    assert_eq!(engine.backend_health("a"), Some((0, HealthStatus::Healthy, false)));
    assert_eq!(engine.backend_health("zzz"), None);
    assert_eq!(engine.find_backend("b"), Some(1));
    assert_eq!(engine.get_policy(), PolicyType::Cost);
}
