use cognitive_compute_mesh::backends::{
    key_gated_health, probe_health,
    anthropic_chat_messages, anthropic_system_prompt, mock_responses, resolve_model, stream_chunks,
    total_content_bytes, usage_from_counts, usage_with_total, MockBackend, MOCK_CLOUD_COST_BITS,
    local_name, ResponseCounter,
};
use cognitive_compute_mesh::health::HealthTracker;
use cognitive_compute_mesh::metrics::{LatencyWindow, MetricsStore};
use cognitive_compute_mesh::protocol::{BackendType, HealthStatus, Message};

fn msg(role: &str, content: &str) -> Message {
    Message { role: role.to_string(), content: content.to_string() }
}

#[test]
fn latency_window_keeps_most_recent_samples() {
    let mut w = LatencyWindow::new(3);
    assert_eq!(w.p50(), None);
    assert_eq!(w.p99(), None);
    for x in [10, 20, 30, 40, 50] {
        w.add(x);
    }
    assert_eq!(w.len(), 3);
    assert_eq!(w.p50(), Some(40));
    assert_eq!(w.p99(), Some(50));
    let mut zero = LatencyWindow::new(0);
    zero.add(1);
    zero.add(2);
    assert_eq!(zero.len(), 1);
    assert_eq!(zero.p50(), Some(2));
}

#[test]
fn percentiles_of_unsorted_samples() {
    let mut w = LatencyWindow::new(100);
    for x in [5, 1, 4, 2, 3] {
        w.add(x);
    }
    assert_eq!(w.p50(), Some(3));
    assert_eq!(w.p99(), Some(5));
    let mut big = LatencyWindow::new(200);
    for x in 1..=200u64 {
        big.add(201 - x);
    }
    // floor(200 * 0.99) = 198 -> the 199th smallest sample.
    assert_eq!(big.p99(), Some(199));
    assert_eq!(big.p50(), Some(101));
}

#[test]
fn metrics_store_counts_requests_and_errors() {
    let mut m = MetricsStore::new();
    assert!(m.get_metrics("a").is_none());
    m.record_request("a", 100, 10);
    m.record_request("a", 300, 5);
    m.record_error("a");
    m.record_error("b");
    let a = m.get_metrics("a").unwrap();
    assert_eq!(a.total_requests, 2);
    assert_eq!(a.total_errors, 1);
    assert_eq!(a.total_tokens, 15);
    assert_eq!(a.latency_window.len(), 2);
    assert_eq!(m.p50_of("a"), Some(300));
    assert_eq!(m.p50_of("b"), None);
    let b = m.get_metrics("b").unwrap();
    assert_eq!(b.total_requests, 0);
    assert_eq!(b.total_errors, 1);
    let all = m.all_metrics();
    assert_eq!(all.len(), 2);
    assert_eq!(all[0].0, "a");
    assert_eq!(all[1].0, "b");
    for i in 0..150u64 {
        m.record_request("c", i, 1);
    }
    assert_eq!(m.get_metrics("c").unwrap().latency_window.len(), 100);
    assert_eq!(m.p50_of("c"), Some(100));
}

#[test]
fn health_tracker_records_per_backend() {
    let mut h = HealthTracker::new();
    h.record_failure("a");
    h.record_failure("a");
    assert!(!h.is_circuit_open("a"));
    h.record_failure("a");
    assert!(h.is_circuit_open("a"));
    h.record_success("b");
    assert_eq!(h.get_status("b"), HealthStatus::Healthy);
    assert_eq!(h.consecutive_failures("a"), 3);
    h.record_success("a");
    assert_eq!(h.get_status("a"), HealthStatus::Healthy);
    assert!(!h.is_circuit_open("a"));
    assert_eq!(h.get_status("c"), HealthStatus::Unknown);
}

#[test]
fn mock_backends_are_configured() {
    let local = MockBackend::new_local();
    let cloud = MockBackend::new_cloud();
    assert_eq!(local.name, "mock-local");
    assert_eq!(local.backend_type(), BackendType::Local);
    assert_eq!(local.simulated_latency_ms, 25);
    assert_eq!(f64::from_bits(local.simulated_cost_per_token_bits), 0.0);
    assert_eq!(cloud.backend_type, BackendType::Cloud);
    assert_eq!(cloud.simulated_latency_ms, 100);
    assert_eq!(f64::from_bits(MOCK_CLOUD_COST_BITS), 0.000002);
    assert_eq!(f32::from_bits(cloud.failure_rate_bits), 0.0);
    assert_eq!(local.capabilities().max_context_tokens, 32768);
    assert!(!local.capabilities().tools);
    let responses = mock_responses();
    assert_eq!(responses.len(), 4);
    assert_eq!(local.response_at(5), responses[1]);
    assert!(responses[0].starts_with("I am a mock AI assistant."));
}

#[test]
fn mock_usage_and_stream() {
    let local = MockBackend::new_local();
    let u = local.usage_for(2, "abcdefghi");
    assert_eq!((u.prompt_tokens, u.completion_tokens, u.total_tokens), (20, 2, 22));
    let chunks = local.stream_for(0);
    let joined: String = chunks.iter().map(|c| c.content.clone()).collect();
    assert_eq!(joined, local.response_at(0));
    assert!(chunks.last().unwrap().done);
    assert!(chunks.iter().rev().skip(1).all(|c| !c.done));
    assert!(chunks.iter().all(|c| c.content.chars().count() <= 5));
    let s = stream_chunks("abcdefghij", 5);
    assert_eq!(s.len(), 2);
    assert_eq!(s[1].content, "fghij");
    assert!(stream_chunks("", 5).is_empty());
}

#[test]
fn reported_usage_and_model_resolution() {
    let u = usage_from_counts(Some(7), None);
    assert_eq!((u.prompt_tokens, u.completion_tokens, u.total_tokens), (7, 0, 7));
    let t = usage_from_counts(Some((1u64 << 32) + 3), Some(4));
    assert_eq!(t.prompt_tokens, 3);
    assert_eq!(t.total_tokens, 7);
    let w = usage_with_total(Some(1), Some(2), None);
    assert_eq!(w.total_tokens, 0);
    assert_eq!(resolve_model("auto", "gpt-3.5-turbo"), "gpt-3.5-turbo");
    assert_eq!(resolve_model("gpt-4", "gpt-3.5-turbo"), "gpt-4");
}

#[test]
fn anthropic_conversation_split() {
    let messages = vec![msg("user", "hi"), msg("system", "be brief"), msg("assistant", "ok"), msg("system", "second")];
    assert_eq!(anthropic_system_prompt(&messages), Some("be brief".to_string()));
    let chat = anthropic_chat_messages(&messages);
    assert_eq!(chat.len(), 2);
    assert_eq!(chat[0].role, "user");
    assert_eq!(chat[1].content, "ok");
    assert_eq!(anthropic_system_prompt(&vec![msg("user", "x")]), None);
    assert_eq!(total_content_bytes(&messages), 2 + 8 + 2 + 6);
    assert_eq!(total_content_bytes(&vec![msg("user", "é")]), 2);
}

#[test]
fn default_tracker_and_store_are_empty() {
    let h = HealthTracker::default();
    assert_eq!(h.get_status("any"), HealthStatus::Unknown);
    let m = MetricsStore::default();
    assert!(m.all_metrics().is_empty());
}

#[test]
fn health_of_keyed_and_probed_backends() {
    assert_eq!(key_gated_health(&None), HealthStatus::Unknown);
    assert_eq!(key_gated_health(&Some("k".to_string())), HealthStatus::Healthy);
    assert_eq!(probe_health(Some(true)), HealthStatus::Healthy);
    assert_eq!(probe_health(Some(false)), HealthStatus::Degraded);
    assert_eq!(probe_health(None), HealthStatus::Unhealthy);
}

#[test]
fn local_backend_is_named_local() {
    assert_eq!(local_name(), "local");
}

#[test]
fn mock_answers_rotate_with_the_shared_counter() {
    let local = MockBackend::new_local();
    let responses = mock_responses();
    let mut counter = ResponseCounter::new();
    for k in 0..10usize {
        let c = counter.take();
        assert_eq!(c, k);
        assert_eq!(local.response_at(c), responses[k % 4]);
    }
}

#[test]
fn store_holds_exactly_the_reported_names() {
    let mut m = MetricsStore::new();
    m.record_request("a", 40, 7);
    m.record_error("b");
    m.record_request("a", 20, 3);
    m.record_error("a");
    let mut names: Vec<String> = m.all_metrics().into_iter().map(|(n, _)| n).collect();
    names.sort();
    assert_eq!(names, vec!["a".to_string(), "b".to_string()]);
    assert!(m.get_metrics("c").is_none());
    let a = m.get_metrics("a").unwrap();
    assert_eq!((a.total_requests, a.total_errors, a.total_tokens), (2, 1, 10));
    assert_eq!(a.latency_window.p50(), Some(40));
    let b = m.get_metrics("b").unwrap();
    assert_eq!((b.total_requests, b.total_errors, b.total_tokens), (0, 1, 0));
    assert_eq!(b.latency_window.p50(), None);
}

#[test]
fn circuit_counts_failures_since_last_success() {
    let mut h = HealthTracker::new();
    for outcome in [false, false, true, false, false] {
        if outcome { h.record_success("x") } else { h.record_failure("x") }
    }
    assert_eq!(h.consecutive_failures("x"), 2);
    assert!(!h.is_circuit_open("x"));
    assert_eq!(h.get_status("x"), HealthStatus::Unhealthy);
    h.record_failure("x");
    assert!(h.is_circuit_open("x"));
    h.record_success("y");
    assert_eq!(h.get_status("y"), HealthStatus::Healthy);
    assert!(h.is_circuit_open("x"));
}
