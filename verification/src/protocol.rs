//! The Inference Request Protocol: the schema that every backend speaks.
//!
//! Values that the original schema carries as floating-point numbers (a sampling
//! temperature, a cost in dollars) are carried here by their IEEE-754 bit pattern,
//! and identifiers by the 128-bit value of their UUID.

use vstd::prelude::*;
use std::collections::HashMap;

verus! {

/// Where a backend runs.
#[derive(Clone, Copy, Debug, PartialEq, Eq, Structural)]
pub enum BackendType {
    Local,
    Cloud,
    Edge,
}

/// Health of a backend as the mesh sees it.
#[derive(Clone, Copy, Debug, PartialEq, Eq, Structural)]
pub enum HealthStatus {
    Healthy,
    Degraded,
    Unhealthy,
    Unknown,
}

/// Which criterion the routing engine optimises.
#[derive(Clone, Copy, Debug, PartialEq, Eq, Structural)]
pub enum PolicyType {
    Availability,
    Cost,
    Latency,
}

/// A request to change (or a report of) the routing policy.
#[derive(Clone, Copy, Debug, PartialEq, Eq, Structural)]
pub struct RoutingPolicy {
    pub policy: PolicyType,
}

/// What a backend can do.
#[derive(Clone, Copy, Debug, PartialEq, Eq, Structural)]
pub struct BackendCapabilities {
    pub streaming: bool,
    pub tools: bool,
    pub vision: bool,
    pub max_context_tokens: u32,
}

/// Token accounting of one inference.
#[derive(Clone, Copy, Debug, PartialEq, Eq, Structural)]
pub struct TokenUsage {
    pub prompt_tokens: u32,
    pub completion_tokens: u32,
    pub total_tokens: u32,
}

/// `serde_json::Value`, carried through opaque (tool parameters, metadata, payloads).
#[verifier::external_type_specification]
#[verifier::external_body]
pub struct ExJsonValue(serde_json::Value);

/// One chat message.
#[derive(Debug)]
pub struct Message {
    pub role: String,
    pub content: String,
}

/// A tool that a request offers to the model.
#[derive(Debug)]
pub struct Tool {
    pub name: String,
    pub description: Option<String>,
    pub parameters: Option<serde_json::Value>,
}

/// A backend-independent inference request.
#[derive(Debug)]
pub struct InferenceRequest {
    /// The request's UUID, as its 128-bit value.
    pub id: u128,
    pub model: String,
    pub messages: Vec<Message>,
    pub max_tokens: Option<u32>,
    /// The sampling temperature (an `f32`), by its bit pattern.
    pub temperature_bits: Option<u32>,
    pub stream: bool,
    pub tools: Option<Vec<Tool>>,
    pub metadata: HashMap<String, serde_json::Value>,
}

/// A backend-independent inference response.
#[derive(Debug)]
pub struct InferenceResponse {
    /// The response's UUID, as its 128-bit value.
    pub id: u128,
    /// The UUID of the request answered, as its 128-bit value.
    pub request_id: u128,
    pub backend: String,
    pub content: String,
    pub usage: TokenUsage,
    pub latency_ms: u64,
    /// The cost in dollars (an `f64`), by its bit pattern.
    pub cost_usd_bits: u64,
    pub model: String,
}

/// A document of the retrieval store.
#[derive(Debug)]
pub struct Document {
    pub id: String,
    pub content: String,
    pub metadata: HashMap<String, serde_json::Value>,
}

/// Role and content of each message, in order.
pub open spec fn messages_view(m: Seq<Message>) -> Seq<(Seq<char>, Seq<char>)> {
    Seq::new(m.len(), |i: int| (m[i].role@, m[i].content@))
}

} // verus!
