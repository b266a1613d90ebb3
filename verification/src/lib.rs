//! Verified core of the Cognitive Compute Mesh: the inference request protocol,
//! backend health tracking with a circuit breaker, latency and request metrics,
//! policy-based routing with failover planning, and the deterministic parts of the
//! retrieval pipeline.

pub mod assoc;
pub mod text;
pub mod protocol;
pub mod ids;
pub mod openai_compat;
pub mod health;
pub mod metrics;
pub mod routing;
pub mod embeddings;
pub mod backends;
pub mod reranker;
pub mod cache;
pub mod retrieval;
pub mod vector;
