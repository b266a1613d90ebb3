# Cognitive Compute Mesh — verified core

An inference routing layer: requests in a backend-independent protocol are routed to
one of several backends (mock, OpenAI, Anthropic, a local OminiX-MLX server) under a
cost, latency or availability policy, with a circuit breaker and automatic failover,
per-backend latency and request metrics, and a hybrid (dense + BM25) retrieval pipeline.

## Layout

- `src/` — the library, verified with Verus:
  - `protocol`, `openai_compat`, `ids`: the request/response schema and its conversion
    to and from the OpenAI chat-completions schema (UUIDs held as 128-bit values).
  - `health`: health records and the circuit breaker (three failures in a row open it).
  - `metrics`: bounded latency windows with exact p50/p99, per-backend counters.
  - `routing`: policy-based backend choice, failover planning, backend reports.
  - `backends`: the mock backends' answers, token accounting, stream chunking, and the
    conversation reshaping of the Anthropic API.
  - `embeddings`, `cache`, `retrieval`, `vector`, `reranker`: deterministic embedding
    seeds, the LRU embedding cache (over `lru::LruCache`), tokenization and BM25
    statistics, the in-memory vector store.
  - `assoc`, `text`: string-keyed association lists and string helpers.
- `tests/` — tests of the library.
- `app/` — the server: axum routes, the WebSocket event stream, HTTP backend clients,
  the asynchronous failover loop, and every floating-point computation (costs, scores,
  cosine similarity, BM25 and rank-fusion scores), which the library leaves to it.

Values the wire schema carries as `f32`/`f64` (temperature, cost, embedding
coordinates) cross into the library as their IEEE-754 bit patterns.
