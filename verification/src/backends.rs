//! What the backends compute besides their network calls: names, kinds and
//! capabilities, the mock backend's canned answers, token accounting, stream chunking,
//! and the reshaping of a conversation for the Anthropic API.

use vstd::prelude::*;
use vstd::string::StringSliceAdditionalSpecFns;
use crate::protocol::{BackendType, BackendCapabilities, HealthStatus, TokenUsage, Message, InferenceRequest, InferenceResponse};
use crate::ids::{new_request_id, is_v4_id};
use crate::text::{str_chars, chars_to_string, str_eq};

verus! {

broadcast use vstd::string::group_string_axioms;

/// One piece of a streamed answer.
#[derive(Debug)]
pub struct StreamChunk {
    pub content: String,
    pub done: bool,
}

/// Characters per chunk of the mock backend's stream.
pub const MOCK_CHUNK_CHARS: usize = 5;

/// The canned answers of the mock backends.
pub open spec fn mock_response_texts() -> Seq<Seq<char>> {
    seq![
        "I am a mock AI assistant. The Cognitive Compute Mesh routes requests intelligently across backends."@,
        "Mock response: This demonstrates local inference running at zero cost on your machine."@,
        "The routing engine supports three policies: availability-first, cost-optimized, and latency-optimized."@,
        "OminiX-MLX enables Apple Silicon acceleration for local model inference with zero API costs."@,
    ]
}

/// The canned answers of the mock backends, in order.
pub fn mock_responses() -> (r: Vec<String>)
    ensures
        r@.len() == 4,
        forall|i: int| 0 <= i < 4 ==> #[trigger] r@[i]@ == mock_response_texts()[i],
{
    let mut r: Vec<String> = Vec::new();
    r.push(String::from_str("I am a mock AI assistant. The Cognitive Compute Mesh routes requests intelligently across backends."));
    r.push(String::from_str("Mock response: This demonstrates local inference running at zero cost on your machine."));
    r.push(String::from_str("The routing engine supports three policies: availability-first, cost-optimized, and latency-optimized."));
    r.push(String::from_str("OminiX-MLX enables Apple Silicon acceleration for local model inference with zero API costs."));
    r
}

/// Bytes of the content of all messages (the base of every cost estimate).
pub open spec fn content_bytes(m: Seq<Message>) -> int
    decreases m.len(),
{
    if m.len() == 0 { 0 } else { content_bytes(m.drop_last()) + encode_len(m.last()) }
}

/// UTF-8 length of a message's content.
pub open spec fn encode_len(m: Message) -> int {
    (vstd::utf8::encode_utf8(m.content@).len() as usize) as int
}

/// Total UTF-8 length of the messages' contents.
pub fn total_content_bytes(messages: &Vec<Message>) -> (r: usize)
    requires
        content_bytes(messages@) <= usize::MAX,
    ensures
        r == content_bytes(messages@),
{
    let mut total: usize = 0;
    let mut i: usize = 0;
    while i < messages.len()
        invariant
            i <= messages@.len(),
            content_bytes(messages@) <= usize::MAX,
            total == content_bytes(messages@.take(i as int)),
        decreases messages@.len() - i,
    {
        proof {
            assert(messages@.take(i + 1).drop_last() =~= messages@.take(i as int));
            assert(messages@.take(i + 1).last() == messages@[i as int]);
            lemma_content_bytes_prefix(messages@, i + 1);
        }
        total = total + messages[i].content.as_str().len();
        i = i + 1;
    }
    assert(messages@.take(messages@.len() as int) =~= messages@);
    total
}

proof fn lemma_content_bytes_prefix(m: Seq<Message>, k: int)
    requires
        0 <= k <= m.len(),
    ensures
        content_bytes(m.take(k)) <= content_bytes(m),
    decreases m.len() - k,
{
    if k < m.len() {
        lemma_content_bytes_prefix(m, k + 1);
        assert(m.take(k + 1).drop_last() =~= m.take(k));
        assert(m.take(k + 1).last() == m[k]);
        assert(encode_len(m[k]) >= 0);
    } else {
        assert(m.take(k) =~= m);
    }
}

/// Token accounting of a mock answer: ten tokens per request message, a token per four
/// bytes of the answer (each count truncated to 32 bits), and their sum.
pub open spec fn mock_usage(message_count: usize, answer_bytes: nat) -> TokenUsage {
    TokenUsage {
        prompt_tokens: (message_count * 10) as u32,
        completion_tokens: (answer_bytes / 4) as u32,
        total_tokens: ((message_count * 10) as u32 + (answer_bytes / 4) as u32) as u32,
    }
}

/// The mock usage fits: no count overflows.
pub open spec fn mock_usage_fits(message_count: usize, answer_bytes: nat) -> bool {
    &&& message_count * 10 <= usize::MAX
    &&& (message_count * 10) as u32 + (answer_bytes / 4) as u32 <= u32::MAX
}

/// Token accounting from counts that a backend reported: a missing count is 0, each is
/// truncated to 32 bits, and the total is their sum.
pub open spec fn reported_usage(prompt: Option<u64>, completion: Option<u64>) -> TokenUsage {
    let p = (match prompt { Some(v) => v, None => 0u64 }) as u32;
    let c = (match completion { Some(v) => v, None => 0u64 }) as u32;
    TokenUsage { prompt_tokens: p, completion_tokens: c, total_tokens: (p + c) as u32 }
}

/// The reported counts fit: their truncated sum does not overflow.
pub open spec fn reported_usage_fits(prompt: Option<u64>, completion: Option<u64>) -> bool {
    let p = (match prompt { Some(v) => v, None => 0u64 }) as u32;
    let c = (match completion { Some(v) => v, None => 0u64 }) as u32;
    p + c <= u32::MAX
}

#[verifier::truncate]
fn truncate_u64(v: u64) -> (r: u32)
    ensures
        r == v as u32,
{
    v as u32
}

#[verifier::truncate]
fn truncate_usize(v: usize) -> (r: u32)
    ensures
        r == v as u32,
{
    v as u32
}

/// Usage from the prompt and completion counts a backend reported, with their sum as total.
pub fn usage_from_counts(prompt: Option<u64>, completion: Option<u64>) -> (r: TokenUsage)
    requires
        reported_usage_fits(prompt, completion),
    ensures
        r == reported_usage(prompt, completion),
{
    let p = truncate_u64(match prompt { Some(v) => v, None => 0 });
    let c = truncate_u64(match completion { Some(v) => v, None => 0 });
    TokenUsage { prompt_tokens: p, completion_tokens: c, total_tokens: p + c }
}

/// Usage from the three counts a backend reported (missing ones are 0, each truncated
/// to 32 bits).
pub fn usage_with_total(prompt: Option<u64>, completion: Option<u64>, total: Option<u64>) -> (r: TokenUsage)
    ensures
        r.prompt_tokens == (match prompt { Some(v) => v, None => 0u64 }) as u32,
        r.completion_tokens == (match completion { Some(v) => v, None => 0u64 }) as u32,
        r.total_tokens == (match total { Some(v) => v, None => 0u64 }) as u32,
{
    TokenUsage {
        prompt_tokens: truncate_u64(match prompt { Some(v) => v, None => 0 }),
        completion_tokens: truncate_u64(match completion { Some(v) => v, None => 0 }),
        total_tokens: truncate_u64(match total { Some(v) => v, None => 0 }),
    }
}

/// The model asked for, or `default` when the request leaves the choice to the mesh
/// (`"auto"`).
pub fn resolve_model(model: &str, default: &str) -> (r: String)
    ensures
        r@ == if model@ == "auto"@ { default@ } else { model@ },
{
    if str_eq(model, "auto") {
        default.to_owned()
    } else {
        model.to_owned()
    }
}

/// The role that carries a system prompt.
pub open spec fn system_role() -> Seq<char> {
    "system"@
}

/// Index of the first message with the system role, if any.
pub open spec fn first_system(m: Seq<Message>) -> Option<int>
    decreases m.len(),
{
    if m.len() == 0 {
        None
    } else {
        match first_system(m.drop_last()) {
            Some(i) => Some(i),
            None => if m.last().role@ == system_role() { Some(m.len() - 1) } else { None },
        }
    }
}

/// The messages without a system role, in order.
pub open spec fn non_system(m: Seq<Message>) -> Seq<(Seq<char>, Seq<char>)>
    decreases m.len(),
{
    if m.len() == 0 {
        Seq::empty()
    } else if m.last().role@ == system_role() {
        non_system(m.drop_last())
    } else {
        non_system(m.drop_last()).push((m.last().role@, m.last().content@))
    }
}

/// The system prompt for the Anthropic API: the content of the first system message.
pub fn anthropic_system_prompt(messages: &Vec<Message>) -> (r: Option<String>)
    ensures
        match first_system(messages@) {
            Some(i) => r is Some && r.unwrap()@ == messages@[i].content@,
            None => r is None,
        },
{
    let mut i: usize = 0;
    while i < messages.len()
        invariant
            i <= messages@.len(),
            first_system(messages@.take(i as int)) is None,
        decreases messages@.len() - i,
    {
        proof {
            assert(messages@.take(i + 1).drop_last() =~= messages@.take(i as int));
        }
        if str_eq(messages[i].role.as_str(), "system") {
            proof {
                lemma_first_system_extends(messages@, i + 1);
            }
            return Some(messages[i].content.clone());
        }
        i = i + 1;
    }
    assert(messages@.take(messages@.len() as int) =~= messages@);
    None
}

proof fn lemma_first_system_extends(m: Seq<Message>, k: int)
    requires
        0 <= k <= m.len(),
        first_system(m.take(k)) is Some,
    ensures
        first_system(m) == first_system(m.take(k)),
    decreases m.len() - k,
{
    if k < m.len() {
        assert(m.take(k + 1).drop_last() =~= m.take(k));
        lemma_first_system_extends(m, k + 1);
    } else {
        assert(m.take(k) =~= m);
    }
}

/// The conversation for the Anthropic API: every message without the system role.
pub fn anthropic_chat_messages(messages: &Vec<Message>) -> (r: Vec<Message>)
    ensures
        crate::protocol::messages_view(r@) == non_system(messages@),
{
    let mut r: Vec<Message> = Vec::new();
    let mut i: usize = 0;
    while i < messages.len()
        invariant
            i <= messages@.len(),
            crate::protocol::messages_view(r@) == non_system(messages@.take(i as int)),
        decreases messages@.len() - i,
    {
        proof {
            assert(messages@.take(i + 1).drop_last() =~= messages@.take(i as int));
        }
        if !str_eq(messages[i].role.as_str(), "system") {
            let ghost before = r@;
            r.push(Message { role: messages[i].role.clone(), content: messages[i].content.clone() });
            assert(crate::protocol::messages_view(r@) =~= crate::protocol::messages_view(before).push(
                (messages@[i as int].role@, messages@[i as int].content@)));
        }
        i = i + 1;
    }
    assert(messages@.take(messages@.len() as int) =~= messages@);
    r
}

/// Health of a hosted backend that needs an API key: unknown without a key, healthy
/// with one.
pub fn key_gated_health(api_key: &Option<String>) -> (r: HealthStatus)
    ensures
        r == if api_key.is_some() { HealthStatus::Healthy } else { HealthStatus::Unknown },
{
    match api_key {
        Some(_) => HealthStatus::Healthy,
        None => HealthStatus::Unknown,
    }
}

/// Health of a backend from a probe of its health endpoint: healthy on a success status,
/// degraded on another status, unhealthy when the request failed (`None`).
pub fn probe_health(success_status: Option<bool>) -> (r: HealthStatus)
    ensures
        r == match success_status {
            Some(true) => HealthStatus::Healthy,
            Some(false) => HealthStatus::Degraded,
            None => HealthStatus::Unhealthy,
        },
{
    match success_status {
        Some(true) => HealthStatus::Healthy,
        Some(false) => HealthStatus::Degraded,
        None => HealthStatus::Unhealthy,
    }
}

/// Name of the OpenAI backend.
pub fn openai_name() -> (r: &'static str)
    ensures
        r@ == "openai"@,
{
    "openai"
}

/// Name of the Anthropic backend.
pub fn anthropic_name() -> (r: &'static str)
    ensures
        r@ == "anthropic"@,
{
    "anthropic"
}

/// Name of the local OminiX-MLX backend.
pub fn local_name() -> (r: &'static str)
    ensures
        r@ == "local"@,
{
    "local"
}

/// Capabilities of the OpenAI backend.
pub fn openai_capabilities() -> (r: BackendCapabilities)
    ensures
        r == (BackendCapabilities { streaming: true, tools: true, vision: false, max_context_tokens: 16385 }),
{
    BackendCapabilities { streaming: true, tools: true, vision: false, max_context_tokens: 16385 }
}

/// Capabilities of the Anthropic backend.
pub fn anthropic_capabilities() -> (r: BackendCapabilities)
    ensures
        r == (BackendCapabilities { streaming: true, tools: true, vision: true, max_context_tokens: 200000 }),
{
    BackendCapabilities { streaming: true, tools: true, vision: true, max_context_tokens: 200000 }
}

/// Capabilities of the local OminiX-MLX backend.
pub fn local_capabilities() -> (r: BackendCapabilities)
    ensures
        r == (BackendCapabilities { streaming: true, tools: false, vision: false, max_context_tokens: 4096 }),
{
    BackendCapabilities { streaming: true, tools: false, vision: false, max_context_tokens: 4096 }
}

/// Capabilities of the mock backends.
pub fn mock_capabilities() -> (r: BackendCapabilities)
    ensures
        r == (BackendCapabilities { streaming: true, tools: false, vision: false, max_context_tokens: 32768 }),
{
    BackendCapabilities { streaming: true, tools: false, vision: false, max_context_tokens: 32768 }
}

/// The chunks of a streamed answer: pieces of `size` characters (the last one shorter),
/// the last one marked done.
pub open spec fn chunk_spec(chars: Seq<char>, size: nat, k: int) -> (Seq<char>, bool) {
    let end = if (k + 1) * size < chars.len() { (k + 1) * size } else { chars.len() as int };
    (chars.subrange(k * size, end), (k + 1) * size >= chars.len())
}

/// Number of chunks of `n` characters in pieces of `size`.
pub open spec fn chunk_count(n: nat, size: nat) -> nat {
    if n % size == 0 { n / size } else { n / size + 1 }
}

/// Splits a text into chunks of `size` characters; the last chunk is marked done.
pub fn stream_chunks(text: &str, size: usize) -> (r: Vec<StreamChunk>)
    requires
        size > 0,
    ensures
        r@.len() == chunk_count(text@.len(), size as nat),
        forall|k: int| 0 <= k < r@.len() ==> (#[trigger] r@[k]).content@ == chunk_spec(text@, size as nat, k).0
            && r@[k].done == chunk_spec(text@, size as nat, k).1,
{
    let chars = str_chars(text);
    let n = chars.len();
    let mut r: Vec<StreamChunk> = Vec::new();
    let mut start: usize = 0;
    let mut k: usize = 0;
    proof {
        if n > 0 {
            lemma_chunk_count(n as nat, size as nat, 0);
        }
    }
    while start < n
        invariant
            chars@ == text@,
            n == chars@.len(),
            size > 0,
            start <= n,
            k <= start,
            start < n ==> start == k * size && k < chunk_count(n as nat, size as nat),
            start == n ==> k == chunk_count(n as nat, size as nat),
            r@.len() == k,
            forall|j: int| 0 <= j < k ==> (#[trigger] r@[j]).content@ == chunk_spec(text@, size as nat, j).0
                && r@[j].done == chunk_spec(text@, size as nat, j).1,
        decreases n - start,
    {
        let end = if size < n - start { start + size } else { n };
        let piece = chars_to_string(&chars.as_slice()[start..end]);
        let done = end >= n;
        proof {
            assert((k + 1) * size == start + size) by (nonlinear_arith)
                requires start == k * size;
            assert(k + 1 <= (k + 1) * size) by (nonlinear_arith)
                requires size > 0;
            assert(chars@.subrange(start as int, end as int) =~= chunk_spec(text@, size as nat, k as int).0);
            lemma_chunk_count(n as nat, size as nat, k as nat);
        }
        r.push(StreamChunk { content: piece, done });
        start = end;
        k = k + 1;
    }
    r
}

proof fn lemma_chunk_count(n: nat, size: nat, k: nat)
    requires
        size > 0,
        k * size < n,
    ensures
        k < chunk_count(n, size),
        (k + 1) * size < n ==> k + 1 < chunk_count(n, size),
        (k + 1) * size >= n ==> k + 1 == chunk_count(n, size),
{
    vstd::arithmetic::div_mod::lemma_fundamental_div_mod(n as int, size as int);
    let q = n / size;
    let r = n % size;
    assert(n == size * q + r);
    assert(0 <= r < size);
    assert(k < q + 1) by (nonlinear_arith)
        requires k * size < n, n == size * q + r, r < size, size > 0;
    if r == 0 {
        assert(k < q) by (nonlinear_arith)
            requires k * size < n, n == size * q + r, r == 0, size > 0;
        if (k + 1) * size < n {
            assert(k + 1 < q) by (nonlinear_arith)
                requires (k + 1) * size < n, n == size * q + r, r == 0, size > 0;
        } else {
            assert(k + 1 >= q) by (nonlinear_arith)
                requires (k + 1) * size >= n, n == size * q + r, r == 0, size > 0;
        }
    } else {
        if (k + 1) * size < n {
            assert(k + 1 < q + 1) by (nonlinear_arith)
                requires (k + 1) * size < n, n == size * q + r, r < size, size > 0;
        } else {
            assert(k + 1 >= q + 1) by (nonlinear_arith)
                requires (k + 1) * size >= n, n == size * q + r, r > 0, size > 0;
        }
    }
}

/// The first `k` chunks, concatenated.
pub open spec fn joined_chunks(chars: Seq<char>, size: nat, k: nat) -> Seq<char>
    decreases k,
{
    if k == 0 { Seq::empty() } else { joined_chunks(chars, size, (k - 1) as nat) + chunk_spec(chars, size, k - 1).0 }
}

proof fn lemma_chunk_bounds(n: nat, size: nat, j: nat)
    requires
        size > 0,
    ensures
        j < chunk_count(n, size) ==> j * size < n,
        chunk_count(n, size) * size >= n,
{
    vstd::arithmetic::div_mod::lemma_fundamental_div_mod(n as int, size as int);
    let q = n / size;
    let r = n % size;
    assert(n == size * q + r && 0 <= r < size);
    if r == 0 {
        assert(chunk_count(n, size) * size >= n) by (nonlinear_arith)
            requires n == size * q + r, r == 0, chunk_count(n, size) == q;
        if j < q {
            assert(j * size < n) by (nonlinear_arith)
                requires j < q, n == size * q + r, size > 0;
        }
    } else {
        assert(chunk_count(n, size) * size >= n) by (nonlinear_arith)
            requires n == size * q + r, r < size, chunk_count(n, size) == q + 1;
        if j < q + 1 {
            assert(j * size < n) by (nonlinear_arith)
                requires j <= q, n == size * q + r, r > 0, size > 0;
        }
    }
}

proof fn lemma_joined_prefix(chars: Seq<char>, size: nat, k: nat)
    requires
        size > 0,
        k <= chunk_count(chars.len(), size),
    ensures
        joined_chunks(chars, size, k) =~= chars.subrange(0, if k * size < chars.len() { (k * size) as int } else { chars.len() as int }),
    decreases k,
{
    if k > 0 {
        let j = (k - 1) as nat;
        lemma_joined_prefix(chars, size, j);
        lemma_chunk_bounds(chars.len(), size, j);
        assert(j * size < chars.len());
        assert(k * size == j * size + size) by (nonlinear_arith)
            requires k == j + 1;
        let end: int = if k * size < chars.len() { (k * size) as int } else { chars.len() as int };
        assert(chunk_spec(chars, size, j as int).0 == chars.subrange((j * size) as int, end));
        assert(joined_chunks(chars, size, j) == chars.subrange(0, (j * size) as int));
        assert(joined_chunks(chars, size, k) == joined_chunks(chars, size, j) + chunk_spec(chars, size, j as int).0);
        assert(chars.subrange(0, (j * size) as int) + chars.subrange((j * size) as int, end) =~= chars.subrange(0, end));
    } else {
        assert(k * size == 0) by (nonlinear_arith)
            requires k == 0;
        assert(chars.subrange(0, 0) =~= Seq::<char>::empty());
    }
}

/// The chunks of a stream put back together give the whole text, and only the last
/// chunk is marked done.
pub proof fn law_chunks_rebuild_text(chars: Seq<char>, size: nat)
    requires
        size > 0,
    ensures
        joined_chunks(chars, size, chunk_count(chars.len(), size)) == chars,
        forall|k: int| 0 <= k < chunk_count(chars.len(), size) ==>
            (#[trigger] chunk_spec(chars, size, k).1 <==> k == chunk_count(chars.len(), size) - 1),
{
    let c = chunk_count(chars.len(), size);
    lemma_joined_prefix(chars, size, c);
    lemma_chunk_bounds(chars.len(), size, 0);
    assert(chars.subrange(0, chars.len() as int) =~= chars);
    assert forall|k: int| 0 <= k < c implies
        (#[trigger] chunk_spec(chars, size, k).1 <==> k == c - 1) by {
        lemma_chunk_bounds(chars.len(), size, k as nat);
        if k + 1 < c {
            lemma_chunk_bounds(chars.len(), size, (k + 1) as nat);
        } else {
            assert(k + 1 == c);
        }
    }
}

/// A mock inference backend: fixed latency, fixed cost per token, canned answers.
pub struct MockBackend {
    pub name: String,
    pub backend_type: BackendType,
    pub simulated_latency_ms: u64,
    /// The cost per token in dollars (an `f64`), by its bit pattern.
    pub simulated_cost_per_token_bits: u64,
    /// The chance of a simulated failure (an `f32`), by its bit pattern.
    pub failure_rate_bits: u32,
    pub responses: Vec<String>,
}

/// Bits of the `f64` 0.000002, the mock cloud backend's cost per token in dollars.
pub const MOCK_CLOUD_COST_BITS: u64 = 0x3EC0_C6F7_A0B5_ED8D;

/// Simulated latency of the local mock, in milliseconds (local inference answers in
/// about 5 to 50 ms).
pub const MOCK_LOCAL_LATENCY_MS: u64 = 25;

/// Simulated latency of the cloud mock, in milliseconds (a cloud round trip takes about
/// 20 to 200 ms).
pub const MOCK_CLOUD_LATENCY_MS: u64 = 100;

impl MockBackend {
    /// The local mock: `mock-local`, local, 25 ms, free, never failing.
    pub fn new_local() -> (r: Self)
        ensures
            r.name@ == "mock-local"@,
            r.backend_type == BackendType::Local,
            r.simulated_latency_ms == MOCK_LOCAL_LATENCY_MS,
            r.simulated_cost_per_token_bits == 0,
            r.failure_rate_bits == 0,
            r.responses@.len() == 4,
            forall|i: int| 0 <= i < 4 ==> #[trigger] r.responses@[i]@ == mock_response_texts()[i],
    {
        MockBackend {
            name: String::from_str("mock-local"),
            backend_type: BackendType::Local,
            simulated_latency_ms: MOCK_LOCAL_LATENCY_MS,
            simulated_cost_per_token_bits: 0,
            failure_rate_bits: 0,
            responses: mock_responses(),
        }
    }

    /// The cloud mock: `mock-cloud`, cloud, 100 ms, $0.000002 per token, never failing.
    pub fn new_cloud() -> (r: Self)
        ensures
            r.name@ == "mock-cloud"@,
            r.backend_type == BackendType::Cloud,
            r.simulated_latency_ms == MOCK_CLOUD_LATENCY_MS,
            r.simulated_cost_per_token_bits == MOCK_CLOUD_COST_BITS,
            r.failure_rate_bits == 0,
            r.responses@.len() == 4,
            forall|i: int| 0 <= i < 4 ==> #[trigger] r.responses@[i]@ == mock_response_texts()[i],
    {
        MockBackend {
            name: String::from_str("mock-cloud"),
            backend_type: BackendType::Cloud,
            simulated_latency_ms: MOCK_CLOUD_LATENCY_MS,
            simulated_cost_per_token_bits: MOCK_CLOUD_COST_BITS,
            failure_rate_bits: 0,
            responses: mock_responses(),
        }
    }

    /// The backend's name.
    pub fn name(&self) -> (r: &str)
        ensures
            r@ == self.name@,
    {
        self.name.as_str()
    }

    /// The backend's kind.
    pub fn backend_type(&self) -> (r: BackendType)
        ensures
            r == self.backend_type,
    {
        self.backend_type
    }

    /// The backend's capabilities.
    pub fn capabilities(&self) -> (r: BackendCapabilities)
        ensures
            r == (BackendCapabilities { streaming: true, tools: false, vision: false, max_context_tokens: 32768 }),
    {
        mock_capabilities()
    }

    /// The answer for the `counter`-th call: the answers are served in turn.
    pub fn response_at(&self, counter: usize) -> (r: String)
        requires
            self.responses@.len() > 0,
        ensures
            r@ == self.responses@[counter as int % self.responses@.len() as int]@,
    {
        let idx = counter % self.responses.len();
        self.responses[idx].clone()
    }

    /// Token usage of an answer to a request of `message_count` messages.
    pub fn usage_for(&self, message_count: usize, answer: &str) -> (r: TokenUsage)
        requires
            mock_usage_fits(message_count, answer.len() as nat),
        ensures
            r == mock_usage(message_count, answer.len() as nat),
    {
        let prompt = truncate_usize(message_count * 10);
        let completion = truncate_usize(answer.len() / 4);
        TokenUsage { prompt_tokens: prompt, completion_tokens: completion, total_tokens: prompt + completion }
    }

    /// The answer to `request` as the `counter`-th call: a fresh id, the request's id
    /// and model, this backend's name and latency, the `counter`-th canned answer, its
    /// token usage, and the given cost.
    pub fn respond(&self, request: &InferenceRequest, counter: usize, cost_usd_bits: u64) -> (r: InferenceResponse)
        requires
            self.responses@.len() > 0,
            mock_usage_fits(request.messages@.len() as usize,
                vstd::utf8::encode_utf8(self.responses@[counter as int % self.responses@.len() as int]@).len() as usize as nat),
        ensures
            is_v4_id(r.id),
            r.request_id == request.id,
            r.backend@ == self.name@,
            r.content@ == self.responses@[counter as int % self.responses@.len() as int]@,
            r.usage == mock_usage(request.messages@.len() as usize, vstd::utf8::encode_utf8(r.content@).len() as usize as nat),
            r.latency_ms == self.simulated_latency_ms,
            r.cost_usd_bits == cost_usd_bits,
            r.model@ == request.model@,
    {
        let content = self.response_at(counter);
        let usage = self.usage_for(request.messages.len(), content.as_str());
        InferenceResponse {
            id: new_request_id(),
            request_id: request.id,
            backend: self.name.clone(),
            content,
            usage,
            latency_ms: self.simulated_latency_ms,
            cost_usd_bits,
            model: request.model.clone(),
        }
    }

    /// The stream of the `counter`-th answer, in chunks of five characters.
    pub fn stream_for(&self, counter: usize) -> (r: Vec<StreamChunk>)
        requires
            self.responses@.len() > 0,
        ensures
            r@.len() == chunk_count(self.responses@[counter as int % self.responses@.len() as int]@.len(), MOCK_CHUNK_CHARS as nat),
            forall|k: int| 0 <= k < r@.len() ==>
                (#[trigger] r@[k]).content@ == chunk_spec(self.responses@[counter as int % self.responses@.len() as int]@, MOCK_CHUNK_CHARS as nat, k).0
                && r@[k].done == chunk_spec(self.responses@[counter as int % self.responses@.len() as int]@, MOCK_CHUNK_CHARS as nat, k).1,
    {
        let text = self.response_at(counter);
        stream_chunks(text.as_str(), MOCK_CHUNK_CHARS)
    }
}

/// The count that follows `c`: one more, wrapping around to 0 after `usize::MAX`.
pub open spec fn next_count(c: usize) -> usize {
    if c < usize::MAX { (c + 1) as usize } else { 0 }
}

/// The count after `calls` calls from zero.
pub open spec fn counter_after(calls: nat) -> usize {
    (calls % (usize::MAX as nat + 1)) as usize
}

/// Counts the calls that a mock backend has served; the clones of a backend share one
/// counter, so that they serve the canned answers in turn between them.
pub struct ResponseCounter {
    next: usize,
}

impl ResponseCounter {
    /// The current count.
    pub closed spec fn count(&self) -> usize {
        self.next
    }

    /// A counter at zero.
    pub fn new() -> (r: Self)
        ensures
            r.count() == 0,
    {
        ResponseCounter { next: 0 }
    }

    /// Takes the count for one call and moves the counter on by one.
    pub fn take(&mut self) -> (r: usize)
        ensures
            r == old(self).count(),
            final(self).count() == next_count(old(self).count()),
    {
        let r = self.next;
        self.next = self.next.wrapping_add(1);
        r
    }
}

/// The mock serves its answers in turn: a counter that has served `k` calls from zero
/// stands at `counter_after(k)`, one more call moves it to `counter_after(k + 1)`, and
/// (until the count wraps around) the answer of call `k` is answer `k mod n`.
pub proof fn law_answers_rotate(n: nat, k: nat)
    requires
        n > 0,
    ensures
        counter_after(0) == 0,
        next_count(counter_after(k)) == counter_after(k + 1),
        k <= usize::MAX ==> counter_after(k) as int % (n as int) == (k as int) % (n as int),
{
    let m: int = usize::MAX as int + 1;
    let q = k as int / m;
    let r = k as int % m;
    vstd::arithmetic::div_mod::lemma_fundamental_div_mod(k as int, m);
    if r + 1 < m {
        vstd::arithmetic::div_mod::lemma_fundamental_div_mod_converse(k as int + 1, m, q, r + 1);
    } else {
        assert(k as int + 1 == (q + 1) * m + 0) by (nonlinear_arith)
            requires
                k == q * m + r,
                r + 1 == m,
        ;
        vstd::arithmetic::div_mod::lemma_fundamental_div_mod_converse(k as int + 1, m, q + 1, 0);
    }
    vstd::arithmetic::div_mod::lemma_small_mod(0, m as nat);
    if k <= usize::MAX {
        vstd::arithmetic::div_mod::lemma_small_mod(k, m as nat);
    }
}

} // verus!
