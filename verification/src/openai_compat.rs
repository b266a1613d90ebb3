//! The OpenAI chat-completions schema and its conversion to and from the protocol.

use vstd::prelude::*;
use std::collections::HashMap;
use crate::protocol::{InferenceRequest, InferenceResponse, Message, messages_view};
use crate::ids::{new_request_id, uuid_to_string, uuid_text, is_v4_id};

verus! {

/// A chat-completions request in the OpenAI schema.
#[derive(Debug)]
pub struct OpenAIChatRequest {
    pub model: String,
    pub messages: Vec<OpenAIMessage>,
    pub max_tokens: Option<u32>,
    /// The sampling temperature (an `f32`), by its bit pattern.
    pub temperature_bits: Option<u32>,
    pub stream: Option<bool>,
}

/// A chat message in the OpenAI schema.
#[derive(Debug)]
pub struct OpenAIMessage {
    pub role: String,
    pub content: String,
}

/// A chat-completions response in the OpenAI schema, with the mesh's extra fields.
#[derive(Debug)]
pub struct OpenAIChatResponse {
    pub id: String,
    pub object: String,
    pub model: String,
    pub backend: String,
    pub choices: Vec<OpenAIChoice>,
    pub usage: OpenAIUsage,
    pub latency_ms: u64,
    /// The cost in dollars (an `f64`), by its bit pattern.
    pub cost_usd_bits: u64,
}

/// One completion choice.
#[derive(Debug)]
pub struct OpenAIChoice {
    pub index: u32,
    pub message: OpenAIMessage,
    pub finish_reason: String,
}

/// Token accounting in the OpenAI schema.
#[derive(Debug)]
pub struct OpenAIUsage {
    pub prompt_tokens: u32,
    pub completion_tokens: u32,
    pub total_tokens: u32,
}

/// Role and content of each OpenAI message, in order.
pub open spec fn openai_messages_view(m: Seq<OpenAIMessage>) -> Seq<(Seq<char>, Seq<char>)> {
    Seq::new(m.len(), |i: int| (m[i].role@, m[i].content@))
}

pub open spec fn chat_completion_text() -> Seq<char> {
    seq!['c', 'h', 'a', 't', '.', 'c', 'o', 'm', 'p', 'l', 'e', 't', 'i', 'o', 'n']
}

pub open spec fn assistant_text() -> Seq<char> {
    seq!['a', 's', 's', 'i', 's', 't', 'a', 'n', 't']
}

pub open spec fn stop_text() -> Seq<char> {
    seq!['s', 't', 'o', 'p']
}

/// Converts an OpenAI request to a protocol request with a fresh random id, the same
/// model, messages, token limit and temperature, streaming only when asked for, no
/// tools and no metadata.
pub fn openai_to_irp(req: OpenAIChatRequest) -> (r: InferenceRequest)
    ensures
        is_v4_id(r.id),
        r.model@ == req.model@,
        messages_view(r.messages@) == openai_messages_view(req.messages@),
        r.max_tokens == req.max_tokens,
        r.temperature_bits == req.temperature_bits,
        r.stream == match req.stream { Some(b) => b, None => false },
        r.tools.is_none(),
        r.metadata@ == Map::<String, serde_json::Value>::empty(),
{
    let n = req.messages.len();
    let mut messages: Vec<Message> = Vec::new();
    let mut i: usize = 0;
    while i < n
        invariant
            n == req.messages@.len(),
            i <= n,
            messages@.len() == i,
            forall|j: int| 0 <= j < i ==> #[trigger] messages_view(messages@)[j] == openai_messages_view(req.messages@)[j],
        decreases n - i,
    {
        let m = Message { role: req.messages[i].role.clone(), content: req.messages[i].content.clone() };
        let ghost before = messages@;
        messages.push(m);
        proof {
            assert forall|j: int| 0 <= j < i + 1 implies #[trigger] messages_view(messages@)[j] == openai_messages_view(req.messages@)[j] by {
                if j < i {
                    assert(messages@[j] == before[j]);
                    assert(messages_view(before)[j] == openai_messages_view(req.messages@)[j]);
                }
            }
        }
        i = i + 1;
    }
    assert(messages_view(messages@) =~= openai_messages_view(req.messages@));
    let stream = match req.stream {
        Some(b) => b,
        None => false,
    };
    InferenceRequest {
        id: new_request_id(),
        model: req.model,
        messages,
        max_tokens: req.max_tokens,
        temperature_bits: req.temperature_bits,
        stream,
        tools: None,
        metadata: HashMap::new(),
    }
}

/// Converts a protocol response to an OpenAI response: the response id as UUID text, a
/// single `stop` choice from the assistant with the content, the same usage, model,
/// backend, latency and cost.
pub fn irp_to_openai(resp: InferenceResponse) -> (r: OpenAIChatResponse)
    ensures
        r.id@ == uuid_text(resp.id),
        r.object@ == chat_completion_text(),
        r.model@ == resp.model@,
        r.backend@ == resp.backend@,
        r.choices@.len() == 1,
        r.choices@[0].index == 0,
        r.choices@[0].message.role@ == assistant_text(),
        r.choices@[0].message.content@ == resp.content@,
        r.choices@[0].finish_reason@ == stop_text(),
        r.usage.prompt_tokens == resp.usage.prompt_tokens,
        r.usage.completion_tokens == resp.usage.completion_tokens,
        r.usage.total_tokens == resp.usage.total_tokens,
        r.latency_ms == resp.latency_ms,
        r.cost_usd_bits == resp.cost_usd_bits,
{
    let object_chars = ['c', 'h', 'a', 't', '.', 'c', 'o', 'm', 'p', 'l', 'e', 't', 'i', 'o', 'n'];
    let role_chars = ['a', 's', 's', 'i', 's', 't', 'a', 'n', 't'];
    let stop_chars = ['s', 't', 'o', 'p'];
    let object = crate::text::chars_to_string(&object_chars);
    let role = crate::text::chars_to_string(&role_chars);
    let finish_reason = crate::text::chars_to_string(&stop_chars);
    assert(object_chars@ =~= chat_completion_text());
    assert(role_chars@ =~= assistant_text());
    assert(stop_chars@ =~= stop_text());
    let mut choices: Vec<OpenAIChoice> = Vec::new();
    choices.push(OpenAIChoice {
        index: 0,
        message: OpenAIMessage { role, content: resp.content },
        finish_reason,
    });
    OpenAIChatResponse {
        id: uuid_to_string(resp.id),
        object,
        model: resp.model,
        backend: resp.backend,
        choices,
        usage: OpenAIUsage {
            prompt_tokens: resp.usage.prompt_tokens,
            completion_tokens: resp.usage.completion_tokens,
            total_tokens: resp.usage.total_tokens,
        },
        latency_ms: resp.latency_ms,
        cost_usd_bits: resp.cost_usd_bits,
    }
}

} // verus!
