use cognitive_compute_mesh::openai_compat::{irp_to_openai, openai_to_irp, OpenAIChatRequest, OpenAIMessage};
use cognitive_compute_mesh::protocol::{InferenceResponse, TokenUsage};
use uuid::Uuid;

#[test]
fn test_openai_to_irp_conversion() {
    let openai_req = OpenAIChatRequest {
        model: "gpt-4".to_string(),
        messages: vec![
            OpenAIMessage { role: "system".to_string(), content: "You are helpful".to_string() },
            OpenAIMessage { role: "user".to_string(), content: "Hello".to_string() },
        ],
        max_tokens: Some(100),
        temperature_bits: Some(0.7f32.to_bits()),
        stream: Some(false),
    };

    let irp = openai_to_irp(openai_req);

    assert_eq!(irp.model, "gpt-4");
    assert_eq!(irp.messages.len(), 2);
    assert_eq!(irp.messages[0].role, "system");
    assert_eq!(irp.messages[1].content, "Hello");
    assert_eq!(irp.max_tokens, Some(100));
    assert_eq!(irp.stream, false);
}

#[test]
fn test_irp_to_openai_conversion() {
    let irp_resp = InferenceResponse {
        id: Uuid::new_v4().as_u128(),
        request_id: Uuid::new_v4().as_u128(),
        backend: "mock-local".to_string(),
        content: "Hello world".to_string(),
        usage: TokenUsage { prompt_tokens: 10, completion_tokens: 5, total_tokens: 15 },
        latency_ms: 200,
        cost_usd_bits: 0.0f64.to_bits(),
        model: "mock-v1".to_string(),
    };

    let openai_resp = irp_to_openai(irp_resp);

    assert_eq!(openai_resp.choices.len(), 1);
    assert_eq!(openai_resp.choices[0].message.content, "Hello world");
    assert_eq!(openai_resp.usage.total_tokens, 15);
    assert_eq!(openai_resp.backend, "mock-local");
}

#[test]
fn test_irp_roundtrip_fidelity() {
    let original = OpenAIChatRequest {
        model: "gpt-3.5-turbo".to_string(),
        messages: vec![OpenAIMessage { role: "user".to_string(), content: "Tell me about Rust".to_string() }],
        max_tokens: Some(500),
        temperature_bits: Some(0.9f32.to_bits()),
        stream: None,
    };

    let irp = openai_to_irp(OpenAIChatRequest {
        model: original.model.clone(),
        messages: original
            .messages
            .iter()
            .map(|m| OpenAIMessage { role: m.role.clone(), content: m.content.clone() })
            .collect(),
        max_tokens: original.max_tokens,
        temperature_bits: original.temperature_bits,
        stream: original.stream,
    });

    assert_eq!(irp.model, original.model);
    assert_eq!(irp.messages[0].content, "Tell me about Rust");
    assert_eq!(irp.max_tokens, original.max_tokens);
}

#[test]
fn openai_to_irp_defaults_stream_tools_and_metadata() {
    let irp = openai_to_irp(OpenAIChatRequest {
        model: "auto".to_string(),
        messages: vec![],
        max_tokens: None,
        temperature_bits: None,
        stream: None,
    });
    assert!(!irp.stream);
    assert!(irp.tools.is_none());
    assert!(irp.metadata.is_empty());
    assert_eq!(irp.temperature_bits, None);
    assert!(irp.messages.is_empty());
    let streamed = openai_to_irp(OpenAIChatRequest {
        model: "m".to_string(),
        messages: vec![],
        max_tokens: None,
        temperature_bits: Some(0.5f32.to_bits()),
        stream: Some(true),
    });
    assert!(streamed.stream);
    assert_eq!(f32::from_bits(streamed.temperature_bits.unwrap()), 0.5);
}

#[test]
fn openai_to_irp_gives_fresh_version_4_ids() {
    let make = || OpenAIChatRequest {
        model: "m".to_string(),
        messages: vec![],
        max_tokens: None,
        temperature_bits: None,
        stream: None,
    };
    let a = openai_to_irp(make());
    let b = openai_to_irp(make());
    assert_ne!(a.id, b.id);
    assert_eq!(Uuid::from_u128(a.id).get_version_num(), 4);
    assert_eq!((a.id >> 76) & 0xf, 4);
    assert_eq!((a.id >> 62) & 0x3, 2);
}

#[test]
fn irp_to_openai_fills_the_openai_envelope() {
    let id: u128 = 0x67e5_5044_10b1_426f_9247_bb68_0e5f_e0c8;
    let resp = irp_to_openai(InferenceResponse {
        id,
        request_id: 7,
        backend: "openai".to_string(),
        content: "answer".to_string(),
        usage: TokenUsage { prompt_tokens: 3, completion_tokens: 4, total_tokens: 7 },
        latency_ms: 42,
        cost_usd_bits: 0.25f64.to_bits(),
        model: "gpt-3.5-turbo".to_string(),
    });
    assert_eq!(resp.id, "67e55044-10b1-426f-9247-bb680e5fe0c8");
    assert_eq!(resp.id, Uuid::from_u128(id).to_string());
    assert_eq!(resp.object, "chat.completion");
    assert_eq!(resp.model, "gpt-3.5-turbo");
    assert_eq!(resp.choices[0].index, 0);
    assert_eq!(resp.choices[0].message.role, "assistant");
    assert_eq!(resp.choices[0].finish_reason, "stop");
    assert_eq!(resp.usage.prompt_tokens, 3);
    assert_eq!(resp.usage.completion_tokens, 4);
    assert_eq!(resp.latency_ms, 42);
    assert_eq!(f64::from_bits(resp.cost_usd_bits), 0.25);
}
