use markhor::gemini_chat::{generate_path, model_info_from, models_from, GeminiModelInfo, ModelInfo};
use markhor::gemini_chat::{
    calling_mode_from, convert_messages, finish_reason_from, function_calling_config, gemini_content_from,
    gemini_part_from, into_chat_response, usage_from, ChatResponse, ContentPart, FinishReason, GeminiBlob,
    GeminiCandidate, GeminiContent, GeminiFinishReason, GeminiFunctionCall, GeminiFunctionCallingMode,
    GeminiGenerateResponse, GeminiPart, GeminiUsageMetadata, Message, ToolCallRequest, ToolChoice, ToolResult,
    UsageInfo,
};
use markhor::chat_gemini;
use markhor::gemini_chat::{convert_tools, ToolDefinition, ToolParameterSchema};
use serde_json::Value;

fn text(s: &str) -> ContentPart {
    ContentPart::Text(s.to_string())
}

fn weather_result() -> Value {
    let mut m = serde_json::Map::new();
    m.insert("temp".to_string(), Value::from(25));
    m.insert("unit".to_string(), Value::from("C"));
    Value::Object(m)
}

fn assistant(s: &str) -> Message {
    Message::Assistant { content: vec![text(s)], tool_calls: vec![] }
}

#[test]
fn test_convert_messages_basic() {
    let messages = vec![
        Message::System(vec![text("Be helpful.")]),
        Message::User(vec![text("Hello")]),
        assistant("Hi! How can I help?"),
    ];
    let (system_instr, contents) = chat_gemini::convert_messages(messages).unwrap();

    assert!(system_instr.is_some());
    assert_eq!(system_instr.unwrap().parts.len(), 1);

    assert_eq!(contents.len(), 2);
    assert_eq!(contents[0].role, "user");
    assert!(matches!(contents[0].parts[0], GeminiPart::Text { ref text } if text == "Hello"));
    assert_eq!(contents[1].role, "model");
    assert!(matches!(contents[1].parts[0], GeminiPart::Text { ref text } if text == "Hi! How can I help?"));
}

#[test]
fn test_convert_messages_tool_result() {
    let messages = vec![
        Message::User(vec![text("What's the weather?")]),
        assistant("Okay, I can check that."),
        Message::Tool(vec![ToolResult {
            call_id: "123".to_string(),
            name: "get_weather".to_string(),
            content: weather_result(),
        }]),
    ];
    let (_system_instr, contents) = chat_gemini::convert_messages(messages).unwrap();

    assert_eq!(contents.len(), 3);
    assert_eq!(contents[0].role, "user");
    assert_eq!(contents[1].role, "model");
    assert_eq!(contents[2].role, "function");
    assert_eq!(contents[2].parts.len(), 1);
    match &contents[2].parts[0] {
        GeminiPart::FunctionResponse { function_response } => {
            assert_eq!(function_response.name, "get_weather");
            assert!(function_response.response.is_object());
            assert_eq!(function_response.response["temp"], 25);
        }
        _ => panic!("Expected FunctionResponse part"),
    }
}

#[test]
fn system_instruction_joins_texts_with_newlines() {
    let messages = vec![
        Message::User(vec![text("Hi")]),
        Message::System(vec![
            text("Rule one."),
            ContentPart::Image { mime_type: "image/png".to_string(), data: vec![1, 2] },
            text("Rule two."),
        ]),
    ];
    let (system_instr, contents) = convert_messages(messages).unwrap();
    let sys = system_instr.unwrap();
    assert_eq!(sys.role, "user");
    assert!(matches!(sys.parts[0], GeminiPart::Text { ref text } if text == "Rule one.\nRule two."));
    assert_eq!(contents.len(), 1);
}

#[test]
fn first_client_sends_system_instruction_as_system() {
    let messages = vec![Message::System(vec![text("Be brief.")]), Message::User(vec![text("Hi")])];
    let (system_instr, contents) = chat_gemini::convert_messages(messages).unwrap();
    let sys = system_instr.unwrap();
    assert_eq!(sys.role, "system");
    assert!(matches!(sys.parts[0], GeminiPart::Text { ref text } if text == "Be brief."));
    assert_eq!(contents.len(), 1);
    assert_eq!(contents[0].role, "user");
    let twice = vec![Message::System(vec![text("a")]), Message::System(vec![text("b")])];
    assert_eq!(
        chat_gemini::convert_messages(twice).unwrap_err(),
        "Multiple System messages are not supported by Gemini; use 'system_instruction'."
    );
}

#[test]
fn two_system_messages_are_refused() {
    let messages = vec![
        Message::System(vec![text("a")]),
        Message::User(vec![text("b")]),
        Message::System(vec![text("c")]),
    ];
    let err = convert_messages(messages).unwrap_err();
    assert_eq!(err, "Multiple System messages are not supported by Gemini; use 'system_instruction'.");
}

#[test]
fn no_messages_convert_to_nothing() {
    let (sys, contents) = convert_messages(vec![]).unwrap();
    assert!(sys.is_none());
    assert!(contents.is_empty());
}

#[test]
fn image_part_becomes_base64_inline_data() {
    let g = gemini_part_from(ContentPart::Image { mime_type: "image/png".to_string(), data: b"hello".to_vec() });
    match g {
        GeminiPart::InlineData { inline_data } => {
            assert_eq!(inline_data.mime_type, "image/png");
            assert_eq!(inline_data.data, "aGVsbG8=");
        }
        _ => panic!("expected inline data"),
    }
}

#[test]
fn assistant_tool_calls_follow_its_parts() {
    let m = Message::Assistant {
        content: vec![text("Let me look.")],
        tool_calls: vec![ToolCallRequest { id: "x".to_string(), name: "lookup".to_string(), arguments: Value::from(7) }],
    };
    let c = gemini_content_from(m);
    assert_eq!(c.role, "model");
    assert_eq!(c.parts.len(), 2);
    match &c.parts[1] {
        GeminiPart::FunctionCall { function_call } => {
            assert_eq!(function_call.name, "lookup");
            assert_eq!(function_call.args, Value::from(7));
        }
        _ => panic!("expected a function call"),
    }
    let s = gemini_content_from(Message::System(vec![text("x"), text("y")]));
    assert_eq!(s.role, "system");
    assert!(matches!(s.parts[0], GeminiPart::Text { ref text } if text == "x\ny"));
}

#[test]
fn finish_reasons_map() {
    assert_eq!(finish_reason_from(GeminiFinishReason::Stop), FinishReason::Stop);
    assert_eq!(finish_reason_from(GeminiFinishReason::MaxTokens), FinishReason::Length);
    assert_eq!(finish_reason_from(GeminiFinishReason::Safety), FinishReason::ContentFilter);
    assert_eq!(finish_reason_from(GeminiFinishReason::Spii), FinishReason::ContentFilter);
    assert_eq!(finish_reason_from(GeminiFinishReason::ProhibitedContent), FinishReason::ContentFilter);
    assert_eq!(finish_reason_from(GeminiFinishReason::Recitation), FinishReason::Other("Recitation".to_string()));
    assert_eq!(finish_reason_from(GeminiFinishReason::Blocklist), FinishReason::Other("Blocklist".to_string()));
    assert_eq!(
        finish_reason_from(GeminiFinishReason::MalformedFunctionCall),
        FinishReason::Other("MalformedFunctionCall".to_string())
    );
    assert_eq!(finish_reason_from(GeminiFinishReason::Other), FinishReason::Other("Unknown".to_string()));
    assert_eq!(finish_reason_from(GeminiFinishReason::Unspecified), FinishReason::Unspecified);
}

#[test]
fn usage_is_copied() {
    let u = usage_from(GeminiUsageMetadata {
        prompt_token_count: Some(3),
        candidates_token_count: Some(4),
        total_token_count: Some(7),
    });
    assert_eq!(u, UsageInfo { prompt_tokens: Some(3), completion_tokens: Some(4), total_tokens: Some(7) });
}

#[test]
fn calling_modes() {
    assert_eq!(calling_mode_from(&ToolChoice::Auto), GeminiFunctionCallingMode::Auto);
    assert_eq!(calling_mode_from(&ToolChoice::Required), GeminiFunctionCallingMode::Any);
    assert_eq!(calling_mode_from(&ToolChoice::Disabled), GeminiFunctionCallingMode::Disabled);
    assert_eq!(calling_mode_from(&ToolChoice::Tool { name: "f".to_string() }), GeminiFunctionCallingMode::Any);
}

#[test]
fn tool_config_choices() {
    assert_eq!(function_calling_config(&None, Some(1)), None);
    assert_eq!(function_calling_config(&Some(ToolChoice::Auto), Some(1)), None);
    assert_eq!(function_calling_config(&None, None), Some((GeminiFunctionCallingMode::Disabled, None)));
    assert_eq!(
        function_calling_config(&Some(ToolChoice::Disabled), Some(1)),
        Some((GeminiFunctionCallingMode::Disabled, None))
    );
    assert_eq!(function_calling_config(&Some(ToolChoice::Required), Some(1)), Some((GeminiFunctionCallingMode::Any, None)));
    assert_eq!(function_calling_config(&Some(ToolChoice::Required), Some(0)), None);
    assert_eq!(function_calling_config(&Some(ToolChoice::Required), None), None);
    assert_eq!(
        function_calling_config(&Some(ToolChoice::Tool { name: "my_func".to_string() }), Some(1)),
        Some((GeminiFunctionCallingMode::Any, Some(vec!["my_func".to_string()])))
    );
}

fn model_answer(parts: Vec<GeminiPart>, finish: Option<GeminiFinishReason>) -> GeminiGenerateResponse {
    GeminiGenerateResponse {
        candidates: Some(vec![GeminiCandidate {
            content: Some(GeminiContent { role: "model".to_string(), parts }),
            finish_reason: finish,
        }]),
        usage_metadata: Some(GeminiUsageMetadata {
            prompt_token_count: Some(10),
            candidates_token_count: Some(5),
            total_token_count: Some(15),
        }),
    }
}

#[test]
fn answer_with_text_image_and_call() {
    let resp = model_answer(
        vec![
            GeminiPart::Text { text: "Paris".to_string() },
            GeminiPart::InlineData {
                inline_data: GeminiBlob { mime_type: "image/png".to_string(), data: "aGVsbG8=".to_string() },
            },
            GeminiPart::FunctionCall {
                function_call: GeminiFunctionCall { name: "get_weather".to_string(), args: weather_result() },
            },
        ],
        Some(GeminiFinishReason::Stop),
    );
    let r: ChatResponse = into_chat_response(resp, "gemini-1.5-flash-latest").unwrap();
    assert_eq!(r.content.len(), 2);
    assert_eq!(r.content[0], text("Paris"));
    assert_eq!(r.content[1], ContentPart::Image { mime_type: "image/png".to_string(), data: b"hello".to_vec() });
    assert_eq!(r.tool_calls.len(), 1);
    assert_eq!(r.tool_calls[0].name, "get_weather");
    assert_eq!(r.tool_calls[0].arguments, weather_result());
    assert!(r.tool_calls[0].id.starts_with("gemini-"));
    assert_eq!(r.finish_reason, Some(FinishReason::Stop));
    assert_eq!(r.usage, Some(UsageInfo { prompt_tokens: Some(10), completion_tokens: Some(5), total_tokens: Some(15) }));
    assert_eq!(r.model_id, Some("gemini-1.5-flash-latest".to_string()));
}

#[test]
fn bad_image_data_is_an_error() {
    let resp = model_answer(
        vec![GeminiPart::InlineData {
            inline_data: GeminiBlob { mime_type: "image/png".to_string(), data: "***".to_string() },
        }],
        None,
    );
    let err = into_chat_response(resp, "m").unwrap_err();
    assert!(err.starts_with("Failed to decode base64 image data: "));
}

#[test]
fn no_candidate_gives_an_empty_answer() {
    let resp = GeminiGenerateResponse { candidates: Some(vec![]), usage_metadata: None };
    let r = into_chat_response(resp, "m").unwrap();
    assert!(r.content.is_empty());
    assert!(r.tool_calls.is_empty());
    assert_eq!(r.finish_reason, Some(FinishReason::Other("No candidate received".to_string())));
    assert_eq!(r.usage, None);
    assert_eq!(r.model_id, Some("m".to_string()));
}

#[test]
fn missing_finish_reason_and_other_roles() {
    let resp = GeminiGenerateResponse {
        candidates: Some(vec![GeminiCandidate {
            content: Some(GeminiContent {
                role: "user".to_string(),
                parts: vec![GeminiPart::Text { text: "ignored".to_string() }],
            }),
            finish_reason: None,
        }]),
        usage_metadata: None,
    };
    let r = into_chat_response(resp, "m").unwrap();
    assert!(r.content.is_empty());
    assert_eq!(r.finish_reason, Some(FinishReason::Other("Unknown finish reason".to_string())));
}

#[test]
fn image_survives_a_round_trip() {
    let bytes = vec![0u8, 255, 17, 42, 128];
    let g = gemini_part_from(ContentPart::Image { mime_type: "image/jpeg".to_string(), data: bytes.clone() });
    let r = into_chat_response(model_answer(vec![g], Some(GeminiFinishReason::Stop)), "m").unwrap();
    assert_eq!(r.content, vec![ContentPart::Image { mime_type: "image/jpeg".to_string(), data: bytes }]);
}

#[test]
fn listed_models_become_model_infos() {
    let m = GeminiModelInfo {
        name: "models/gemini-1.5-flash".to_string(),
        display_name: Some("Flash".to_string()),
        description: None,
        input_token_limit: Some(1000),
        output_token_limit: Some(100),
    };
    assert_eq!(
        model_info_from(m.clone()),
        Some(ModelInfo {
            id: "gemini-1.5-flash".to_string(),
            description: Some("Flash".to_string()),
            context_window: Some(1000),
            max_output_tokens: Some(100),
        })
    );
    let bad = GeminiModelInfo { name: "models/".to_string(), ..m.clone() };
    assert_eq!(model_info_from(bad.clone()), None);
    let plain = GeminiModelInfo { name: "plain".to_string(), description: Some("D".to_string()), ..m.clone() };
    let infos = models_from(vec![m, bad, plain]);
    assert_eq!(infos.len(), 2);
    assert_eq!(infos[1].id, "plain");
    assert_eq!(infos[1].description.as_deref(), Some("D"));
    assert_eq!(generate_path("gemini-pro"), "models/gemini-pro:generateContent");
}

fn tool_def() -> ToolDefinition {
    ToolDefinition {
        name: "my_func".to_string(),
        description: "d".to_string(),
        parameters: ToolParameterSchema { schema_type: "object".to_string(), properties: Default::default(), required: vec![] },
    }
}

#[test]
fn test_convert_tools_config() {
    // Auto (default when tools present)
    let (tools, cfg) = chat_gemini::convert_tools(Some(vec![tool_def()]), &None);
    assert!(tools.is_some());
    assert!(cfg.is_some());

    // Explicit Auto
    let (_, cfg) = chat_gemini::convert_tools(Some(vec![tool_def()]), &Some(ToolChoice::Auto));
    assert!(cfg.is_some());

    // None
    let (_, cfg) = chat_gemini::convert_tools(Some(vec![tool_def()]), &Some(ToolChoice::Disabled));
    assert!(cfg.is_some());

    // Required (Any)
    let (_, cfg) = chat_gemini::convert_tools(Some(vec![tool_def()]), &Some(ToolChoice::Required));
    assert!(cfg.is_some());

    // Specific Tool
    let (_, cfg) =
        chat_gemini::convert_tools(Some(vec![tool_def()]), &Some(ToolChoice::Tool { name: "my_func".to_string() }));
    assert!(cfg.is_some());
    let config = cfg.unwrap();
    assert!(config.function_calling_config.is_some());
    let func_cfg = config.function_calling_config.unwrap();
    assert!(matches!(func_cfg.mode, GeminiFunctionCallingMode::Any));
    assert_eq!(func_cfg.allowed_function_names, Some(vec!["my_func".to_string()]));
}

#[test]
fn first_client_sends_an_empty_configuration_for_other_choices() {
    for choice in [None, Some(ToolChoice::Auto), Some(ToolChoice::Disabled), Some(ToolChoice::Required)] {
        let (tools, cfg) = chat_gemini::convert_tools(None, &choice);
        assert!(tools.is_none());
        assert!(cfg.unwrap().function_calling_config.is_none());
    }
}

#[test]
fn tools_are_declared_in_one_group() {
    let mut second = tool_def();
    second.name = "other".to_string();
    second.parameters.properties.push(("city".to_string(), Value::from("string")));
    let (tools, cfg) = convert_tools(Some(vec![tool_def(), second]), &None);
    let groups = tools.unwrap();
    assert_eq!(groups.len(), 1);
    let names: Vec<&str> = groups[0].function_declarations.iter().map(|d| d.name.as_str()).collect();
    assert_eq!(names, vec!["my_func", "other"]);
    assert_eq!(groups[0].function_declarations[1].parameters.properties.len(), 1);
    assert_eq!(groups[0].function_declarations[0].parameters.schema_type, "object");
    assert!(cfg.is_none());
}

#[test]
fn tool_configuration_follows_the_choice() {
    let (tools, cfg) = convert_tools(None, &None);
    assert!(tools.is_none());
    let fc = cfg.unwrap().function_calling_config.unwrap();
    assert_eq!(fc.mode, GeminiFunctionCallingMode::Disabled);
    assert_eq!(fc.allowed_function_names, None);

    let (_, cfg) = convert_tools(Some(vec![tool_def()]), &Some(ToolChoice::Disabled));
    assert_eq!(cfg.unwrap().function_calling_config.unwrap().mode, GeminiFunctionCallingMode::Disabled);

    let (_, cfg) = convert_tools(Some(vec![tool_def()]), &Some(ToolChoice::Required));
    assert_eq!(cfg.unwrap().function_calling_config.unwrap().mode, GeminiFunctionCallingMode::Any);

    // An empty tool list is still offered as a group, so a call is required of it.
    let (_, cfg) = convert_tools(Some(vec![]), &Some(ToolChoice::Required));
    assert_eq!(cfg.unwrap().function_calling_config.unwrap().mode, GeminiFunctionCallingMode::Any);
    let (_, cfg) = convert_tools(None, &Some(ToolChoice::Required));
    assert!(cfg.is_none());

    let (_, cfg) = convert_tools(Some(vec![tool_def()]), &Some(ToolChoice::Tool { name: "my_func".to_string() }));
    let fc = cfg.unwrap().function_calling_config.unwrap();
    assert_eq!(fc.mode, GeminiFunctionCallingMode::Any);
    assert_eq!(fc.allowed_function_names, Some(vec!["my_func".to_string()]));
}

#[test]
fn tool_call_ids_carry_the_gemini_prefix() {
    assert_eq!(markhor::gemini_chat::tool_call_id("123e4567-e89b-12d3-a456-426614174000"), "gemini-123e4567-e89b-12d3-a456-426614174000");
    assert_eq!(markhor::gemini_chat::tool_call_id(""), "gemini-");
}
