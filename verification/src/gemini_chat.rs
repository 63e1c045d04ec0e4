use base64::Engine;
use vstd::prelude::*;

use crate::text::{push_char, push_str};

verus! {

#[verifier::external_type_specification]
#[verifier::external_body]
pub struct ExJsonValue(serde_json::Value);

/// Standard base64 text (with padding) of `data`.
pub uninterp spec fn base64_standard(data: Seq<u8>) -> Seq<char>;

/// What decoding standard base64 text `s` gives: the bytes, or the error text.
pub uninterp spec fn base64_decoded(s: Seq<char>) -> Result<Seq<u8>, Seq<char>>;

/// Calls `base64::engine::general_purpose::STANDARD.encode`; a function of `data`.
#[verifier::external_body]
fn base64_encode(data: &Vec<u8>) -> (r: String)
    ensures
        r@ == base64_standard(data@),
{
    base64::engine::general_purpose::STANDARD.encode(data)
}

/// Calls `base64::engine::general_purpose::STANDARD.decode`: the bytes, or the error's
/// text; a function of `s`. Decoding what encoding gave yields the bytes encoded.
#[verifier::external_body]
pub(crate) fn base64_decode(s: &str) -> (r: Result<Vec<u8>, String>)
    ensures
        match r {
            Ok(b) => base64_decoded(s@) == Ok::<Seq<u8>, Seq<char>>(b@),
            Err(m) => base64_decoded(s@) == Err::<Seq<u8>, Seq<char>>(m@),
        },
        forall|b: Seq<u8>| base64_standard(b) == s@ ==> r is Ok && r->Ok_0@ == b,
{
    match base64::engine::general_purpose::STANDARD.decode(s) {
        Ok(b) => Ok(b),
        Err(e) => Err(e.to_string()),
    }
}

/// Calls `uuid::Uuid::new_v4` and gives the UUID's text (`Display`). Random: nothing is
/// stated of the text.
#[verifier::external_body]
fn random_uuid_text() -> (r: String) {
    uuid::Uuid::new_v4().to_string()
}

/// The id of a tool call made from the text of a UUID: `gemini-` followed by that text.
pub fn tool_call_id(uuid: &str) -> (r: String)
    ensures
        r@ == "gemini-"@ + uuid@,
{
    let mut r = String::from_str("gemini-");
    push_str(&mut r, uuid);
    r
}

/// A fresh tool-call id: `gemini-` followed by the text of a random UUID.
fn new_tool_call_id() -> (r: String)
    ensures
        exists|u: Seq<char>| r@ == "gemini-"@ + u,
{
    let u = random_uuid_text();
    tool_call_id(u.as_str())
}

/// A part of a chat message.
#[derive(Debug, Clone, PartialEq)]
pub enum ContentPart {
    Text(String),
    Image { mime_type: String, data: Vec<u8> },
}

/// A tool call the model asks for.
#[derive(Debug)]
pub struct ToolCallRequest {
    pub id: String,
    pub name: String,
    pub arguments: serde_json::Value,
}

/// The result of a tool call, handed back to the model.
#[derive(Debug)]
pub struct ToolResult {
    pub call_id: String,
    pub name: String,
    pub content: serde_json::Value,
}

/// A chat message.
#[derive(Debug)]
pub enum Message {
    System(Vec<ContentPart>),
    User(Vec<ContentPart>),
    Assistant { content: Vec<ContentPart>, tool_calls: Vec<ToolCallRequest> },
    Tool(Vec<ToolResult>),
}

/// Inline data in a Gemini part: a MIME type and base64 text.
#[derive(Debug, Clone)]
pub struct GeminiBlob {
    pub mime_type: String,
    pub data: String,
}

#[derive(Debug)]
pub struct GeminiFunctionCall {
    pub name: String,
    pub args: serde_json::Value,
}

#[derive(Debug)]
pub struct GeminiFunctionResponse {
    pub name: String,
    pub response: serde_json::Value,
}

/// A part of Gemini content.
#[derive(Debug)]
pub enum GeminiPart {
    Text { text: String },
    InlineData { inline_data: GeminiBlob },
    FunctionCall { function_call: GeminiFunctionCall },
    FunctionResponse { function_response: GeminiFunctionResponse },
}

/// Gemini content: a role ("user", "model", "function", "system") and parts.
#[derive(Debug)]
pub struct GeminiContent {
    pub role: String,
    pub parts: Vec<GeminiPart>,
}

pub open spec fn text_part_is(g: GeminiPart, t: Seq<char>) -> bool {
    match g {
        GeminiPart::Text { text } => text@ == t,
        _ => false,
    }
}

pub open spec fn call_part_is(g: GeminiPart, name: Seq<char>, args: serde_json::Value) -> bool {
    match g {
        GeminiPart::FunctionCall { function_call } => function_call.name@ == name && function_call.args == args,
        _ => false,
    }
}

pub open spec fn response_part_is(g: GeminiPart, name: Seq<char>, response: serde_json::Value) -> bool {
    match g {
        GeminiPart::FunctionResponse { function_response } => function_response.name@ == name
            && function_response.response == response,
        _ => false,
    }
}

/// The Gemini part for a message part: text as it is, an image as base64 inline data.
pub open spec fn part_converted(p: ContentPart, g: GeminiPart) -> bool {
    match p {
        ContentPart::Text(t) => g matches GeminiPart::Text { text } && text@ == t@,
        ContentPart::Image { mime_type, data } => g matches GeminiPart::InlineData { inline_data }
            && inline_data.mime_type@ == mime_type@ && inline_data.data@ == base64_standard(data@),
    }
}

pub fn gemini_part_from(part: ContentPart) -> (r: GeminiPart)
    ensures
        part_converted(part, r),
{
    match part {
        ContentPart::Text(text) => GeminiPart::Text { text },
        ContentPart::Image { mime_type, data } => {
            let encoded = base64_encode(&data);
            GeminiPart::InlineData { inline_data: GeminiBlob { mime_type, data: encoded } }
        },
    }
}

/// The texts of the text parts, joined by newlines.
pub open spec fn joined_text(parts: Seq<ContentPart>) -> Seq<char>
    decreases parts.len(),
{
    if parts.len() == 0 {
        Seq::empty()
    } else {
        let prev = joined_text(parts.drop_last());
        match parts.last() {
            ContentPart::Text(t) => if has_text(parts.drop_last()) {
                prev + seq!['\n'] + t@
            } else {
                t@
            },
            _ => prev,
        }
    }
}

pub open spec fn has_text(parts: Seq<ContentPart>) -> bool {
    exists|i: int| 0 <= i < parts.len() && parts[i] is Text
}

proof fn lemma_joined_text_empty(parts: Seq<ContentPart>)
    requires
        !has_text(parts),
    ensures
        joined_text(parts) == Seq::<char>::empty(),
    decreases parts.len(),
{
    if parts.len() > 0 {
        let pre = parts.drop_last();
        assert(!has_text(pre)) by {
            if has_text(pre) {
                let j = choose|j: int| 0 <= j < pre.len() && pre[j] is Text;
                assert(parts[j] == pre[j]);
            }
        }
        lemma_joined_text_empty(pre);
        assert(!(parts[parts.len() - 1] is Text));
    }
}

fn joined_text_exec(parts: &Vec<ContentPart>) -> (r: String)
    ensures
        r@ == joined_text(parts@),
{
    let mut r = String::new();
    let mut any = false;
    let mut i: usize = 0;
    assert(parts@.take(0) =~= Seq::<ContentPart>::empty());
    while i < parts.len()
        invariant
            i <= parts.len(),
            r@ == joined_text(parts@.take(i as int)),
            any == has_text(parts@.take(i as int)),
        decreases parts.len() - i,
    {
        let ghost pre = parts@.take(i as int);
        let ghost next = parts@.take(i + 1);
        assert(next.drop_last() =~= pre);
        match &parts[i] {
            ContentPart::Text(t) => {
                proof {
                    if !any {
                        lemma_joined_text_empty(pre);
                    }
                }
                if any {
                    push_char(&mut r, '\n');
                }
                push_str(&mut r, t.as_str());
                proof {
                    assert(next[i as int] is Text);
                }
                any = true;
            },
            _ => {
                proof {
                    if has_text(next) {
                        let j = choose|j: int| 0 <= j < next.len() && next[j] is Text;
                        assert(j < i);
                        assert(pre[j] == next[j]);
                    }
                }
            },
        }
        proof {
            if any && !has_text(pre) {
                assert(next[i as int] is Text);
            }
            if has_text(pre) {
                let j = choose|j: int| 0 <= j < pre.len() && pre[j] is Text;
                assert(next[j] == pre[j]);
            }
        }
        i = i + 1;
    }
    assert(parts@.take(parts.len() as int) =~= parts@);
    r
}

/// What a message becomes in Gemini content.
pub open spec fn content_converted(m: Message, c: GeminiContent) -> bool {
    match m {
        Message::System(parts) => c.role@ == "system"@ && c.parts@.len() == 1 && text_part_is(
            c.parts@[0],
            joined_text(parts@),
        ),
        Message::User(parts) => c.role@ == "user"@ && c.parts@.len() == parts@.len() && forall|i: int|
            0 <= i < parts@.len() ==> part_converted(parts@[i], #[trigger] c.parts@[i]),
        Message::Assistant { content, tool_calls } => {
            &&& c.role@ == "model"@
            &&& c.parts@.len() == content@.len() + tool_calls@.len()
            &&& forall|i: int| 0 <= i < content@.len() ==> part_converted(content@[i], #[trigger] c.parts@[i])
            &&& forall|i: int|
                0 <= i < tool_calls@.len() ==> call_part_is(
                    #[trigger] c.parts@[content@.len() + i],
                    tool_calls@[i].name@,
                    tool_calls@[i].arguments,
                )
        },
        Message::Tool(results) => {
            &&& c.role@ == "function"@
            &&& c.parts@.len() == results@.len()
            &&& forall|i: int|
                0 <= i < results@.len() ==> response_part_is(
                    #[trigger] c.parts@[i],
                    results@[i].name@,
                    results@[i].content,
                )
        },
    }
}

fn convert_parts(parts: Vec<ContentPart>) -> (r: Vec<GeminiPart>)
    ensures
        r@.len() == parts@.len(),
        forall|i: int| 0 <= i < parts@.len() ==> part_converted(parts@[i], #[trigger] r@[i]),
{
    let mut parts = parts;
    let ghost all = parts@;
    let mut out: Vec<GeminiPart> = Vec::new();
    let n = parts.len();
    assert(all.skip(0) =~= all);
    while out.len() < n
        invariant
            n == all.len(),
            out@.len() <= n,
            parts@ == all.skip(out@.len() as int),
            forall|i: int| 0 <= i < out@.len() ==> part_converted(all[i], #[trigger] out@[i]),
        decreases n - out@.len(),
    {
        let p = parts.remove(0);
        assert(parts@ =~= all.skip(out@.len() as int + 1));
        out.push(gemini_part_from(p));
    }
    out
}

/// Converts a message to Gemini content: a system message becomes one text part with
/// the texts of its text parts; tool calls follow the parts of an assistant message;
/// tool results become function responses.
pub fn gemini_content_from(message: Message) -> (r: GeminiContent)
    ensures
        content_converted(message, r),
{
    match message {
        Message::System(parts) => {
            let text = joined_text_exec(&parts);
            let mut v: Vec<GeminiPart> = Vec::new();
            v.push(GeminiPart::Text { text });
            GeminiContent { role: String::from_str("system"), parts: v }
        },
        Message::User(parts) => {
            GeminiContent { role: String::from_str("user"), parts: convert_parts(parts) }
        },
        Message::Assistant { content, tool_calls } => {
            let ghost calls = tool_calls@;
            let ghost content_all = content@;
            let base = content.len();
            let mut out = convert_parts(content);
            let mut tool_calls = tool_calls;
            let n = tool_calls.len();
            let mut k: usize = 0;
            assert(calls.skip(0) =~= calls);
            while k < n
                invariant
                    n == calls.len(),
                    base == content_all.len(),
                    k <= n,
                    out@.len() == base + k,
                    tool_calls@ == calls.skip(k as int),
                    forall|i: int| 0 <= i < base ==> part_converted(content_all[i], #[trigger] out@[i]),
                    forall|i: int| 0 <= i < k ==> call_part_is(#[trigger] out@[base + i], calls[i].name@, calls[i].arguments),
                decreases n - k,
            {
                let call = tool_calls.remove(0);
                assert(tool_calls@ =~= calls.skip(k + 1));
                out.push(GeminiPart::FunctionCall { function_call: GeminiFunctionCall { name: call.name, args: call.arguments } });
                k = k + 1;
            }
            GeminiContent { role: String::from_str("model"), parts: out }
        },
        Message::Tool(results) => {
            let ghost all = results@;
            let mut results = results;
            let mut out: Vec<GeminiPart> = Vec::new();
            let n = results.len();
            assert(all.skip(0) =~= all);
            while out.len() < n
                invariant
                    n == all.len(),
                    out@.len() <= n,
                    results@ == all.skip(out@.len() as int),
                    forall|i: int| 0 <= i < out@.len() ==> response_part_is(#[trigger] out@[i], all[i].name@, all[i].content),
                decreases n - out@.len(),
            {
                let res = results.remove(0);
                assert(results@ =~= all.skip(out@.len() as int + 1));
                out.push(GeminiPart::FunctionResponse { function_response: GeminiFunctionResponse { name: res.name, response: res.content } });
            }
            GeminiContent { role: String::from_str("function"), parts: out }
        },
    }
}

/// Why the model stopped.
#[derive(Debug, Clone, PartialEq, Eq)]
pub enum FinishReason {
    Stop,
    Length,
    ContentFilter,
    Unspecified,
    Other(String),
}

/// Why Gemini says it stopped.
#[derive(Debug, Clone, Copy, PartialEq, Eq, Structural)]
pub enum GeminiFinishReason {
    Stop,
    MaxTokens,
    Safety,
    Recitation,
    Blocklist,
    ProhibitedContent,
    Spii,
    MalformedFunctionCall,
    Other,
    Unspecified,
}

pub open spec fn finish_reason_spec(r: GeminiFinishReason, f: FinishReason) -> bool {
    match r {
        GeminiFinishReason::Stop => f == FinishReason::Stop,
        GeminiFinishReason::MaxTokens => f == FinishReason::Length,
        GeminiFinishReason::Safety | GeminiFinishReason::ProhibitedContent | GeminiFinishReason::Spii => f
            == FinishReason::ContentFilter,
        GeminiFinishReason::Recitation => f matches FinishReason::Other(m) && m@ == "Recitation"@,
        GeminiFinishReason::Blocklist => f matches FinishReason::Other(m) && m@ == "Blocklist"@,
        GeminiFinishReason::MalformedFunctionCall => f matches FinishReason::Other(m) && m@
            == "MalformedFunctionCall"@,
        GeminiFinishReason::Other => f matches FinishReason::Other(m) && m@ == "Unknown"@,
        GeminiFinishReason::Unspecified => f == FinishReason::Unspecified,
    }
}

pub fn finish_reason_from(r: GeminiFinishReason) -> (f: FinishReason)
    ensures
        finish_reason_spec(r, f),
{
    match r {
        GeminiFinishReason::Stop => FinishReason::Stop,
        GeminiFinishReason::MaxTokens => FinishReason::Length,
        GeminiFinishReason::Safety => FinishReason::ContentFilter,
        GeminiFinishReason::Recitation => FinishReason::Other(String::from_str("Recitation")),
        GeminiFinishReason::Blocklist => FinishReason::Other(String::from_str("Blocklist")),
        GeminiFinishReason::ProhibitedContent => FinishReason::ContentFilter,
        GeminiFinishReason::Spii => FinishReason::ContentFilter,
        GeminiFinishReason::MalformedFunctionCall => FinishReason::Other(String::from_str("MalformedFunctionCall")),
        GeminiFinishReason::Other => FinishReason::Other(String::from_str("Unknown")),
        GeminiFinishReason::Unspecified => FinishReason::Unspecified,
    }
}

/// Token usage of a request.
#[derive(Debug, Clone, Copy, PartialEq, Eq, Structural, Default)]
pub struct UsageInfo {
    pub prompt_tokens: Option<u32>,
    pub completion_tokens: Option<u32>,
    pub total_tokens: Option<u32>,
}

/// Token usage as Gemini reports it.
#[derive(Debug, Clone, Copy, PartialEq, Eq, Structural, Default)]
pub struct GeminiUsageMetadata {
    pub prompt_token_count: Option<u32>,
    /// Summed over all candidates.
    pub candidates_token_count: Option<u32>,
    pub total_token_count: Option<u32>,
}

pub fn usage_from(u: GeminiUsageMetadata) -> (r: UsageInfo)
    ensures
        r == (UsageInfo {
            prompt_tokens: u.prompt_token_count,
            completion_tokens: u.candidates_token_count,
            total_tokens: u.total_token_count,
        }),
{
    UsageInfo { prompt_tokens: u.prompt_token_count, completion_tokens: u.candidates_token_count, total_tokens: u.total_token_count }
}

/// Whether and which tools the model may call.
#[derive(Debug, Clone, PartialEq, Eq)]
pub enum ToolChoice {
    Auto,
    Required,
    /// No tool may be called.
    Disabled,
    Tool { name: String },
}

/// Gemini's function calling modes.
#[derive(Debug, Clone, Copy, PartialEq, Eq, Structural)]
pub enum GeminiFunctionCallingMode {
    ModeUnspecified,
    Auto,
    Any,
    /// "NONE": no function is called.
    Disabled,
}

/// Gemini's mode for a tool choice; Gemini cannot force one tool, so that becomes `Any`.
pub fn calling_mode_from(choice: &ToolChoice) -> (r: GeminiFunctionCallingMode)
    ensures
        choice is Auto ==> r == GeminiFunctionCallingMode::Auto,
        choice is Required || choice is Tool ==> r == GeminiFunctionCallingMode::Any,
        choice is Disabled ==> r == GeminiFunctionCallingMode::Disabled,
{
    match choice {
        ToolChoice::Auto => GeminiFunctionCallingMode::Auto,
        ToolChoice::Required => GeminiFunctionCallingMode::Any,
        ToolChoice::Disabled => GeminiFunctionCallingMode::Disabled,
        ToolChoice::Tool { name: _ } => GeminiFunctionCallingMode::Any,
    }
}

/// The function calling configuration for a request: `None` leaves Gemini's default
/// (automatic when tools are given). `tool_count` is the number of tool groups offered,
/// if any are.
pub fn function_calling_config(choice: &Option<ToolChoice>, tool_count: Option<usize>) -> (r: Option<(GeminiFunctionCallingMode, Option<Vec<String>>)>)
    ensures
        (choice is None || choice == Some(ToolChoice::Auto)) ==> (if tool_count is Some {
            r is None
        } else {
            r matches Some((m, names)) && m == GeminiFunctionCallingMode::Disabled && names is None
        }),
        choice == Some(ToolChoice::Disabled) ==> (r matches Some((m, names)) && m == GeminiFunctionCallingMode::Disabled && names is None),
        choice == Some(ToolChoice::Required) ==> (if tool_count is None || tool_count == Some(0usize) {
            r is None
        } else {
            r matches Some((m, names)) && m == GeminiFunctionCallingMode::Any && names is None
        }),
        choice matches Some(ToolChoice::Tool { name }) ==> (r matches Some((m, names)) && m
            == GeminiFunctionCallingMode::Any && names is Some && names->0@.len() == 1 && names->0@[0]@ == name@),
{
    match choice {
        None => {
            if tool_count.is_some() {
                None
            } else {
                Some((GeminiFunctionCallingMode::Disabled, None))
            }
        },
        Some(ToolChoice::Auto) => {
            if tool_count.is_some() {
                None
            } else {
                Some((GeminiFunctionCallingMode::Disabled, None))
            }
        },
        Some(ToolChoice::Disabled) => Some((GeminiFunctionCallingMode::Disabled, None)),
        Some(ToolChoice::Required) => {
            match tool_count {
                None => None,
                Some(n) => {
                    if n == 0 {
                        None
                    } else {
                        Some((GeminiFunctionCallingMode::Any, None))
                    }
                },
            }
        },
        Some(ToolChoice::Tool { name }) => {
            let mut v: Vec<String> = Vec::new();
            v.push(name.clone());
            Some((GeminiFunctionCallingMode::Any, Some(v)))
        },
    }
}

/// The JSON schema of a tool's parameters.
#[derive(Debug)]
pub struct ToolParameterSchema {
    /// The schema's `type`, such as "object".
    pub schema_type: String,
    /// The schema of each parameter, by name.
    pub properties: Vec<(String, serde_json::Value)>,
    /// The parameters that must be given.
    pub required: Vec<String>,
}

/// A tool that a model may call.
#[derive(Debug)]
pub struct ToolDefinition {
    pub name: String,
    pub description: String,
    pub parameters: ToolParameterSchema,
}

/// A function as Gemini declares it.
#[derive(Debug)]
pub struct GeminiFunctionDeclaration {
    pub name: String,
    pub description: String,
    pub parameters: ToolParameterSchema,
}

/// A group of functions offered to Gemini.
#[derive(Debug)]
pub struct GeminiTool {
    pub function_declarations: Vec<GeminiFunctionDeclaration>,
}

/// How Gemini may call functions, and which.
#[derive(Debug)]
pub struct GeminiFunctionCallingConfig {
    pub mode: GeminiFunctionCallingMode,
    pub allowed_function_names: Option<Vec<String>>,
}

/// Gemini's tool configuration.
#[derive(Debug)]
pub struct GeminiToolConfig {
    pub function_calling_config: Option<GeminiFunctionCallingConfig>,
}

/// The declaration of each tool, in order.
pub open spec fn declarations_of(defs: Seq<ToolDefinition>) -> Seq<GeminiFunctionDeclaration> {
    defs.map_values(
        |d: ToolDefinition|
            GeminiFunctionDeclaration { name: d.name, description: d.description, parameters: d.parameters },
    )
}

/// Whether `r` offers the tools `tools`: all in one group, in order; nothing when none are given.
pub open spec fn tools_offered(tools: Option<Vec<ToolDefinition>>, r: Option<Vec<GeminiTool>>) -> bool {
    match tools {
        None => r is None,
        Some(defs) => r matches Some(groups) && groups@.len() == 1 && groups@[0].function_declarations@
            == declarations_of(defs@),
    }
}

/// The declarations of the tools, in order.
pub fn tool_declarations(defs: Vec<ToolDefinition>) -> (r: Vec<GeminiFunctionDeclaration>)
    ensures
        r@ == declarations_of(defs@),
{
    let mut defs = defs;
    let ghost all = defs@;
    let mut out: Vec<GeminiFunctionDeclaration> = Vec::new();
    while defs.len() > 0
        invariant
            out@ + declarations_of(defs@) == declarations_of(all),
        decreases defs.len(),
    {
        let ghost before = defs@;
        let d = defs.remove(0);
        proof {
            assert(before =~= seq![d] + defs@);
            assert(declarations_of(before) =~= declarations_of(seq![d]) + declarations_of(defs@));
        }
        out.push(GeminiFunctionDeclaration { name: d.name, description: d.description, parameters: d.parameters });
        proof {
            assert(out@ + declarations_of(defs@) =~= declarations_of(all));
        }
    }
    assert(declarations_of(defs@) =~= Seq::<GeminiFunctionDeclaration>::empty());
    assert(out@ =~= declarations_of(all));
    out
}

/// The tools offered in a request: one group holding all the declarations.
pub fn offered_tools(tools: Option<Vec<ToolDefinition>>) -> (r: Option<Vec<GeminiTool>>)
    ensures
        tools_offered(tools, r),
{
    match tools {
        None => None,
        Some(defs) => {
            let mut groups: Vec<GeminiTool> = Vec::new();
            groups.push(GeminiTool { function_declarations: tool_declarations(defs) });
            Some(groups)
        },
    }
}

/// Whether `c` sets calling mode `mode` with allowed function names `names`.
pub open spec fn calling_config_is(
    c: Option<GeminiToolConfig>,
    mode: GeminiFunctionCallingMode,
    names: Option<Seq<Seq<char>>>,
) -> bool {
    c matches Some(tc) && tc.function_calling_config matches Some(fc) && fc.mode == mode && match names {
        None => fc.allowed_function_names is None,
        Some(ns) => fc.allowed_function_names matches Some(v) && v@.map_values(|n: String| n@) == ns,
    }
}

/// Tools and tool configuration for a request. Left out, the configuration means Gemini's
/// default, which is automatic calling when tools are offered. Requiring a call needs
/// offered tools: a tool list, even an empty one, is offered as one group.
pub fn convert_tools(tools: Option<Vec<ToolDefinition>>, tool_choice: &Option<ToolChoice>) -> (r: (
    Option<Vec<GeminiTool>>,
    Option<GeminiToolConfig>,
))
    ensures
        tools_offered(tools, r.0),
        (tool_choice is None || *tool_choice == Some(ToolChoice::Auto)) ==> (if tools is Some {
            r.1 is None
        } else {
            calling_config_is(r.1, GeminiFunctionCallingMode::Disabled, None)
        }),
        *tool_choice == Some(ToolChoice::Disabled) ==> calling_config_is(
            r.1,
            GeminiFunctionCallingMode::Disabled,
            None,
        ),
        *tool_choice == Some(ToolChoice::Required) ==> (if tools is None {
            r.1 is None
        } else {
            calling_config_is(r.1, GeminiFunctionCallingMode::Any, None)
        }),
        tool_choice matches Some(ToolChoice::Tool { name }) ==> calling_config_is(
            r.1,
            GeminiFunctionCallingMode::Any,
            Some(seq![name@]),
        ),
{
    let offered = offered_tools(tools);
    let count = match &offered {
        Some(groups) => Some(groups.len()),
        None => None,
    };
    let config = match function_calling_config(tool_choice, count) {
        Some((mode, names)) => Some(
            GeminiToolConfig {
                function_calling_config: Some(GeminiFunctionCallingConfig { mode, allowed_function_names: names }),
            },
        ),
        None => None,
    };
    proof {
        match &config {
            Some(tc) => {
                match &tc.function_calling_config {
                    Some(fc) => {
                        match &fc.allowed_function_names {
                            Some(v) => {
                                if v@.len() == 1 {
                                    assert(v@.map_values(|n: String| n@) =~= seq![v@[0]@]);
                                }
                            },
                            None => {},
                        }
                    },
                    None => {},
                }
            },
            None => {},
        }
    }
    (offered, config)
}

/// Splits messages into Gemini's system instruction (role "user", one text part) and the
/// other contents; Gemini takes one system message at most.
pub fn convert_messages(messages: Vec<Message>) -> (r: Result<(Option<GeminiContent>, Vec<GeminiContent>), String>)
    ensures
        r is Err <==> count_system(messages@) > 1,
        r matches Err(m) ==> m@ == "Multiple System messages are not supported by Gemini; use 'system_instruction'."@,
        r matches Ok((sys, contents)) ==> {
            &&& contents@.len() == others(messages@).len()
            &&& forall|j: int| 0 <= j < contents@.len() ==> content_converted(others(messages@)[j], #[trigger] contents@[j])
            &&& (count_system(messages@) == 0 <==> sys is None)
            &&& sys matches Some(c) ==> system_converted(messages@, c, "user"@)
        },
{
    split_messages(messages, "user")
}

/// Splits messages into a system instruction under role `system_role` (one text part, the
/// texts of the first system message joined by newlines) and the other contents, each
/// converted; a second system message is refused.
pub(crate) fn split_messages(messages: Vec<Message>, system_role: &str) -> (r: Result<(Option<GeminiContent>, Vec<GeminiContent>), String>)
    ensures
        r is Err <==> count_system(messages@) > 1,
        r matches Err(m) ==> m@ == "Multiple System messages are not supported by Gemini; use 'system_instruction'."@,
        r matches Ok((sys, contents)) ==> {
            &&& contents@.len() == others(messages@).len()
            &&& forall|j: int| 0 <= j < contents@.len() ==> content_converted(others(messages@)[j], #[trigger] contents@[j])
            &&& (count_system(messages@) == 0 <==> sys is None)
            &&& sys matches Some(c) ==> system_converted(messages@, c, system_role@)
        },
{
    let ghost all = messages@;
    let n = messages.len();
    let mut rest = messages;
    let mut system: Option<GeminiContent> = None;
    let mut contents: Vec<GeminiContent> = Vec::new();
    let mut i: usize = 0;
    assert(all.skip(0) =~= all);
    assert(all.take(0) =~= Seq::<Message>::empty());
    while i < n
        invariant
            n == all.len(),
            all == messages@,
            i <= n,
            rest@ == all.skip(i as int),
            0 <= count_system(all.take(i as int)) <= 1,
            system is Some <==> count_system(all.take(i as int)) == 1,
            system matches Some(c) ==> system_converted(all.take(i as int), c, system_role@),
            contents@.len() == others(all.take(i as int)).len(),
            forall|j: int| 0 <= j < contents@.len() ==> content_converted(others(all.take(i as int))[j], #[trigger] contents@[j]),
        decreases n - i,
    {
        let m = rest.remove(0);
        assert(rest@ =~= all.skip(i as int + 1));
        assert(all.take(i + 1).drop_last() =~= all.take(i as int));
        assert(m == all[i as int]);
        assert(all.take(i + 1).last() == all[i as int]);
        assert(count_system(all.take(i + 1)) == count_system(all.take(i as int)) + (if all[i as int] is System {
            1int
        } else {
            0int
        }));
        match m {
            Message::System(parts) => {
                assert(all[i as int] is System);
                if system.is_some() {
                    proof {
                        lemma_count_system_prefix(all, i as int + 1);
                    }
                    return Err(String::from_str("Multiple System messages are not supported by Gemini; use 'system_instruction'."));
                }
                let text = joined_text_exec(&parts);
                let mut v: Vec<GeminiPart> = Vec::new();
                v.push(GeminiPart::Text { text });
                system = Some(GeminiContent { role: String::from_str(system_role), parts: v });
                proof {
                    lemma_no_system_first(all.take(i as int));
                }
            },
            other => {
                assert(!(all[i as int] is System));
                let ghost before = contents@;
                contents.push(gemini_content_from(other));
                proof {
                    assert(others(all.take(i + 1)) == others(all.take(i as int)).push(all[i as int]));
                    assert forall|j: int| 0 <= j < contents@.len() implies content_converted(
                        others(all.take(i + 1))[j],
                        #[trigger] contents@[j],
                    ) by {
                        if j < before.len() {
                            assert(contents@[j] == before[j]);
                        }
                    }
                    if system is Some {
                        lemma_system_converted_extend(all.take(i as int), all[i as int], system->0, system_role@);
                        assert(all.take(i as int).push(all[i as int]) =~= all.take(i + 1));
                    }
                }
            },
        }
        i = i + 1;
    }
    assert(all.take(n as int) =~= all);
    Ok((system, contents))
}

/// Number of system messages.
pub open spec fn count_system(ms: Seq<Message>) -> int
    decreases ms.len(),
{
    if ms.len() == 0 {
        0
    } else {
        count_system(ms.drop_last()) + if ms.last() is System {
            1int
        } else {
            0int
        }
    }
}

proof fn lemma_count_system_prefix(ms: Seq<Message>, i: int)
    requires
        0 <= i <= ms.len(),
    ensures
        count_system(ms.take(i)) <= count_system(ms),
    decreases ms.len() - i,
{
    if i < ms.len() {
        lemma_count_system_prefix(ms, i + 1);
        assert(ms.take(i + 1).drop_last() =~= ms.take(i));
    } else {
        assert(ms.take(i) =~= ms);
    }
}

/// The messages that are not system messages, in order.
pub open spec fn others(ms: Seq<Message>) -> Seq<Message>
    decreases ms.len(),
{
    if ms.len() == 0 {
        Seq::empty()
    } else if ms.last() is System {
        others(ms.drop_last())
    } else {
        others(ms.drop_last()).push(ms.last())
    }
}

/// `c` is the system instruction that system message `m` makes, under role `role`.
pub open spec fn instruction_of(m: Message, c: GeminiContent, role: Seq<char>) -> bool {
    match m {
        Message::System(parts) => c.role@ == role && c.parts@.len() == 1 && text_part_is(
            c.parts@[0],
            joined_text(parts@),
        ),
        _ => false,
    }
}

/// `c` is the system instruction made of the first system message of `ms`, under role
/// `role`.
pub open spec fn system_converted(ms: Seq<Message>, c: GeminiContent, role: Seq<char>) -> bool {
    exists|k: int|
        0 <= k < ms.len() && (forall|j: int| 0 <= j < k ==> !(#[trigger] ms[j] is System)) && instruction_of(
            #[trigger] ms[k],
            c,
            role,
        )
}

proof fn lemma_no_system_first(ms: Seq<Message>)
    requires
        count_system(ms) == 0,
    ensures
        forall|j: int| 0 <= j < ms.len() ==> !(#[trigger] ms[j] is System),
    decreases ms.len(),
{
    if ms.len() > 0 {
        lemma_count_nonneg(ms.drop_last());
        lemma_no_system_first(ms.drop_last());
        assert forall|j: int| 0 <= j < ms.len() implies !(#[trigger] ms[j] is System) by {
            if j < ms.len() - 1 {
                assert(ms.drop_last()[j] == ms[j]);
            }
        }
    }
}

proof fn lemma_count_nonneg(ms: Seq<Message>)
    ensures
        count_system(ms) >= 0,
    decreases ms.len(),
{
    if ms.len() > 0 {
        lemma_count_nonneg(ms.drop_last());
    }
}

proof fn lemma_system_converted_extend(ms: Seq<Message>, m: Message, c: GeminiContent, role: Seq<char>)
    requires
        system_converted(ms, c, role),
    ensures
        system_converted(ms.push(m), c, role),
{
    let k = choose|k: int|
        0 <= k < ms.len() && (forall|j: int| 0 <= j < k ==> !(#[trigger] ms[j] is System)) && instruction_of(
            #[trigger] ms[k],
            c,
            role,
        );
    let ms2 = ms.push(m);
    assert(ms2[k] == ms[k]);
    assert forall|j: int| 0 <= j < k implies !(#[trigger] ms2[j] is System) by {
        assert(ms2[j] == ms[j]);
    }
}

/// A message part as specifications see it.
pub enum ContentView {
    Text(Seq<char>),
    Image(Seq<char>, Seq<u8>),
}

pub open spec fn content_view(p: ContentPart) -> ContentView {
    match p {
        ContentPart::Text(t) => ContentView::Text(t@),
        ContentPart::Image { mime_type, data } => ContentView::Image(mime_type@, data@),
    }
}

/// The content and tool calls (name, arguments) that the parts of a model answer give,
/// or the error of the first image that fails to decode.
pub open spec fn read_parts(parts: Seq<GeminiPart>) -> Result<(Seq<ContentView>, Seq<(Seq<char>, serde_json::Value)>), Seq<char>>
    decreases parts.len(),
{
    if parts.len() == 0 {
        Ok((Seq::empty(), Seq::empty()))
    } else {
        match read_parts(parts.drop_last()) {
            Err(m) => Err(m),
            Ok((c, t)) => match parts.last() {
                GeminiPart::Text { text } => Ok((c.push(ContentView::Text(text@)), t)),
                GeminiPart::InlineData { inline_data } => match base64_decoded(inline_data.data@) {
                    Ok(b) => Ok((c.push(ContentView::Image(inline_data.mime_type@, b)), t)),
                    Err(m) => Err("Failed to decode base64 image data: "@ + m),
                },
                GeminiPart::FunctionCall { function_call } => Ok((c, t.push((function_call.name@, function_call.args)))),
                GeminiPart::FunctionResponse { .. } => Ok((c, t)),
            },
        }
    }
}

/// A candidate answer of Gemini.
#[derive(Debug)]
pub struct GeminiCandidate {
    pub content: Option<GeminiContent>,
    pub finish_reason: Option<GeminiFinishReason>,
}

/// Gemini's answer to a generate request.
#[derive(Debug)]
pub struct GeminiGenerateResponse {
    pub candidates: Option<Vec<GeminiCandidate>>,
    pub usage_metadata: Option<GeminiUsageMetadata>,
}

/// A chat answer.
#[derive(Debug)]
pub struct ChatResponse {
    pub content: Vec<ContentPart>,
    pub tool_calls: Vec<ToolCallRequest>,
    pub usage: Option<UsageInfo>,
    pub finish_reason: Option<FinishReason>,
    pub model_id: Option<String>,
}

pub open spec fn usage_spec(u: GeminiUsageMetadata) -> UsageInfo {
    UsageInfo { prompt_tokens: u.prompt_token_count, completion_tokens: u.candidates_token_count, total_tokens: u.total_token_count }
}

/// The parts of a candidate that are read: those of its content when the model speaks.
pub open spec fn answer_parts(c: GeminiCandidate) -> Seq<GeminiPart> {
    match c.content {
        Some(gc) => if gc.role@ == "model"@ {
            gc.parts@
        } else {
            Seq::empty()
        },
        None => Seq::empty(),
    }
}

pub open spec fn calls_match(v: Seq<ToolCallRequest>, t: Seq<(Seq<char>, serde_json::Value)>) -> bool {
    &&& v.len() == t.len()
    &&& forall|i: int|
        0 <= i < v.len() ==> (#[trigger] v[i]).name@ == t[i].0 && v[i].arguments == t[i].1 && "gemini-"@.is_prefix_of(v[i].id@)
}

/// What every successful answer carries: the usage read and the model asked.
pub open spec fn response_frame(cr: ChatResponse, resp: GeminiGenerateResponse, model: Seq<char>) -> bool {
    &&& cr.usage == (match resp.usage_metadata {
        Some(u) => Some(usage_spec(u)),
        None => None,
    })
    &&& cr.model_id is Some
    &&& cr.model_id->Some_0@ == model
}

/// The answer read from a first candidate `c`.
pub open spec fn candidate_read(r: Result<ChatResponse, String>, c: GeminiCandidate) -> bool {
    match read_parts(answer_parts(c)) {
        Err(m) => r is Err && r->Err_0@ == m,
        Ok((cv, calls)) => {
            &&& r is Ok
            &&& r->Ok_0.content@.map_values(|p: ContentPart| content_view(p)) == cv
            &&& calls_match(r->Ok_0.tool_calls@, calls)
            &&& r->Ok_0.finish_reason is Some
            &&& match c.finish_reason {
                Some(f) => finish_reason_spec(f, r->Ok_0.finish_reason->Some_0),
                None => is_other_reason(r->Ok_0.finish_reason->Some_0, "Unknown finish reason"@),
            }
        },
    }
}

pub open spec fn is_other_reason(f: FinishReason, m: Seq<char>) -> bool {
    match f {
        FinishReason::Other(s) => s@ == m,
        _ => false,
    }
}

/// The answer when no candidate came.
pub open spec fn empty_answer(r: Result<ChatResponse, String>) -> bool {
    &&& r is Ok
    &&& r->Ok_0.content@.len() == 0
    &&& r->Ok_0.tool_calls@.len() == 0
    &&& r->Ok_0.finish_reason is Some
    &&& is_other_reason(r->Ok_0.finish_reason->Some_0, "No candidate received"@)
}

/// Reads Gemini's answer: the first candidate's text, images and tool calls (each call
/// with a fresh `gemini-` id), its finish reason, the usage, and the model asked. An
/// image whose data does not decode makes the answer an error with that message.
pub fn into_chat_response(resp: GeminiGenerateResponse, request_model_id: &str) -> (r: Result<ChatResponse, String>)
    ensures
        r is Ok ==> response_frame(r->Ok_0, resp, request_model_id@),
        (match resp.candidates {
            Some(v) => v@.len() > 0,
            None => false,
        }) ==> candidate_read(r, resp.candidates->Some_0@[0]),
        (match resp.candidates {
            Some(v) => v@.len() == 0,
            None => true,
        }) ==> empty_answer(r),
{
    let ghost cands = resp.candidates;
    let usage = match resp.usage_metadata {
        Some(u) => Some(usage_from(u)),
        None => None,
    };
    let first = match resp.candidates {
        Some(mut v) => {
            if v.len() > 0 {
                Some(v.remove(0))
            } else {
                None
            }
        },
        None => None,
    };
    match first {
        None => Ok(ChatResponse {
            content: Vec::new(),
            tool_calls: Vec::new(),
            usage,
            finish_reason: Some(FinishReason::Other(String::from_str("No candidate received"))),
            model_id: Some(request_model_id.to_owned()),
        }),
        Some(cand) => {
            let finish_reason = match cand.finish_reason {
                Some(f) => finish_reason_from(f),
                None => FinishReason::Other(String::from_str("Unknown finish reason")),
            };
            assert(cands is Some && cands->Some_0@.len() > 0 && cands->Some_0@[0] == cand);
            let ghost parts_all = answer_parts(cand);
            let mut parts: Vec<GeminiPart> = match cand.content {
                Some(gc) => {
                    if gc.role == String::from_str("model") {
                        gc.parts
                    } else {
                        Vec::new()
                    }
                },
                None => Vec::new(),
            };
            assert(parts@ == parts_all);
            let n = parts.len();
            let mut content: Vec<ContentPart> = Vec::new();
            let mut tool_calls: Vec<ToolCallRequest> = Vec::new();
            let mut i: usize = 0;
            assert(parts_all.skip(0) =~= parts_all);
            assert(parts_all.take(0) =~= Seq::<GeminiPart>::empty());
            assert(content@.map_values(|p: ContentPart| content_view(p)) =~= Seq::<ContentView>::empty());
            while i < n
                invariant
                    cands == resp.candidates,
                    cands is Some && cands->Some_0@.len() > 0,
                    parts_all == answer_parts(cands->Some_0@[0]),
                    n == parts_all.len(),
                    i <= n,
                    parts@ == parts_all.skip(i as int),
                    read_parts(parts_all.take(i as int)) matches Ok((cv, calls)) && content@.map_values(
                        |p: ContentPart| content_view(p),
                    ) == cv && calls_match(tool_calls@, calls),
                decreases n - i,
            {
                let part = parts.remove(0);
                assert(parts@ =~= parts_all.skip(i as int + 1));
                assert(parts_all.take(i + 1).drop_last() =~= parts_all.take(i as int));
                assert(parts_all.take(i + 1).last() == part);
                let ghost before_c = content@;
                let ghost before_t = tool_calls@;
                match part {
                    GeminiPart::Text { text } => {
                        content.push(ContentPart::Text(text));
                        assert(content@.map_values(|p: ContentPart| content_view(p)) =~= before_c.map_values(
                            |p: ContentPart| content_view(p),
                        ).push(content_view(content@.last())));
                    },
                    GeminiPart::InlineData { inline_data } => {
                        match base64_decode(inline_data.data.as_str()) {
                            Ok(data) => {
                                content.push(ContentPart::Image { mime_type: inline_data.mime_type, data });
                                assert(content@.map_values(|p: ContentPart| content_view(p)) =~= before_c.map_values(
                                    |p: ContentPart| content_view(p),
                                ).push(content_view(content@.last())));
                            },
                            Err(e) => {
                                let mut m = String::from_str("Failed to decode base64 image data: ");
                                push_str(&mut m, e.as_str());
                                proof {
                                    lemma_read_parts_stop(parts_all, i as int + 1);
                                    assert(parts_all.take(n as int) =~= parts_all);
                                }
                                return Err(m);
                            },
                        }
                    },
                    GeminiPart::FunctionCall { function_call } => {
                        let id = new_tool_call_id();
                        tool_calls.push(ToolCallRequest { id, name: function_call.name, arguments: function_call.args });
                        proof {
                            let calls = read_parts(parts_all.take(i + 1))->Ok_0.1;
                            assert forall|k: int| 0 <= k < tool_calls@.len() implies (#[trigger] tool_calls@[k]).name@ == calls[k].0
                                && tool_calls@[k].arguments == calls[k].1 && "gemini-"@.is_prefix_of(tool_calls@[k].id@) by {
                                if k < before_t.len() {
                                    assert(tool_calls@[k] == before_t[k]);
                                }
                            }
                        }
                    },
                    GeminiPart::FunctionResponse { function_response: _ } => {},
                }
                i = i + 1;
            }
            assert(parts_all.take(n as int) =~= parts_all);
            Ok(ChatResponse {
                content,
                tool_calls,
                usage,
                finish_reason: Some(finish_reason),
                model_id: Some(request_model_id.to_owned()),
            })
        },
    }
}

/// Once a prefix of the parts fails, so do all the parts.
proof fn lemma_read_parts_stop(parts: Seq<GeminiPart>, j: int)
    requires
        0 <= j <= parts.len(),
        read_parts(parts.take(j)) is Err,
    ensures
        read_parts(parts) == read_parts(parts.take(j)),
    decreases parts.len() - j,
{
    if j < parts.len() {
        assert(parts.take(j + 1).drop_last() =~= parts.take(j));
        lemma_read_parts_stop(parts, j + 1);
    } else {
        assert(parts.take(j) =~= parts);
    }
}


/// A model as Gemini lists it; its name reads `models/{id}`.
#[derive(Debug, Clone)]
pub struct GeminiModelInfo {
    pub name: String,
    pub display_name: Option<String>,
    pub description: Option<String>,
    pub input_token_limit: Option<u32>,
    pub output_token_limit: Option<u32>,
}

/// A model that can be chatted with.
#[derive(Debug, Clone, PartialEq)]
pub struct ModelInfo {
    pub id: String,
    pub description: Option<String>,
    pub context_window: Option<u32>,
    pub max_output_tokens: Option<u32>,
}

/// The part of `name` after its last `/` (all of it when there is none).
pub open spec fn last_segment(name: Seq<char>) -> Seq<char>
    decreases name.len(),
{
    if name.len() == 0 {
        Seq::empty()
    } else if name.last() == '/' {
        Seq::empty()
    } else {
        last_segment(name.drop_last()).push(name.last())
    }
}

pub open spec fn or_else_chars(a: Option<String>, b: Option<String>) -> Option<Seq<char>> {
    match a {
        Some(x) => Some(x@),
        None => match b {
            Some(y) => Some(y@),
            None => None,
        },
    }
}

/// The model a listed Gemini model is: its id is the last segment of its name, its
/// description the description or else the display name. A name that ends in `/` gives
/// none.
pub fn model_info_from(m: GeminiModelInfo) -> (r: Option<ModelInfo>)
    ensures
        last_segment(m.name@).len() == 0 <==> r is None,
        r matches Some(info) ==> {
            &&& info.id@ == last_segment(m.name@)
            &&& crate::md_chunker::opt_chars(info.description) == or_else_chars(m.description, m.display_name)
            &&& info.context_window == m.input_token_limit
            &&& info.max_output_tokens == m.output_token_limit
        },
{
    let v = crate::text::chars_of(m.name.as_str());
    let mut start = v.len();
    assert(v@.skip(start as int) =~= Seq::<char>::empty());
    assert(v@.take(start as int) =~= v@);
    assert(last_segment(v@) + Seq::<char>::empty() =~= last_segment(v@));
    while start > 0 && v[start - 1] != '/'
        invariant
            start <= v.len(),
            last_segment(v@) == last_segment(v@.take(start as int)) + v@.skip(start as int),
        decreases start,
    {
        assert(v@.take(start as int).drop_last() =~= v@.take(start - 1));
        assert(v@.skip(start - 1) =~= seq![v@[start - 1]] + v@.skip(start as int));
        assert(last_segment(v@.take(start as int)) =~= last_segment(v@.take(start - 1)).push(v@[start - 1]));
        start = start - 1;
    }
    proof {
        assert(last_segment(v@.take(start as int)) =~= Seq::<char>::empty()) by {
            if start > 0 {
                assert(v@.take(start as int).last() == '/');
            }
        }
        assert(last_segment(v@) =~= v@.skip(start as int));
    }
    if start == v.len() {
        return None;
    }
    let id = crate::text::string_of_range(&v, start, v.len());
    assert(id@ =~= v@.skip(start as int));
    let description = match m.description {
        Some(d) => Some(d),
        None => m.display_name,
    };
    Some(ModelInfo { id, description, context_window: m.input_token_limit, max_output_tokens: m.output_token_limit })
}

/// The chat models of a list, in order; models whose name gives no id are left out.
pub fn models_from(list: Vec<GeminiModelInfo>) -> (r: Vec<ModelInfo>)
    ensures
        r@.len() <= list@.len(),
        r@.len() == list@.filter(|m: GeminiModelInfo| last_segment(m.name@).len() > 0).len(),
        forall|i: int| 0 <= i < r@.len() ==> (#[trigger] r@[i]).id@ == last_segment(list@.filter(|m: GeminiModelInfo| last_segment(m.name@).len() > 0)[i].name@),
{
    let ghost all = list@;
    let ghost named = |m: GeminiModelInfo| last_segment(m.name@).len() > 0;
    let mut list = list;
    let mut out: Vec<ModelInfo> = Vec::new();
    let n = list.len();
    let mut i: usize = 0;
    proof {
        reveal(Seq::filter);
    }
    assert(all.skip(0) =~= all);
    assert(all.take(0).filter(named) =~= Seq::<GeminiModelInfo>::empty());
    while i < n
        invariant
            n == all.len(),
            i <= n,
            list@ == all.skip(i as int),
            named == (|m: GeminiModelInfo| last_segment(m.name@).len() > 0),
            out@.len() == all.take(i as int).filter(named).len(),
            forall|k: int| 0 <= k < out@.len() ==> (#[trigger] out@[k]).id@ == last_segment(all.take(i as int).filter(named)[k].name@),
        decreases n - i,
    {
        let m = list.remove(0);
        assert(list@ =~= all.skip(i + 1));
        assert(m == all[i as int]);
        proof {
            reveal(Seq::filter);
            assert(all.take(i + 1).drop_last() =~= all.take(i as int));
        }
        let ghost before = out@;
        match model_info_from(m) {
            Some(info) => {
                out.push(info);
            },
            None => {},
        }
        proof {
            assert forall|k: int| 0 <= k < out@.len() implies (#[trigger] out@[k]).id@ == last_segment(all.take(i + 1).filter(named)[k].name@) by {
                if k < before.len() {
                    assert(out@[k] == before[k]);
                }
            }
        }
        i = i + 1;
    }
    assert(all.take(n as int) =~= all);
    proof {
        lemma_filter_len_le(all, named);
    }
    out
}

proof fn lemma_filter_len_le(s: Seq<GeminiModelInfo>, f: spec_fn(GeminiModelInfo) -> bool)
    ensures
        s.filter(f).len() <= s.len(),
    decreases s.len(),
{
    reveal(Seq::filter);
    if s.len() > 0 {
        lemma_filter_len_le(s.drop_last(), f);
    }
}

/// The request path that generates with model `model_id`.
pub fn generate_path(model_id: &str) -> (r: String)
    ensures
        r@ == "models/"@ + model_id@ + ":generateContent"@,
{
    let mut r = String::from_str("models/");
    push_str(&mut r, model_id);
    push_str(&mut r, ":generateContent");
    r
}


/// The text parts of a message: those of a system, user or assistant message; none for
/// tool results.
pub open spec fn message_parts(m: Message) -> Seq<ContentPart> {
    match m {
        Message::System(p) => p@,
        Message::User(p) => p@,
        Message::Assistant { content, .. } => content@,
        Message::Tool(_) => Seq::empty(),
    }
}

/// The text of a message: its text parts joined by newlines.
pub fn message_text(m: &Message) -> (r: String)
    ensures
        r@ == joined_text(message_parts(*m)),
{
    match m {
        Message::System(p) => joined_text_exec(p),
        Message::User(p) => joined_text_exec(p),
        Message::Assistant { content, .. } => joined_text_exec(content),
        Message::Tool(_) => String::new(),
    }
}

} // verus!
