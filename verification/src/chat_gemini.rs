//! Message and tool conversion of the first Gemini chat client, which sends its system
//! instruction under role "system", always sends a tool configuration and restricts
//! calling only where one tool is named.

use vstd::prelude::*;

use crate::gemini_chat::{
    content_converted, count_system, others, split_messages, system_converted, GeminiContent, Message,
    calling_config_is, offered_tools, tools_offered, GeminiFunctionCallingConfig, GeminiFunctionCallingMode,
    GeminiTool, GeminiToolConfig, ToolChoice, ToolDefinition,
};

verus! {

/// Splits messages into Gemini's system instruction (role "system", one text part) and
/// the other contents; Gemini takes one system message at most.
pub fn convert_messages(messages: Vec<Message>) -> (r: Result<(Option<GeminiContent>, Vec<GeminiContent>), String>)
    ensures
        r is Err <==> count_system(messages@) > 1,
        r matches Err(m) ==> m@ == "Multiple System messages are not supported by Gemini; use 'system_instruction'."@,
        r matches Ok((sys, contents)) ==> {
            &&& contents@.len() == others(messages@).len()
            &&& forall|j: int| 0 <= j < contents@.len() ==> content_converted(others(messages@)[j], #[trigger] contents@[j])
            &&& (count_system(messages@) == 0 <==> sys is None)
            &&& sys matches Some(c) ==> system_converted(messages@, c, "system"@)
        },
{
    split_messages(messages, "system")
}

/// Tools and tool configuration for a request: a named tool allows that function alone
/// (mode `Any`); every other choice sends a configuration that sets nothing.
pub fn convert_tools(tools: Option<Vec<ToolDefinition>>, tool_choice: &Option<ToolChoice>) -> (r: (
    Option<Vec<GeminiTool>>,
    Option<GeminiToolConfig>,
))
    ensures
        tools_offered(tools, r.0),
        !(tool_choice matches Some(ToolChoice::Tool { .. })) ==> (r.1 matches Some(c)
            && c.function_calling_config is None),
        tool_choice matches Some(ToolChoice::Tool { name }) ==> calling_config_is(
            r.1,
            GeminiFunctionCallingMode::Any,
            Some(seq![name@]),
        ),
{
    let config = match tool_choice {
        Some(ToolChoice::Tool { name }) => {
            let mut names: Vec<String> = Vec::new();
            names.push(name.clone());
            assert(names@.map_values(|n: String| n@) =~= seq![name@]);
            GeminiToolConfig {
                function_calling_config: Some(
                    GeminiFunctionCallingConfig {
                        mode: GeminiFunctionCallingMode::Any,
                        allowed_function_names: Some(names),
                    },
                ),
            }
        },
        _ => GeminiToolConfig { function_calling_config: None },
    };
    (offered_tools(tools), Some(config))
}

} // verus!
