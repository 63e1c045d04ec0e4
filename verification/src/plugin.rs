use vstd::prelude::*;

use crate::text::push_str;

verus! {

/// Who speaks in a chat message.
#[derive(Debug, Clone, Copy, PartialEq, Eq, Structural)]
pub enum MessageRole {
    Developer,
    User,
    Assistant,
}

/// A chat message as a plugin script exchanges it.
#[derive(Debug, Clone)]
pub struct ChatMessage {
    /// "system", "user" or "model".
    pub role: String,
    pub content: String,
}

/// The name a plugin script gives a role.
pub open spec fn role_name_spec(role: MessageRole) -> Seq<char> {
    match role {
        MessageRole::Developer => "system"@,
        MessageRole::User => "user"@,
        MessageRole::Assistant => "model"@,
    }
}

/// The role a plugin script's name stands for.
pub open spec fn parse_role_spec(name: Seq<char>) -> Option<MessageRole> {
    if name == "user"@ {
        Some(MessageRole::User)
    } else if name == "model"@ {
        Some(MessageRole::Assistant)
    } else if name == "system"@ {
        Some(MessageRole::Developer)
    } else {
        None
    }
}

pub fn role_name(role: MessageRole) -> (r: String)
    ensures
        r@ == role_name_spec(role),
{
    match role {
        MessageRole::Developer => String::from_str("system"),
        MessageRole::User => String::from_str("user"),
        MessageRole::Assistant => String::from_str("model"),
    }
}

/// The role named `name` in a plugin's reply; `None` for an unknown name.
pub fn parse_role(name: &String) -> (r: Option<MessageRole>)
    ensures
        r == parse_role_spec(name@),
{
    if *name == String::from_str("user") {
        Some(MessageRole::User)
    } else if *name == String::from_str("model") {
        Some(MessageRole::Assistant)
    } else if *name == String::from_str("system") {
        Some(MessageRole::Developer)
    } else {
        None
    }
}

/// The error text for a reply with an unknown role name.
pub fn unknown_role_message(name: &String) -> (r: String)
    ensures
        r@ == "Unknown role: "@ + name@,
{
    let mut m = String::from_str("Unknown role: ");
    push_str(&mut m, name.as_str());
    m
}

/// Reading back the name of a role gives the role.
pub proof fn law_role_name_roundtrip(role: MessageRole)
    ensures
        parse_role_spec(role_name_spec(role)) == Some(role),
{
    reveal_strlit("system");
    reveal_strlit("user");
    reveal_strlit("model");
    assert("system"@[0] != "user"@[0]);
    assert("system"@[0] != "model"@[0]);
    assert("model"@[0] != "user"@[0]);
}

impl ChatMessage {
    /// The message a plugin script receives for a message of `role` with `content`.
    pub fn from_message(role: MessageRole, content: &String) -> (r: Self)
        ensures
            r.role@ == role_name_spec(role),
            r.content@ == content@,
    {
        ChatMessage { role: role_name(role), content: content.clone() }
    }
}

/// Path components of the Python interpreter of the virtual environment at `venv_path`
/// (`bin/python`, the layout outside Windows).
pub fn get_venv_python_path(venv_path: &Vec<String>) -> (r: Vec<String>)
    ensures
        r@.len() == venv_path@.len() + 2,
        forall|i: int| 0 <= i < venv_path@.len() ==> r@[i]@ == venv_path@[i]@,
        r@[venv_path@.len() as int]@ == "bin"@,
        r@[venv_path@.len() as int + 1]@ == "python"@,
{
    join_components(venv_path, "bin", "python")
}

/// Path components of pip in the virtual environment at `venv_path` (`bin/pip`).
pub fn get_venv_pip_path(venv_path: &Vec<String>) -> (r: Vec<String>)
    ensures
        r@.len() == venv_path@.len() + 2,
        forall|i: int| 0 <= i < venv_path@.len() ==> r@[i]@ == venv_path@[i]@,
        r@[venv_path@.len() as int]@ == "bin"@,
        r@[venv_path@.len() as int + 1]@ == "pip"@,
{
    join_components(venv_path, "bin", "pip")
}

fn join_components(base: &Vec<String>, a: &str, b: &str) -> (r: Vec<String>)
    ensures
        r@.len() == base@.len() + 2,
        forall|i: int| 0 <= i < base@.len() ==> r@[i]@ == base@[i]@,
        r@[base@.len() as int]@ == a@,
        r@[base@.len() as int + 1]@ == b@,
{
    let mut r: Vec<String> = Vec::new();
    let mut i: usize = 0;
    while i < base.len()
        invariant
            i <= base.len(),
            r@.len() == i,
            forall|k: int| 0 <= k < i ==> r@[k]@ == base@[k]@,
        decreases base.len() - i,
    {
        r.push(base[i].clone());
        i = i + 1;
    }
    r.push(a.to_owned());
    r.push(b.to_owned());
    r
}

/// Errors of running a plugin script.
#[derive(Debug)]
pub enum PluginError {
    PythonNotFound(String),
    PluginDirNotFound(String),
    PluginScriptNotFound(String, String),
    RequirementsNotFound(String),
    VenvPathError(String),
    VenvCreationError(String, std::io::Error),
    /// Installing the requirements failed; the installer's error output.
    DependencyInstallError(String, String),
    ProcessSpawnError(String, std::io::Error),
    StdinWriteError(std::io::Error),
    StdoutReadError(std::io::Error),
    StderrReadError(std::io::Error),
    /// The process exited with a failure: its exit code, if it has one, and its error output.
    ProcessFailed(Option<i32>, String),
    /// The output of a successful run was no plugin reply: the parser's error and the output.
    ResponseDeserializationError(serde_json::Error, String),
    ResponseInvalid(String),
    RequestSerializationError(serde_json::Error),
    /// The plugin answered with an error message.
    PluginReportedError(String),
    MissingEnvironmentVariable(String),
    InitializationError(String),
    IoError(std::io::Error),
}

/// What a plugin's standard output held: a success with its result, an error with its
/// message, or no reply at all (with the parser's error).
#[derive(Debug)]
pub enum PluginReply<R> {
    Success(R),
    Error(String),
    Unparsed(serde_json::Error),
}

/// The outcome of a plugin run, from its exit status, its outputs and its parsed reply. A
/// failed process reports the error its reply gives, if it wrote one, and otherwise
/// fails with its exit code and error output. A successful process gives its result, or
/// the error it reports, or, when its output is no reply, the parse error with the output.
pub fn plugin_outcome<R>(
    exit_ok: bool,
    code: Option<i32>,
    stdout_empty: bool,
    reply: PluginReply<R>,
    stderr: String,
    stdout: String,
) -> (r: Result<R, PluginError>)
    ensures
        reply matches PluginReply::Error(m) ==> (!exit_ok && !stdout_empty ==> (r matches Err(
            PluginError::PluginReportedError(x),
        ) && x == m)),
        !exit_ok && (stdout_empty || !(reply is Error)) ==> (r matches Err(PluginError::ProcessFailed(c, e))
            && c == code && e == stderr),
        exit_ok ==> match reply {
            PluginReply::Success(v) => r matches Ok(x) && x == v,
            PluginReply::Error(m) => r matches Err(PluginError::PluginReportedError(x)) && x == m,
            PluginReply::Unparsed(p) => r matches Err(PluginError::ResponseDeserializationError(q, o)) && q
                == p && o == stdout,
        },
{
    if !exit_ok {
        if !stdout_empty {
            if let PluginReply::Error(message) = reply {
                return Err(PluginError::PluginReportedError(message));
            }
        }
        return Err(PluginError::ProcessFailed(code, stderr));
    }
    match reply {
        PluginReply::Success(v) => Ok(v),
        PluginReply::Error(m) => Err(PluginError::PluginReportedError(m)),
        PluginReply::Unparsed(p) => Err(PluginError::ResponseDeserializationError(p, stdout)),
    }
}

/// What `serde_json::to_string` gives for the string `s`: its JSON text, or the error's text.
pub uninterp spec fn json_string(s: Seq<char>) -> Result<Seq<char>, Seq<char>>;

/// Calls `serde_json::to_string` on `s`, handing back the error's text on failure; a
/// function of `s`.
#[verifier::external_body]
fn json_quote(s: &str) -> (r: Result<String, String>)
    ensures
        match r {
            Ok(q) => json_string(s@) == Ok::<Seq<char>, Seq<char>>(q@),
            Err(m) => json_string(s@) == Err::<Seq<char>, Seq<char>>(m@),
        },
{
    match serde_json::to_string(s) {
        Ok(q) => Ok(q),
        Err(e) => Err(e.to_string()),
    }
}

/// The JSON request sent to a plugin on its standard input: `{"method":..,"params":..}`,
/// the method as a JSON string and the parameters as their JSON text `params_json`.
pub fn plugin_request_body(method: &str, params_json: &str) -> (r: Result<String, String>)
    ensures
        match json_string(method@) {
            Ok(q) => r matches Ok(b) && b@ == "{\"method\":"@ + q + ",\"params\":"@ + params_json@ + "}"@,
            Err(m) => r matches Err(e) && e@ == m,
        },
{
    let q = match json_quote(method) {
        Ok(q) => q,
        Err(m) => return Err(m),
    };
    let mut b = String::from_str("{\"method\":");
    push_str(&mut b, q.as_str());
    push_str(&mut b, ",\"params\":");
    push_str(&mut b, params_json);
    push_str(&mut b, "}");
    Ok(b)
}

} // verus!
