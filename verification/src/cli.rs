//! The command line's arguments, as plain values; paths are held as text.

use vstd::prelude::*;

verus! {

/// The whole command line.
#[derive(Debug)]
pub struct Cli {
    pub command: Commands,
    /// The workspace to use instead of the one found from the current directory.
    pub workspace: Option<String>,
    /// How much more output (-v, -vv, -vvv).
    pub verbose: u8,
    /// No log output.
    pub quiet: bool,
}

/// The commands.
#[derive(Debug)]
pub enum Commands {
    Import(ImportArgs),
    Chat(ChatArgs),
    Show(ShowArgs),
    Open(OpenArgs),
    Search(SearchArgs),
    Install(InstallArgs),
    Config(ConfigArgs),
    Workspace(WorkspaceArgs),
}

#[derive(Debug)]
pub struct ImportArgs {
    pub paths: Vec<String>,
    pub metadata: Vec<String>,
    pub tags: Vec<String>,
    pub model: Option<String>,
}

#[derive(Debug)]
pub struct ChatArgs {
    pub prompt: Option<String>,
    pub model: Option<String>,
    pub scope: Vec<String>,
    pub plugins: Vec<String>,
    /// Documents to discuss.
    pub docs: Vec<String>,
}

#[derive(Debug)]
pub struct ShowArgs {
    pub document: Option<String>,
    pub metadata: bool,
    pub embeddings: bool,
}

#[derive(Debug)]
pub struct OpenArgs {
    pub document_id: String,
}

#[derive(Debug)]
pub struct SearchArgs {
    pub query: String,
    pub model: Option<String>,
    pub scope: Vec<String>,
    pub limit: usize,
}

#[derive(Debug)]
pub struct InstallArgs {
    pub path: Option<String>,
    pub url: Option<String>,
}

#[derive(Debug)]
pub struct ConfigArgs {
    pub command: ConfigCommands,
}

#[derive(Debug)]
pub enum ConfigCommands {
    Get { key: String, global: bool },
    /// Sets `key` to `value`.
    SetValue { key: String, value: String, global: bool },
    List { global: bool },
    Locate {},
}

#[derive(Debug)]
pub struct WorkspaceArgs {
    pub command: WorkspaceCommands,
}

#[derive(Debug)]
pub enum WorkspaceCommands {
    Create { path: Option<String>, name: Option<String> },
    List {},
    Delete { target: String, force: bool },
    Info { target: Option<String> },
}

} // verus!
