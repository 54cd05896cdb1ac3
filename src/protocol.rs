//! The shapes in which answers are served: resources and tool results.
use vstd::prelude::*;

verus! {

/// A resource that the manifest advertises.
#[derive(Debug, Clone)]
pub struct MCPResource {
    pub uri: String,
    pub name: String,
    pub description: String,
    pub mime_type: String,
}

/// The server's name and version.
#[derive(Debug, Clone)]
pub struct MCPServerInfo {
    pub name: String,
    pub version: String,
}

/// The content of one resource.
#[derive(Debug, Clone)]
pub struct MCPResourceContent {
    pub uri: String,
    pub mime_type: String,
    pub text: String,
}

/// One piece of a tool's answer.
#[derive(Debug, Clone)]
pub struct MCPToolContent {
    pub content_type: String,
    pub text: String,
}

/// A tool's answer.
#[derive(Debug, Clone)]
pub struct MCPToolResult {
    pub content: Vec<MCPToolContent>,
}

impl MCPToolResult {
    /// An answer made of the one text `text`.
    pub fn text(text: String) -> (r: Self)
        ensures
            r.content@.len() == 1,
            r.content@[0].content_type@ == "text"@,
            r.content@[0].text == text,
    {
        let piece = MCPToolContent { content_type: String::from_str("text"), text };
        MCPToolResult { content: vec![piece] }
    }
}

impl MCPResourceContent {
    /// The JSON text `text` served at `uri`.
    pub fn json(uri: String, text: String) -> (r: Self)
        ensures
            r.uri == uri,
            r.mime_type@ == "application/json"@,
            r.text == text,
    {
        MCPResourceContent { uri, mime_type: String::from_str("application/json"), text }
    }
}

} // verus!
