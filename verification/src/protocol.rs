//! The shapes of the language server's answers, as plain values.
use vstd::prelude::*;

verus! {

/// A JSON-RPC answer: the protocol version, the id of the request it
/// answers, and either its result or its error.
#[derive(Debug)]
pub struct LspResponse<T> {
    pub jsonrpc: String,
    pub id: Option<u64>,
    pub result: Option<T>,
    pub error: Option<LspError>,
}

/// An error that the server answered with.
#[derive(Debug)]
pub struct LspError {
    pub code: i64,
    pub message: String,
}

/// A symbol flattened for display: its name, kind, and where it starts.
#[derive(Debug)]
pub struct SimpleSymbol {
    pub name: String,
    pub kind: String,
    pub line: u32,
    pub col: u32,
}

} // verus!
