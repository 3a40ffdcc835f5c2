pub mod text;
pub mod json;
pub mod framing;
pub mod rpc;
pub mod graph;
pub mod explorer;
pub mod export;
pub mod command;
pub mod protocol;
