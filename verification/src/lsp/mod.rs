//! The LSP client side of the bridge: framing of JSON-RPC messages.
pub mod header;
pub mod json;
pub mod text;
pub mod transport;
