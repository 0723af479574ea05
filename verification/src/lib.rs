//! A correctness-first LSP to MCP bridge: the verified core.
//!
//! LSP frames every JSON-RPC message like a small HTTP message: a
//! `Content-Length: N` header line, a blank line, then exactly `N` bytes of
//! JSON. The modules under [`lsp`] state and prove how such frames are built
//! and read back.
pub mod lsp;
