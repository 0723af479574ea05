# groundwire

The verified core of an LSP to MCP bridge: the framing of JSON-RPC messages
as Language Servers exchange them (`Content-Length: N`, a blank line, then
`N` bytes of JSON).

- `src/lsp/text.rs`: Unicode whitespace trimming, decimal rendering and
  parsing of lengths, each proved against a spec of what `str::trim_end`,
  `str::trim`, `format!` and `str::parse::<usize>` do.
- `src/lsp/header.rs`: `header_step`, the decision taken on each header line
  (or at the end of the stream) while a frame is read.
- `src/lsp/json.rs`: the calls into `serde_json`.
- `src/lsp/transport.rs`: building frames, reading them back from a buffer,
  and the laws that tie the two together (a frame reads back as its body,
  wherever it stands and whatever follows it).
- `app/`: the executable and the async stream reader and writer, which move
  bytes between a tokio stream and the decisions of the library.
