# hachimi_ura_plugin

The observation and analysis core of an in-game traffic sniffing plugin,
verified with Verus.

- `src/keychain.rs`: the bounded keychain viewer-id event log and its paging
  and clearing endpoints.
- `src/protocol.rs`: route classification by path, the known send chain, the
  captured candidate routes and per-request evidence.
- `src/signup.rs`, `src/findings.rs`: layered analysis of captured sign-up
  payloads (MessagePack via `rmpv` and its rendering to JSON, UTF-8,
  printable findings, byte patterns).
- `src/text.rs`, `src/json.rs`, `src/uri.rs`, `src/order.rs`, `src/capture.rs`:
  text, JSON, URL and ordering helpers and the captured-traffic types.
- `app/`: hook trampolines, host access and shared state around the library,
  and the conversion of decoded `rmpv` values into the library's
  `DecodedValue` (float text and the text of non-string map keys); the
  library renders them.
