# xerj_autoindex

Content sniffing, relationship detection and run planning for indexing a
folder into a search server, written in Verus: the functions in `src/`
carry contracts that Verus proves, except the small trusted wrappers
(marked `#[verifier::external_body]`) through which the library calls std
and the outside crates it relies on (serde_json, regex, quick-xml, memchr,
encoding_rs, lz4_flex, zstd). Their contracts are believed, not proved;
each one's doc comment says what it claims of the call it makes.

- `src/` — the verified library: the sniffer and text classifier, the HTML
  and Word extraction rules, the PDF limits and verdicts, the relationship
  detectors (`detect/`), the bulk protocol of the search client, resuming
  from a plan, the indexing schedule, the walk's rules, the decision gate,
  the durable-write protocol and the codecs.
- `app/` — the input and output around it: files, archives, the walk, the
  terminal, the worker process and the HTTP client.
- `tests/` — tests of the library on concrete values.
