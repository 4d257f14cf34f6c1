# TinyStore

A small S3-compatible object storage server whose core is verified with Verus.

- `src/` is the verified library: storage backends (an in-memory store and the decisions of
  the on-disk store), bucket and key rules, byte ranges, object listings, multipart uploads,
  listing pages and continuation tokens, S3 request parsing and routing decisions, the XML
  responses, AWS Signature Version 4, credentials and the authentication decision, the JSON
  API's answers, the configuration, and the web UI's pages as functions from page state and
  event to the next state and the request to send (`src/ui.rs`).
  Contracts are stated over mathematical views (`Seq`, `Map`); laws that relate several
  operations are public proof functions (`lemma_*`).
- `app/` is the server program around it: command line, configuration files, HTTP routing
  with axum, disk I/O and JSON/YAML/XML (de)serialization.
- `tests/` exercises the library on concrete values.

Digests (MD5, SHA-256, HMAC), hex encoding, XML escaping, UUIDs and time rendering come from
their crates; the library states what it relies on from each in the doc comment of the item
that makes the call.
