# mcp_filesystem

A sandboxed filesystem server for the Model Context Protocol, with its logic
verified by Verus.

- `src/` is the verified library: the allow-list trie and ring buffer, the
  tool catalogue and its gates, protocol negotiation and request validation,
  HTTP admission rules, resource URIs, MIME detection and paging, and the
  logic of every tool (line windows, edits, CSV tables, listings, search and
  grep, archives and their extraction guards). Each public function states
  what it returns in `ensures`; the laws that span several calls are public
  proof functions (`lemma_*`).
- `tests/` runs the library on concrete values.
- `app/` is the unverified shell: command line, stdio and HTTP transports,
  JSON shaping and the filesystem I/O, calling the library for every
  decision.

Calls into outside crates (hashing, base64, MIME sniffing, globs, regular
expressions, CSV reading and writing) go through small trusted wrappers
whose contracts say what the crates' documentation promises.
