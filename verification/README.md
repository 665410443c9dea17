# mcp-tool-catalog-integrity

Integrity checking for the tool catalog of an MCP server, verified with Verus.

A host pins the hash of each tool descriptor the first time it sees it (trust on
first use), and on every later `tools/list` it reports which tools were added,
removed or changed. Under a fail-closed policy it refuses a catalog that
drifted until the host re-pins it.

## Layout

- `src/` is the verified library:
  - `parser`, `number`, `text` and `writer`: RFC 8785 canonical JSON. Raw bytes
    are parsed against a spec grammar, and canonical text is written with keys
    in UTF-16 order and numbers in ECMAScript form.
  - `roundtrip`: canonical text reads back to the same canonical text.
  - `descriptor_hash`: `sha256:` followed by the unpadded base64url SHA-256 of
    the canonical bytes, for one descriptor and for a whole catalog.
  - `manifest`, `pin_store`, `drift`: descriptors, pin stores, and the drift
    report with its re-pin.
  - `interposer`: the drift policy applied to `tools/list` results, including
    paginated ones.
  - `file_pin_store`: the durable pin store as a JSON document.
- `app/` is the unverified code around the library: file I/O, conversion from
  `serde_json::Value`, error types with `thiserror`, and an example stdio host.
- `tests/` runs the library on concrete inputs.

The hash and base64 calls (`sha2`, `base64`) and serde_json's number rendering
and JSON reading are trusted items in `src/`. Each one's doc comment says
exactly what its contract claims of the outside function.
