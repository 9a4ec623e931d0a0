# aether

The logic of Æther, a local-first browser for capturing web pages into
knowledge hubs, as a Verus library: the code in `src/` is verified by Verus,
and its public functions carry contracts that say what they compute.

- `src/` — the verified library: URL handling and tracking-parameter
  stripping, page extraction and JSON-LD metadata, captures and hubs, lexical
  and semantic retrieval, semantic trails and the Flow graph, iceberg charts,
  AiR dossiers and their front matter, tabs, downloads, model catalogues,
  diagnostics, embedding batches and streamed model output, the decisions of
  the durable JSON stores, and the proofs of the
  laws that tie these together. Calls into `url`, `scraper`, `sha2`,
  `base64` and `uuid` stand behind small trusted wrappers whose contracts say
  what those crates document.
- `tests/` — tests of the library on concrete values.
- `app/` — what Verus does not check: JSON and HTML parsing through their
  crates, files on disk, and the computations done in floating point.
