# markhor

Markhor keeps Markdown and other documents in a workspace on disk, cuts their text into
chunks, records embeddings of those chunks, and lets a chat model work with them.

The library under `src/` is written in Verus: each public function carries a contract
(`requires` / `ensures`) over mathematical models of its data, and the laws that relate
several functions are stated and proved as public proof functions (named `law_*`).
Calls into outside crates (pulldown-cmark, tiktoken-rs, sha2, hex, base64, url, uuid,
mime, mime_guess2, serde_json, serde_yaml_ng, reqwest) stand behind small trusted
wrappers whose doc comments say what is assumed of them.

- `src/`: the verified library: plain-text, Markdown and token-budget chunkers; document
  text parts and their import/export; document metadata, front matter, load and save
  plans, chunk caches and attachments; text hashes; the vector store's bookkeeping;
  Gemini request/response conversion, configuration and error classification; prompt
  line parsing, highlighting, completion and reference rewriting; the decisions of the
  OCR conversion and of a plugin run; the checks that the `Provide`, `Resolve` and
  `Require` derives apply to a field's attribute arguments; the command line's arguments
  as plain values.
- `tests/`: tests of the library, run against the real outside crates.
- `app/`: the command-line program around the library: files, HTTP (Gemini and Mistral
  OCR), processes, terminal input and output, and the floating-point similarity search.
