# ollama_completion

Inline completions from a local [Ollama](https://ollama.com) server.

- `src/` is the library, verified with Verus: the fill-in-the-middle prompt
  (`prompt`), the bounded cache of completions (`cache`), the decisions of a
  health check (`health`), of a request for a completion (`generate`) and of the
  background task of a refresh (`refresh`), the edits that a completion turns
  into (`edits`), the status of the connection (`status`), and the provider that
  holds it all together (`provider`). What holds across several calls of the
  provider is stated and proved in `laws`.
- `app/` connects the library to an HTTP client and to an editor.
- `tests/` runs the library.
