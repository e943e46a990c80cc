# i18n_hero

The library behind an i18n language server. It finds the quoted translation
key under the cursor on a line of source text, and answers hovers,
completions and inlay hints from the keys of the project that the document
belongs to. Every function in `src/` carries a contract that Verus proves,
except three thin wrappers whose contracts are trusted rather than proved:
`to_lowercase` and `char_to_string` in `src/text.rs` (calls into std's
`str::to_lowercase` and `String::from`) and `path_join` in `src/utils/mod.rs`
(a call into `Path::join`).

- `src/lsp/quote.rs`, `src/lsp/misc.rs`: the quote under the cursor, by UTF-8
  byte offsets, and the laws that relate the two ways of reading it.
- `src/completion/`: the keys of a project with their per-locale
  documentation, and the hover, completion and hint answers built from them.
- `src/lsp/backend.rs`, `src/lsp/completion.rs`: the open documents and a plain
  key store, with their read-after-write laws.
- `src/utils/`, `src/setup_project.rs`: paths relative to the working
  directory, the projects of a workspace, the checks of command-line paths,
  and the project setting that the setup tool names after its directory.
- `src/text.rs`, `src/string_map.rs`: UTF-8 offsets, slicing, line splitting,
  string comparison, and an insertion-ordered map keyed by strings.

`app/` is the program around the library: command line, terminal prompts,
the configuration file, and the LSP transport.
