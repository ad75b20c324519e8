# prompt_manager

A prompt library — titled templates with `{{placeholders}}`, named recipes
of variable values, one global variable list — kept as plain files
(`prompts/*.md` with a YAML-subset front matter, `recipes/*.yaml`,
`order.json`, `variables.json`), and served over MCP (JSON-RPC on stdio)
and a local REST API.

## Layout

- `src/` — the library, written in Verus and verified:
  - `render` — template tokens, rendering, placeholder lists, renaming;
  - `json`, `yamlish` — the JSON and YAML-subset readers and writers,
    error messages included;
  - `model` — prompt and recipe files;
  - `storage` — the library over a folder listing: every operation is a
    function from the folder's state to a result and the writes it queues;
  - `mcp`, `api`, `commands` — the MCP messages, the REST requests and the
    desktop app's commands, each specified as a whole;
  - `util`, `settings`, `text` — ids, tokens, time stamps, slugs, paths.
- `app/` — ordinary Rust around it: the program's `main`, reading the
  folder and performing the queued writes, the TCP server, the clock and
  entropy sources, and the settings file's number fields (floats; its
  text and switch fields are read by `settings`).
- `tests/` — tests on concrete values.

## What is verified, and what is trusted

Every public function in `src/` has a contract that states its result (and
the library after it) exactly, save for what the clock and the platform's
path separator decide, and Verus proves the code meets it. Laws
that span functions are public proof functions (the `lemma_` items):
files read back as written, a saved prompt or recipe is what a later read
gives, renaming a variable renames it in every prompt body, renaming a
placeholder and back restores the text, time stamps sort as the times do,
slugging a slug changes nothing, whatever the JSON reader returns is
written back readably, the fingerprint ignores listing order, MCP replies
have the JSON-RPC shape, unauthorized REST requests are refused, and more.

The proofs rest on nine trusted items, seven wrappers around std and two
names for the case maps' results: `String::push`,
`char::from_u32`, `str::from_utf8`, `str::to_lowercase`,
`str::to_uppercase` (whose results are named, not spelled out),
`std::path::MAIN_SEPARATOR` and the system clock. The file system,
sockets, threads and floats stay in `app/`, unverified. Having no floats,
the JSON reader keeps a number as the literal text it read and writes that
text back unchanged (`1.0` stays `1.0`).
