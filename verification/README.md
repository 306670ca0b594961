# blitzscript core

A local-first launcher indexes the commands that already exist across a
folder of repos (npm scripts, Makefile targets), flags destructive ones
before they run, and keeps a history of runs.

- `src/` is the verified library (Verus):
  - `discovery` — command identity (`DiscoveredCommand`, stable ids), the
    Makefile target grammar, `package.json` scripts, and the choices made
    while walking a root (pruned directories, manifest names, repo roots);
  - `safety` — the case-insensitive destructive-token guard;
  - `db`, `commands`, `exec` — the decisions of the storage and command
    layers (stored source column, history filter pattern, history limit)
    and the plain types they exchange;
  - `text` — the character-level pieces (white space, `trim`, `lines`,
    substring search) the above are stated with.
- `app/` is the unverified shell: directory walking, file reading, JSON
  decoding, SQLite, the PTY runner and the Tauri bridge.
- `tests/` exercises the library, including differential tests of the
  Makefile grammar against the regular expressions that define it.
