# update_server_api

The library behind the update server that serves the legacy
`RetroRewindVersion.txt`, `RetroRewindDelete.txt` and `RetroRewindInstall.txt`
files from a single JSON manifest, written in Verus and proved against its
contracts.

- `src/text.rs`: the character-level operations the line formats need
  (white space, basenames, splitting and joining), with their specifications
  and the lemmas that relate splitting to joining.
- `src/version.rs`: the syntax of dotted versions (`u64::from_str` on every
  dot-separated piece), their sort keys and the key order.
- `src/manifest.rs`: the manifest, its validation (the first problem found,
  and the message it is reported with), and the laws that tie validation to
  what a servable manifest must be.
- `src/render.rs`: rendering the three text files, and the laws that the
  files of a valid manifest read back record by record.
- `src/routes.rs`: the decisions behind the HTTP routes: the bearer-token
  check, the answer to each failure, and the validate-persist-swap cycle of
  the served manifest.
- `app/`: the HTTP server (axum, tokio), configuration loading (toml) and the
  JSON shapes (serde) around the library.
