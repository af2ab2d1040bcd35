# randanarana

Rename the files of a directory to random alphanumeric names, keeping their
extensions. The naming rules are a library whose behaviour is stated in
contracts and proved; the command around it is ordinary Rust.

- `src/` — the verified library:
  - `names.rs`: the character set, `max_names`, extensions, assembling names,
    and `NameGenerator`, which hands out fresh names of the pattern
    `prefix + body + suffix [+ extension]`;
  - `renamer.rs`: choosing the items of a run (`discover`), the per-pool
    feasibility check and the rename plan (`plan`), the preview and summary;
  - `order.rs`: the order paths are listed in, and a merge sort;
  - `paths.rs`, `file_name.rs`, `text.rs`: paths as components, file names
    and extensions, text helpers;
  - `manifest.rs`, `undo.rs`: the undo record and the undo decisions;
  - `session.rs`, `cli.rs`: prompt answers, the interactive session and run
    counts, argument checks;
  - `random.rs`: the calls into `rand`.
- `app/` — the `randanarana` command: argument parsing (clap), walking the
  directory, prompts, renaming on disk, and the JSON manifest (serde).
- `tests/` — tests of the library.
