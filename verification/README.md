# diary_widget

The core of a desktop diary widget, verified with Verus. Each day's diary is
a Markdown file with YAML front matter; each entry of the day starts with a
time heading such as `# 09:30`.

- `src/` is the verified library: reading the `.env` file that points at the
  knowledge base, resolving the diary directory, checking a request to write
  an entry, building the entry's text, splitting a diary file into front
  matter and body, reading a body's entries, merging a new one into them and
  updating the YAML front matter.
  `src/laws.rs` states what holds across these functions, among them that a
  written entry reads back as written.
- `src/outside.rs` holds the few trusted calls into `regex`, `chrono`,
  `serde_yaml` and `std`, each with the contract it is trusted to meet.
- `app/` is the desktop program around the library: files, the clock and
  the Tauri window.
- `tests/` runs the library on concrete inputs, some of them against `std`,
  `chrono` and `regex` doing the same work.
