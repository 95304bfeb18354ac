# f3note

The logic of f3note, a small tabbed text editor, as a Verus library: what the
editor decides about text, sessions, crash storage, themes and its window
commands, each function with a contract that Verus proves.

- `src/` — the verified library. `text` and `codec` read and write files in
  their encodings; `edit`, `search`, `fuzzy` and `mru` are the editing
  commands; `session` holds the session file, the autosave schedule and the
  per-document store; `theme` the palette and font; `ui` what the window and
  its bars decide and say.
- `tests/` — tests of the library, run against the compiled crate.
- `app/` — the program around it: reading and writing files, the environment,
  the autosave thread and the single-instance socket. The window itself is
  GTK's and is not part of this build.
