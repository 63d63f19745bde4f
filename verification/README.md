# d_note

A sticky note panel for the terminal. Notes live in `~/notes.md` as plain
Markdown, and a note body may hold checkbox lines (`- [ ] task`, `- [x] done`).

## Layout

- `src/` — the verified library (Verus):
  - `text.rs`: trimming, splitting, lines and joining on character
    sequences, each specified over `Seq<char>`;
  - `todo.rs`: checkbox lines, toggling and progress, with the laws of the
    toggle;
  - `note.rs`: notes, reading and writing the Markdown file;
  - `reload.rs`: what reading the file gives back of what was written;
  - `app.rs`: the panel's state and what each key press does to it;
  - `display.rs`: the panel's geometry, labels and line presentation.
- `app/` — the terminal program: file access, drawing with ratatui and the
  event loop with crossterm.
- `tests/` — tests of the library.
