# text_reader

A reader for very large text files that keeps memory low by memory-mapping
the file and indexing only every 10,000th line start.

- `src/` is the verified library:
  - `lines.rs`: the model of a byte buffer split into lines and its lemmas;
  - `scan.rs`: byte searches through the `memchr` crate;
  - `viewer.rs`: the sparse line index, its incremental builder, and line
    fetching through it;
  - `find.rs`: substring search reported as line/column matches, range
    queries over sorted matches, and the find bar's state;
  - `find_ui.rs`: splitting a line into plain and highlighted spans;
  - `editor.rs`: tabs, the active tab, zoom and the find bar;
  - `util.rs`: decimal formatting with thousands separators.
- `app/` is the desktop program around it (window, menus, memory maps,
  background threads and tasks).
- `tests/` exercises the library on concrete inputs.
