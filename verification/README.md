# NextGen Studio

A desktop editor for OTUI interface files. The editing core is a library
whose behaviour is stated in `requires`/`ensures` contracts and proved with
Verus; the window, the file system and the engine process live around it.

## Layout

- `src/` — the verified library:
  - `document.rs` — the document kept as its exact bytes and lines, the
    widget/property index, the inspector edits (`set`, `add`,
    `remove_property`, `remove`, text and byte replacement) and the save
    decisions; laws: parsing gives back its bytes, the index has the shape
    of a tree over the lines, setting a value patches only that value and
    reads back, a set never passes the size limit, unchanged code text keeps
    the bytes.
  - `history.rs` — undo/redo as byte splices with its step and byte budget;
    laws: undo restores the bytes (and, for a UTF-8 document as read from
    bytes, the document), redo reapplies, the budget always holds.
  - `runtime.rs` — style sheets (variables, inheritance, state rules) and the
    resolution of a node's effective properties; image source paths.
  - `layout.rs` — canvas rules that need no geometry.
  - `behavior.rs` — Lua action templates and escaping; law: escaped text reads
    back in a single-quoted Lua string on one line.
  - `assets.rs` — the project resource catalog, its limits and order.
  - `color.rs`, `preview.rs`, `logline.rs`, `text.rs`, `text_map.rs`,
    `codec.rs`, `utf8_text.rs` — colors, the preview exchange, log limits,
    character helpers, a text map, the encoding calls (the trusted boundary)
    and facts about decoding UTF-8.
- `tests/` — tests of the library's behaviour on concrete values.
- `app/` — the `eframe` application: window, dialogs, file I/O, image
  decoding, the engine process and the log file.
