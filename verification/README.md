# amitxt

The core of a small notepad-style text editor, verified with Verus, and the
raylib program around it.

- `src/` — the verified library.
  - `text/model.rs`: the model of a document: a sequence of characters whose
    positions are byte offsets into its UTF-8 encoding, with lemmas relating
    character indices, byte offsets and `str` character boundaries.
  - `text/mod.rs`: the `Document` trait (character and word steps, line
    starts and ends, line counting and picking, locating a point in a line)
    and its implementation for `str`.
  - `text/edit.rs`: `EditableDocument`, replacing a byte range of a `String`.
  - `text/wrap.rs`: splitting lines that are too wide to show.
  - `select.rs`: the selection, a pair of byte positions.
  - `input/`: key inputs and the key repeater.
  - `editor.rs`: `TextEditor`: how each key and the mouse change the text and
    the selection, scrolling, and which lines are shown with which highlight.
  - `oil.rs`: `Oil`, a value that is either owned or shared, and `Unload`.
- `app/` — the program: the window, reading the keyboard and mouse, measuring
  text with the font, and drawing. Measuring and placing text use
  floating-point numbers and raylib, so they stay here.
- `tests/` — tests of the library on concrete values.
