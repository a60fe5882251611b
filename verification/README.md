# rustor

A small terminal text editor whose editing logic is verified with Verus.

- `src/` is the verified library:
  - `text.rs`: text as lines (`split_lines`, `join_lines`) and the lemmas
    that relate them;
  - `encoding.rs`: byte positions in the UTF-8 encoding of a text held as
    characters;
  - `piece_table.rs`: the piece table that holds the text, with its model
    (`text_of` over the two buffers and the pieces), insertion, removal and
    the laws that a removal takes out exactly the bytes asked for, that
    removing what was just inserted gives the text back, and that two
    pushes are one;
  - `cursor.rs`: the cursor and its moves;
  - `editor.rs`: the editor over a piece table, its reaction to keys, and
    the laws that relate typing, backspace and the line editor;
  - `content.rs`: the editor that keeps its text as a list of lines;
  - `keys.rs`: the keys the editors react to and what a key press asks of
    the program;
  - `window.rs`: the layout of the text on the terminal;
  - `file.rs`: the lines an editor starts with and the text written back.
- `app/main.rs` is the program: it reads the file and the keys, draws the
  screen with termion, and writes the file on Ctrl-S.
- `tests/` runs the library on concrete cases.
