# luze

A digital Zettelkasten following Niklas Luhmann's method, as a verified library with a
command line around it.

Notes have IDs (`1a1`, `1a2`, `1b`, ...) that encode their position in a branching tree.
Content is never overwritten: an update makes a new child note that supersedes the old one.
Notes lie in numbered draws, which are read in when they are needed, and an index says which
draw each note lies in. Draws that conflict in git are merged note by note.

- `src/` is the library. It is verified with Verus; contracts speak of plain models: the text
  of an ID, the contents of a note, the index and the draws of a box. Four items are believed
  without proof: the wrappers `utc_now` and `format_utc`, which call chrono, and what is
  assumed of `String::push` and `str::to_lowercase`.
  - `id`, `order`, `lineage`, `subtree`: IDs, their order, how they relate to one another
  - `note`, `clock`, `text`, `numeral`, `lex`: notes and what they are made of
  - `model`, `index`, `sort`, `store`: the box
  - `query`, `update`, `commands`, `tree`, `report`: what one asks of a box, and how it reads
  - `disk`: how a box is laid out in its directory
  - `merge`, `git`, `sync`, `lock`: sharing a box
  - `laws`, `growth`, `merge_laws`, `merge_whole`: what holds across operations
- `tests/` runs the library on examples.
- `app/` is the program: files, JSON, git, and the terminal.

The library never reads or writes a file and never runs git. Where it needs a draw that is
not loaded it says so, and is asked again once the draw is there; a sync says which git
command comes next, and is told what came of it.
