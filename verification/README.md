# span

Relocate, duplicate or delete existing lines of text by reference: a call names
lines by short texts that stand on them, and the bytes move without passing
through whoever makes the call.

The library under `src/` holds every decision, verified with Verus. It does no
input or output: `ops::run` and `hook::decide` are given what has been read so far
and answer with the next thing to read, or with what to do.

- `lines`, `text`, `encoding`, `numeral`, `search`, `path`: files as lines, texts as
  lines and as bytes, numerals, occurrences, paths.
- `splice`: taking a block out and setting it in.
- `anchor`: which line a guard addresses. `error`: what is said when it is none.
- `ops`, `render`: from the flags of a call to its writes and its output.
- `candidate`, `twin`, `suggest`, `hook`: the editor hook that notices a block
  being moved by hand and suggests the call to make instead.
- `outside`: the calls into other crates and the standard library, each with the
  contract it is trusted to keep.
- `laws`: what holds of all of this together. Lines that are not moved keep their
  bytes, but for blank lines at the seams and the ending of a file's last line; no
  lines are joined, a file keeps its final newline or the want of it, a coordinate
  resolves to the only line that fits or to none, and a suggested command does what
  it says.

`app/` is the program around it: `span`, and `span-guard` when run under that
name.
