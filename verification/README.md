# donedone

`donedone` keeps a list of to-do items, each pointing at a line of a source file,
in a plain text file (`./dndn` by default), and shows them in an interactive
terminal list where they can be browsed, reordered and deleted.

- `src/` is the library, verified with Verus: the stored text format of an entry
  (`entry`), reading, removing and reordering entries in the file's text
  (`file`), the character-level text handling they rest on (`text`), and the
  state of the interactive list: key bindings, comment wrapping, scrolling,
  drawing and the handling of each action (`ui`).
- `app/` is the program around it: command line, files, terminal and threads.
- `tests/` runs the library on concrete inputs.
