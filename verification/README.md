# crabsort

An interactive terminal program that sorts the files of a directory into folders by
type, and finds duplicate files. Its logic is written in Verus and proved against its
contracts; the program around it does the terminal and file-system work.

Usage: `crabsort <directory>`

## Layout

- `src/` — the verified library:
  - `buffer`, `ui` — the double-buffered character screen and the drawing primitives;
  - `widgets` — menu, file list, input dialog, progress box and status bar;
  - `layout` — where each widget goes on a screen of a given size;
  - `event_bus`, `term` — the events widgets raise, and how key presses decode;
  - `file_types` — which kind of file a MIME type stands for, and its target folder;
  - `sorting` — the plan for sorting a directory by type;
  - `grouping` — grouping items by key and merging keyed groups, with their laws;
  - `duplicates` — the three stages of the duplicate search (size, quick fingerprint of
    the first and last 4 KiB, content fingerprint);
  - `control` — the command line, what events and keys lead to, the size input;
  - `pages` — the widgets, titles and menu entries of each page;
  - `text` — character-level helpers on strings.
- `app/` — the program: terminal handling, directory walks, file reading, hashing on
  threads, moving files, and the screen loop.
- `tests/` — tests of the library.

Outside code is reached through a few trusted declarations: `infer::get` (file kinds),
`md5::compute` (quick fingerprints) and `blake3::Hasher` (content fingerprints).
