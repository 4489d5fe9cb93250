# diskovery

A terminal disk space analyser: scan a folder, browse its tree with sizes,
select items and delete them.

- `src/` is the library, with its contracts and proofs: the tree of a scan (`fs_tree`),
  building it from a listing and adding up directory sizes (`scanner`), the
  browser's state and what each step does to it (`app`), the set of selected
  paths (`selection`), what keys ask for
  (`keys`), the choice of drive (`drive`), the text of the screen (`status`,
  `tree_text`, `text`), the screen layout and the deletion dialog (`layout`), and stable ordering
  (`order`). The calls into `std::path`, `humansize` and `ratatui` go through
  a few trusted wrappers whose contracts are stated next to them.
- `app/` is the program around it: the terminal, the key loop, the scan
  threads that read the file system, the disk list, the deletions, and the
  drawing.
- `tests/` runs the library on concrete values.
