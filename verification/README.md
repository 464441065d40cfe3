# rustsync

A terminal tool that compares a source directory with a destination, lists
the files that are missing from the destination or newer in the source (with
different content), and lets the user browse them in a collapsible tree,
preview them, mark them and copy them over.

## Layout

- `src/` — the library, verified with Verus:
  - `scanner.rs` — judging each source file against the destination (newer
    source copies have their content compared), the destination index
    (sorted by path, built by a verified merge sort) and the comparison
    itself, which leaves out every file below an excluded directory;
  - `tree.rs`, `tree_paths.rs` — the difference tree: insertion in name
    order, flattening into rows, expanding and collapsing, file counts and
    sizes, and the proofs that the tree shows each difference exactly once,
    places every node by its path and does not depend on the order of the
    differences;
  - `app.rs`, `pathset.rs` — the browser state: keys, marking, the copy
    confirmation and the progress of a copy, previews to load, and what each
    row shows, and the texts and titles of the status bar and dialogs;
  - `details.rs` — the three lines of the details pane of a file;
  - `glob.rs` — exclusion patterns with `*` and `?`, and whether a file lies
    below an excluded directory;
  - `preview.rs` — which files get a text or image preview, and the text of
    a text preview;
  - `numfmt.rs` — human-readable sizes (`1.5 KB`), exact to the rounding of
    a one-decimal float display;
  - `hashing.rs` — streaming XXH3 content hashing and the manifest name;
  - `text.rs` — code-point order of strings and paths.
- `tests/` — tests of the library on concrete values.
- `app/` — the program around it: command line, walking the directories,
  reading and hashing files, the terminal drawing and key loop, copying.
