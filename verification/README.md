# elio

The core of the elio file manager's duplicate finder, of the helper process that
works with files on behalf of the user who started an elevated program, and of the
rules by which that user is found. It is written in Verus: every function states
what it does, and the statements are proved.

## Layout

- `src/` is the library.
  - Values that everything else uses: `order`, `natural`, `text`, `utf16`, `path`,
    `path_set`, `ids`, `positions`, `platform`.
  - Finding duplicates: `walk` (which directories and files are looked at),
    `size_groups`, `digest`, `digest_classes`, `hash_cache`, `file_reading`, `check`
    (files of one size), `batches`, `scan` (the whole search), `duplicate_pool`
    (which search runs), `worker` (what is sent of a search).
  - What a search comes to:
    - `walk_laws`: a walk that is not canceled and stays below its limit finds
      exactly the visible, regular files that are not empty, outside directories
      that are left out.
    - `check_laws` and `scan_laws`: where the files do not change and every
      comparison is told truly, a group holds equal files. Where, besides, every
      digest that is told or remembered is true and every file can be read, no two
      equal files among those that the walk handed on are missed by a search that is
      not canceled and whose batches are taken.
    - `result_laws`: groups are numbered from one on and counted, no path is in two
      of them, and the batches together are the result.
    - `count_laws`: every file is counted as checked once.
    - `tree_laws`: what these say of a directory tree as a whole.
    - `scan_progress`: a search comes to an end.
  - Showing duplicates: `finder_model`, `finder`, `finder_actions`, `finder_input`,
    with `finder_laws`.
  - Working for the invoking user: `invoking_user`, `user_groups`, `ownership`,
    `environment`, `invoking_user_command`, `invoking_user_fs`, `wire`,
    `user_fs_helper`, `helper_credentials`, with `helper_laws`; `loading` for the
    place of the configuration, `restore` for where trashed files came from.
- `app/` is the program around it: files, processes, threads, the terminal.
- `tests/` runs the library on concrete values.

## What is taken on trust

The hash function (`blake3`), JSON (`serde_json`) and a few functions on text of the
standard library are called through small functions marked
`#[verifier::external_body]`. The comment above each says what is believed of it.
They are in `digest`, `restore`, `text` and `utf16`.

Paths are bytes whose parts are separated by slashes, on every system. On Windows
`app/paths.rs` turns the separators on the way in and on the way out, and where the
library shows a path, it shows it with backslashes. Drives and shares are parts like
any other.

Nothing in `src/` reads a file, a clock or the environment. Where the course of
events depends on what such a call gives, the library says what to do next, and is
told how it went.
