# reclaim

Finds out what takes up the space in a directory tree, finds files with the same content, and
deletes files safely.

The library in `src/` is verified with Verus. It reads no disk and no terminal itself: it decides
what follows from what was read, and the program in `app/` does the reading, printing and
deleting.

## The library

| Module | What it does |
|--------|--------------|
| `path` | Paths as lists of components, compared and ordered by component |
| `text` | Numbers and bytes as text |
| `seqs` | Facts about sequences |
| `order` | A stable sort |
| `index` | Sets of paths, and sizes by path |
| `model`, `error` | Entries, results of a scan, groups of duplicates, errors |
| `cli` | The options, and sizes such as `500K` |
| `scanner` | What each listed entry becomes, the shared work queue, putting results together |
| `grouping`, `dedup` | The three filters that find files with the same content |
| `report`, `tree` | The table, the tree and the JSON document |
| `actions` | The preview of a deletion, the safety rules, and the steps of carrying it out |
| `tui` | The state of the interactive interface, its events, and what it shows |

Each function states what it returns in its contract. What holds of several functions together is
stated and proved in the proof functions whose names begin with `law_`: that every group of
duplicates keeps a copy, that nothing outside the root is deleted, that nothing is deleted without
confirmation, that a scan loses nothing however its workers interleave, and more.

What comes from outside is trusted: the `blake3` hasher in `dedup`, and the conversion of bytes
into text in `text`.

## The program

`app/` holds `main`: it parses the command line with `clap`, walks directories and reads files on
several threads, draws with `ratatui` and writes JSON with `serde_json`.
