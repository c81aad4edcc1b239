# ntfs_catalog

A verified library for cataloguing the files of an NTFS volume from its
Master File Table and classifying engineering files (drawings, CAD models,
quality records, …) into a branch tree for a dashboard.

The library (`src/`) is written in Verus; every function carries a
contract that Verus proves:

- `mft` — FILE record fixup and parsing (header, standard information,
  file name, data size).
- `catalog` — the columnar in-memory catalog with its string pool and
  record index.
- `calls` — sequences of calls on a catalog and what each sequence keeps
  (drive letter, one row per record number in first-upsert order).
- `path_reconstruct` — full paths from parent references, memoised; a
  second reconstruction changes no entry when every parent chain ends,
  every file name ends with a NUL inside the string pool, and the pool
  stays addressable by 32-bit ids.
- `persistence` — the binary catalog file format (encode and validate).
- `volume`, `usn` — the decisions of a full MFT scan and of the USN
  journal watch; the caller performs the reads.
- `classify` — rules, user corrections, scoring and part/revision grouping.
- `dashboard` — the branch tree, summary statistics, and the file
  browser's search filter and same-category list.
- `commands`, `demo`, `security`, `text` — command helpers, the demo
  catalog, fixed settings and text utilities.

`app/` is the command-line program around the library: argument parsing,
files, raw volume access (Windows), TOML rules and JSON corrections.
`tests/` exercises the library on concrete inputs.
