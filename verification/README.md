# ngi

Fast regex search over source trees with a trigram index. The index maps every
three-byte substring of the lowercased files to the files that hold it; a search
decomposes its pattern into such substrings and looks only at the files that can
match.

- `src/` is the library, verified with Verus: building and updating the index, its
  layout in bytes, query plans, candidates, matches and output. Contracts state what
  each function returns; the functions named `law_*` state what holds across them,
  above all that narrowing a search by the index misses no match. That is stated of
  every pattern where case is regarded. Where case is ignored, it is stated of patterns
  whose literals have no letters with case beyond ASCII and whose bracketed classes unite
  their members or are complements of plain ones, and of every file without the Kelvin
  sign and the long s, which are matched by the ASCII letters `k` and `s`. The index folds
  the case of ASCII letters alone, and nothing is stated beyond these limits.
- `app/` is the program around it: command line, files, and the processes it runs.
- `tests/` runs the library.

Commands: `ngi index`, `ngi search PATTERN`, `ngi status`, `ngi clean`.

An index lies in `.ngi/`: the lookup table, the posting lists, the file list, `meta.json`,
and the states of the indexed files (`filemeta.bin`) and of those that were skipped as
binary or too large (`skipped.bin`), by which changes are told.
