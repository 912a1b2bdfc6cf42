# git-compression-stats

Measures how efficiently Git stores the files of a repository: for every file it sums the
uncompressed size of all its distinct versions (blobs) across history and compares that with
their size on disk in Git's object database.

The library in `src/` is verified with Verus; `app/` is the command line around it.

- `text`: white space, trimming, words, pieces and lines of text, as Rust's `str` methods
  define them; lossy UTF-8 decoding.
- `number`: reading and writing decimal numbers, and size thresholds such as `1K` or `2M`.
- `git`: what the lines of `git cat-file --batch-check`, `git ls-tree -r -z`,
  `git diff-tree -r --raw` and `git rev-list` say.
- `table`: a text-keyed map and a set of names that remember insertion order.
- `history`: object sizes, current file sizes, the distinct blobs of each path (which can be
  gathered in parallel chunks and merged), and the statistics per file drawn from them.
- `stats`: statistics per file, and how the statistics of several repositories add up.
- `sorting`: ordering report rows by a column, stably, ascending or descending.
- `report`: size filter, totals, column width, path shortening, CSV fields, size units and
  colors.
- `scan`: which directories are searched for repositories, and the chunk size of the history
  scan.

The command line (`app/main.rs`) parses arguments, runs `git`, shows progress bars and prints
the table, JSON or CSV; floating-point ratios and human-readable sizes are computed there.
