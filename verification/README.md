# mmap_scan

Scans over tables that are stored column by column in row groups: range, set, string and pattern
filters, statistics, the largest rows, groups, rows by number or identifier, Arrow batches, and
updates in place. The file is read as bytes; nothing but the columns that a query needs is decoded.

The library in `src/` is written in Verus. Every function has a contract, and Verus proves that its
body meets it, for every file: a damaged row group leads to an error, not to a panic.

## Layout

- `bytes`, `double`, `order`, `select`: words, bitmaps, doubles by their bits, orders, picking rows.
- `model`, `column`, `codec`, `group`, `storage`, `footer`: the catalogue, columns, how stored bytes
  become columns, row groups, the store, and how its catalogue is found. `plain` is a codec for plain
  and bit-packed columns.
- `numeric`, `range_ids`, `bools`, `text*`, `like*`, `dict_*`, `multi`, `not_count`, `sorted`,
  `prune`: filters and counts.
- `stats`, `ranking`, `topk`, `lengths`, `groupby`: aggregates.
- `ids`, `by_id`, `reads`, `scattered`, `column_ops`, `column_scan`, `fts`, `cells`, `extract`,
  `row_batch`, `retrieve`, `like_extract`, `arrays`, `batch`: rows and columns on their way out.
- `overlay`, `columnar`, `to_arrow`: pending edits of cells, Arrow arrays and record batches.
- `update`: updates in place.
- `outside`: calls into `memchr`, `regex`, `ahash` and the standard library.
- `*_laws`: what holds across functions, such as that a scan sees what an update wrote, that a
  scan for a set of strings is the union of the scans for each of them, that a batch shows the values
  of its rows, that a group is made of the rows with its key, or that bisection finds every
  identifier.

A contract speaks of spec functions over sequences of bytes. Doubles are held by their bits and
compared by rank; sums of doubles are left to the caller.

## What is trusted

`outside` and `columnar` state what the outside crates do. Everything else is proved from that.

`app/` holds the files, the locks and the floating-point sums around the library.
