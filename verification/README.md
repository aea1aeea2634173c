# dupfinder

A command-line tool that finds duplicate files under a directory, built
around a library verified with Verus.

A search compares files by signature (size, the hash of the first 4 KiB,
then the hash of the last 4 KiB) in three rounds, so that a file is read in
full only when another file has the same size, the same prefix hash and the
same suffix hash (`State::run` states this). The report lists each group of
duplicates (fewest wasted bytes first), the errors met by kind, and a
summary table of unique files, copies to keep and copies one could delete.

## Layout

- `src/`: the library, every function with a contract proved by Verus.
  - `bytes`, `hash`, `seeded`: the word-at-a-time file hasher and the
    seeded hasher, with their laws (each mixing step and the finalizer are
    one-to-one).
  - `order`, `slice`, `count`: sorting by rank, maximal runs of one group,
    moving lone records to the front, and sums that do not depend on order.
  - `files`, `state`: signatures and the rounds of the search, as a state
    machine that says which files to hash next.
  - `report`: the summary totals, the groups of duplicates, the groups of
    errors and which paths of a group are shown.
  - `fmt`, `term`, `sample`: units of sizes and times, when to redraw
    progress and how a progress bar is laid out, evenly spread samples.
  - `quality`: collision, bucket and avalanche counts for measuring the
    hasher.
- `tests/`: tests of the library on concrete values.
- `app/`: the program: argument handling, the directory walk, hashing on
  worker threads, the terminal output, and the `--hash-quality` report
  (whose statistics and colors are floating point).

## Usage

```bash
dupfinder /path/to/search
dupfinder --hash-quality
```
