# gpp-core

The core of a photo library that publishes to a self-hosted gallery: album
paths and their tree, the `index.md` frontmatter a gallery reads, publish
and prune plans, full-scope sync keys and metadata merging, Lightroom
catalog import decisions, catalog queries and the render keys of the
non-destructive develop.

Everything under `src/` is verified with Verus: each public function states
what it returns in its `ensures`, and the laws that tie functions together
are public proof functions, among them

- `round_trip::lemma_frontmatter_reads_back` — reading back a published
  frontmatter gives exactly the settings it was written from;
- `album_rules::lemma_move_back` — moving an album back restores every path
  the move carried;
- `albums::lemma_parent_before_child` and `remote::lemma_parent_before_child`
  — a collection always comes before its contents;
- `albums::lemma_branch_together` — the tree order is a depth-first walk:
  whatever sorts between an album and one under it lies under it too;
- `albums::lemma_normal_path_unchanged` — a path already in normal form
  normalises to itself;
- `full::lemma_split_full_key` — a full-scope key splits back into the album
  and file it was made from;
- `lightroom::lemma_rerun_adds_nothing`, `lemma_dry_run_forecasts` and
  `lemma_dry_run_writes_nothing` — re-importing a catalog syncs rather than
  duplicates, and a dry run counts what a real one would and writes nothing;
- `remote::lemma_pull_only_adds` — a pull writes a file into the library
  only where none is;
- `round_trip::lemma_title_reads_back` — any title written as one
  `key: "value"` line reads back exactly;
- `develop::lemma_stored_framing_reads_back` and the framing laws — turns and
  mirrors fold into one of the eight orientations and undo themselves.

Layout:

- `src/` — the library (`text`, `order` and `encoding` are the shared
  vocabulary; the other modules follow the library's parts);
- `tests/` — tests run against the compiled library;
- `app/` — a small command-line shell that does the file work around the
  library.
