# cabbage

The verified core of Cabbage, a local-first note vault kept in a git
repository. The library in `src/` decides; the program in `app/` reads and
writes the file system and the repository and hands the library plain values.

- `path`: components of '/'-separated paths, joining, lexical normalisation,
  prefixes, and `resolve_safe_path`, which keeps every note path inside the vault
  (where the platform separates paths with backslashes, the program turns them
  into '/' before asking).
- `fs`: which directory entries the file tree shows, under which path, in which order.
- `index`: the backlinks index built from `[[wiki links]]`, its incremental update.
- `search`: search by file name and content, with snippets; file name matches
  first, at most 20 results.
- `graph`: notes and link targets as nodes, links as edges.
- `git`: a note's history, staging and commit decisions, commit hashes and
  stored notes, the steps of a sync, rebase decisions, credentials to try.
- `state`: the open vault and its index.
- `text`, `order`: trimming, byte search, lowercase, character order.
