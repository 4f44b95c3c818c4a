# nexcore_fs

Filesystem helpers with verified cores:

- `src/glob.rs` — glob patterns (`*`, `?`, `[abc]`, `[a-z]`, `[!abc]`, `\c`):
  the pattern grammar and the matching relation as spec functions, and a
  compiler and matcher proved against them.
- `src/glob_laws.rs` — properties of every pattern, proved over that model.
- `src/walk.rs` — recursive directory traversal as a state machine: the caller
  reads metadata and listings, the machine decides what is queued, held back,
  visited and yielded.  Over a model of a caller walking a tree, the file also
  proves what a whole walk does: it ends; it yields exactly the entries it owes,
  each once, breadth first or contents first; a filter prunes whole subtrees;
  and each listing that could not be read gives exactly one error.
- `src/dirs.rs` — which environment variable names a per-user base directory
  and what stands in for it.
- `src/paths.rs` — the standard path types as the contracts see them.
- `app/` — the operating-system side: environment reads, the filesystem driver
  of the walk (an `Iterator`), and `Display` for errors.
