# libbit

A git-compatible version control library, written in Verus: every function of the library
under `src/` carries a contract that Verus proves.

## Layout

- `src/` — the verified library.
  - `hash.rs`, `obj.rs`, `io.rs`, `delta.rs`: object ids (SHA-1), the object formats, reading
    of stored objects (zlib), varints and deltas.
  - `index/`, `index.rs`: the index, its file format and the tree cache.
  - `repo.rs`, `bytemap.rs`: the repository state (objects, references, HEAD, index, working
    tree) and the sorted byte map that stores it.
  - `tree.rs`, `iter.rs`, `diff.rs`: writing and flattening trees, and the differences between
    trees, the index and the working tree.
  - `commit.rs`, `checkout.rs`, `rev.rs`, `refname.rs`: commits and status, checkouts,
    revisions and reference names.
  - `ancestry.rs`, `merge.rs`, `xdiff.rs`, `cherrypick.rs`: ancestry and merge bases, three-way
    merges, and cherry-picks.
  - `cmd.rs`: what the commands compute (add, branch, ls-files, cat-file).
  - `config.rs`, `graph/`: config values and commit graphs.
- `tests/` — tests run against the compiled library.
- `app/` — the parts that touch the file system: loading the working tree, the index file,
  config files and lock files.

The laws that span several functions are public proof functions, named `law_...`.
