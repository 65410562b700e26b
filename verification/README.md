# syntext

The core of a code-search index, verified with Verus.

An index consists of immutable *segments* (documents and the postings of their
grams), an in-memory *overlay* of files that changed since, and a *delete set*
of base documents that the overlay replaced. Edits are buffered, committed to a
new snapshot, flushed to disk, and folded into the base by compaction.

- `src/` is the library. Everything in it is verified; what it takes from other
  crates and from the standard library stands behind small functions whose
  contracts are believed (`bitmap`, `hash`, `files`, `text`, `order`, and a few
  sorts). File contents, `git` output and observations of the working tree come
  in as plain values.
- `app/` is the command line around it: it reads and writes files, takes locks,
  walks the tree and runs `git`.
- `tests/` runs the library.

Where to start:

| module | what it holds |
|---|---|
| `segment` | the file format, its writer and reader, and what reads back |
| `open`, `manifest`, `frame`, `deletes_idx`, `paths_idx`, `worktree_codec` | what an index directory holds and when it is accepted |
| `overlay`, `pending`, `commit`, `snapshot` | edits, commits and what a query sees |
| `walk`, `full_build`, `external_build` | full builds |
| `compact_plan`, `compact`, `compact_index`, `compact_laws` | compaction |
| `git`, `freshness`, `delta`, `update`, `path_resolve`, `batch_apply` | which files changed |
| `flush`, `worktree_anchor` | durable flushes |
| `reopen_laws` | what was built, flushed or compacted opens again |
| `paths`, `byte_map`, `order`, `le` | paths and how they compare, and small collections |
| `index` | all of it together |
| `mem_index`, `search`, `references`, `stats`, `summary` | in-memory indexes, results and figures |

Public proof functions whose names begin with `law_` state what holds of several
functions together.
