# slatedb

The core of a read replica of an LSM database on object storage, verified with
Verus.

- `src/` holds the decisions: which WAL objects are fetched and when, how rows
  become tables, how a sorted run is walked, how a reader opens, follows
  manifests and keeps its checkpoints, and how caches and queries are accounted.
  Each is a step over plain values: the caller performs the action that a step
  returns and hands back what came of it.
- `app/` performs those actions with tokio: storage services, tasks, locks and
  clocks.
- `tests/` runs the library against storage held in memory.

The modules that end in `_laws` state what holds over many steps: that a WAL
replay covers its range exactly once and in order, that a walk over a sorted run
returns every row in order, that rebuilding a state keeps exactly the rows that
the manifest lacks, and that checkpoints are kept while they are in use.
