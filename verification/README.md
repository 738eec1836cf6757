# asset_hub

The bookkeeping behind an asset daemon, verified with Verus.

The hub keeps three tables in step with what importers report:

- the metadata of each asset, as it was imported last;
- an index from each asset to its dependees, the assets that have a build
  dependency on it;
- a numbered log of what changed.

A change to an asset is noted in a batch. When the batch is recorded, the asset,
its dependees, their dependees and so on each get one event in the log. Listeners
are told when a batch was committed.

## Layout

- `src/` is the verified library.
  - `asset`, `message`, `change`: the data, and the models that contracts speak of.
  - `table`, `transaction`: the tables, as one transaction sees them.
  - `metadata`: writing asset metadata into messages, and reading it back.
  - `index`, `update`: the index, and what an import or a removal does to it.
  - `affected`, `walk`, `record`: from a batch of changes to entries of the log.
  - `listener`, `hub`: what a listener was told, and the hub itself.
  - `index_laws`, `update_laws`, `change_laws`, `walk_laws`, `metadata_laws`: what
    holds of the operations together.
- `app/` puts the library on an LMDB environment, with Cap'n Proto messages.
- `tests/` runs the library on concrete values.

## What is trusted

These are believed without proof, each documented where it stands:

- `std::str::from_utf8`;
- the hashing of a byte vector, and the name for what it writes to a hasher;
- the sending half of a `futures` channel, and its `try_send`.
