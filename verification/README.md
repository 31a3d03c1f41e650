# photos

The core of a photo library that indexes a directory tree into a SQLite
database and shows it back as a tree, written in Verus.

`src/` is the verified library:

- `tree`: assembles the rows a recursive query returns into the tree of a
  directory. Its contract states that the answer exists exactly when a directory
  is stored at the path, that every node in it is a stored row attached under the
  node its `parent_id` names, that no row appears twice, and that for a proper
  listing every row appears.
- `indexer`: the first-in first-out work queue of an indexing run.
- `jobs`: the records of background jobs and their status changes.
- `nodes`: the node records and the rules for a new node's type and size.
- `commands`, `state`, `stores`, `db`: the decisions of the library commands,
  the database URL, and the handles that hold the database connection.

`app/` is the ordinary Rust around it: the sea-orm entities and migrations, the
queries, the file-system walk and the background task.
