# kvdb

A small key-value store over TCP.

- `src/` is the library, verified with Verus: the command frames and text
  replies of the wire protocol (`protocol`), the in-memory table with its hash
  index and the replay of the write-ahead log and snapshots (`storage`), the
  server's execution of a command (`server`), the client's reading of a typed
  line (`client`) and the single-file server's handling of a frame
  (`standalone`).
- `app/` holds the programs around it: `server`, `client`, `standalone`,
  `bench` and `bench-raw`, chosen by the first argument. They do the network
  and file work with tokio and hand the library plain values.
- `tests/` runs the library on concrete values.
