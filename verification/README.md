# rstredis

A small key-value server and command line client that speak a subset of
the RESP protocol (`SET`, `GET`, `DEL`, `SAVE`), with a dump file that
saves the store and loads it back.

- `src/` is the library, verified with Verus: the decimal text of integers
  (`decimal`), text conversions (`text`), the commands and responses
  (`protocol`), turning request parts into commands (`parser`), the wire
  format (`resp`, with its round-trip laws in `resp_laws`), the table of
  keys (`store`), the store's commands and dump format (`db`, laws in
  `db_laws`), the client's line splitting and display (`cli`), and the
  server's per-connection decisions (`server`).
  The splitter's direct laws are in `split_laws`.
- `app/` is the program around it: argument handling, sockets, threads,
  the dump file on disk, the terminal.
- `tests/` exercises the library on concrete values.
