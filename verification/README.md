# mini_redis

A small Redis-like key-value server: clients send GET and SET requests in
the RESP wire format over TCP, and the server answers from an in-memory
store.

- `src/` is the verified library. `frame` reads and writes RESP frames
  (`check`, `parse`, `encode`) against spec functions over bytes, with the
  law that an encoded frame parses back to itself; `parse` and `command`
  turn frames into GET/SET commands; `database` is the store, modelled as a
  map; `connection` holds a connection's read buffer; `handler`, `acceptor`
  and `requester` are the decisions of the server and client loops;
  `metrics` counts what the server does; `laws` states what the pieces
  promise together.
- `app/` runs the network loops with tokio and the command-line interface
  with clap.
- `tests/` exercises the library on concrete inputs.
