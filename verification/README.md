# redis_lite

A small Redis-compatible server whose core is verified with Verus.

- `src/redis/wire.rs`: lines as a buffered reader delimits them, unsigned
  decimal numbers, UTF-8 text.
- `src/redis/resp.rs`: RESP values, reading them from bytes (`RESPParser`,
  `RESPDataTypes::decode`), writing them back, and the round-trip laws.
- `src/redis/commands.rs`: `PING`, `ECHO`, `SET`, `GET`, the key-value store
  and its laws.
- `src/redis/server.rs`: what the connection handler does with one request.
- `src/executor.rs`: which worker of the pool gets a task, and the number of
  processors listed in `/proc/cpuinfo`.
- `app/`: the TCP listener, the connection loop and the worker threads.
