# Buran

An application server: it takes HTTP/1.1 connections, routes requests by a
declarative configuration, serves static files and hands the rest to pools of
worker processes that runtime modules provide.

- `src/` is the library: every rule and format of the server, with contracts
  that Verus proves. It does no input or output.
  - `bytes`, `text`, `json`: byte strings, texts and JSON strings.
  - `ipc`: the worker protocol's frames, greetings and request blobs.
  - `config`: the configuration's shape, `${NAME}` substitution, validation and
    what validation guarantees.
  - `router`: patterns, templates, routes, static files, WebSocket framing, the
    access log, HTTP/1.1 (`http1`) and the bookkeeping of worker pools
    (`dispatch`).
  - `control`, `supervisor`, `cli`: the prototype's commands, the workers'
    identity and settings, the command line.
  - `worker`, `echo`, `php`: the worker's side of the protocol and the two
    modules.
- `app/` is the program around it: sockets, files, processes and timers.
- `tests/` runs the library.
