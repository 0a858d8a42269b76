# lychee_worker

The logic of a prefork HTTP/WebSocket worker for PHP, written in Verus with
its contracts proved.

- `src/` is the verified library:
  - `http`: keep-alive decision, request line and header text, the
    announced body length, the head and body readers that the connection
    loop drives, request routing, fixed responses, the connection limit.
  - `websocket`: the handshake key and accept value, the opening handshake,
    heartbeat settings, structured events, the connection and room tables
    (with laws on joining, leaving and cleanup), and the per-event decisions
    of a session.
  - `sse`: the Server-Sent Events format, chunked framing and the session
    that start/send/end go through.
  - `runtime`: the worker configuration, file-name patterns and watch
    filters, file modification tables, child commands and restart plans,
    the supervisor's reaction to file changes, and the lazily filled cell.
  - `stats`, `php_api`, `entry`: statistics, the default response, and the
    argument checks of `lychee_worker_start`.
  - `text`: byte and character helpers with their sequence definitions.
  - `bridges`: the calls into std and outside crates that the proofs rely on.
- `tests/` runs the library on concrete values.
- `app/` is the PHP extension around it: the exported PHP functions, the
  tokio server, the event-stream socket and the prefork supervisor.
