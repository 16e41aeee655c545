# network_common

Building blocks for small network services, verified with Verus, and the
example programs that use them.

## Layout

- `src/` — the verified library:
  - `bits.rs`, `bitbuilder.rs`: a growable bit sequence packed most
    significant bit first into bytes (`BitBuilder`), with its packing laws.
  - `websockets.rs`: WebSocket frames (`SocketMessage`): encoding to bytes and
    decoding a received, masked frame.
  - `handshake.rs`: the opening handshake (SHA-1 and base64 of the client key).
  - `headers.rs`, `http.rs`: HTTP requests (method, request line, header
    block) and responses.
  - `calc.rs`, `primes.rs`, `draw.rs`, `routes.rs`: the logic of the example
    servers: the calculator's arithmetic, trial division, the drawing board's
    per-client queues, and request routing.
  - `text.rs`: string helpers shared by the above.
- `tests/`: tests of the library, including comparisons of the request parser
  with the same grammar written with nom, and of the calculator with std's
  parsing and checked arithmetic.
- `app/`: the programs (`app/main.rs` picks one by its first argument): the
  thread pool, the WebSocket stream over TCP, a parallel prime search, the
  pool demo, the calculator page server, the UDP expression evaluator, the
  code-compiling server and the shared drawing board.

Every public function of `src/` states what it returns or changes in its
`ensures`; the laws that span several functions are public proof functions
whose names start with `law_`.
