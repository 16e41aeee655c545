//! Building blocks for small network services: a bit-level byte builder,
//! WebSocket frames and handshakes, HTTP request parsing and response
//! rendering, and a few helpers used by the example servers.
pub mod bits;
pub mod bitbuilder;
pub mod text;
pub mod websockets;
pub mod headers;
pub mod http;
pub mod handshake;
pub mod primes;
pub mod calc;
pub mod draw;
pub mod routes;
