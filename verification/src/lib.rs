//! Request parsing, event framing, room bookkeeping and supervision
//! decisions of a prefork HTTP/WebSocket worker for PHP, with their
//! contracts proved by Verus.

pub mod bridges;
pub mod text;
pub mod http;
pub mod websocket;
pub mod runtime;
pub mod sse;
pub mod stats;
pub mod php_api;
pub mod entry;
