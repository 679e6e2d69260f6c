//! A verified core for a REPL bridge: a backend-agnostic request/response
//! model, a framed binary dialect and a line-oriented structured-text
//! dialect behind one interface, the handshake that picks the dialect,
//! and the worker-loop logic that forwards server responses to a display
//! sink in arrival order.

pub mod bencode;
pub mod detect;
pub mod edn_value;
pub mod logbuf;
pub mod nrepl;
pub mod prepl;
pub mod repl;
pub mod strutil;
pub mod worker;
