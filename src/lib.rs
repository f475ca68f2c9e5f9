//! A verified WebSocket frame codec, handshake key derivation, per-connection
//! state machine and connection registry.
pub mod frame;
pub mod handshake;
pub mod connection;
pub mod registry;
