//! Tick-stamped messages over unreliable datagrams.
//!
//! A client stamps each command with the tick it is meant for and sends it
//! again and again until it is acknowledged or too old to matter; the
//! server holds what arrives until its tick has come, and hands each
//! message out once. Around that channel stand the connection that carries
//! it (packet numbers and acknowledgements, heartbeat and timeout), the
//! handshake that opens it, and the bit-level format of what goes over the
//! wire.

pub mod ack_manager;
pub mod base_connection;
pub mod bits;
pub mod channel_tick_buffer;
pub mod client_config;
pub mod entity_action;
pub mod framing;
pub mod handshake_manager;
pub mod incoming;
pub mod message;
pub mod message_list_header;
pub mod message_manager;
pub mod outgoing;
pub mod standard_header;
pub mod tick;
pub mod timer;
pub mod varint;
pub mod wire;
