//! The settings of a client.

use crate::base_connection::ConnectionConfig;
use crate::timer::Millis;
use vstd::prelude::*;

verus! {

/// The settings that a client is run with.
#[derive(Clone, Copy, Debug)]
pub struct ClientConfig {
    /// The time between two sendings of the same handshake packet.
    pub send_handshake_interval: Millis,
    /// The time to wait for word from the server before the connection
    /// counts as dead. It should be more than twice the server's heartbeat
    /// interval, so that two heartbeats in a row must be lost first.
    pub disconnection_timeout_duration: Millis,
    /// The time after which a heartbeat is sent, if nothing else was.
    pub heartbeat_interval: Millis,
    /// The time between two pings, by which the round trip is measured.
    pub ping_interval: Millis,
    /// How many samples the round trip and its jitter are measured over.
    /// More samples make for a smoother, but slower, measure.
    pub rtt_sample_size: u16,
    /// The least latency to the server that the client reckons with when
    /// it times its commands, whatever it has measured.
    pub minimum_command_latency: Option<Millis>,
}

impl ClientConfig {
    /// The spans that govern the client's connection, where they go
    /// together.
    pub fn connection_config(&self) -> (r: Option<ConnectionConfig>)
        ensures
            r == if 2 * self.heartbeat_interval < self.disconnection_timeout_duration {
                Some(
                    ConnectionConfig {
                        disconnection_timeout_duration: self.disconnection_timeout_duration,
                        heartbeat_interval: self.heartbeat_interval,
                    },
                )
            } else {
                None
            },
    {
        ConnectionConfig::new(self.heartbeat_interval, self.disconnection_timeout_duration)
    }
}

impl Default for ClientConfig {
    fn default() -> (r: ClientConfig)
        ensures
            r == (ClientConfig {
                send_handshake_interval: 1000,
                disconnection_timeout_duration: 10000,
                heartbeat_interval: 3000,
                ping_interval: 1000,
                rtt_sample_size: 20,
                minimum_command_latency: None,
            }),
    {
        ClientConfig {
            disconnection_timeout_duration: 10000,
            heartbeat_interval: 3000,
            send_handshake_interval: 1000,
            ping_interval: 1000,
            rtt_sample_size: 20,
            minimum_command_latency: None,
        }
    }
}

} // verus!
