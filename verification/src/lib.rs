//! OSTP: an obfuscated, authenticated datagram transport, the relay protocol it
//! carries, and the decisions of the server, resolver and clients built on it.

pub mod bytes;
pub mod client;
pub mod config;
pub mod congestion;
pub mod crypto;
pub mod dns;
pub mod encoding;
pub mod framing;
pub mod http;
pub mod http_upgrade;
pub mod ids;
pub mod json;
pub mod net;
pub mod protocol;
pub mod relay;
pub mod resumption;
pub mod server;
pub mod share_link;
pub mod subscription;
pub mod table;
pub mod text;
pub mod time;
