//! The server: who may use it, and what happens to each datagram, stream and
//! request.

pub mod acme;
pub mod api;
pub mod bucket;
pub mod dispatcher;
pub mod dns;
pub mod fallback;
pub mod hub;
pub mod limiter;
pub mod outbound;
pub mod relay_node;
pub mod router;
pub mod sessions;
pub mod sniff;
pub mod socks5;
pub mod startup;
pub mod streams;
pub mod subscription;
pub mod tls;
pub mod users;
