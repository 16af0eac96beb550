//! The session protocol: handshake, numbered and acknowledged packets, in-order
//! delivery and retransmission.

pub mod ack;
pub mod laws;
pub mod machine;
pub mod receive;
pub mod reliability;
pub mod sent;
pub mod session;

use vstd::prelude::*;

pub use machine::{OstpEvent, ProtocolAction, ProtocolConfig, ProtocolMachine};
pub use session::OstpState;

verus! {

/// Why a packet or an event was refused.
#[derive(Debug)]
pub enum ProtocolError {
    State(String),
    Crypto(String),
    Framing(String),
}

} // verus!
