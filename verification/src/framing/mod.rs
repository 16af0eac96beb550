//! Frames inside encrypted packets, their padding, and WebSocket framing.

pub mod frame;
pub mod padding;
pub mod wss;

pub use frame::{FrameHeader, FrameKind, FramedPacket};
pub use padding::{AdaptivePadder, PaddingStrategy, TrafficProfile};
pub use wss::{decode_wss_frame, encode_wss_frame, WssFrameResult};
