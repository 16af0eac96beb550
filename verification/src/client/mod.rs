//! The client side of a machine: its settings, the device that traffic enters, the
//! helper with the rights to make one, and the windows around them.

pub mod config;
pub mod desktop;
pub mod helper;
pub mod log;
pub mod tun;
pub mod tunnel;
