//! Hashes, ciphers, the handshake and the packet disguise.

pub mod aead;
pub mod digest;
pub mod noise;
pub mod obfuscation;
pub mod reality;

pub use aead::SessionCipher;
pub use noise::{NoiseRole, NoiseSession};
pub use obfuscation::{
    current_junk_window, deobfuscate_header_inplace, deobfuscate_packet_inplace, derive_all_secrets, derive_junk_marker,
    derive_obfuscation_key, derive_psk, obfuscate_packet_inplace, DerivedSecrets,
};
