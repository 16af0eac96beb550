//! Padding of frames, so that packet sizes say little about their payloads.

use rand::Rng;
use vstd::prelude::*;

verus! {

/// How frames are padded.
#[derive(Debug, Clone, Copy, PartialEq, Eq, Structural)]
pub enum PaddingStrategy {
    /// No padding.
    Off,
    /// Up to the configured maximum, within the packet size.
    Adaptive,
}

/// What kind of traffic a session imitates.
#[derive(Debug, Clone, Copy, PartialEq, Eq, Structural)]
pub enum TrafficProfile {
    Web,
    Video,
    Bulk,
}

/// Bytes of a packet around the payload: packet header, frame header and tag.
pub const PACKET_OVERHEAD: usize = 40;

/// The most padding for a payload: as much as the packet has room for, at most
/// the configured maximum and what the frame header can state.
pub open spec fn padding_room(mtu: int, max_padding: int, strategy: PaddingStrategy, payload: int) -> int {
    if strategy is Off || mtu <= PACKET_OVERHEAD + payload {
        0
    } else {
        let room = mtu - PACKET_OVERHEAD - payload;
        let most = if max_padding < 0xffff {
            max_padding
        } else {
            0xffff
        };
        if room < most {
            room
        } else {
            most
        }
    }
}

/// Chooses the padding of frames.
#[derive(Debug, Clone, Copy)]
pub struct AdaptivePadder {
    mtu: usize,
    max_padding: usize,
    strategy: PaddingStrategy,
}

/// `rand::Rng::gen_range` of the thread's generator: a number from `0` to `max`.
#[verifier::external_body]
pub(crate) fn random_up_to(max: usize) -> (r: usize)
    ensures
        r <= max,
{
    rand::thread_rng().gen_range(0..=max)
}

/// `rand::Rng::fill` of the thread's generator: `n` bytes.
#[verifier::external_body]
pub(crate) fn random_bytes(n: usize) -> (r: Vec<u8>)
    ensures
        r@.len() == n,
{
    let mut v = vec![0u8; n];
    rand::thread_rng().fill(&mut v[..]);
    v
}

impl AdaptivePadder {
    /// The most padding for a payload of `payload` bytes.
    pub closed spec fn room(&self, payload: int) -> int {
        padding_room(self.mtu as int, self.max_padding as int, self.strategy, payload)
    }

    pub fn new(mtu: usize, max_padding: usize, strategy: PaddingStrategy) -> (r: Self)
        ensures
            forall|n: int| #[trigger] r.room(n) == padding_room(mtu as int, max_padding as int, strategy, n),
    {
        AdaptivePadder { mtu, max_padding, strategy }
    }

    /// The most padding for a payload of `payload_len` bytes.
    pub fn most_padding(&self, payload_len: usize) -> (r: usize)
        ensures
            r == self.room(payload_len as int),
    {
        let none = match self.strategy {
            PaddingStrategy::Off => true,
            PaddingStrategy::Adaptive => false,
        };
        if none || self.mtu <= PACKET_OVERHEAD || self.mtu - PACKET_OVERHEAD <= payload_len {
            return 0;
        }
        let room: usize = self.mtu - PACKET_OVERHEAD - payload_len;
        let most: usize = if self.max_padding < 0xffff {
            self.max_padding
        } else {
            0xffff
        };
        if room < most {
            room
        } else {
            most
        }
    }

    /// As many random bytes as were drawn to pad a payload of `payload_len` bytes with,
    /// and no more than there is room for.
    pub fn padding_with(&self, payload_len: usize, drawn: usize) -> (r: Vec<u8>)
        ensures
            r@.len() == if drawn <= self.room(payload_len as int) {
                drawn as int
            } else {
                self.room(payload_len as int)
            },
    {
        let most: usize = self.most_padding(payload_len);
        random_bytes(if drawn <= most { drawn } else { most })
    }

    /// Random bytes to pad a payload of `payload_len` bytes with. How many there are is
    /// drawn from zero to the most that there is room for, so only that range is claimed.
    pub fn build_padding(&self, payload_len: usize) -> (r: Vec<u8>)
        ensures
            r@.len() <= self.room(payload_len as int),
            r@.len() <= 0xffff,
    {
        self.padding_with(payload_len, random_up_to(self.most_padding(payload_len)))
    }
}

/// Padding fills a packet as far as it goes: the packet, with its overhead of forty bytes, stays
/// within its size, and no byte more would be allowed.
pub proof fn padding_fills_the_packet(mtu: int, most: int, payload: int)
    requires
        most >= 0,
    ensures
        padding_room(mtu, most, PaddingStrategy::Off, payload) == 0,
        ({
            let room = padding_room(mtu, most, PaddingStrategy::Adaptive, payload);
            &&& 0 <= room <= most && room <= 65535
            &&& room > 0 ==> 40 + payload + room <= mtu
            &&& 40 + payload < mtu ==> room == most || room == 65535 || 40 + payload + room == mtu
        }),
{
}

} // verus!
