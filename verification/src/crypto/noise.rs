//! The handshake: Noise `NNpsk0` over X25519, ChaCha20-Poly1305 and BLAKE2s.

use vstd::prelude::*;

use crate::bytes::copy_of;
use crate::protocol::ProtocolError;
use crate::text::owned;

verus! {

/// `snow::HandshakeState`: a handshake in progress.
#[verifier::external_type_specification]
#[verifier::external_body]
pub struct ExHandshakeState(snow::HandshakeState);

/// `snow::TransportState`: a finished handshake.
#[verifier::external_type_specification]
#[verifier::external_body]
pub struct ExTransportState(snow::TransportState);

/// The error of `snow`.
#[verifier::external_type_specification]
#[verifier::external_body]
pub struct ExSnowError(snow::Error);

/// Which end of the handshake this is.
#[derive(Clone, Copy, Debug, PartialEq, Eq, Structural)]
pub enum NoiseRole {
    Initiator,
    Responder,
}

/// How far a handshake has come.
#[derive(Debug)]
pub enum Phase {
    /// No message was exchanged.
    Fresh,
    /// The responder has read the first message.
    Heard(Vec<u8>),
    /// The initiator has written the first message.
    Asked,
    /// Both messages were exchanged.
    Finished,
}

/// How far a handshake has come, and what it rests on.
pub enum Hand {
    Fresh,
    /// The responder has read this message.
    Heard(Seq<u8>),
    /// The initiator waits for the answer, in a state with the random key it sent.
    Asked(snow::HandshakeState),
    /// The initiator's sending key, then the responder's.
    Finished(Seq<u8>, Seq<u8>),
}

/// How far a handshake in a state has come.
pub open spec fn hand_of(hs: snow::HandshakeState, phase: Phase) -> Hand {
    match phase {
        Phase::Fresh => Hand::Fresh,
        Phase::Heard(m) => Hand::Heard(m@),
        Phase::Asked => Hand::Asked(hs),
        Phase::Finished => Hand::Finished(noise_keys(hs).0, noise_keys(hs).1),
    }
}

pub enum NoiseSession {
    Handshake { hs: Box<snow::HandshakeState>, role: NoiseRole, psk: [u8; 32], phase: Phase },
    Transport(snow::TransportState),
}

/// What a message is longer than its payload: a public key, and the tag of the payload.
pub const MESSAGE_OVERHEAD: usize = 48;

/// The longest message.
pub const MAX_MESSAGE: usize = 65535;

/// The payload of the first message of a handshake under a pre-shared key; nothing where
/// the message was not made with that key.
pub uninterp spec fn noise_greeting(psk: Seq<u8>, message: Seq<u8>) -> Option<Seq<u8>>;

/// The digest of all that a handshake has exchanged.
pub uninterp spec fn noise_hash(hs: snow::HandshakeState) -> Seq<u8>;

/// Whether all messages of a handshake were exchanged.
pub uninterp spec fn noise_done(hs: snow::HandshakeState) -> bool;

/// The two keys that come of a handshake: the initiator's sending key, then the
/// responder's.
pub uninterp spec fn noise_keys(hs: snow::HandshakeState) -> (Seq<u8>, Seq<u8>);

/// The payload that a handshake finds in a message; nothing where it refuses it.
pub uninterp spec fn noise_answer(hs: snow::HandshakeState, message: Seq<u8>) -> Option<Seq<u8>>;

/// Whether a handshake has one message left, and it is one to read.
pub uninterp spec fn noise_waits(hs: snow::HandshakeState) -> bool;

/// The bytes of a BLAKE2s digest.
pub const HASH_LENGTH: usize = 32;

/// `snow::Builder::build_initiator` with the pre-shared key at position 0, which the
/// pattern asks for, and no static key, which it does not: it succeeds. The digest is
/// that of BLAKE2s, and no message was exchanged.
#[verifier::external_body]
fn start_initiator(psk: &[u8; 32]) -> (r: Result<snow::HandshakeState, snow::Error>)
    ensures
        r is Ok,
        r matches Ok(hs) ==> noise_hash(hs).len() == HASH_LENGTH && !noise_done(hs),
{
    snow::Builder::new("Noise_NNpsk0_25519_ChaChaPoly_BLAKE2s".parse()?).psk(0, psk).build_initiator()
}

/// `snow::Builder::build_responder` with the pre-shared key at position 0, which the
/// pattern asks for, and no static key, which it does not: it succeeds. The digest is
/// that of BLAKE2s, and no message was exchanged.
#[verifier::external_body]
fn start_responder(psk: &[u8; 32]) -> (r: Result<snow::HandshakeState, snow::Error>)
    ensures
        r is Ok,
        r matches Ok(hs) ==> noise_hash(hs).len() == HASH_LENGTH && !noise_done(hs),
{
    snow::Builder::new("Noise_NNpsk0_25519_ChaChaPoly_BLAKE2s".parse()?).psk(0, psk).build_responder()
}

/// `snow::HandshakeState::write_message` of a fresh initiator. It fails only where the
/// message would be longer than the protocol allows. The message holds a fresh random
/// key, so only its length is claimed, and that a responder with the same pre-shared key
/// reads the payload in it. The answer is then missing: one that is read ends the handshake.
#[verifier::external_body]
fn write_first(psk: &[u8; 32], payload: &[u8]) -> (r: Result<(snow::HandshakeState, Vec<u8>), snow::Error>)
    ensures
        (r is Ok) == (payload@.len() + MESSAGE_OVERHEAD <= MAX_MESSAGE),
        r matches Ok(w) ==> w.1@.len() == payload@.len() + MESSAGE_OVERHEAD && noise_greeting(psk@, w.1@) == Some(
            payload@,
        ) && noise_hash(w.0).len() == HASH_LENGTH && !noise_done(w.0) && noise_waits(w.0),
{
    let mut hs = snow::Builder::new("Noise_NNpsk0_25519_ChaChaPoly_BLAKE2s".parse()?).psk(0, psk).build_initiator()?;
    let mut out = vec![0u8; MAX_MESSAGE];
    let n = hs.write_message(payload, &mut out)?;
    out.truncate(n);
    Ok((hs, out))
}

/// `snow::HandshakeState::read_message` of a fresh responder: the payload, a function of
/// pre-shared key and message alone, or an error. No random key of its own has a part in
/// it yet.
#[verifier::external_body]
fn read_first(psk: &[u8; 32], message: &[u8]) -> (r: Result<(snow::HandshakeState, Vec<u8>), snow::Error>)
    ensures
        match r {
            Ok(w) => noise_greeting(psk@, message@) == Some(w.1@) && noise_hash(w.0).len() == HASH_LENGTH && !noise_done(
                w.0,
            ),
            Err(_) => noise_greeting(psk@, message@) is None,
        },
{
    let mut hs = snow::Builder::new("Noise_NNpsk0_25519_ChaChaPoly_BLAKE2s".parse()?).psk(0, psk).build_responder()?;
    let mut out = vec![0u8; MAX_MESSAGE];
    let n = hs.read_message(message, &mut out)?;
    out.truncate(n);
    Ok((hs, out))
}

/// `snow::HandshakeState::read_message` and `write_message` of a fresh responder.
/// They fail only where the first message cannot be read, or the second would be longer
/// than the protocol allows. The message holds a fresh random key, so only its length is
/// claimed. It ends the handshake.
#[verifier::external_body]
fn write_second(psk: &[u8; 32], message: &[u8], payload: &[u8]) -> (r: Result<
    (snow::HandshakeState, Vec<u8>),
    snow::Error,
>)
    ensures
        (r is Ok) == (noise_greeting(psk@, message@) is Some && payload@.len() + MESSAGE_OVERHEAD <= MAX_MESSAGE),
        r matches Ok(w) ==> w.1@.len() == payload@.len() + MESSAGE_OVERHEAD && noise_hash(w.0).len() == HASH_LENGTH
            && noise_done(w.0),
{
    let mut hs = snow::Builder::new("Noise_NNpsk0_25519_ChaChaPoly_BLAKE2s".parse()?).psk(0, psk).build_responder()?;
    let mut out = vec![0u8; MAX_MESSAGE];
    hs.read_message(message, &mut out)?;
    let n = hs.write_message(payload, &mut out)?;
    out.truncate(n);
    Ok((hs, out))
}

/// `snow::HandshakeState::read_message`: the payload, a function of state and message
/// alone, is written to the start of `out` and its length is returned; an error where the
/// message is refused, or there is no room. The digest keeps its length, and where the
/// message was the last one the handshake is over.
#[verifier::external_body]
fn read_message(hs: &mut snow::HandshakeState, message: &[u8], out: &mut [u8]) -> (r: Result<usize, snow::Error>)
    ensures
        final(out)@.len() == old(out)@.len(),
        match r {
            Ok(n) => noise_answer(*old(hs), message@) matches Some(p) && p.len() == n && n <= old(out)@.len()
                && final(out)@.subrange(0, n as int) == p,
            Err(_) => noise_answer(*old(hs), message@) matches Some(p) ==> p.len() > old(out)@.len(),
        },
        noise_hash(*final(hs)).len() == noise_hash(*old(hs)).len(),
        noise_waits(*old(hs)) ==> noise_done(*final(hs)) == (r is Ok),
        noise_waits(*old(hs)) ==> noise_waits(*final(hs)) == (r is Err),
{
    hs.read_message(message, out)
}

/// `snow::HandshakeState::get_handshake_hash`: the digest, a function of the state alone.
#[verifier::external_body]
fn transcript_hash(hs: &snow::HandshakeState) -> (r: Vec<u8>)
    ensures
        r@ == noise_hash(*hs),
{
    hs.get_handshake_hash().to_vec()
}

/// `snow::HandshakeState::into_transport_mode`: it succeeds exactly where all messages were
/// exchanged.
#[verifier::external_body]
fn finish(hs: Box<snow::HandshakeState>) -> (r: Result<snow::TransportState, snow::Error>)
    ensures
        (r is Ok) == noise_done(*hs),
{
    hs.into_transport_mode()
}

/// `snow::HandshakeState::dangerously_get_raw_split`: the initiator's sending key, then
/// the responder's, a function of the state alone, which is not changed in what its names
/// say.
#[verifier::external_body]
fn split_raw(hs: &mut snow::HandshakeState) -> (r: ([u8; 32], [u8; 32]))
    ensures
        (r.0@, r.1@) == noise_keys(*old(hs)),
        noise_keys(*final(hs)) == noise_keys(*old(hs)),
        noise_hash(*final(hs)) == noise_hash(*old(hs)),
        noise_done(*final(hs)) == noise_done(*old(hs)),
{
    hs.dangerously_get_raw_split()
}

/// Sending and receiving key of one end: the initiator sends with the first key
/// of the handshake, the responder with the second.
pub open spec fn keys_of(role: NoiseRole, first: Seq<u8>, second: Seq<u8>) -> (Seq<u8>, Seq<u8>) {
    match role {
        NoiseRole::Initiator => (first, second),
        NoiseRole::Responder => (second, first),
    }
}

/// Sending and receiving key of one end.
pub fn split_keys(role: NoiseRole, keys: ([u8; 32], [u8; 32])) -> (r: ([u8; 32], [u8; 32]))
    ensures
        (r.0@, r.1@) == keys_of(role, keys.0@, keys.1@),
{
    match role {
        NoiseRole::Initiator => (keys.0, keys.1),
        NoiseRole::Responder => (keys.1, keys.0),
    }
}

/// What one end sends with, the other receives with.
pub proof fn ends_agree_on_keys(first: Seq<u8>, second: Seq<u8>)
    ensures
        keys_of(NoiseRole::Initiator, first, second).0 == keys_of(NoiseRole::Responder, first, second).1,
        keys_of(NoiseRole::Initiator, first, second).1 == keys_of(NoiseRole::Responder, first, second).0,
{
}

/// Copies a digest to `out`, which must have its length.
pub fn fill_exact(out: &mut [u8], hash: &[u8]) -> (r: Result<(), ProtocolError>)
    ensures
        match r {
            Ok(_) => old(out)@.len() == hash@.len() && final(out)@ == hash@,
            Err(e) => old(out)@.len() != hash@.len() && e is Crypto && final(out)@ == old(out)@,
        },
{
    if out.len() != hash.len() {
        return Err(ProtocolError::Crypto(owned("handshake hash length mismatch")));
    }
    let mut i: usize = 0;
    while i < hash.len()
        invariant
            i <= hash@.len(),
            out@.len() == hash@.len(),
            forall|k: int| 0 <= k < i ==> out@[k] == hash@[k],
        decreases hash@.len() - i,
    {
        out[i] = hash[i];
        i += 1;
    }
    assert(out@ =~= hash@);
    Ok(())
}

/// Copies bytes to the start of `out`.
fn fill_start(out: &mut [u8], b: &[u8])
    requires
        b@.len() <= old(out)@.len(),
    ensures
        final(out)@.len() == old(out)@.len(),
        final(out)@.subrange(0, b@.len() as int) == b@,
{
    let mut i: usize = 0;
    while i < b.len()
        invariant
            i <= b@.len() <= out@.len(),
            out@.len() == old(out)@.len(),
            forall|k: int| 0 <= k < i ==> out@[k] == b@[k],
        decreases b@.len() - i,
    {
        out[i] = b[i];
        i += 1;
    }
    assert(out@.subrange(0, b@.len() as int) =~= b@);
}

impl NoiseSession {
    pub open spec fn role(&self) -> NoiseRole {
        match *self {
            NoiseSession::Handshake { role, .. } => role,
            NoiseSession::Transport(_) => NoiseRole::Initiator,
        }
    }

    pub open spec fn psk(&self) -> Seq<u8> {
        match *self {
            NoiseSession::Handshake { psk, .. } => psk@,
            NoiseSession::Transport(_) => Seq::empty(),
        }
    }

    pub open spec fn hand(&self) -> Hand {
        match *self {
            NoiseSession::Handshake { hs, phase, .. } => hand_of(*hs, phase),
            NoiseSession::Transport(_) => Hand::Finished(Seq::empty(), Seq::empty()),
        }
    }

    /// The digest of the handshake.
    pub open spec fn digest(&self) -> Seq<u8> {
        match *self {
            NoiseSession::Handshake { hs, .. } => noise_hash(*hs),
            NoiseSession::Transport(_) => Seq::empty(),
        }
    }

    /// Whether the handshake can be ended.
    pub open spec fn done(&self) -> bool {
        match *self {
            NoiseSession::Handshake { hs, .. } => noise_done(*hs),
            NoiseSession::Transport(_) => true,
        }
    }

    /// The initiator's sending key, then the responder's.
    pub open spec fn keys(&self) -> (Seq<u8>, Seq<u8>) {
        match *self {
            NoiseSession::Handshake { hs, .. } => noise_keys(*hs),
            NoiseSession::Transport(_) => (Seq::empty(), Seq::empty()),
        }
    }

    /// The same session, but for how far it has come.
    pub open spec fn same(&self, other: &NoiseSession) -> bool {
        &&& self is Handshake <==> other is Handshake
        &&& self.role() == other.role()
        &&& self.psk() == other.psk()
        &&& other.digest().len() == HASH_LENGTH ==> self.digest().len() == HASH_LENGTH
    }

    /// Begins a handshake.
    pub fn new(role: NoiseRole, psk: &[u8; 32]) -> (r: Result<Self, ProtocolError>)
        ensures
            r matches Ok(s) && s is Handshake && s.role() == role && s.psk() == psk@ && s.hand() is Fresh
                && s.digest().len() == HASH_LENGTH && !s.done(),
    {
        let started = match role {
            NoiseRole::Initiator => start_initiator(psk),
            NoiseRole::Responder => start_responder(psk),
        };
        match started {
            Ok(hs) => Ok(NoiseSession::Handshake { hs: Box::new(hs), role, psk: *psk, phase: Phase::Fresh }),
            Err(_) => Err(ProtocolError::Crypto(owned("noise-init"))),
        }
    }

    /// Writes the next handshake message to the start of `out` and returns its length:
    /// the first message of an initiator, or the answer of a responder to it, where there
    /// is room. Anything else is a cryptographic error, or a state error past the
    /// handshake.
    pub fn write_handshake(&mut self, payload: &[u8], out: &mut [u8]) -> (r: Result<usize, ProtocolError>)
        ensures
            final(out)@.len() == old(out)@.len(),
            final(self).same(old(self)),
            ({
                let n = payload@.len() + MESSAGE_OVERHEAD;
                let room = n <= MAX_MESSAGE && n <= old(out)@.len();
                match (old(self).role(), old(self).hand()) {
                    (NoiseRole::Initiator, Hand::Fresh) if room => {
                        &&& r == Ok::<usize, ProtocolError>(n as usize)
                        &&& noise_greeting(old(self).psk(), final(out)@.subrange(0, n as int)) == Some(payload@)
                        &&& final(self).hand() matches Hand::Asked(hs) && noise_waits(hs)
                        &&& !final(self).done()
                    },
                    (NoiseRole::Responder, Hand::Heard(m)) if room && noise_greeting(old(self).psk(), m) is Some => {
                        &&& r == Ok::<usize, ProtocolError>(n as usize)
                        &&& final(self).hand() == Hand::Finished(final(self).keys().0, final(self).keys().1)
                        &&& final(self).done()
                    },
                    _ => {
                        &&& r matches Err(e) && if *old(self) is Handshake {
                            e is Crypto
                        } else {
                            e is State
                        }
                        &&& *final(self) == *old(self)
                        &&& final(out)@ == old(out)@
                    },
                }
            }),
    {
        let (written, next) = match self {
            NoiseSession::Transport(_) => {
                return Err(ProtocolError::State(owned("noise already in transport")));
            },
            NoiseSession::Handshake { role, psk, phase, .. } => match (*role, &*phase) {
                (NoiseRole::Initiator, Phase::Fresh) => (write_first(psk, payload), Phase::Asked),
                (NoiseRole::Responder, Phase::Heard(m)) => (write_second(psk, m, payload), Phase::Finished),
                _ => {
                    return Err(ProtocolError::Crypto(owned("noise-write")));
                },
            },
        };
        match written {
            Ok((hs, message)) => {
                if message.len() > out.len() {
                    return Err(ProtocolError::Crypto(owned("noise-write")));
                }
                fill_start(out, &message);
                self.advance(hs, next);
                Ok(message.len())
            },
            Err(_) => Err(ProtocolError::Crypto(owned("noise-write"))),
        }
    }

    /// The handshake has come further.
    fn advance(&mut self, hs: snow::HandshakeState, next: Phase)
        requires
            *old(self) is Handshake,
            noise_hash(hs).len() == HASH_LENGTH,
        ensures
            final(self).same(old(self)),
            final(self).hand() == hand_of(hs, next),
            final(self).digest() == noise_hash(hs),
            final(self).done() == noise_done(hs),
            final(self).keys() == noise_keys(hs),
    {
        if let NoiseSession::Handshake { hs: at, phase, .. } = self {
            *at = Box::new(hs);
            *phase = next;
        }
    }

    /// Reads a handshake message; its payload goes to the start of `out` and its length
    /// is returned: the first message, for a responder with the pre-shared key, where
    /// there is room; or what the handshake makes of the answer to an initiator. Anything
    /// else is a cryptographic error, or a state error past the handshake.
    pub fn read_handshake(&mut self, input: &[u8], out: &mut [u8]) -> (r: Result<usize, ProtocolError>)
        ensures
            final(out)@.len() == old(out)@.len(),
            final(self).same(old(self)),
            match (old(self).role(), old(self).hand()) {
                (NoiseRole::Responder, Hand::Fresh) => match noise_greeting(old(self).psk(), input@) {
                    Some(p) if p.len() <= old(out)@.len() => {
                        &&& r == Ok::<usize, ProtocolError>(p.len() as usize)
                        &&& final(out)@.subrange(0, p.len() as int) == p
                        &&& final(self).hand() == Hand::Heard(input@)
                    },
                    _ => {
                        &&& r matches Err(e) && e is Crypto
                        &&& *final(self) == *old(self)
                    },
                },
                (NoiseRole::Initiator, Hand::Asked(hs)) => match noise_answer(hs, input@) {
                    Some(p) if p.len() <= old(out)@.len() => {
                        &&& r == Ok::<usize, ProtocolError>(p.len() as usize)
                        &&& final(out)@.subrange(0, p.len() as int) == p
                        &&& final(self).hand() == Hand::Finished(final(self).keys().0, final(self).keys().1)
                        &&& noise_waits(hs) ==> final(self).done()
                    },
                    _ => {
                        &&& r matches Err(e) && e is Crypto
                        &&& final(self).hand() matches Hand::Asked(after) && (noise_waits(hs) ==> noise_waits(after))
                    },
                },
                _ => {
                    &&& r matches Err(e) && if *old(self) is Handshake {
                        e is Crypto
                    } else {
                        e is State
                    }
                    &&& *final(self) == *old(self)
                },
            },
    {
        let ghost start = *self;
        let heard = match self {
            NoiseSession::Transport(_) => {
                return Err(ProtocolError::State(owned("noise already in transport")));
            },
            NoiseSession::Handshake { role, psk, phase, hs } => match (*role, &*phase) {
                (NoiseRole::Responder, Phase::Fresh) => read_first(psk, input),
                (NoiseRole::Initiator, Phase::Asked) => {
                    return match read_message(hs, input, out) {
                        Ok(n) => {
                            *phase = Phase::Finished;
                            Ok(n)
                        },
                        Err(_) => Err(ProtocolError::Crypto(owned("noise-read"))),
                    };
                },
                _ => {
                    return Err(ProtocolError::Crypto(owned("noise-read")));
                },
            },
        };
        match heard {
            Ok((hs, payload)) => {
                if payload.len() > out.len() {
                    return Err(ProtocolError::Crypto(owned("noise-read")));
                }
                fill_start(out, &payload);
                self.advance(hs, Phase::Heard(copy_of(input)));
                Ok(payload.len())
            },
            Err(_) => Err(ProtocolError::Crypto(owned("noise-read"))),
        }
    }

    /// Copies the digest of the handshake to `out`, which must have its length: a
    /// cryptographic error otherwise, a state error past the handshake.
    pub fn handshake_hash(&self, out: &mut [u8]) -> (r: Result<(), ProtocolError>)
        ensures
            (r is Ok) == (self is Handshake && old(out)@.len() == self.digest().len()),
            match r {
                Ok(_) => final(out)@ == self.digest(),
                Err(e) => final(out)@ == old(out)@ && if self is Handshake {
                    e is Crypto
                } else {
                    e is State
                },
            },
    {
        match self {
            NoiseSession::Handshake { hs, .. } => {
                let hash = transcript_hash(hs);
                fill_exact(out, &hash)
            },
            NoiseSession::Transport(_) => Err(ProtocolError::State(owned("noise already in transport"))),
        }
    }

    /// Ends the handshake, once all messages were exchanged: a cryptographic error before
    /// that. A session past it stays as it is.
    pub fn into_transport(self) -> (r: Result<Self, ProtocolError>)
        ensures
            (r is Ok) == self.done(),
            match r {
                Ok(s) => s is Transport,
                Err(e) => e is Crypto,
            },
            self is Transport ==> r == Ok::<Self, ProtocolError>(self),
    {
        match self {
            NoiseSession::Handshake { hs, .. } => match finish(hs) {
                Ok(t) => Ok(NoiseSession::Transport(t)),
                Err(_) => Err(ProtocolError::Crypto(owned("noise-transport"))),
            },
            NoiseSession::Transport(t) => Ok(NoiseSession::Transport(t)),
        }
    }

    /// Sending and receiving key of this end, from the chaining key of the
    /// handshake: it absorbed the exchange of the random keys, so the keys die
    /// with the session. A state error past the handshake, and only there.
    pub fn raw_split(&mut self, role: NoiseRole) -> (r: Result<([u8; 32], [u8; 32]), ProtocolError>)
        ensures
            final(self).same(old(self)),
            old(self).hand() !is Asked ==> final(self).hand() == old(self).hand(),
            final(self).keys() == old(self).keys(),
            final(self).done() == old(self).done(),
            match r {
                Ok(k) => *old(self) is Handshake && (k.0@, k.1@) == keys_of(
                    role,
                    old(self).keys().0,
                    old(self).keys().1,
                ),
                Err(e) => *old(self) is Transport && e is State,
            },
    {
        match self {
            NoiseSession::Handshake { hs, .. } => {
                let keys = split_raw(hs);
                Ok(split_keys(role, keys))
            },
            NoiseSession::Transport(_) => Err(ProtocolError::State(owned("noise already in transport"))),
        }
    }
}

/// The end that began sends with the first key and receives with the second.
pub proof fn keys_follow_the_role(first: Seq<u8>, second: Seq<u8>)
    ensures
        keys_of(NoiseRole::Initiator, first, second) == (first, second),
        keys_of(NoiseRole::Responder, first, second) == (second, first),
{
}

} // verus!
