//! Session tickets, with which a client resumes a session without waiting for
//! a handshake.
//!
//! A ticket is `[ticket_id:16][session_id:4][cipher_key:32][issued_at:8][ttl:8]`,
//! stored XORed with a key that the pre-shared key gives. The server accepts
//! each ticket once, until it expires.

use vstd::prelude::*;
use vstd::utf8::encode_utf8;

use crate::bytes::{
    array16, array32, be32, be64, copy_of, get_u32, get_u64, lemma_be32, lemma_be64, put_slice, put_u32, put_u64, same_bytes, u32_at,
    u64_at,
};
use crate::crypto::digest::{hmac_of, hmac_sha256, sha256, sha256_of};
use crate::time::unix_secs;

verus! {

broadcast use crate::bytes::group_big_endian;

/// Seconds for which a ticket is good.
pub const DEFAULT_TICKET_TTL: u64 = 3600;

/// Bytes of a ticket.
pub const TICKET_LEN: usize = 68;

#[derive(Debug, Clone, Copy)]
pub struct SessionTicket {
    /// Names the ticket, so that it is accepted once.
    pub ticket_id: [u8; 16],
    /// The session to resume.
    pub session_id: u32,
    /// The key for early data.
    pub cipher_key: [u8; 32],
    /// When it was issued, in seconds since the epoch.
    pub issued_at: u64,
    /// For how many seconds it is good.
    pub ttl: u64,
}

/// What a ticket says.
#[verifier::ext_equal]
pub struct Ticket {
    pub ticket_id: Seq<u8>,
    pub session_id: int,
    pub cipher_key: Seq<u8>,
    pub issued_at: int,
    pub ttl: int,
}

impl View for SessionTicket {
    type V = Ticket;

    open spec fn view(&self) -> Ticket {
        Ticket {
            ticket_id: self.ticket_id@,
            session_id: self.session_id as int,
            cipher_key: self.cipher_key@,
            issued_at: self.issued_at as int,
            ttl: self.ttl as int,
        }
    }
}

impl Ticket {
    /// The parts have the sizes that a ticket has.
    pub open spec fn valid(self) -> bool {
        &&& self.ticket_id.len() == 16
        &&& 0 <= self.session_id <= u32::MAX
        &&& self.cipher_key.len() == 32
        &&& 0 <= self.issued_at <= u64::MAX
        &&& 0 <= self.ttl <= u64::MAX
    }

    /// The ticket of a session, issued at `now`.
    pub open spec fn issued(session_id: int, transport_key: Seq<u8>, psk: Seq<u8>, now: int) -> Ticket {
        let id = sha256(transport_key + be64(now) + encode_utf8("ostp-ticket-id"@)).subrange(0, 16);
        Ticket {
            ticket_id: id,
            session_id,
            cipher_key: sha256(psk + id + encode_utf8("ostp-early-data-key"@)),
            issued_at: now,
            ttl: DEFAULT_TICKET_TTL as int,
        }
    }

    pub open spec fn expired(self, now: int) -> bool {
        now > self.issued_at + self.ttl
    }

    pub open spec fn bytes(self) -> Seq<u8> {
        self.ticket_id + be32(self.session_id) + self.cipher_key + be64(self.issued_at) + be64(self.ttl)
    }

    /// The ticket at the start of `data`; what follows it is ignored.
    pub open spec fn parse(data: Seq<u8>) -> Option<Ticket> {
        if data.len() < TICKET_LEN {
            None
        } else {
            Some(
                Ticket {
                    ticket_id: data.subrange(0, 16),
                    session_id: u32_at(data, 16),
                    cipher_key: data.subrange(20, 52),
                    issued_at: u64_at(data, 52),
                    ttl: u64_at(data, 60),
                },
            )
        }
    }
}

/// The key that tickets are stored under.
pub open spec fn storage_key(psk: Seq<u8>) -> Seq<u8> {
    hmac_sha256(psk, encode_utf8("ostp-ticket-encryption"@))
}

/// Bytes XORed with a repeated key of 32 bytes.
pub open spec fn xor32(data: Seq<u8>, key: Seq<u8>) -> Seq<u8> {
    Seq::new(data.len(), |i: int| data[i] ^ key[i % 32])
}

fn storage_key_of(psk: &[u8; 32]) -> (key: [u8; 32])
    ensures
        key@ == storage_key(psk@),
{
    hmac_of(psk, "ostp-ticket-encryption".as_bytes())
}

fn xored(data: &[u8], key: &[u8; 32]) -> (out: Vec<u8>)
    ensures
        out@ == xor32(data@, key@),
{
    let mut out: Vec<u8> = Vec::new();
    let mut i: usize = 0;
    while i < data.len()
        invariant
            i <= data@.len(),
            out@ == xor32(data@, key@).subrange(0, i as int),
        decreases data@.len() - i,
    {
        out.push(data[i] ^ key[i % 32]);
        i += 1;
        assert(out@ =~= xor32(data@, key@).subrange(0, i as int));
    }
    assert(xor32(data@, key@).subrange(0, data@.len() as int) =~= xor32(data@, key@));
    out
}

impl SessionTicket {
    /// A ticket for a session, issued now.
    pub fn new(session_id: u32, transport_key: &[u8; 32], psk: &[u8; 32]) -> (r: Self)
        ensures
            exists|now: int| r@ == Ticket::issued(session_id as int, transport_key@, psk@, now),
    {
        let now: u64 = unix_secs();
        Self::new_at(session_id, transport_key, psk, now)
    }

    /// A ticket for a session, issued at `now`.
    pub fn new_at(session_id: u32, transport_key: &[u8; 32], psk: &[u8; 32], now: u64) -> (r: Self)
        ensures
            r@ == Ticket::issued(session_id as int, transport_key@, psk@, now as int),
    {
        let mut m = copy_of(transport_key);
        put_u64(&mut m, now);
        put_slice(&mut m, "ostp-ticket-id".as_bytes());
        let hash = sha256_of(&m);
        let ticket_id = array16(&hash, 0);
        let mut k = copy_of(psk);
        put_slice(&mut k, &ticket_id);
        put_slice(&mut k, "ostp-early-data-key".as_bytes());
        SessionTicket { ticket_id, session_id, cipher_key: sha256_of(&k), issued_at: now, ttl: DEFAULT_TICKET_TTL }
    }

    /// Whether the ticket has expired by now.
    pub fn is_expired(&self) -> (r: bool)
        ensures
            exists|now: int| r == #[trigger] self@.expired(now),
    {
        let now: u64 = unix_secs();
        self.is_expired_at(now)
    }

    /// Whether the ticket has expired by `now`.
    pub fn is_expired_at(&self, now: u64) -> (r: bool)
        ensures
            r == self@.expired(now as int),
    {
        (now as u128) > self.issued_at as u128 + self.ttl as u128
    }

    /// The bytes of the ticket.
    pub fn to_bytes(&self) -> (out: Vec<u8>)
        ensures
            out@ == self@.bytes(),
    {
        let mut out: Vec<u8> = Vec::new();
        put_slice(&mut out, &self.ticket_id);
        put_u32(&mut out, self.session_id);
        put_slice(&mut out, &self.cipher_key);
        put_u64(&mut out, self.issued_at);
        put_u64(&mut out, self.ttl);
        assert(out@ =~= self@.bytes());
        out
    }

    /// The ticket at the start of `data`; nothing where that is too short.
    pub fn from_bytes(data: &[u8]) -> (r: Option<Self>)
        ensures
            match r {
                Some(t) => Ticket::parse(data@) == Some(t@),
                None => Ticket::parse(data@) is None,
            },
    {
        if data.len() < TICKET_LEN {
            return None;
        }
        Some(
            SessionTicket {
                ticket_id: array16(data, 0),
                session_id: get_u32(data, 16),
                cipher_key: array32(data, 20),
                issued_at: get_u64(data, 52),
                ttl: get_u64(data, 60),
            },
        )
    }

    /// The ticket as the client stores it.
    pub fn encrypt(&self, psk: &[u8; 32]) -> (out: Vec<u8>)
        ensures
            out@ == xor32(self@.bytes(), storage_key(psk@)),
    {
        let raw = self.to_bytes();
        xored(&raw, &storage_key_of(psk))
    }

    /// The ticket that stored bytes hold.
    pub fn decrypt(encrypted: &[u8], psk: &[u8; 32]) -> (r: Option<Self>)
        ensures
            match r {
                Some(t) => Ticket::parse(xor32(encrypted@, storage_key(psk@))) == Some(t@),
                None => Ticket::parse(xor32(encrypted@, storage_key(psk@))) is None,
            },
    {
        let raw = xored(encrypted, &storage_key_of(psk));
        Self::from_bytes(&raw)
    }
}

/// A ticket survives being written and read, whatever follows it.
pub proof fn ticket_bytes_round_trip(t: Ticket, rest: Seq<u8>)
    requires
        t.valid(),
    ensures
        t.bytes().len() == TICKET_LEN,
        Ticket::parse(t.bytes() + rest) == Some(t),
{
    let b = t.bytes() + rest;
    assert(b.subrange(0, 16) =~= t.ticket_id);
    assert(b.subrange(16, 20) =~= be32(t.session_id));
    assert(b.subrange(20, 52) =~= t.cipher_key);
    assert(b.subrange(52, 60) =~= be64(t.issued_at));
    assert(b.subrange(60, 68) =~= be64(t.ttl));
    lemma_be32(b, 16, t.session_id);
    lemma_be64(b, 52, t.issued_at);
    lemma_be64(b, 60, t.ttl);
}

/// A ticket encrypted under a pre-shared key is recovered under that key.
pub proof fn ticket_encryption_round_trips(t: Ticket, psk: Seq<u8>)
    requires
        t.valid(),
    ensures
        Ticket::parse(xor32(xor32(t.bytes(), storage_key(psk)), storage_key(psk))) == Some(t),
{
    let k = storage_key(psk);
    let b = t.bytes();
    assert forall|i: int| 0 <= i < b.len() implies xor32(xor32(b, k), k)[i] == b[i] by {
        let x = b[i];
        let m = k[i % 32];
        assert((x ^ m) ^ m == x) by (bit_vector);
    }
    assert(xor32(xor32(b, k), k) =~= b + Seq::<u8>::empty());
    ticket_bytes_round_trip(t, Seq::empty());
}

/// The ids that a validator remembers, and the verdict on a ticket.
#[verifier::ext_equal]
pub struct Replay {
    pub consumed: Set<Seq<u8>>,
    pub psk: Seq<u8>,
}

impl Replay {
    /// The ticket that stored bytes hold, where it is good at `now`.
    pub open spec fn accepts(self, encrypted: Seq<u8>, now: int) -> Option<Ticket> {
        match Ticket::parse(xor32(encrypted, storage_key(self.psk))) {
            Some(t) => if t.expired(now) || self.consumed.contains(t.ticket_id) {
                None
            } else {
                Some(t)
            },
            None => None,
        }
    }

    /// The ids remembered after a ticket was accepted. None is forgotten: stored bytes
    /// with the same id and other dates would be accepted again.
    pub open spec fn after(self, t: Ticket) -> Replay {
        Replay { consumed: self.consumed.insert(t.ticket_id), ..self }
    }

    /// The ids remembered after stored bytes were presented at `now`.
    pub open spec fn presented(self, encrypted: Seq<u8>, now: int) -> Replay {
        match self.accepts(encrypted, now) {
            Some(t) => self.after(t),
            None => self,
        }
    }

    /// The ids remembered after a run of presentations, in their order.
    pub open spec fn after_all(self, calls: Seq<(Seq<u8>, int)>) -> Replay
        decreases calls.len(),
    {
        if calls.len() == 0 {
            self
        } else {
            self.after_all(calls.drop_last()).presented(calls.last().0, calls.last().1)
        }
    }
}

/// Accepts each ticket once.
pub struct TicketValidator {
    consumed: Vec<[u8; 16]>,
    psk: [u8; 32],
}

/// The ids of a list.
pub open spec fn id_set(v: Seq<[u8; 16]>) -> Set<Seq<u8>> {
    Set::new(|id: Seq<u8>| exists|i: int| 0 <= i < v.len() && #[trigger] v[i]@ == id)
}

proof fn lemma_id_set_push(v: Seq<[u8; 16]>, id: [u8; 16])
    ensures
        id_set(v.push(id)) == id_set(v).insert(id@),
{
    let w = v.push(id);
    assert forall|x: Seq<u8>| id_set(w).contains(x) == id_set(v).insert(id@).contains(x) by {
        if id_set(v).contains(x) {
            let i = choose|i: int| 0 <= i < v.len() && #[trigger] v[i]@ == x;
            assert(w[i]@ == x);
        }
        if x == id@ {
            assert(w[v.len() as int]@ == x);
        }
    }
    assert(id_set(w) =~= id_set(v).insert(id@));
}

impl View for TicketValidator {
    type V = Replay;

    closed spec fn view(&self) -> Replay {
        Replay { consumed: id_set(self.consumed@), psk: self.psk@ }
    }
}

impl TicketValidator {
    /// No id is remembered twice.
    pub closed spec fn wf(&self) -> bool {
        forall|i: int, j: int|
            0 <= i < j < self.consumed@.len() ==> #[trigger] self.consumed@[i]@ != #[trigger] self.consumed@[j]@
    }

    pub fn new(psk: [u8; 32]) -> (r: Self)
        ensures
            r.wf(),
            r@ == (Replay { consumed: Set::empty(), psk: psk@ }),
    {
        let r = TicketValidator { consumed: Vec::new(), psk };
        assert(id_set(r.consumed@) =~= Set::empty());
        r
    }

    /// The ticket, where it is genuine, not expired now and not used before.
    pub fn validate(&mut self, encrypted_ticket: &[u8]) -> (r: Option<SessionTicket>)
        requires
            old(self).wf(),
        ensures
            final(self).wf(),
            exists|now: int|
                match r {
                    Some(t) => {
                        &&& #[trigger] old(self)@.accepts(encrypted_ticket@, now) == Some(t@)
                        &&& final(self)@ == old(self)@.after(t@)
                    },
                    None => old(self)@.accepts(encrypted_ticket@, now) is None && final(self)@ == old(self)@,
                },
    {
        let now: u64 = unix_secs();
        self.validate_at(encrypted_ticket, now)
    }

    /// The ticket, where it is genuine, not expired at `now` and not used before.
    pub fn validate_at(&mut self, encrypted_ticket: &[u8], now: u64) -> (r: Option<SessionTicket>)
        requires
            old(self).wf(),
        ensures
            final(self).wf(),
            match r {
                Some(t) => {
                    &&& old(self)@.accepts(encrypted_ticket@, now as int) == Some(t@)
                    &&& final(self)@ == old(self)@.after(t@)
                },
                None => old(self)@.accepts(encrypted_ticket@, now as int) is None && final(self)@ == old(self)@,
            },
    {
        let ticket = match SessionTicket::decrypt(encrypted_ticket, &self.psk) {
            Some(t) => t,
            None => {
                return None;
            },
        };
        if ticket.is_expired_at(now) {
            return None;
        }
        let mut i: usize = 0;
        while i < self.consumed.len()
            invariant
                self == old(self),
                i <= self.consumed@.len(),
                forall|k: int| 0 <= k < i ==> #[trigger] self.consumed@[k]@ != ticket.ticket_id@,
                Ticket::parse(xor32(encrypted_ticket@, storage_key(self.psk@))) == Some(ticket@),
                self.wf(),
            decreases self.consumed@.len() - i,
        {
            let id = self.consumed[i];
            if same_bytes(&id, &ticket.ticket_id) {
                assert(self.consumed@[i as int]@ == ticket.ticket_id@);
                return None;
            }
            i += 1;
        }
        self.consumed.push(ticket.ticket_id);
        proof {
            lemma_id_set_push(old(self).consumed@, ticket.ticket_id);
        }
        Some(ticket)
    }

    /// A ticket for a completed session.
    pub fn issue_ticket(&self, session_id: u32, transport_key: &[u8; 32]) -> (r: SessionTicket)
        ensures
            exists|now: int| r@ == Ticket::issued(session_id as int, transport_key@, self@.psk, now),
    {
        let r = SessionTicket::new(session_id, transport_key, &self.psk);
        proof {
            let now = choose|now: int| r@ == Ticket::issued(session_id as int, transport_key@, self.psk@, now);
            assert(r@ == Ticket::issued(session_id as int, transport_key@, self@.psk, now));
        }
        r
    }
}

/// A ticket that was accepted is refused when it is presented again.
pub proof fn a_ticket_is_accepted_once(r: Replay, encrypted: Seq<u8>, t: Ticket, now: int, later: int)
    requires
        r.accepts(encrypted, now) == Some(t),
    ensures
        r.after(t).accepts(encrypted, later) is None,
{
}

proof fn lemma_ids_stay(r: Replay, calls: Seq<(Seq<u8>, int)>, id: Seq<u8>)
    requires
        r.consumed.contains(id),
    ensures
        r.after_all(calls).consumed.contains(id),
        r.after_all(calls).psk == r.psk,
    decreases calls.len(),
{
    if calls.len() > 0 {
        lemma_ids_stay(r, calls.drop_last(), id);
    }
}

/// No id is accepted twice: once a ticket was accepted, every ticket of its id is refused,
/// whatever else it says, whatever was presented in between, and whenever.
pub proof fn no_id_is_accepted_twice(
    r: Replay,
    encrypted: Seq<u8>,
    now: int,
    t: Ticket,
    between: Seq<(Seq<u8>, int)>,
    again: Seq<u8>,
    u: Ticket,
    later: int,
)
    requires
        r.accepts(encrypted, now) == Some(t),
        Ticket::parse(xor32(again, storage_key(r.psk))) == Some(u),
        u.ticket_id == t.ticket_id,
    ensures
        r.presented(encrypted, now).after_all(between).accepts(again, later) is None,
{
    lemma_ids_stay(r.after(t), between, t.ticket_id);
}

/// Accepting one ticket does not use up another, as long as the ids differ.
pub proof fn other_tickets_stay_good(r: Replay, t: Ticket, other: Seq<u8>, u: Ticket, now: int)
    requires
        r.accepts(other, now) == Some(u),
        u.ticket_id != t.ticket_id,
    ensures
        r.after(t).accepts(other, now) == Some(u),
{
}

/// An issued ticket is accepted by a fresh validator with the same key, until
/// it expires.
pub proof fn an_issued_ticket_is_accepted(t: Ticket, psk: Seq<u8>, now: int)
    requires
        t.valid(),
        !t.expired(now),
    ensures
        (Replay { consumed: Set::empty(), psk }).accepts(xor32(t.bytes(), storage_key(psk)), now) == Some(t),
{
    ticket_encryption_round_trips(t, psk);
}

/// A ticket is good for an hour from its issue, and not after it; it resumes the session that it
/// was issued for.
pub proof fn tickets_are_good_for_an_hour(session_id: int, transport_key: Seq<u8>, psk: Seq<u8>, now: int, later: int)
    ensures
        Ticket::issued(session_id, transport_key, psk, now).expired(later) <==> later > now + 3600,
        Ticket::issued(session_id, transport_key, psk, now).session_id == session_id,
        Ticket::issued(session_id, transport_key, psk, now).issued_at == now,
{
}

/// A ticket is accepted where it can be read, has not expired and was not accepted before, and
/// is the one that was issued; any other is refused.
pub proof fn tickets_are_checked(r: Replay, t: Ticket, now: int)
    requires
        t.valid(),
    ensures
        ({
            let encrypted = xor32(t.bytes(), storage_key(r.psk));
            &&& now <= t.issued_at + t.ttl && !r.consumed.contains(t.ticket_id) ==> r.accepts(encrypted, now) == Some(t)
            &&& now > t.issued_at + t.ttl ==> r.accepts(encrypted, now) is None
            &&& r.consumed.contains(t.ticket_id) ==> r.accepts(encrypted, now) is None
        }),
        forall|short: Seq<u8>| short.len() < 68 ==> (#[trigger] r.accepts(short, now)) is None,
{
    ticket_encryption_round_trips(t, r.psk);
}

} // verus!
