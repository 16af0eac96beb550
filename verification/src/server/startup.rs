//! How the server starts and how it takes up a changed list of users.

use vstd::prelude::*;

use crate::crypto::NoiseRole;
use crate::framing::PaddingStrategy;
use crate::net::{read_socket, socket_of, SocketAddr};
use crate::protocol::ProtocolConfig;
use crate::server::users::{Book, UserMeta, UserStats, Users};
use crate::table::Table;
use crate::text::{begins_str, chars_of, number, owned, parse_number, rcut, rsplit_once, starts_with, string_of};

verus! {

/// The configuration of the server's sessions. Session id and secrets come with
/// each client.
pub fn server_protocol_config() -> (r: ProtocolConfig)
    ensures
        r.role is Responder,
        r.padding_strategy is Adaptive,
        r.max_padding == 256,
        r.max_reorder == 16384,
        r.max_reorder_buffer == 8192,
        r.ack_delay_ms == 5,
        r.rto_ms == 100,
        r.max_retries == 8,
        r.max_sent_history == 32768,
        r.handshake_pad_min == 32,
        r.handshake_pad_max == 128,
        r.mtu == 1350,
        r.session_id == 0,
        r.handshake_payload@.len() == 0,
        forall|i: int| 0 <= i < 32 ==> #[trigger] r.psk@[i] == 0,
        forall|i: int| 0 <= i < 8 ==> #[trigger] r.obfuscation_key@[i] == 0,
{
    ProtocolConfig {
        role: NoiseRole::Responder,
        psk: [0u8; 32],
        session_id: 0,
        handshake_payload: Vec::new(),
        max_padding: 256,
        padding_strategy: PaddingStrategy::Adaptive,
        obfuscation_key: [0u8; 8],
        max_reorder: 16384,
        max_reorder_buffer: 8192,
        ack_delay_ms: 5,
        rto_ms: 100,
        max_retries: 8,
        max_sent_history: 32768,
        handshake_pad_min: 32,
        handshake_pad_max: 128,
        mtu: 1350,
    }
}

/// Why the server cannot listen.
#[derive(Clone, Copy, Debug, PartialEq, Eq, Structural)]
pub enum BindError {
    /// The address at this place in the list is none.
    Invalid(usize),
    /// There is no address.
    Empty,
}

/// The addresses to listen on: all of the list, and at least one.
pub fn parse_bind_addrs(addrs: &Vec<String>) -> (r: Result<Vec<SocketAddr>, BindError>)
    ensures
        match r {
            Ok(v) => v@.len() == addrs@.len() && v@.len() > 0 && forall|i: int|
                0 <= i < v@.len() ==> read_socket(addrs@[i]@) == Some(#[trigger] v@[i]),
            Err(BindError::Empty) => addrs@.len() == 0,
            Err(BindError::Invalid(k)) => k < addrs@.len() && read_socket(addrs@[k as int]@) is None && forall|i: int|
                0 <= i < k ==> read_socket((#[trigger] addrs@[i])@) is Some,
        },
{
    let mut out: Vec<SocketAddr> = Vec::new();
    let mut i: usize = 0;
    while i < addrs.len()
        invariant
            i <= addrs@.len(),
            out@.len() == i,
            forall|k: int| 0 <= k < i ==> read_socket(addrs@[k]@) == Some(#[trigger] out@[k]),
            forall|k: int| 0 <= k < i ==> read_socket((#[trigger] addrs@[k])@) is Some,
        decreases addrs@.len() - i,
    {
        match socket_of(&addrs[i]) {
            Some(a) => out.push(a),
            None => {
                return Err(BindError::Invalid(i));
            },
        }
        i += 1;
    }
    if out.len() == 0 {
        return Err(BindError::Empty);
    }
    Ok(out)
}

/// Host and port that clients are told: the public address where there is one;
/// otherwise the host of the first address to listen on. Without a port it is
/// 50000, without a host `0.0.0.0`.
pub open spec fn endpoint(primary: Seq<char>, public: Option<Seq<char>>) -> (Seq<char>, int) {
    let (host, port) = match rsplit_once(primary, ':') {
        Some((h, p)) => (Some(h), p),
        None => (None::<Seq<char>>, primary),
    };
    (
        match (public, host) {
            (Some(p), _) => p,
            (None, Some(h)) => h,
            (None, None) => "0.0.0.0"@,
        },
        match parse_number(port, 0xffff) {
            Some(n) => n,
            None => 50000,
        },
    )
}

/// Host and port that clients are told.
pub fn public_endpoint(primary: &str, public: Option<String>) -> (r: (String, u16))
    ensures
        (r.0@, r.1 as int) == endpoint(primary@, crate::server::outbound::opt_text(public)),
{
    let t = chars_of(primary);
    match rcut(&t, ':') {
        Some((h, p)) => {
            let port: u16 = match number(p, 0xffff) {
                Some(n) => n as u16,
                None => 50000,
            };
            let host = match public {
                Some(s) => s,
                None => string_of(h),
            };
            (host, port)
        },
        None => {
            let port: u16 = match number(&t, 0xffff) {
                Some(n) => n as u16,
                None => 50000,
            };
            let host = match public {
                Some(s) => s,
                None => owned("0.0.0.0"),
            };
            (host, port)
        },
    }
}

/// Whether a message is for every operator, not only for one who debugs.
pub open spec fn essential(message: Seq<char>) -> bool {
    ||| starts_with(message, "Client "@)
    ||| starts_with(message, "Listening"@)
    ||| starts_with(message, "Shutdown"@)
    ||| starts_with(message, "Session "@)
    ||| starts_with(message, "Relay CONNECT"@)
    ||| starts_with(message, "Relay CLOSE"@)
    ||| starts_with(message, "Relay error"@)
}

/// Whether a message is for every operator, not only for one who debugs.
pub fn is_essential(message: &str) -> (r: bool)
    ensures
        r == essential(message@),
{
    let m = chars_of(message);
    begins_str(&m, "Client ") || begins_str(&m, "Listening") || begins_str(&m, "Shutdown") || begins_str(&m, "Session ")
        || begins_str(&m, "Relay CONNECT") || begins_str(&m, "Relay CLOSE") || begins_str(&m, "Relay error")
}

// ── Users ────────────────────────────────────────────────────────────────────

/// A list of users as a map; of two entries for one key the later counts.
pub open spec fn users_of(list: Seq<(Seq<char>, UserMeta)>) -> Map<Seq<char>, UserMeta>
    decreases list.len(),
{
    if list.len() == 0 {
        Map::empty()
    } else {
        users_of(list.drop_last()).insert(list.last().0, list.last().1)
    }
}

pub open spec fn list_views(v: Seq<(String, UserMeta)>) -> Seq<(Seq<char>, UserMeta)> {
    Seq::new(v.len(), |i: int| (v[i].0@, v[i].1))
}

/// The users of a list.
pub fn key_table(list: Vec<(String, UserMeta)>) -> (r: Table<String, UserMeta>)
    ensures
        r.wf(),
        r@ == users_of(list_views(list@)),
{
    let mut t: Table<String, UserMeta> = Table::new();
    let mut rest = list;
    let mut order: Vec<(String, UserMeta)> = Vec::new();
    let ghost source = list@;
    let ghost n = source.len() as int;
    while rest.len() > 0
        invariant
            n == source.len(),
            rest@.len() <= n,
            rest@ == source.subrange(0, rest@.len() as int),
            order@.len() == n - rest@.len(),
            forall|k: int| 0 <= k < order@.len() ==> #[trigger] order@[k] == source[n - 1 - k],
        decreases rest@.len(),
    {
        let e = rest.pop().unwrap();
        order.push(e);
    }
    let ghost all = list_views(source);
    assert(all.subrange(0, 0) =~= Seq::<(Seq<char>, UserMeta)>::empty());
    while order.len() > 0
        invariant
            n == source.len(),
            all == list_views(source),
            order@.len() <= n,
            forall|k: int| 0 <= k < order@.len() ==> #[trigger] order@[k] == source[n - 1 - k],
            t.wf(),
            t@ == users_of(all.subrange(0, n - order@.len())),
        decreases order@.len(),
    {
        let ghost k = n - order@.len();
        let (key, meta) = order.pop().unwrap();
        assert((key, meta) == source[k]);
        let ghost s = all.subrange(0, k + 1);
        assert(s.drop_last() =~= all.subrange(0, k));
        assert(s.last() == (key@, meta));
        let _ = t.insert(key, meta);
    }
    assert(all.subrange(0, n) =~= all);
    t
}

/// What a changed list of users makes of the book: the keys are those of the
/// list; users that are gone lose their statistics, new ones get fresh ones, and
/// the others keep theirs under the limit that the list gives.
pub open spec fn reloaded(book: Book, keys: Map<Seq<char>, UserMeta>, now: u64) -> Book {
    Book {
        keys,
        stats: Map::new(
            |k: Seq<char>| keys.contains_key(k),
            |k: Seq<char>|
                if book.stats.contains_key(k) {
                    UserStats { limit_bytes: keys[k].limit_bytes, ..book.stats[k] }
                } else {
                    UserStats::fresh(keys[k].limit_bytes, now)
                },
        ),
    }
}

impl Users {
    /// Takes up a changed list of users.
    pub fn reload(&mut self, list: Vec<(String, UserMeta)>, now: u64)
        requires
            old(self).wf(),
        ensures
            final(self).wf(),
            final(self)@ == reloaded(old(self)@, users_of(list_views(list@)), now),
    {
        let ghost book = self@;
        let keys = key_table(list);
        let ghost map = keys@;
        let mut stats: Table<String, UserStats> = Table::new();
        let n: usize = keys.len();
        let mut i: usize = 0;
        let ghost p = keys.pairs();
        proof {
            crate::table::lemma_map_of(p);
            crate::table::lemma_table_view(keys);
        }
        while i < n
            invariant
                self.wf(),
                self@ == book,
                keys.wf(),
                p == keys.pairs(),
                map == keys@,
                n == p.len(),
                i <= n,
                stats.wf(),
                crate::table::distinct(p),
                forall|j: int| 0 <= j < n ==> map.contains_key((#[trigger] p[j]).0) && map[p[j].0] == p[j].1,
                forall|k: Seq<char>| #[trigger]
                    stats@.contains_key(k) <==> exists|j: int| 0 <= j < i && (#[trigger] p[j]).0 == k,
                forall|k: Seq<char>| #[trigger]
                    stats@.contains_key(k) ==> map.contains_key(k) && stats@[k] == reloaded(book, map, now).stats[k],
            decreases n - i,
        {
            let ghost before = stats@;
            let key = owned(keys.key_at(i));
            let limit = keys.value_at(i).limit_bytes;
            let s = match self.stats.get(&key) {
                Some(s) => UserStats { limit_bytes: limit, ..*s },
                None => UserStats::new(limit, now),
            };
            let ghost id = p[i as int].0;
            assert(key@ == id);
            assert(map.contains_key(p[i as int].0));
            let _ = stats.insert(key, s);
            assert(s == reloaded(book, map, now).stats[id]);
            assert forall|k: Seq<char>| #[trigger] stats@.contains_key(k) <==> exists|j: int|
                0 <= j < i + 1 && (#[trigger] p[j]).0 == k by {
                if stats@.contains_key(k) && k != id {
                    assert(before.contains_key(k));
                }
                if k == id {
                    assert(p[i as int].0 == k);
                }
                if exists|j: int| 0 <= j < i + 1 && (#[trigger] p[j]).0 == k {
                    let j = choose|j: int| 0 <= j < i + 1 && (#[trigger] p[j]).0 == k;
                    if j < i {
                        assert(before.contains_key(k));
                    }
                }
            }
            i += 1;
        }
        proof {
            assert forall|k: Seq<char>| stats@.contains_key(k) == map.contains_key(k) by {
                if map.contains_key(k) {
                    let j = choose|j: int| 0 <= j < p.len() && (#[trigger] p[j]).0 == k;
                    assert(p[j].0 == k);
                }
            }
            assert(stats@ =~= reloaded(book, map, now).stats);
        }
        self.keys = keys;
        self.stats = stats;
        assert(self@ =~= reloaded(book, map, now));
    }
}

/// A user that stays keeps what was counted; a user that is gone is refused.
pub proof fn reloading_keeps_counters(book: Book, keys: Map<Seq<char>, UserMeta>, key: Seq<char>, now: u64)
    ensures
        keys.contains_key(key) && book.stats.contains_key(key) ==> {
            let s = reloaded(book, keys, now).stats[key];
            s.bytes_up == book.stats[key].bytes_up && s.bytes_down == book.stats[key].bytes_down && s.connections
                == book.stats[key].connections && s.created_at == book.stats[key].created_at
        },
        !keys.contains_key(key) ==> !reloaded(book, keys, now).admits(key, now),
{
}

/// The server tells clients the public host, where there is one, and otherwise the host that it
/// listens at; and the port that it listens at.
pub proof fn clients_are_told_where_to_connect(
    primary: Seq<char>,
    host: Seq<char>,
    port: Seq<char>,
    n: int,
    public: Seq<char>,
)
    requires
        rsplit_once(primary, ':') == Some((host, port)),
        parse_number(port, 0xffff) == Some(n),
    ensures
        endpoint(primary, Some(public)) == (public, n),
        endpoint(primary, None) == (host, n),
{
}

/// Each key of a list is registered, and a key that is there twice as it is there last.
pub proof fn listed_keys_are_registered(list: Seq<(Seq<char>, UserMeta)>, i: int)
    requires
        0 <= i < list.len(),
        forall|j: int| i < j < list.len() ==> (#[trigger] list[j]).0 != list[i].0,
    ensures
        users_of(list).contains_key(list[i].0),
        users_of(list)[list[i].0] == list[i].1,
    decreases list.len(),
{
    let d = list.drop_last();
    if i < list.len() - 1 {
        assert(list[list.len() - 1].0 != list[i].0);
        assert forall|j: int| i < j < d.len() implies (#[trigger] d[j]).0 != d[i].0 by {
            assert(d[j] == list[j]);
        }
        listed_keys_are_registered(d, i);
    }
}

/// No key is registered that is not listed.
pub proof fn other_keys_are_not_registered(list: Seq<(Seq<char>, UserMeta)>, key: Seq<char>)
    requires
        forall|j: int| 0 <= j < list.len() ==> (#[trigger] list[j]).0 != key,
    ensures
        !users_of(list).contains_key(key),
    decreases list.len(),
{
    if list.len() > 0 {
        let d = list.drop_last();
        assert(list[list.len() - 1].0 != key);
        assert forall|j: int| 0 <= j < d.len() implies (#[trigger] d[j]).0 != key by {
            assert(d[j] == list[j]);
        }
        other_keys_are_not_registered(d, key);
    }
}

/// A reload registers just the keys that it lists, with the limits that it gives; a key that is
/// new starts at nothing.
pub proof fn reloads_take_effect(book: Book, keys: Map<Seq<char>, UserMeta>, key: Seq<char>, now: u64)
    ensures
        ({
            let after = reloaded(book, keys, now);
            &&& after.keys == keys
            &&& after.stats.contains_key(key) <==> keys.contains_key(key)
            &&& keys.contains_key(key) ==> after.stats[key].limit_bytes == keys[key].limit_bytes
            &&& keys.contains_key(key) && !book.stats.contains_key(key) ==> after.stats[key].bytes_up == 0
                && after.stats[key].bytes_down == 0 && after.stats[key].created_at == now
        }),
{
}

/// What is said of clients, sessions and connections is essential.
pub proof fn essential_messages_are_known(rest: Seq<char>)
    ensures
        essential("Client "@ + rest),
        essential("Listening"@ + rest),
        essential("Shutdown"@ + rest),
        essential("Session "@ + rest),
        essential("Relay CONNECT"@ + rest),
        essential("Relay CLOSE"@ + rest),
        essential("Relay error"@ + rest),
{
    assert(("Client "@ + rest).subrange(0, "Client "@.len() as int) =~= "Client "@);
    assert(("Listening"@ + rest).subrange(0, "Listening"@.len() as int) =~= "Listening"@);
    assert(("Shutdown"@ + rest).subrange(0, "Shutdown"@.len() as int) =~= "Shutdown"@);
    assert(("Session "@ + rest).subrange(0, "Session "@.len() as int) =~= "Session "@);
    assert(("Relay CONNECT"@ + rest).subrange(0, "Relay CONNECT"@.len() as int) =~= "Relay CONNECT"@);
    assert(("Relay CLOSE"@ + rest).subrange(0, "Relay CLOSE"@.len() as int) =~= "Relay CLOSE"@);
    assert(("Relay error"@ + rest).subrange(0, "Relay error"@.len() as int) =~= "Relay error"@);
}

} // verus!
