//! Who may use the server, and what each user has used.

use vstd::prelude::*;
use vstd::utf8::encode_utf8;

use crate::crypto::digest::{sha256, sha256_of};
use crate::encoding::{hex, hex_text};
use crate::table::Table;
use crate::text::{owned, utf8_of};

verus! {

/// What is known of a user.
#[derive(Debug, Clone)]
pub struct UserMeta {
    pub name: Option<String>,
    pub limit_bytes: Option<u64>,
}

/// A short print of an access key for logs, which the key itself, a secret, must not
/// reach: the first three bytes of its digest.
pub fn key_fp(access_key: &str) -> (r: String)
    ensures
        r@ == hex(sha256(encode_utf8(access_key@)).subrange(0, 3)),
{
    let h = sha256_of(&utf8_of(access_key));
    hex_text(vstd::slice::slice_subrange(&h, 0, 3))
}

/// What a user has used.
#[derive(Debug, Clone, Copy)]
pub struct UserStats {
    pub bytes_up: u64,
    pub bytes_down: u64,
    pub connections: u64,
    pub limit_bytes: Option<u64>,
    /// Seconds since the Unix epoch.
    pub created_at: u64,
}

impl UserStats {
    /// Nothing used yet.
    pub open spec fn fresh(limit: Option<u64>, created_at: u64) -> UserStats {
        UserStats { bytes_up: 0, bytes_down: 0, connections: 0, limit_bytes: limit, created_at }
    }

    /// The user has used what there is.
    pub open spec fn over(self) -> bool {
        self.limit_bytes matches Some(limit) && self.bytes_up + self.bytes_down >= limit
    }

    pub fn new(limit: Option<u64>, created_at: u64) -> (r: Self)
        ensures
            r == UserStats::fresh(limit, created_at),
    {
        UserStats { bytes_up: 0, bytes_down: 0, connections: 0, limit_bytes: limit, created_at }
    }

    /// Whether the user has used what there is.
    pub fn is_over_limit(&self) -> (r: bool)
        ensures
            r == self.over(),
    {
        match self.limit_bytes {
            Some(limit) => self.bytes_up as u128 + self.bytes_down as u128 >= limit as u128,
            None => false,
        }
    }
}

/// The users of a server.
#[verifier::ext_equal]
pub struct Book {
    pub keys: Map<Seq<char>, UserMeta>,
    pub stats: Map<Seq<char>, UserStats>,
}

impl Book {
    /// The limit that a key has.
    pub open spec fn limit(self, key: Seq<char>) -> Option<u64> {
        if self.keys.contains_key(key) {
            self.keys[key].limit_bytes
        } else {
            None
        }
    }

    /// The statistics of a key; fresh ones where there are none.
    pub open spec fn stats_of(self, key: Seq<char>, now: u64) -> UserStats {
        if self.stats.contains_key(key) {
            self.stats[key]
        } else {
            UserStats::fresh(self.limit(key), now)
        }
    }

    /// The book with statistics for a key.
    pub open spec fn known(self, key: Seq<char>, now: u64) -> Book {
        Book { stats: self.stats.insert(key, self.stats_of(key, now)), ..self }
    }

    pub open spec fn with(self, key: Seq<char>, s: UserStats) -> Book {
        Book { stats: self.stats.insert(key, s), ..self }
    }

    pub open spec fn up(self, key: Seq<char>, bytes: u64, now: u64) -> Book {
        let s = self.stats_of(key, now);
        self.with(key, UserStats { bytes_up: wrapped(s.bytes_up + bytes), ..s })
    }

    pub open spec fn down(self, key: Seq<char>, bytes: u64, now: u64) -> Book {
        let s = self.stats_of(key, now);
        self.with(key, UserStats { bytes_down: wrapped(s.bytes_down + bytes), ..s })
    }

    pub open spec fn connected(self, key: Seq<char>, now: u64) -> Book {
        let s = self.stats_of(key, now);
        self.with(key, UserStats { connections: wrapped(s.connections + 1), ..s })
    }

    /// A key that is known and has something left.
    pub open spec fn admits(self, key: Seq<char>, now: u64) -> bool {
        self.keys.contains_key(key) && !self.stats_of(key, now).over()
    }
}

/// A counter that starts again at zero.
pub open spec fn wrapped(n: int) -> u64 {
    if n > u64::MAX {
        (n - u64::MAX - 1) as u64
    } else {
        n as u64
    }
}

fn count(a: u64, b: u64) -> (r: u64)
    ensures
        r == wrapped(a + b),
{
    a.wrapping_add(b)
}

/// The users of a server.
pub struct Users {
    pub keys: Table<String, UserMeta>,
    pub stats: Table<String, UserStats>,
}

impl View for Users {
    type V = Book;

    open spec fn view(&self) -> Book {
        Book { keys: self.keys@, stats: self.stats@ }
    }
}

impl Users {
    pub open spec fn wf(&self) -> bool {
        self.keys.wf() && self.stats.wf()
    }

    /// Users of whom nothing is known but their keys: each gets fresh
    /// statistics.
    pub fn new(keys: Table<String, UserMeta>, now: u64) -> (r: Self)
        requires
            keys.wf(),
        ensures
            r.wf(),
            r@.keys == keys@,
            r@.stats.dom() == keys@.dom(),
            forall|k: Seq<char>| #[trigger]
                keys@.contains_key(k) ==> r@.stats[k] == UserStats::fresh(keys@[k].limit_bytes, now),
    {
        let mut stats: Table<String, UserStats> = Table::new();
        let n: usize = keys.len();
        let mut i: usize = 0;
        proof {
            crate::table::lemma_map_of(keys.pairs());
            crate::table::lemma_table_view(keys);
        }
        while i < n
            invariant
                n == keys.pairs().len(),
                i <= n,
                keys.wf(),
                stats.wf(),
                forall|k: Seq<char>| #[trigger]
                    stats@.contains_key(k) <==> exists|j: int| 0 <= j < i && (#[trigger] keys.pairs()[j]).0 == k,
                forall|j: int|
                    0 <= j < i ==> stats@.contains_key((#[trigger] keys.pairs()[j]).0) && stats@[keys.pairs()[j].0]
                        == UserStats::fresh(keys.pairs()[j].1.limit_bytes, now),
            decreases n - i,
        {
            let ghost before = stats@;
            let ghost p = keys.pairs();
            let k = owned(keys.key_at(i));
            let s = UserStats::new(keys.value_at(i).limit_bytes, now);
            let ghost id = p[i as int].0;
            let _ = stats.insert(k, s);
            assert(stats@ == before.insert(id, s));
            assert forall|k: Seq<char>| #[trigger] stats@.contains_key(k) <==> exists|j: int|
                0 <= j < i + 1 && (#[trigger] p[j]).0 == k by {
                if stats@.contains_key(k) && k != id {
                    assert(before.contains_key(k));
                }
                if k == id {
                    assert(p[i as int].0 == k);
                }
            }
            assert forall|j: int| 0 <= j < i + 1 implies stats@.contains_key((#[trigger] p[j]).0) && stats@[p[j].0]
                == UserStats::fresh(p[j].1.limit_bytes, now) by {
                if j < i {
                    assert(p[j].0 != p[i as int].0);
                }
            }
            i += 1;
        }
        proof {
            let p = keys.pairs();
            assert forall|k: Seq<char>| stats@.contains_key(k) == keys@.contains_key(k) by {
                if keys@.contains_key(k) {
                    let j = choose|j: int| 0 <= j < p.len() && (#[trigger] p[j]).0 == k;
                    assert(stats@.contains_key(p[j].0));
                }
                if stats@.contains_key(k) {
                    let j = choose|j: int| 0 <= j < n && (#[trigger] p[j]).0 == k;
                    assert(keys@.contains_key(p[j].0));
                }
            }
            assert forall|k: Seq<char>| #[trigger] keys@.contains_key(k) implies stats@[k] == UserStats::fresh(
                keys@[k].limit_bytes,
                now,
            ) by {
                let j = choose|j: int| 0 <= j < p.len() && (#[trigger] p[j]).0 == k;
                assert(stats@.contains_key(p[j].0));
                assert(keys@[p[j].0] == p[j].1);
            }
            assert(stats@.dom() =~= keys@.dom());
        }
        Users { keys, stats }
    }

    /// The statistics of a key; they are created where there are none.
    pub fn get_or_create(&mut self, key: &String, now: u64) -> (r: UserStats)
        requires
            old(self).wf(),
        ensures
            final(self).wf(),
            final(self)@ == old(self)@.known(key@, now),
            r == old(self)@.stats_of(key@, now),
    {
        let found = match self.stats.get(key) {
            Some(s) => Some(*s),
            None => None,
        };
        match found {
            Some(s) => {
                assert(self@ =~= self@.known(key@, now));
                s
            },
            None => {
                let limit = match self.keys.get(key) {
                    Some(m) => m.limit_bytes,
                    None => None,
                };
                let s = UserStats::new(limit, now);
                let _ = self.stats.insert(owned(key), s);
                assert(self@ =~= old(self)@.known(key@, now));
                s
            },
        }
    }

    fn set(&mut self, key: &String, s: UserStats)
        requires
            old(self).wf(),
        ensures
            final(self).wf(),
            final(self)@ == old(self)@.with(key@, s),
    {
        let _ = self.stats.insert(owned(key), s);
        assert(self@ =~= old(self)@.with(key@, s));
    }

    /// `bytes` came from a user.
    pub fn track_up(&mut self, key: &String, bytes: u64, now: u64)
        requires
            old(self).wf(),
        ensures
            final(self).wf(),
            final(self)@ == old(self)@.up(key@, bytes, now),
    {
        let s = self.get_or_create(key, now);
        self.set(key, UserStats { bytes_up: count(s.bytes_up, bytes), ..s });
        assert(self@ =~= old(self)@.up(key@, bytes, now));
    }

    /// `bytes` went to a user.
    pub fn track_down(&mut self, key: &String, bytes: u64, now: u64)
        requires
            old(self).wf(),
        ensures
            final(self).wf(),
            final(self)@ == old(self)@.down(key@, bytes, now),
    {
        let s = self.get_or_create(key, now);
        self.set(key, UserStats { bytes_down: count(s.bytes_down, bytes), ..s });
        assert(self@ =~= old(self)@.down(key@, bytes, now));
    }

    /// A user connected.
    pub fn track_connection(&mut self, key: &String, now: u64) -> (r: UserStats)
        requires
            old(self).wf(),
        ensures
            final(self).wf(),
            final(self)@ == old(self)@.connected(key@, now),
            r == final(self)@.stats[key@],
    {
        let s = self.get_or_create(key, now);
        let t = UserStats { connections: count(s.connections, 1), ..s };
        self.set(key, t);
        assert(self@ =~= old(self)@.connected(key@, now));
        t
    }

    /// Gives a user another limit; what was used stays counted.
    pub fn set_user_limit(&mut self, key: &String, limit: Option<u64>, now: u64)
        requires
            old(self).wf(),
        ensures
            final(self).wf(),
            final(self)@ == old(self)@.with(
                key@,
                if old(self)@.stats.contains_key(key@) {
                    UserStats { limit_bytes: limit, ..old(self)@.stats[key@] }
                } else {
                    UserStats::fresh(limit, now)
                },
            ),
    {
        let found = match self.stats.get(key) {
            Some(s) => Some(*s),
            None => None,
        };
        match found {
            Some(s) => self.set(key, UserStats { limit_bytes: limit, ..s }),
            None => self.set(key, UserStats::new(limit, now)),
        }
    }

    /// Whether a key is known.
    pub fn knows(&self, key: &String) -> (r: bool)
        requires
            self.wf(),
        ensures
            r == self@.keys.contains_key(key@),
    {
        self.keys.contains_key(key)
    }
}

/// What a user uses adds up: after `bytes` more, a limit that is reached refuses
/// the user.
pub proof fn reached_limits_refuse(book: Book, key: Seq<char>, bytes: u64, now: u64)
    requires
        book.stats.contains_key(key),
        book.stats[key].bytes_up + bytes <= u64::MAX,
        book.stats[key].limit_bytes matches Some(limit) && book.stats[key].bytes_up + bytes
            + book.stats[key].bytes_down >= limit,
    ensures
        !book.up(key, bytes, now).admits(key, now),
{
}

/// What a user sends and gets adds up, and each connection counts once; nothing else of the
/// user changes by it, and nothing of any other.
pub proof fn usage_adds_up(book: Book, key: Seq<char>, bytes: u64, now: u64)
    requires
        book.stats.contains_key(key),
        book.stats[key].bytes_up + bytes <= u64::MAX,
        book.stats[key].bytes_down + bytes <= u64::MAX,
        book.stats[key].connections < u64::MAX,
    ensures
        ({
            let s = book.stats[key];
            let up = book.up(key, bytes, now);
            let down = book.down(key, bytes, now);
            let more = book.connected(key, now);
            &&& up.stats[key] == (UserStats { bytes_up: (s.bytes_up + bytes) as u64, ..s })
            &&& down.stats[key] == (UserStats { bytes_down: (s.bytes_down + bytes) as u64, ..s })
            &&& more.stats[key] == (UserStats { connections: (s.connections + 1) as u64, ..s })
            &&& up.keys == book.keys && down.keys == book.keys && more.keys == book.keys
            &&& forall|k: Seq<char>| k != key ==> (#[trigger] book.stats.contains_key(k) <==> up.stats.contains_key(k))
                && (book.stats.contains_key(k) <==> down.stats.contains_key(k)) && (book.stats.contains_key(k)
                <==> more.stats.contains_key(k)) && up.stats[k] == book.stats[k] && down.stats[k] == book.stats[k]
                && more.stats[k] == book.stats[k]
        }),
{
}

/// A user of whom nothing was counted starts at nothing, with the limit of the key.
pub proof fn users_start_at_nothing(book: Book, key: Seq<char>, now: u64)
    requires
        !book.stats.contains_key(key),
    ensures
        ({
            let s = book.known(key, now).stats[key];
            &&& s.bytes_up == 0 && s.bytes_down == 0 && s.connections == 0 && s.created_at == now
            &&& book.keys.contains_key(key) ==> s.limit_bytes == book.keys[key].limit_bytes
            &&& !book.keys.contains_key(key) ==> s.limit_bytes is None
        }),
        book.known(key, now).keys == book.keys,
{
}

/// A user is admitted with a registered key and while both directions together stay below the
/// limit; without a limit always.
pub proof fn users_are_admitted_within_their_limit(book: Book, key: Seq<char>, now: u64)
    requires
        book.stats.contains_key(key),
    ensures
        book.admits(key, now) <==> book.keys.contains_key(key) && (book.stats[key].limit_bytes matches Some(limit)
            ==> book.stats[key].bytes_up + book.stats[key].bytes_down < limit),
{
}

} // verus!
