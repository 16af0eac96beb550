//! The management interface: who may use it, and what it does to the users of the
//! server.

use vstd::prelude::*;
use vstd::utf8::encode_utf8;

use crate::config::{config_text, without_comments};
use crate::crypto::digest::{sha256, sha256_of};
use crate::encoding::{hex, hex_text};
use crate::framing::padding::random_bytes;
use crate::json::{
    field_of, field_views, find_field, json_fields, json_object, json_pretty, json_quoted, other_fields_stay, quoted, read_fields,
    read_pretty, set_field, single_fields, with_field, write_object,
};
use crate::server::dispatcher::UserStatsSnapshot;
use crate::server::outbound::{OutboundConfig, OutboundRule};
use crate::server::users::{Book, UserMeta, UserStats, Users};
use crate::table::{lemma_map_of, lemma_table_view};
use crate::text::{
    begins, begins_str, chars_of, chars_range, contains, decimal, holds_str, join, join_strings, lemma_split_nonempty, owned, pieces, put_chars, put_decimal,
    put_str, same_chars, same_str, split, starts_with, string_of, string_views, trim_end_char, trim_start_char, utf8_of, views,
    without_leading, without_trailing,
};

verus! {

/// The most entries that the audit log keeps.
pub const MAX_AUDIT_ENTRIES: usize = 100;

/// The most keys that one request creates.
pub const MAX_BULK_KEYS: usize = 1000;

// ── Settings and requests ────────────────────────────────────────────────────

#[derive(Debug)]
pub struct ApiConfig {
    pub enabled: bool,
    pub bind: String,
    pub token: Option<String>,
    pub webpath: String,
    pub username: String,
    pub password_hash: String,
}

impl Default for ApiConfig {
    fn default() -> (r: Self)
        ensures
            !r.enabled,
            r.bind@ == "127.0.0.1:9090"@,
            r.token is None,
            r.webpath@ == Seq::<char>::empty(),
            r.username@ == Seq::<char>::empty(),
            r.password_hash@ == Seq::<char>::empty(),
    {
        ApiConfig {
            enabled: false,
            bind: owned("127.0.0.1:9090"),
            token: None,
            webpath: String::new(),
            username: String::new(),
            password_hash: String::new(),
        }
    }
}

#[derive(Debug)]
pub struct AuditLogEntry {
    pub id: String,
    pub time: String,
    pub event_en: String,
    pub event_ru: String,
    pub success: bool,
}

#[derive(Debug)]
pub struct CreateAuditLogRequest {
    pub event_en: String,
    pub event_ru: String,
    pub success: bool,
}

#[derive(Debug)]
pub struct CreateUserRequest {
    pub access_key: Option<String>,
    pub name: Option<String>,
    pub limit_bytes: Option<u64>,
}

#[derive(Debug)]
pub struct UpdateUserRequest {
    pub name: Option<String>,
    pub limit_bytes: Option<u64>,
}

#[derive(Debug)]
pub struct SetLimitRequest {
    pub limit_bytes: Option<u64>,
}

#[derive(Debug)]
pub struct LoginRequest {
    pub username: String,
    pub password: Option<String>,
}

#[derive(Debug)]
pub struct LoginResponse {
    pub token: String,
}

#[derive(Debug)]
pub struct BulkCreateRequest {
    pub count: usize,
    pub limit_bytes: Option<u64>,
}

#[derive(Debug, Clone, Copy, PartialEq, Eq, Structural)]
pub struct ServerStatus {
    pub uptime_seconds: u64,
    pub active_users: usize,
    pub total_users: usize,
}

/// Why a request is not carried out.
#[derive(Debug, Clone, Copy, PartialEq, Eq, Structural)]
pub enum ApiError {
    Unauthorized,
    AuthNotConfigured,
    UserNotFound,
    /// The user that is to be deleted or updated is not there.
    NoSuchUser,
    CountTooLarge,
    RoutingNotEnabled,
    NoConfigPath,
    MissingMode,
}

impl ApiError {
    /// The status of the response.
    pub fn status(&self) -> (r: u16)
        ensures
            r == if *self is Unauthorized {
                401
            } else {
                400u16
            },
    {
        match self {
            ApiError::Unauthorized => 401,
            _ => 400,
        }
    }

    /// What the response says.
    pub fn message(&self) -> (r: String)
        ensures
            r@ == match *self {
                ApiError::Unauthorized => "unauthorized"@,
                ApiError::AuthNotConfigured => "Auth not configured"@,
                ApiError::UserNotFound => "user not found"@,
                ApiError::NoSuchUser => "User not found"@,
                ApiError::CountTooLarge => "Count too large, max 1000"@,
                ApiError::RoutingNotEnabled => "Outbound routing is not enabled in config"@,
                ApiError::NoConfigPath => "No config path registered (run-time only)"@,
                ApiError::MissingMode => "Invalid config: missing 'mode' field"@,
            },
    {
        match self {
            ApiError::Unauthorized => owned("unauthorized"),
            ApiError::AuthNotConfigured => owned("Auth not configured"),
            ApiError::UserNotFound => owned("user not found"),
            ApiError::NoSuchUser => owned("User not found"),
            ApiError::CountTooLarge => owned("Count too large, max 1000"),
            ApiError::RoutingNotEnabled => owned("Outbound routing is not enabled in config"),
            ApiError::NoConfigPath => owned("No config path registered (run-time only)"),
            ApiError::MissingMode => owned("Invalid config: missing 'mode' field"),
        }
    }
}

// ── Random identifiers ───────────────────────────────────────────────────────

/// Random bytes as the bytes of a version 4 UUID.
pub open spec fn uuid_bytes(random: Seq<u8>) -> Seq<u8> {
    random.update(6, (0x40 + random[6] % 16) as u8).update(8, (0x80 + random[8] % 64) as u8)
}

/// A UUID as text.
pub open spec fn uuid_text(b: Seq<u8>) -> Seq<char> {
    hex(b.subrange(0, 4)) + "-"@ + hex(b.subrange(4, 6)) + "-"@ + hex(b.subrange(6, 8)) + "-"@ + hex(b.subrange(8, 10)) + "-"@
        + hex(b.subrange(10, 16))
}

fn uuid_of(random: &[u8]) -> (r: Vec<u8>)
    requires
        random@.len() == 16,
    ensures
        r@ == uuid_bytes(random@),
        r@.len() == 16,
{
    let mut b = crate::bytes::copy_of(random);
    let six: u8 = 0x40 + b[6] % 16;
    b.set(6, six);
    let eight: u8 = 0x80 + b[8] % 64;
    b.set(8, eight);
    assert(b@ =~= uuid_bytes(random@));
    b
}

fn put_hex(out: &mut Vec<char>, b: &[u8], from: usize, to: usize)
    requires
        from <= to <= b@.len(),
    ensures
        final(out)@ == old(out)@ + hex(b@.subrange(from as int, to as int)),
{
    put_str(out, &hex_text(vstd::slice::slice_subrange(b, from, to)));
}

/// The UUID of random bytes.
pub fn uuid_with(random: &[u8]) -> (r: String)
    requires
        random@.len() == 16,
    ensures
        r@ == uuid_text(uuid_bytes(random@)),
{
    let b = uuid_of(random);
    let mut v: Vec<char> = Vec::new();
    put_hex(&mut v, &b, 0, 4);
    put_str(&mut v, "-");
    put_hex(&mut v, &b, 4, 6);
    put_str(&mut v, "-");
    put_hex(&mut v, &b, 6, 8);
    put_str(&mut v, "-");
    put_hex(&mut v, &b, 8, 10);
    put_str(&mut v, "-");
    put_hex(&mut v, &b, 10, 16);
    assert(v@ =~= uuid_text(uuid_bytes(random@)));
    string_of(&v)
}

/// The key that random bytes make for one of many users: the first sixteen digits of
/// their UUID.
pub open spec fn short_key(random: Seq<u8>) -> Seq<char> {
    hex(uuid_bytes(random).subrange(0, 8))
}

// ── Access ───────────────────────────────────────────────────────────────────

/// The state of the management interface.
pub struct ApiState {
    pub session_token: Option<String>,
    pub api_token: Option<String>,
    pub webpath: String,
    pub username: String,
    pub password_hash: String,
    pub server_host: String,
    pub server_port: u16,
    /// Newest first.
    pub audit_logs: Vec<AuditLogEntry>,
}

pub open spec fn opt_chars(s: Option<String>) -> Option<Seq<char>> {
    match s {
        Some(s) => Some(s@),
        None => None,
    }
}

pub open spec fn opt_view(s: Option<&str>) -> Option<Seq<char>> {
    match s {
        Some(s) => Some(s@),
        None => None,
    }
}

/// Whether an authorization is good: every one is where nothing is set up. A bearer's
/// token is that of the session or of the interface; without the word, only that of the
/// interface.
pub open spec fn permits(open: bool, session: Option<Seq<char>>, api: Option<Seq<char>>, authorization: Option<Seq<char>>) -> bool {
    open || match authorization {
        None => false,
        Some(a) => if starts_with(a, "Bearer "@) {
            let token = a.subrange("Bearer "@.len() as int, a.len() as int);
            session == Some(token) || api == Some(token)
        } else {
            api == Some(a)
        },
    }
}

fn is_text(o: &Option<String>, s: &str) -> (r: bool)
    ensures
        r == (opt_chars(*o) == Some(s@)),
{
    match o {
        Some(t) => same_str(t, s),
        None => false,
    }
}

/// What a password is kept as.
pub open spec fn password_digest(password: Seq<char>) -> Seq<char> {
    hex(sha256(encode_utf8(password)))
}

/// Whether a login is good.
pub open spec fn login_good(username: Seq<char>, hash: Seq<char>, name: Seq<char>, password: Option<Seq<char>>) -> bool {
    name == username && hash == password_digest(
        match password {
            Some(p) => p,
            None => Seq::empty(),
        },
    )
}

impl ApiState {
    /// Nothing is set up: everybody may use the interface.
    pub open spec fn open_to_all(&self) -> bool {
        self.username@.len() == 0 && self.password_hash@.len() == 0 && self.api_token is None
    }

    pub open spec fn allows(&self, authorization: Option<&str>) -> bool {
        permits(self.open_to_all(), opt_chars(self.session_token), opt_chars(self.api_token), opt_view(authorization))
    }

    pub fn new(config: ApiConfig, server_host: String, server_port: u16) -> (r: Self)
        ensures
            r.session_token is None,
            r.api_token == config.token,
            r.webpath == config.webpath,
            r.username == config.username,
            r.password_hash == config.password_hash,
            r.server_host == server_host,
            r.server_port == server_port,
            r.audit_logs@.len() == 0,
    {
        ApiState {
            session_token: None,
            api_token: config.token,
            webpath: config.webpath,
            username: config.username,
            password_hash: config.password_hash,
            server_host,
            server_port,
            audit_logs: Vec::new(),
        }
    }

    /// Whether a request with this authorization may be carried out.
    pub fn check_token(&self, authorization: Option<&str>) -> (r: bool)
        ensures
            r == self.allows(authorization),
    {
        if is_empty(&self.username) && is_empty(&self.password_hash) && self.api_token.is_none() {
            return true;
        }
        let val = match authorization {
            Some(a) => a,
            None => {
                return false;
            },
        };
        let v = chars_of(val);
        if begins_str(&v, "Bearer ") {
            let from: usize = chars_of("Bearer ").len();
            let token = string_of(&chars_range(&v, from, v.len()));
            assert(token@ == val@.subrange("Bearer "@.len() as int, val@.len() as int));
            is_text(&self.session_token, &token) || is_text(&self.api_token, &token)
        } else {
            is_text(&self.api_token, val)
        }
    }

    /// Logs in: the token of the session, made of random bytes, replaces the one before.
    pub fn login_with(&mut self, payload: &LoginRequest, random: &[u8]) -> (r: Result<LoginResponse, ApiError>)
        requires
            random@.len() == 16,
        ensures
            final(self).rest_is(*old(self)),
            if old(self).username@.len() == 0 || old(self).password_hash@.len() == 0 {
                r is Err && r->Err_0 == ApiError::AuthNotConfigured && final(self).session_token == old(self).session_token
            } else if login_good(
                old(self).username@,
                old(self).password_hash@,
                payload.username@,
                opt_chars(payload.password),
            ) {
                &&& r matches Ok(l) && l.token@ == uuid_text(uuid_bytes(random@))
                &&& opt_chars(final(self).session_token) == Some(uuid_text(uuid_bytes(random@)))
            } else {
                r is Err && r->Err_0 == ApiError::Unauthorized && final(self).session_token == old(self).session_token
            },
    {
        if is_empty(&self.username) || is_empty(&self.password_hash) {
            return Err(ApiError::AuthNotConfigured);
        }
        if !same_str(&payload.username, &self.username) {
            return Err(ApiError::Unauthorized);
        }
        let bytes = match &payload.password {
            Some(p) => utf8_of(p),
            None => utf8_of(""),
        };
        proof {
            reveal_strlit("");
            assert(""@ =~= Seq::<char>::empty());
        }
        let hash = hex_text(&sha256_of(&bytes));
        if same_str(&hash, &self.password_hash) {
            let token = uuid_with(random);
            self.session_token = Some(owned(&token));
            Ok(LoginResponse { token })
        } else {
            Err(ApiError::Unauthorized)
        }
    }

    /// Everything but the session's token is the same.
    pub open spec fn rest_is(&self, o: ApiState) -> bool {
        &&& self.api_token == o.api_token
        &&& self.webpath == o.webpath
        &&& self.username == o.username
        &&& self.password_hash == o.password_hash
        &&& self.server_host == o.server_host
        &&& self.server_port == o.server_port
        &&& self.audit_logs == o.audit_logs
    }

    /// Logs in with a fresh token.
    pub fn login(&mut self, payload: &LoginRequest) -> (r: Result<LoginResponse, ApiError>)
        ensures
            final(self).rest_is(*old(self)),
            r is Ok == (old(self).username@.len() > 0 && old(self).password_hash@.len() > 0 && login_good(
                old(self).username@,
                old(self).password_hash@,
                payload.username@,
                opt_chars(payload.password),
            )),
            match r {
                Ok(l) => opt_chars(final(self).session_token) == Some(l.token@) && exists|random: Seq<u8>|
                    random.len() == 16 && l.token@ == #[trigger] uuid_text(uuid_bytes(random)),
                Err(e) => {
                    &&& final(self).session_token == old(self).session_token
                    &&& e == if old(self).username@.len() == 0 || old(self).password_hash@.len() == 0 {
                        ApiError::AuthNotConfigured
                    } else {
                        ApiError::Unauthorized
                    }
                },
            },
    {
        let b = random_bytes(16);
        self.login_with(payload, &b)
    }
}

fn is_empty(s: &str) -> (r: bool)
    ensures
        r == (s@.len() == 0),
{
    chars_of(s).len() == 0
}

/// Where something is set up, a request without an authorization is refused.
pub proof fn strangers_are_refused(session: Option<Seq<char>>, api: Option<Seq<char>>)
    ensures
        !permits(false, session, api, None),
{
}

/// The token of a session opens the interface, as a bearer's token, until another
/// login replaces it.
pub proof fn sessions_open_the_interface(open: bool, token: Seq<char>, api: Option<Seq<char>>, other: Seq<char>)
    ensures
        permits(open, Some(token), api, Some("Bearer "@ + token)),
        !open && other != token && api != Some(token) ==> !permits(open, Some(other), api, Some("Bearer "@ + token)),
{
    let a = "Bearer "@ + token;
    let n = "Bearer "@.len() as int;
    assert(a.subrange(0, n) =~= "Bearer "@);
    assert(a.subrange(n, a.len() as int) =~= token);
}

// ── Paths ────────────────────────────────────────────────────────────────────

/// Where the interface stands: below the path that was set, or `/panel`.
pub open spec fn base_route(webpath: Seq<char>) -> Seq<char> {
    let p = trim_end_char(trim_start_char(webpath, '/'), '/');
    if p.len() == 0 {
        "/panel"@
    } else {
        "/"@ + p
    }
}

/// The file of the interface that a path asks for.
pub open spec fn asset(webpath: Seq<char>, path: Seq<char>) -> Seq<char> {
    let base = base_route(webpath);
    let rest = trim_start_char(
        if starts_with(path, base) {
            path.subrange(base.len() as int, path.len() as int)
        } else {
            path
        },
        '/',
    );
    if rest.len() == 0 {
        "index.html"@
    } else {
        rest
    }
}

/// Where the interface stands.
pub fn base_path(webpath: &str) -> (r: String)
    ensures
        r@ == base_route(webpath@),
{
    let v = chars_of(webpath);
    let p = without_trailing(without_leading(&v, '/'), '/');
    if p.len() == 0 {
        owned("/panel")
    } else {
        let mut out: Vec<char> = Vec::new();
        put_str(&mut out, "/");
        put_chars(&mut out, p);
        assert(out@ =~= "/"@ + p@);
        string_of(&out)
    }
}

/// The file of the interface that a path asks for.
pub fn asset_path(webpath: &str, path: &str) -> (r: String)
    ensures
        r@ == asset(webpath@, path@),
{
    let base = chars_of(&base_path(webpath));
    let p = chars_of(path);
    let from: usize = if begins(&p, &base) {
        base.len()
    } else {
        0
    };
    let rest = chars_range(&p, from, p.len());
    assert(rest@ =~= if starts_with(path@, base@) {
        path@.subrange(base@.len() as int, path@.len() as int)
    } else {
        path@
    });
    let file = without_leading(&rest, '/');
    if file.len() == 0 {
        owned("index.html")
    } else {
        string_of(file)
    }
}

/// A path with all slashes of one kind.
pub open spec fn slashed(p: Seq<char>) -> Seq<char> {
    Seq::new(
        p.len(),
        |i: int|
            if p[i] == '\\' {
                '/'
            } else {
                p[i]
            },
    )
}

/// Whether a path leads nowhere but into the directory that it is taken from: it begins
/// with no slash and no drive, and goes up nowhere.
pub open spec fn stays_inside(p: Seq<char>) -> bool {
    let parts = split(slashed(p), '/');
    &&& parts[0].len() > 0
    &&& !(p.len() > 1 && p[1] == ':')
    &&& forall|i: int| 0 <= i < parts.len() ==> #[trigger] parts[i] != ".."@
}

fn is_inside(p: &[char]) -> (r: bool)
    ensures
        r == stays_inside(p@),
{
    let mut s: Vec<char> = Vec::new();
    let mut i: usize = 0;
    while i < p.len()
        invariant
            i <= p@.len(),
            s@ == slashed(p@).subrange(0, i as int),
        decreases p@.len() - i,
    {
        s.push(
            if p[i] == '\\' {
                '/'
            } else {
                p[i]
            },
        );
        assert(s@ =~= slashed(p@).subrange(0, i + 1));
        i += 1;
    }
    assert(s@ =~= slashed(p@));
    let parts = pieces(&s, '/');
    let ghost all = split(slashed(p@), '/');
    assert(views(parts@).len() == parts@.len());
    proof {
        lemma_split_nonempty(slashed(p@), '/');
    }
    assert(all[0] == parts@[0]@);
    if parts[0].len() == 0 || (p.len() > 1 && p[1] == ':') {
        return false;
    }
    let up = chars_of("..");
    let mut k: usize = 0;
    while k < parts.len()
        invariant
            all == views(parts@),
            all == split(slashed(p@), '/'),
            up@ == ".."@,
            k <= parts@.len(),
            forall|j: int| 0 <= j < k ==> #[trigger] all[j] != ".."@,
        decreases parts@.len() - k,
    {
        assert(all[k as int] == parts@[k as int]@);
        if same_chars(&parts[k], &up) {
            return false;
        }
        k += 1;
    }
    true
}

/// The file of the interface that a path asks for, within the directory of its files;
/// nothing where it would lie outside.
pub fn asset_file(webpath: &str, path: &str) -> (r: Option<String>)
    ensures
        match r {
            Some(f) => f@ == asset(webpath@, path@) && stays_inside(f@),
            None => !stays_inside(asset(webpath@, path@)),
        },
{
    let f = asset_path(webpath, path);
    if is_inside(&chars_of(&f)) {
        Some(f)
    } else {
        None
    }
}

// ── Users ────────────────────────────────────────────────────────────────────

/// A snapshot shows a key of the book: what was used, or nothing yet.
pub open spec fn row(s: UserStatsSnapshot, key: Seq<char>, book: Book) -> bool {
    &&& s.access_key@ == key
    &&& opt_chars(s.name) == opt_chars(book.keys[key].name)
    &&& s.last_seen is None
    &&& if book.stats.contains_key(key) {
        let u = book.stats[key];
        s.bytes_up == u.bytes_up && s.bytes_down == u.bytes_down && s.connections == u.connections && s.limit_bytes
            == u.limit_bytes && s.online == (u.connections > 0)
    } else {
        s.bytes_up == 0 && s.bytes_down == 0 && s.connections == 0 && s.limit_bytes == book.keys[key].limit_bytes && !s.online
    }
}

fn copy_name(name: &Option<String>) -> (r: Option<String>)
    ensures
        opt_chars(r) == opt_chars(*name),
{
    match name {
        Some(n) => Some(owned(n)),
        None => None,
    }
}

fn show(users: &Users, key: &String, meta: &UserMeta) -> (r: UserStatsSnapshot)
    requires
        users.wf(),
        users@.keys.contains_pair(key@, *meta),
    ensures
        row(r, key@, users@),
{
    match users.stats.get(key) {
        Some(st) => UserStatsSnapshot {
            access_key: owned(key),
            name: copy_name(&meta.name),
            bytes_up: st.bytes_up,
            bytes_down: st.bytes_down,
            connections: st.connections,
            limit_bytes: st.limit_bytes,
            online: st.connections > 0,
            last_seen: None,
        },
        None => UserStatsSnapshot {
            access_key: owned(key),
            name: copy_name(&meta.name),
            bytes_up: 0,
            bytes_down: 0,
            connections: 0,
            limit_bytes: meta.limit_bytes,
            online: false,
            last_seen: None,
        },
    }
}

/// Each key of the book is shown once, those who received most first.
pub open spec fn listing(rows: Seq<UserStatsSnapshot>, book: Book) -> bool {
    &&& forall|i: int| 0 <= i < rows.len() ==> book.keys.contains_key((#[trigger] rows[i]).access_key@) && row(
        rows[i],
        rows[i].access_key@,
        book,
    )
    &&& forall|k: Seq<char>| #[trigger] book.keys.contains_key(k) ==> shown(rows, k)
    &&& falling(rows)
}

pub open spec fn shown(rows: Seq<UserStatsSnapshot>, key: Seq<char>) -> bool {
    exists|i: int| 0 <= i < rows.len() && (#[trigger] rows[i]).access_key@ == key
}

/// No key twice, and no row that received more than one before it.
pub open spec fn falling(rows: Seq<UserStatsSnapshot>) -> bool {
    forall|i: int, j: int|
        0 <= i < j < rows.len() ==> (#[trigger] rows[i]).access_key@ != (#[trigger] rows[j]).access_key@ && rows[i].bytes_down
            >= rows[j].bytes_down
}

/// Puts a row behind those that received as much.
fn place(rows: &mut Vec<UserStatsSnapshot>, s: UserStatsSnapshot) -> (at: usize)
    requires
        falling(old(rows)@),
        !shown(old(rows)@, s.access_key@),
    ensures
        falling(final(rows)@),
        at <= old(rows)@.len(),
        final(rows)@ == old(rows)@.insert(at as int, s),
{
    let mut at: usize = 0;
    while at < rows.len() && rows[at].bytes_down >= s.bytes_down
        invariant
            at <= rows@.len(),
            rows@ == old(rows)@,
            forall|i: int| 0 <= i < at ==> (#[trigger] rows@[i]).bytes_down >= s.bytes_down,
        decreases rows@.len() - at,
    {
        at += 1;
    }
    let ghost before = rows@;
    let ghost new = s;
    rows.insert(at, s);
    proof {
        let after = rows@;
        assert forall|i: int, j: int| 0 <= i < j < after.len() implies (#[trigger] after[i]).access_key@ != (
        #[trigger] after[j]).access_key@ && after[i].bytes_down >= after[j].bytes_down by {
            let a = if i < at {
                i
            } else {
                i - 1
            };
            let b = if j < at {
                j
            } else {
                j - 1
            };
            if i != at {
                assert(after[i] == before[a]);
            }
            if j != at {
                assert(after[j] == before[b]);
                assert(j > at ==> before[b].bytes_down <= before[at as int].bytes_down);
            }
        }
    }
    at
}

impl ApiState {
    /// How the server stands.
    pub fn server_status(&self, authorization: Option<&str>, users: &Users, uptime_seconds: u64) -> (r: Result<
        ServerStatus,
        ApiError,
    >)
        requires
            users.wf(),
        ensures
            if !self.allows(authorization) {
                r == Err::<ServerStatus, ApiError>(ApiError::Unauthorized)
            } else {
                &&& r matches Ok(s)
                &&& s.uptime_seconds == uptime_seconds
                &&& s.total_users == users@.keys.dom().len()
                &&& s.active_users == active(users.stats.pairs())
            },
    {
        if !self.check_token(authorization) {
            return Err(ApiError::Unauthorized);
        }
        let mut n: usize = 0;
        let mut i: usize = 0;
        let ghost all = users.stats.pairs();
        assert(all.subrange(0, 0) =~= Seq::<(Seq<char>, UserStats)>::empty());
        while i < users.stats.len()
            invariant
                i <= users.stats.pairs().len(),
                n <= i,
                all == users.stats.pairs(),
                n == active(all.subrange(0, i as int)),
            decreases users.stats.pairs().len() - i,
        {
            let ghost u = all.subrange(0, i + 1);
            assert(u.drop_last() =~= all.subrange(0, i as int));
            assert(u.last() == all[i as int]);
            let st = users.stats.value_at(i);
            if st.bytes_up > 0 || st.bytes_down > 0 {
                n += 1;
            }
            i += 1;
        }
        assert(all.subrange(0, i as int) =~= all);
        Ok(ServerStatus { uptime_seconds, active_users: n, total_users: users.keys.len() })
    }

    /// Every user, those who received most first.
    pub fn list_users(&self, authorization: Option<&str>, users: &Users) -> (r: Result<Vec<UserStatsSnapshot>, ApiError>)
        requires
            users.wf(),
        ensures
            match r {
                Ok(rows) => self.allows(authorization) && listing(rows@, users@),
                Err(e) => !self.allows(authorization) && e == ApiError::Unauthorized,
            },
    {
        if !self.check_token(authorization) {
            return Err(ApiError::Unauthorized);
        }
        let mut out: Vec<UserStatsSnapshot> = Vec::new();
        let mut i: usize = 0;
        let ghost all = users.keys.pairs();
        proof {
            lemma_table_view(users.keys);
            lemma_map_of(all);
        }
        while i < users.keys.len()
            invariant
                users.wf(),
                all == users.keys.pairs(),
                i <= all.len(),
                falling(out@),
                forall|k: Seq<char>| #[trigger]
                    shown(out@, k) <==> exists|j: int| 0 <= j < i && (#[trigger] all[j]).0 == k,
                forall|a: int|
                    0 <= a < out@.len() ==> users@.keys.contains_key((#[trigger] out@[a]).access_key@) && row(
                        out@[a],
                        out@[a].access_key@,
                        users@,
                    ),
            decreases all.len() - i,
        {
            let ghost before = out@;
            let key = users.keys.key_at(i);
            let meta = users.keys.value_at(i);
            let ghost id = all[i as int].0;
            let s = show(users, key, meta);
            let ghost new = s;
            assert(!shown(before, id)) by {
                if shown(before, id) {
                    let j = choose|j: int| 0 <= j < i && (#[trigger] all[j]).0 == id;
                    assert(all[j].0 != all[i as int].0);
                }
            }
            let at: usize = place(&mut out, s);
            assert(out@[at as int] == new);
            assert forall|k: Seq<char>| #[trigger] shown(out@, k) <==> exists|j: int|
                0 <= j < i + 1 && (#[trigger] all[j]).0 == k by {
                if shown(before, k) {
                    let a = choose|a: int| 0 <= a < before.len() && (#[trigger] before[a]).access_key@ == k;
                    let b = if a < at {
                        a
                    } else {
                        a + 1
                    };
                    assert(out@[b] == before[a]);
                }
                if shown(out@, k) && k != id {
                    let b = choose|b: int| 0 <= b < out@.len() && (#[trigger] out@[b]).access_key@ == k;
                    let a = if b < at {
                        b
                    } else {
                        b - 1
                    };
                    assert(before[a] == out@[b]);
                    assert(shown(before, k));
                }
                if k == id {
                    assert(all[i as int].0 == k);
                }
            }
            assert forall|a: int| 0 <= a < out@.len() implies users@.keys.contains_key((#[trigger] out@[a]).access_key@) && row(
                out@[a],
                out@[a].access_key@,
                users@,
            ) by {
                if a != at {
                    let b = if a < at {
                        a
                    } else {
                        a - 1
                    };
                    assert(out@[a] == before[b]);
                }
            }
            i += 1;
        }
        proof {
            assert forall|k: Seq<char>| #[trigger] users@.keys.contains_key(k) implies shown(out@, k) by {
                let j = choose|j: int| 0 <= j < all.len() && (#[trigger] all[j]).0 == k;
                assert(all[j].0 == k);
            }
        }
        Ok(out)
    }

    /// One user.
    pub fn get_user(&self, authorization: Option<&str>, users: &Users, key: &String) -> (r: Result<
        UserStatsSnapshot,
        ApiError,
    >)
        requires
            users.wf(),
        ensures
            match r {
                Ok(s) => self.allows(authorization) && users@.keys.contains_key(key@) && row(s, key@, users@),
                Err(ApiError::Unauthorized) => !self.allows(authorization),
                Err(e) => e == ApiError::UserNotFound && self.allows(authorization) && !users@.keys.contains_key(key@),
            },
    {
        if !self.check_token(authorization) {
            return Err(ApiError::Unauthorized);
        }
        match users.keys.get(key) {
            Some(meta) => Ok(show(users, key, meta)),
            None => Err(ApiError::UserNotFound),
        }
    }

    /// Creates a user, under the key of the request or one made of random bytes; one
    /// that is there already starts over.
    pub fn create_user_with(
        &self,
        authorization: Option<&str>,
        users: &mut Users,
        body: CreateUserRequest,
        random: &[u8],
        now: u64,
    ) -> (r: Result<String, ApiError>)
        requires
            old(users).wf(),
        ensures
            final(users).wf(),
            match r {
                Ok(key) => {
                    &&& self.allows(authorization)
                    &&& key@ == match opt_chars(body.access_key) {
                        Some(k) => k,
                        None => hex(random@),
                    }
                    &&& final(users)@ == created(old(users)@, key@, UserMeta {
                        name: body.name,
                        limit_bytes: body.limit_bytes,
                    }, now)
                },
                Err(e) => e == ApiError::Unauthorized && !self.allows(authorization) && final(users)@ == old(users)@,
            },
    {
        if !self.check_token(authorization) {
            return Err(ApiError::Unauthorized);
        }
        let key = match body.access_key {
            Some(k) => k,
            None => hex_text(random),
        };
        let _ = users.keys.insert(owned(&key), UserMeta { name: body.name, limit_bytes: body.limit_bytes });
        let _ = users.stats.insert(owned(&key), UserStats::new(body.limit_bytes, now));
        Ok(key)
    }

    /// Creates a user, under the key of the request or a random one.
    pub fn create_user(&self, authorization: Option<&str>, users: &mut Users, body: CreateUserRequest, now: u64) -> (r:
        Result<String, ApiError>)
        requires
            old(users).wf(),
        ensures
            final(users).wf(),
            match r {
                Ok(key) => {
                    &&& self.allows(authorization)
                    &&& match opt_chars(body.access_key) {
                        Some(k) => key@ == k,
                        None => exists|random: Seq<u8>| random.len() == 16 && key@ == #[trigger] hex(random),
                    }
                    &&& final(users)@ == created(old(users)@, key@, UserMeta {
                        name: body.name,
                        limit_bytes: body.limit_bytes,
                    }, now)
                },
                Err(e) => e == ApiError::Unauthorized && !self.allows(authorization) && final(users)@ == old(users)@,
            },
    {
        let b = random_bytes(16);
        self.create_user_with(authorization, users, body, &b, now)
    }

    /// Removes a user, and what was counted of it.
    pub fn delete_user(&self, authorization: Option<&str>, users: &mut Users, key: &String) -> (r: Result<(), ApiError>)
        requires
            old(users).wf(),
        ensures
            final(users).wf(),
            r == reached(self.allows(authorization), old(users)@, key@, ApiError::NoSuchUser),
            final(users)@ == if r is Ok {
                Book { keys: old(users)@.keys.remove(key@), stats: old(users)@.stats.remove(key@) }
            } else {
                old(users)@
            },
    {
        if !self.check_token(authorization) {
            return Err(ApiError::Unauthorized);
        }
        if users.keys.remove(key).is_none() {
            return Err(ApiError::NoSuchUser);
        }
        let _ = users.stats.remove(key);
        Ok(())
    }

    /// Gives a user another name and another limit; what was used stays counted.
    pub fn update_user(
        &self,
        authorization: Option<&str>,
        users: &mut Users,
        key: &String,
        body: UpdateUserRequest,
        now: u64,
    ) -> (r: Result<(), ApiError>)
        requires
            old(users).wf(),
        ensures
            final(users).wf(),
            r == reached(self.allows(authorization), old(users)@, key@, ApiError::NoSuchUser),
            final(users)@ == if r is Ok {
                changed(old(users)@, key@, UserMeta { name: body.name, limit_bytes: body.limit_bytes }, now)
            } else {
                old(users)@
            },
    {
        if !self.check_token(authorization) {
            return Err(ApiError::Unauthorized);
        }
        if !users.keys.contains_key(key) {
            return Err(ApiError::NoSuchUser);
        }
        let _ = users.keys.insert(owned(key), UserMeta { name: body.name, limit_bytes: body.limit_bytes });
        users.set_user_limit(key, body.limit_bytes, now);
        Ok(())
    }

    /// Gives a user another limit; what was used stays counted.
    pub fn set_limit(
        &self,
        authorization: Option<&str>,
        users: &mut Users,
        key: &String,
        body: SetLimitRequest,
        now: u64,
    ) -> (r: Result<(), ApiError>)
        requires
            old(users).wf(),
        ensures
            final(users).wf(),
            r == reached(self.allows(authorization), old(users)@, key@, ApiError::UserNotFound),
            final(users)@ == if r is Ok {
                changed(
                    old(users)@,
                    key@,
                    UserMeta { name: old(users)@.keys[key@].name, limit_bytes: body.limit_bytes },
                    now,
                )
            } else {
                old(users)@
            },
    {
        if !self.check_token(authorization) {
            return Err(ApiError::Unauthorized);
        }
        match users.keys.get_mut(key) {
            None => {
                return Err(ApiError::UserNotFound);
            },
            Some(meta) => {
                meta.limit_bytes = body.limit_bytes;
            },
        }
        users.set_user_limit(key, body.limit_bytes, now);
        Ok(())
    }

    /// Starts the counters of a user over; its limit stays.
    pub fn reset_stats(&self, authorization: Option<&str>, users: &mut Users, key: &String, now: u64) -> (r: Result<
        (),
        ApiError,
    >)
        requires
            old(users).wf(),
        ensures
            final(users).wf(),
            if !self.allows(authorization) {
                r == Err::<(), ApiError>(ApiError::Unauthorized) && final(users)@ == old(users)@
            } else if !old(users)@.stats.contains_key(key@) {
                r == Err::<(), ApiError>(ApiError::UserNotFound) && final(users)@ == old(users)@
            } else {
                r is Ok && final(users)@ == old(users)@.with(
                    key@,
                    UserStats::fresh(old(users)@.stats[key@].limit_bytes, now),
                )
            },
    {
        if !self.check_token(authorization) {
            return Err(ApiError::Unauthorized);
        }
        let limit = match users.stats.get(key) {
            Some(us) => us.limit_bytes,
            None => {
                return Err(ApiError::UserNotFound);
            },
        };
        let _ = users.stats.insert(owned(key), UserStats::new(limit, now));
        Ok(())
    }
}

/// How many have sent or received something.
pub open spec fn active(stats: Seq<(Seq<char>, UserStats)>) -> nat
    decreases stats.len(),
{
    if stats.len() == 0 {
        0
    } else {
        active(stats.drop_last()) + if stats.last().1.bytes_up > 0 || stats.last().1.bytes_down > 0 {
            1nat
        } else {
            0nat
        }
    }
}

/// A book with a new user.
pub open spec fn created(book: Book, key: Seq<char>, meta: UserMeta, now: u64) -> Book {
    Book { keys: book.keys.insert(key, meta), stats: book.stats.insert(key, UserStats::fresh(meta.limit_bytes, now)) }
}

/// A book in which a user has another name and limit.
pub open spec fn changed(book: Book, key: Seq<char>, meta: UserMeta, now: u64) -> Book {
    Book {
        keys: book.keys.insert(key, meta),
        stats: book.stats.insert(
            key,
            if book.stats.contains_key(key) {
                UserStats { limit_bytes: meta.limit_bytes, ..book.stats[key] }
            } else {
                UserStats::fresh(meta.limit_bytes, now)
            },
        ),
    }
}

/// Whether a request about a user is carried out; `unknown` where there is no such user.
pub open spec fn reached(allowed: bool, book: Book, key: Seq<char>, unknown: ApiError) -> Result<(), ApiError> {
    if !allowed {
        Err(ApiError::Unauthorized)
    } else if !book.keys.contains_key(key) {
        Err(unknown)
    } else {
        Ok(())
    }
}

/// The keys of many users: one for each sixteen random bytes.
pub open spec fn short_keys(random: Seq<u8>, count: nat) -> Seq<Seq<char>> {
    Seq::new(count, |i: int| short_key(random.subrange(i * 16, i * 16 + 16)))
}

/// A table of users with more keys, without names, all with one limit.
pub open spec fn with_keys(keys: Map<Seq<char>, UserMeta>, more: Seq<Seq<char>>, limit: Option<u64>) -> Map<
    Seq<char>,
    UserMeta,
>
    decreases more.len(),
{
    if more.len() == 0 {
        keys
    } else {
        with_keys(keys, more.drop_last(), limit).insert(more.last(), UserMeta { name: None, limit_bytes: limit })
    }
}

impl ApiState {
    /// Creates many users, under keys made of random bytes.
    pub fn bulk_create_with(
        &self,
        authorization: Option<&str>,
        users: &mut Users,
        payload: &BulkCreateRequest,
        random: &[u8],
    ) -> (r: Result<Vec<String>, ApiError>)
        requires
            old(users).wf(),
            payload.count <= MAX_BULK_KEYS ==> random@.len() == payload.count * 16,
        ensures
            final(users).wf(),
            match r {
                Ok(keys) => {
                    &&& self.allows(authorization)
                    &&& payload.count <= MAX_BULK_KEYS
                    &&& string_views(keys@) == short_keys(random@, payload.count as nat)
                    &&& final(users)@ == Book {
                        keys: with_keys(old(users)@.keys, string_views(keys@), payload.limit_bytes),
                        ..old(users)@
                    }
                },
                Err(e) => {
                    &&& final(users)@ == old(users)@
                    &&& if !self.allows(authorization) {
                        e == ApiError::Unauthorized
                    } else {
                        e == ApiError::CountTooLarge && payload.count > MAX_BULK_KEYS
                    }
                },
            },
    {
        if !self.check_token(authorization) {
            return Err(ApiError::Unauthorized);
        }
        if payload.count > MAX_BULK_KEYS {
            return Err(ApiError::CountTooLarge);
        }
        let mut out: Vec<String> = Vec::new();
        let mut i: usize = 0;
        let ghost start = users@;
        let ghost all = short_keys(random@, payload.count as nat);
        assert(all.subrange(0, 0) =~= Seq::<Seq<char>>::empty());
        assert(string_views(out@) =~= all.subrange(0, 0));
        while i < payload.count
            invariant
                i <= payload.count <= MAX_BULK_KEYS,
                random@.len() == payload.count * 16,
                all == short_keys(random@, payload.count as nat),
                users.wf(),
                string_views(out@) == all.subrange(0, i as int),
                users@ == (Book { keys: with_keys(start.keys, all.subrange(0, i as int), payload.limit_bytes), ..start }),
            decreases payload.count - i,
        {
            let b = uuid_of(vstd::slice::slice_subrange(random, i * 16, i * 16 + 16));
            let key = hex_text(vstd::slice::slice_subrange(&b, 0, 8));
            assert(key@ == all[i as int]);
            let ghost u = all.subrange(0, i + 1);
            assert(u.drop_last() =~= all.subrange(0, i as int));
            assert(u.last() == key@);
            let _ = users.keys.insert(owned(&key), UserMeta { name: None, limit_bytes: payload.limit_bytes });
            let ghost before = string_views(out@);
            out.push(key);
            assert(string_views(out@) =~= before.push(key@));
            assert(string_views(out@) =~= u);
            i += 1;
        }
        assert(all.subrange(0, i as int) =~= all);
        Ok(out)
    }

    /// Creates many users, under random keys.
    pub fn bulk_create(&self, authorization: Option<&str>, users: &mut Users, payload: &BulkCreateRequest) -> (r: Result<
        Vec<String>,
        ApiError,
    >)
        requires
            old(users).wf(),
        ensures
            final(users).wf(),
            match r {
                Ok(keys) => {
                    &&& self.allows(authorization)
                    &&& payload.count <= MAX_BULK_KEYS
                    &&& exists|random: Seq<u8>|
                        random.len() == payload.count * 16 && string_views(keys@) == #[trigger] short_keys(
                            random,
                            payload.count as nat,
                        )
                    &&& final(users)@ == Book {
                        keys: with_keys(old(users)@.keys, string_views(keys@), payload.limit_bytes),
                        ..old(users)@
                    }
                },
                Err(e) => {
                    &&& final(users)@ == old(users)@
                    &&& if !self.allows(authorization) {
                        e == ApiError::Unauthorized
                    } else {
                        e == ApiError::CountTooLarge && payload.count > MAX_BULK_KEYS
                    }
                },
            },
    {
        let n: usize = if payload.count <= MAX_BULK_KEYS {
            payload.count
        } else {
            0
        };
        let b = random_bytes(n * 16);
        self.bulk_create_with(authorization, users, payload, &b)
    }

    // ── Audit log ────────────────────────────────────────────────────────────

    /// Adds an entry to the front of the log; the oldest ones leave.
    pub fn create_audit(&mut self, req: CreateAuditLogRequest, id: String, time: String)
        ensures
            final(self).audit_logs@ == recorded(
                old(self).audit_logs@,
                AuditLogEntry { id, time, event_en: req.event_en, event_ru: req.event_ru, success: req.success },
            ),
            final(self).session_token == old(self).session_token,
            final(self).settings_are(*old(self)),
    {
        self.audit_logs.insert(
            0,
            AuditLogEntry { id, time, event_en: req.event_en, event_ru: req.event_ru, success: req.success },
        );
        if self.audit_logs.len() > MAX_AUDIT_ENTRIES {
            self.audit_logs.truncate(MAX_AUDIT_ENTRIES);
        }
    }

    pub fn clear_audit(&mut self)
        ensures
            final(self).audit_logs@.len() == 0,
            final(self).session_token == old(self).session_token,
            final(self).settings_are(*old(self)),
    {
        self.audit_logs.clear();
    }

    /// The settings are the same.
    pub open spec fn settings_are(&self, o: ApiState) -> bool {
        &&& self.api_token == o.api_token
        &&& self.webpath == o.webpath
        &&& self.username == o.username
        &&& self.password_hash == o.password_hash
        &&& self.server_host == o.server_host
        &&& self.server_port == o.server_port
    }

    // ── Subscription ─────────────────────────────────────────────────────────

    /// What a client is told that asks with an access key; the key itself is the
    /// authorization.
    pub fn subscribe(&self, users: &Users, key: &String, accept: Option<&str>, owndns: bool) -> (r: SubscribeReply)
        requires
            users.wf(),
        ensures
            if !users@.keys.contains_key(key@) {
                r is NotFound
            } else if wants_text(opt_view(accept)) {
                r matches SubscribeReply::Link(l) && l@ == plain_link(key@, self.server_host@, self.server_port as int, owndns)
            } else {
                r matches SubscribeReply::Config(c) && c.is(
                    self.server_host@ + ":"@ + decimal(self.server_port as nat),
                    key@,
                )
            },
    {
        if !users.knows(key) {
            return SubscribeReply::NotFound;
        }
        let text = match accept {
            Some(a) => {
                let v = chars_of(a);
                holds_str(&v, "text/plain")
            },
            None => false,
        };
        let mut v: Vec<char> = Vec::new();
        if text {
            put_str(&mut v, "ostp://");
            put_str(&mut v, key);
            put_str(&mut v, "@");
            put_str(&mut v, &self.server_host);
            put_str(&mut v, ":");
            put_decimal(&mut v, self.server_port as u64);
            put_str(
                &mut v,
                if owndns {
                    "?type=udp&owndns=true"
                } else {
                    "?type=udp"
                },
            );
            assert(v@ =~= plain_link(key@, self.server_host@, self.server_port as int, owndns));
            SubscribeReply::Link(string_of(&v))
        } else {
            put_str(&mut v, &self.server_host);
            put_str(&mut v, ":");
            put_decimal(&mut v, self.server_port as u64);
            assert(v@ =~= self.server_host@ + ":"@ + decimal(self.server_port as nat));
            SubscribeReply::Config(ServedConfig::new(string_of(&v), owned(key)))
        }
    }

    // ── Settings of the server ───────────────────────────────────────────────

    /// The rules in force; none where there is no proxy.
    pub fn get_rules<'a>(&self, authorization: Option<&str>, outbound: &'a Option<OutboundConfig>) -> (r: Result<
        Option<&'a Vec<OutboundRule>>,
        ApiError,
    >)
        ensures
            if !self.allows(authorization) {
                r matches Err(e) && e == ApiError::Unauthorized
            } else {
                match *outbound {
                    Some(c) => r matches Ok(Some(rules)) && *rules == c.rules,
                    None => r matches Ok(None),
                }
            },
    {
        if !self.check_token(authorization) {
            return Err(ApiError::Unauthorized);
        }
        match outbound {
            Some(c) => Ok(Some(&c.rules)),
            None => Ok(None),
        }
    }

    /// Puts other rules into force.
    pub fn put_rules(&self, authorization: Option<&str>, outbound: &mut Option<OutboundConfig>, rules: Vec<OutboundRule>) -> (r:
        Result<(), ApiError>)
        ensures
            if !self.allows(authorization) {
                r == Err::<(), ApiError>(ApiError::Unauthorized) && *final(outbound) == *old(outbound)
            } else {
                match *old(outbound) {
                    Some(c) => r is Ok && *final(outbound) == Some(OutboundConfig { rules, ..c }),
                    None => r == Err::<(), ApiError>(ApiError::RoutingNotEnabled) && *final(outbound) == *old(outbound),
                }
            },
    {
        if !self.check_token(authorization) {
            return Err(ApiError::Unauthorized);
        }
        match outbound {
            Some(c) => {
                c.rules = rules;
                Ok(())
            },
            None => Err(ApiError::RoutingNotEnabled),
        }
    }

    /// Whether the configuration may be read.
    pub fn get_config(&self, authorization: Option<&str>, has_path: bool) -> (r: Result<(), ApiError>)
        ensures
            r == if !self.allows(authorization) {
                Err::<(), ApiError>(ApiError::Unauthorized)
            } else if !has_path {
                Err(ApiError::NoConfigPath)
            } else {
                Ok(())
            },
    {
        if !self.check_token(authorization) {
            Err(ApiError::Unauthorized)
        } else if !has_path {
            Err(ApiError::NoConfigPath)
        } else {
            Ok(())
        }
    }

    /// The text that replaces the configuration on disk, for a body in JSON: one without a
    /// mode is no configuration.
    pub fn put_config(&self, authorization: Option<&str>, has_path: bool, body: &str) -> (r: Result<String, ApiError>)
        ensures
            if !self.allows(authorization) {
                r matches Err(e) && e == ApiError::Unauthorized
            } else if !has_path {
                r matches Err(e) && e == ApiError::NoConfigPath
            } else if !has_mode(json_fields(body@)) {
                r matches Err(e) && e == ApiError::MissingMode
            } else {
                r matches Ok(t) && json_pretty(body@) == Some(t@)
            },
    {
        match self.get_config(authorization, has_path) {
            Ok(_) => {
                let fields = read_fields(body);
                if !names_mode(&fields) {
                    return Err(ApiError::MissingMode);
                }
                match read_pretty(body) {
                    Some(t) => Ok(t),
                    None => Err(ApiError::MissingMode),
                }
            },
            Err(e) => Err(e),
        }
    }
}

/// Whether the fields of a configuration, where it has some, hold its mode.
pub open spec fn has_mode(fields: Option<Seq<(Seq<char>, Seq<char>)>>) -> bool {
    fields matches Some(f) && field_of(f, "mode"@) is Some
}

/// Whether the fields of a configuration, where it has some, hold its mode.
pub fn names_mode(fields: &Option<Vec<(String, String)>>) -> (r: bool)
    ensures
        r == has_mode(
            match *fields {
                Some(f) => Some(field_views(f@)),
                None => None,
            },
        ),
{
    match fields {
        Some(f) => find_field(f, "mode").is_some(),
        None => false,
    }
}

/// The log with one more entry.
pub open spec fn recorded(log: Seq<AuditLogEntry>, e: AuditLogEntry) -> Seq<AuditLogEntry> {
    let more = log.insert(0, e);
    if more.len() > MAX_AUDIT_ENTRIES {
        more.subrange(0, MAX_AUDIT_ENTRIES as int)
    } else {
        more
    }
}

/// The log stays within its size, and its newest entry is the first.
pub proof fn the_audit_log_stays_within_its_size(log: Seq<AuditLogEntry>, e: AuditLogEntry)
    ensures
        recorded(log, e).len() <= MAX_AUDIT_ENTRIES,
        recorded(log, e)[0] == e,
{
}

/// What a client with an access key is told.
#[derive(Debug)]
pub enum SubscribeReply {
    /// No such key.
    NotFound,
    /// A link.
    Link(String),
    /// A configuration that is ready to use.
    Config(ServedConfig),
}

/// A configuration of a client, as it is served: a proxy at the usual place, and nothing
/// else switched on.
#[derive(Debug)]
pub struct ServedConfig {
    pub mode: String,
    pub server: String,
    pub access_key: String,
    pub socks5_bind: String,
    pub tun_enable: bool,
    pub tun_dns: String,
    pub exclude_domains: Vec<String>,
    pub exclude_ips: Vec<String>,
    pub exclude_processes: Vec<String>,
    pub turn_enabled: bool,
    pub mux_enabled: bool,
    pub mux_sessions: u32,
    pub debug: bool,
}

impl ServedConfig {
    /// The configuration for a server and a key.
    pub open spec fn is(&self, server: Seq<char>, access_key: Seq<char>) -> bool {
        &&& self.mode@ == "client"@
        &&& self.server@ == server
        &&& self.access_key@ == access_key
        &&& self.socks5_bind@ == "127.0.0.1:1088"@
        &&& !self.tun_enable
        &&& self.tun_dns@ == "1.1.1.1"@
        &&& self.exclude_domains@.len() == 0
        &&& self.exclude_ips@.len() == 0
        &&& self.exclude_processes@.len() == 0
        &&& !self.turn_enabled
        &&& !self.mux_enabled
        &&& self.mux_sessions == 1
        &&& !self.debug
    }

    /// The configuration for a server and a key.
    pub fn new(server: String, access_key: String) -> (r: Self)
        ensures
            r.is(server@, access_key@),
    {
        ServedConfig {
            mode: owned("client"),
            server,
            access_key,
            socks5_bind: owned("127.0.0.1:1088"),
            tun_enable: false,
            tun_dns: owned("1.1.1.1"),
            exclude_domains: Vec::new(),
            exclude_ips: Vec::new(),
            exclude_processes: Vec::new(),
            turn_enabled: false,
            mux_enabled: false,
            mux_sessions: 1,
            debug: false,
        }
    }
}

/// Whether a client asks for a link.
pub open spec fn wants_text(accept: Option<Seq<char>>) -> bool {
    accept matches Some(a) && contains(a, "text/plain"@)
}

/// A link without encryption of its own.
pub open spec fn plain_link(key: Seq<char>, host: Seq<char>, port: int, owndns: bool) -> Seq<char> {
    "ostp://"@ + key + "@"@ + host + ":"@ + decimal(port as nat) + if owndns {
        "?type=udp&owndns=true"@
    } else {
        "?type=udp"@
    }
}

/// A user as the configuration keeps it: the key alone where there is nothing else.
#[derive(Debug)]
pub enum SavedKey {
    Plain(String),
    Full { access_key: String, name: Option<String>, limit_bytes: Option<u64> },
}

/// What the configuration keeps of a user.
pub open spec fn saves(s: SavedKey, key: Seq<char>, meta: UserMeta) -> bool {
    if meta.name is None && meta.limit_bytes is None {
        s matches SavedKey::Plain(k) && k@ == key
    } else {
        &&& s matches SavedKey::Full { access_key, name, limit_bytes }
        &&& access_key@ == key
        &&& opt_chars(name) == opt_chars(meta.name)
        &&& limit_bytes == meta.limit_bytes
    }
}

/// The users as the configuration keeps them.
pub fn saved_keys(users: &Users) -> (r: Vec<SavedKey>)
    requires
        users.wf(),
    ensures
        r@.len() == users.keys.pairs().len(),
        forall|i: int|
            0 <= i < r@.len() ==> saves(#[trigger] r@[i], users.keys.pairs()[i].0, users.keys.pairs()[i].1),
{
    let mut out: Vec<SavedKey> = Vec::new();
    let mut i: usize = 0;
    while i < users.keys.len()
        invariant
            i <= users.keys.pairs().len(),
            out@.len() == i,
            forall|k: int|
                0 <= k < i ==> saves(#[trigger] out@[k], users.keys.pairs()[k].0, users.keys.pairs()[k].1),
        decreases users.keys.pairs().len() - i,
    {
        let key = users.keys.key_at(i);
        let meta = users.keys.value_at(i);
        if meta.name.is_none() && meta.limit_bytes.is_none() {
            out.push(SavedKey::Plain(owned(key)));
        } else {
            out.push(
                SavedKey::Full { access_key: owned(key), name: copy_name(&meta.name), limit_bytes: meta.limit_bytes },
            );
        }
        i += 1;
    }
    out
}

/// A user as JSON.
pub open spec fn saved_text(key: Seq<char>, meta: UserMeta) -> Seq<char> {
    if meta.name is None && meta.limit_bytes is None {
        json_quoted(key)
    } else {
        "{\"access_key\":"@ + json_quoted(key) + (match meta.name {
            Some(n) => ",\"name\":"@ + json_quoted(n@),
            None => Seq::empty(),
        }) + (match meta.limit_bytes {
            Some(l) => ",\"limit_bytes\":"@ + decimal(l as nat),
            None => Seq::empty(),
        }) + "}"@
    }
}

pub open spec fn saved_texts(users: Seq<(Seq<char>, UserMeta)>) -> Seq<Seq<char>> {
    Seq::new(users.len(), |i: int| saved_text(users[i].0, users[i].1))
}

/// All users as JSON.
pub open spec fn users_json(users: Seq<(Seq<char>, UserMeta)>) -> Seq<char> {
    "["@ + join(saved_texts(users), ","@) + "]"@
}

fn key_text(s: &SavedKey, Ghost(key): Ghost<Seq<char>>, Ghost(meta): Ghost<UserMeta>) -> (r: String)
    requires
        saves(*s, key, meta),
    ensures
        r@ == saved_text(key, meta),
{
    match s {
        SavedKey::Plain(k) => quoted(k),
        SavedKey::Full { access_key, name, limit_bytes } => {
            let mut v: Vec<char> = Vec::new();
            put_str(&mut v, "{\"access_key\":");
            put_str(&mut v, &quoted(access_key));
            if let Some(n) = name {
                put_str(&mut v, ",\"name\":");
                put_str(&mut v, &quoted(n));
            }
            if let Some(l) = limit_bytes {
                put_str(&mut v, ",\"limit_bytes\":");
                put_decimal(&mut v, *l);
            }
            put_str(&mut v, "}");
            assert(v@ =~= saved_text(key, meta));
            string_of(&v)
        },
    }
}

/// All users as JSON.
pub fn users_text(users: &Users) -> (r: String)
    requires
        users.wf(),
    ensures
        r@ == users_json(users.keys.pairs()),
{
    let saved = saved_keys(users);
    let ghost pairs = users.keys.pairs();
    let mut all: Vec<String> = Vec::new();
    let mut i: usize = 0;
    while i < saved.len()
        invariant
            i <= saved@.len(),
            saved@.len() == pairs.len(),
            all@.len() == i,
            forall|k: int| 0 <= k < saved@.len() ==> saves(#[trigger] saved@[k], pairs[k].0, pairs[k].1),
            forall|k: int| 0 <= k < i ==> (#[trigger] all@[k])@ == saved_text(pairs[k].0, pairs[k].1),
        decreases saved@.len() - i,
    {
        assert(saves(saved@[i as int], pairs[i as int].0, pairs[i as int].1));
        all.push(key_text(&saved[i], Ghost(pairs[i as int].0), Ghost(pairs[i as int].1)));
        i += 1;
    }
    assert(string_views(all@) =~= saved_texts(pairs));
    let mut v: Vec<char> = Vec::new();
    put_str(&mut v, "[");
    put_str(&mut v, &join_strings(&all, ","));
    put_str(&mut v, "]");
    string_of(&v)
}

/// Why a configuration is not saved.
#[derive(Debug, Clone, Copy, PartialEq, Eq, Structural)]
pub enum SaveError {
    /// A comment in the file is malformed.
    Comments,
    /// The file is no JSON.
    NotJson,
    /// The file holds no object.
    NotAnObject,
    /// The configuration cannot be printed.
    Unprintable,
}

/// The text of a configuration file with other users.
pub open spec fn users_saved(file: Seq<char>, users: Seq<(Seq<char>, UserMeta)>) -> Result<Seq<char>, SaveError> {
    match without_comments(file) {
        None => Err(SaveError::Comments),
        Some(t) => if json_pretty(t) is None {
            Err(SaveError::NotJson)
        } else {
            match json_fields(t) {
                None => Err(SaveError::NotAnObject),
                Some(f) => match json_object(with_field(f, "access_keys"@, users_json(users))) {
                    None => Err(SaveError::Unprintable),
                    Some(r) => Ok(r),
                },
            }
        },
    }
}

/// The text of a configuration file with the users as they are now; everything else in it
/// stays, but for its comments.
pub fn with_saved_users(file: &str, users: &Users) -> (r: Result<String, SaveError>)
    requires
        users.wf(),
    ensures
        match r {
            Ok(t) => users_saved(file@, users.keys.pairs()) == Ok::<Seq<char>, SaveError>(t@),
            Err(e) => users_saved(file@, users.keys.pairs()) == Err::<Seq<char>, SaveError>(e),
        },
{
    let text = match config_text(file) {
        Some(t) => t,
        None => {
            return Err(SaveError::Comments);
        },
    };
    if read_pretty(&text).is_none() {
        return Err(SaveError::NotJson);
    }
    let mut fields = match read_fields(&text) {
        Some(f) => f,
        None => {
            return Err(SaveError::NotAnObject);
        },
    };
    proof {
        other_fields_stay(field_views(fields@), "access_keys"@, users_json(users.keys.pairs()), Seq::empty());
    }
    set_field(&mut fields, "access_keys", users_text(users));
    match write_object(&fields) {
        Some(t) => Ok(t),
        None => Err(SaveError::Unprintable),
    }
}

/// The fields of a configuration with other rules for the proxy; nothing where there are no
/// settings of a proxy to put them in.
pub open spec fn with_rules(fields: Seq<(Seq<char>, Seq<char>)>, rules: Seq<char>) -> Option<
    Seq<(Seq<char>, Seq<char>)>,
> {
    match field_of(fields, "outbound"@) {
        None => None,
        Some(o) => match json_fields(o) {
            None => None,
            Some(f) => match json_object(with_field(f, "rules"@, rules)) {
                None => None,
                Some(t) => Some(with_field(fields, "outbound"@, t)),
            },
        },
    }
}

/// The text of a configuration file with other rules for the proxy. Where the file has no
/// settings of a proxy it stays what it is; a file that is no JSON becomes `null`.
pub open spec fn rules_saved(file: Seq<char>, rules: Seq<char>) -> Seq<char> {
    let same = match json_pretty(file) {
        Some(t) => t,
        None => "null"@,
    };
    match json_fields(file) {
        None => same,
        Some(f) => match with_rules(f, rules) {
            None => same,
            Some(g) => match json_object(g) {
                None => same,
                Some(t) => t,
            },
        },
    }
}

fn put_rules_in(fields: &mut Vec<(String, String)>, rules: &str) -> (r: bool)
    requires
        single_fields(field_views(old(fields)@)),
    ensures
        match with_rules(field_views(old(fields)@), rules@) {
            None => !r,
            Some(g) => r && field_views(final(fields)@) == g && single_fields(g),
        },
{
    let ghost before = field_views(fields@);
    let mut inner = match find_field(fields, "outbound") {
        None => {
            return false;
        },
        Some(o) => match read_fields(o) {
            None => {
                return false;
            },
            Some(f) => f,
        },
    };
    proof {
        other_fields_stay(field_views(inner@), "rules"@, rules@, Seq::empty());
    }
    set_field(&mut inner, "rules", owned(rules));
    match write_object(&inner) {
        None => false,
        Some(t) => {
            proof {
                other_fields_stay(before, "outbound"@, t@, Seq::empty());
            }
            set_field(fields, "outbound", t);
            true
        },
    }
}

/// The text of a configuration file with other rules for the proxy, which come as JSON.
pub fn with_saved_rules(file: &str, rules: &str) -> (r: String)
    ensures
        r@ == rules_saved(file@, rules@),
{
    if let Some(f) = read_fields(file) {
        let mut fields = f;
        if put_rules_in(&mut fields, rules) {
            if let Some(t) = write_object(&fields) {
                return t;
            }
        }
    }
    match read_pretty(file) {
        Some(t) => t,
        None => owned("null"),
    }
}

/// Saving the rules changes nothing but the rules: the other settings of the proxy go into
/// what is printed as they were read, and so do all other settings.
pub proof fn saved_rules_keep_the_rest(fields: Seq<(Seq<char>, Seq<char>)>, rules: Seq<char>, other: Seq<char>, inner: Seq<char>)
    requires
        with_rules(fields, rules) is Some,
    ensures
        ({
            let o = field_of(fields, "outbound"@)->Some_0;
            let proxy = with_field(json_fields(o)->Some_0, "rules"@, rules);
            let after = with_rules(fields, rules)->Some_0;
            &&& other != "outbound"@ ==> field_of(after, other) == field_of(fields, other)
            &&& field_of(after, "outbound"@) == json_object(proxy)
            &&& field_of(proxy, "rules"@) == Some(rules)
            &&& inner != "rules"@ ==> field_of(proxy, inner) == field_of(json_fields(o)->Some_0, inner)
        }),
{
    let o = field_of(fields, "outbound"@)->Some_0;
    let f = json_fields(o)->Some_0;
    let t = json_object(with_field(f, "rules"@, rules))->Some_0;
    other_fields_stay(f, "rules"@, rules, inner);
    other_fields_stay(fields, "outbound"@, t, other);
}

/// Saving the users changes nothing but the users: all other settings go into what is printed
/// as they were read.
pub proof fn saved_users_keep_the_rest(file: Seq<char>, users: Seq<(Seq<char>, UserMeta)>, other: Seq<char>)
    requires
        users_saved(file, users) is Ok,
    ensures
        ({
            let before = json_fields(without_comments(file)->Some_0)->Some_0;
            let after = with_field(before, "access_keys"@, users_json(users));
            &&& json_object(after) == Some(users_saved(file, users)->Ok_0)
            &&& field_of(after, "access_keys"@) == Some(users_json(users))
            &&& other != "access_keys"@ ==> field_of(after, other) == field_of(before, other)
        }),
{
    other_fields_stay(
        json_fields(without_comments(file)->Some_0)->Some_0,
        "access_keys"@,
        users_json(users),
        other,
    );
}

/// The interface is open to the token that was set for it, with the word before it or without,
/// and to everybody where neither a token nor a name and a password are set.
pub proof fn tokens_open_the_interface(session: Option<Seq<char>>, token: Seq<char>, other: Seq<char>)
    ensures
        permits(true, session, None, None),
        permits(false, session, Some(token), Some("Bearer "@ + token)),
        !starts_with(token, "Bearer "@) ==> permits(false, session, Some(token), Some(token)),
        other != token && session != Some(other) ==> !permits(false, session, Some(token), Some("Bearer "@ + other)),
        other != token && !starts_with(other, "Bearer "@) ==> !permits(false, session, Some(token), Some(other)),
        !starts_with(other, "Bearer "@) ==> !permits(false, Some(other), None, Some(other)),
{
    let w = "Bearer "@ + token;
    assert(w.subrange(0, "Bearer "@.len() as int) =~= "Bearer "@);
    assert(w.subrange("Bearer "@.len() as int, w.len() as int) =~= token);
    let v = "Bearer "@ + other;
    assert(v.subrange(0, "Bearer "@.len() as int) =~= "Bearer "@);
    assert(v.subrange("Bearer "@.len() as int, v.len() as int) =~= other);
}

/// A login needs the name, and the password whose digest is kept; one without a password is one
/// with an empty one.
pub proof fn logins_are_checked(username: Seq<char>, name: Seq<char>, password: Seq<char>, hash: Seq<char>)
    ensures
        login_good(username, hex(sha256(encode_utf8(password))), username, Some(password)),
        hash != hex(sha256(encode_utf8(password))) ==> !login_good(username, hash, username, Some(password)),
        name != username ==> !login_good(username, hash, name, Some(password)),
        login_good(username, hash, name, None) == login_good(username, hash, name, Some(Seq::empty())),
{
}

/// A user that is created starts at nothing, with the name and the limit that are given; one
/// that is changed keeps what was counted. No other user is touched.
pub proof fn users_are_created_and_changed(book: Book, key: Seq<char>, meta: UserMeta, now: u64, other: Seq<char>)
    requires
        other != key,
    ensures
        ({
            let c = created(book, key, meta, now);
            let d = changed(book, key, meta, now);
            &&& c.keys.contains_key(key) && c.keys[key] == meta && d.keys.contains_key(key) && d.keys[key] == meta
            &&& c.stats[key].bytes_up == 0 && c.stats[key].bytes_down == 0 && c.stats[key].limit_bytes
                == meta.limit_bytes && c.stats[key].created_at == now
            &&& d.stats[key].limit_bytes == meta.limit_bytes
            &&& book.stats.contains_key(key) ==> d.stats[key].bytes_up == book.stats[key].bytes_up
                && d.stats[key].bytes_down == book.stats[key].bytes_down && d.stats[key].connections
                == book.stats[key].connections && d.stats[key].created_at == book.stats[key].created_at
            &&& c.keys.contains_key(other) == book.keys.contains_key(other) && d.keys.contains_key(other)
                == book.keys.contains_key(other)
            &&& c.stats.contains_key(other) == book.stats.contains_key(other) && d.stats.contains_key(other)
                == book.stats.contains_key(other)
            &&& c.keys[other] == book.keys[other] && d.keys[other] == book.keys[other]
            &&& c.stats[other] == book.stats[other] && d.stats[other] == book.stats[other]
        }),
{
}

/// A user is reached by who may use the interface and where there is such a user.
pub proof fn users_are_reached(book: Book, key: Seq<char>, unknown: ApiError)
    ensures
        reached(false, book, key, unknown) == Err::<(), ApiError>(ApiError::Unauthorized),
        book.keys.contains_key(key) ==> reached(true, book, key, unknown) == Ok::<(), ApiError>(()),
        !book.keys.contains_key(key) ==> reached(true, book, key, unknown) == Err::<(), ApiError>(unknown),
{
}

proof fn lemma_active(stats: Seq<(Seq<char>, UserStats)>)
    ensures
        active(stats) == stats.filter(|p: (Seq<char>, UserStats)| p.1.bytes_up > 0 || p.1.bytes_down > 0).len(),
    decreases stats.len(),
{
    let used = |p: (Seq<char>, UserStats)| p.1.bytes_up > 0 || p.1.bytes_down > 0;
    reveal(Seq::filter);
    if stats.len() > 0 {
        lemma_active(stats.drop_last());
    }
}

/// The active users are those with traffic in either direction.
pub proof fn active_users_have_traffic(stats: Seq<(Seq<char>, UserStats)>)
    ensures
        active(stats) == stats.filter(|p: (Seq<char>, UserStats)| p.1.bytes_up > 0 || p.1.bytes_down > 0).len(),
{
    lemma_active(stats);
}

/// Identifiers are random but for the marks of their version.
pub proof fn identifiers_carry_their_version(random: Seq<u8>)
    requires
        random.len() == 16,
    ensures
        uuid_bytes(random).len() == 16,
        uuid_bytes(random)[6] / 16 == 4,
        uuid_bytes(random)[6] % 16 == random[6] % 16,
        uuid_bytes(random)[8] / 64 == 2,
        uuid_bytes(random)[8] % 64 == random[8] % 64,
        forall|i: int| 0 <= i < 16 && i != 6 && i != 8 ==> #[trigger] uuid_bytes(random)[i] == random[i],
{
}

/// The audit log holds the newest entry first, and behind it the others in their order, a
/// hundred in all.
pub proof fn the_audit_log_keeps_its_order(log: Seq<AuditLogEntry>, e: AuditLogEntry)
    ensures
        log.len() < 100 ==> recorded(log, e).len() == log.len() + 1,
        log.len() >= 100 ==> recorded(log, e).len() == 100,
        recorded(log, e)[0] == e,
        forall|i: int| 1 <= i < recorded(log, e).len() ==> #[trigger] recorded(log, e)[i] == log[i - 1],
{
}

/// All keys that are made at once are registered with the limit and without a name; the keys
/// that were there before stay, unless one of them is made again.
pub proof fn made_keys_are_registered(
    keys: Map<Seq<char>, UserMeta>,
    more: Seq<Seq<char>>,
    limit: Option<u64>,
    i: int,
    other: Seq<char>,
)
    requires
        0 <= i < more.len(),
        !more.contains(other),
    ensures
        with_keys(keys, more, limit).contains_key(more[i]),
        with_keys(keys, more, limit)[more[i]].limit_bytes == limit,
        with_keys(keys, more, limit)[more[i]].name is None,
        with_keys(keys, more, limit).contains_key(other) == keys.contains_key(other),
        with_keys(keys, more, limit)[other] == keys[other],
    decreases more.len(),
{
    let d = more.drop_last();
    let n = more.len() - 1;
    assert(more[n] == more.last());
    assert(other != more.last());
    assert(!d.contains(other)) by {
        if d.contains(other) {
            let j = choose|j: int| 0 <= j < d.len() && d[j] == other;
            assert(more[j] == other);
        }
    }
    if i < n {
        assert(d[i] == more[i]);
        made_keys_are_registered(keys, d, limit, i, other);
    } else if d.len() > 0 {
        made_keys_are_registered(keys, d, limit, 0, other);
    }
}

/// The interface is at the path that was set, without slashes at its ends, or else at `/panel`.
pub proof fn the_interface_has_its_path(name: Seq<char>)
    requires
        name.len() > 0,
        name[0] != '/',
        name.last() != '/',
    ensures
        base_route(name) == "/"@ + name,
        base_route(Seq::empty()) == "/panel"@,
{
}

/// A file of the interface is the path behind the base, without a slash before it; the base
/// itself is the start page.
pub proof fn files_are_found_below_the_base(webpath: Seq<char>, rest: Seq<char>)
    requires
        rest.len() > 0,
        rest[0] != '/',
    ensures
        asset(webpath, base_route(webpath) + "/"@ + rest) == rest,
        asset(webpath, base_route(webpath)) == "index.html"@,
        asset(webpath, base_route(webpath) + "/"@) == "index.html"@,
{
    reveal_strlit("/");
    let base = base_route(webpath);
    let n = base.len() as int;
    let p = base + "/"@ + rest;
    assert(p.subrange(0, n) =~= base);
    let q = p.subrange(n, p.len() as int);
    assert(q =~= "/"@ + rest);
    assert(q[0] == '/');
    assert(q.drop_first() =~= rest);
    assert(trim_start_char(q, '/') == trim_start_char(rest, '/'));
    assert(trim_start_char(rest, '/') == rest);
    assert(base.subrange(0, n) =~= base);
    assert(base.subrange(n, n) =~= Seq::<char>::empty());
    let s = base + "/"@;
    assert(s.subrange(0, n) =~= base);
    let r = s.subrange(n, s.len() as int);
    assert(r =~= "/"@);
    assert(r[0] == '/');
    assert(r.drop_first() =~= Seq::<char>::empty());
    assert(trim_start_char(r, '/') == trim_start_char(Seq::<char>::empty(), '/'));
}

/// The configuration that a client fetches is ready to use: for the server and with its key.
pub proof fn served_configurations_are_ready(c: ServedConfig, server: Seq<char>, key: Seq<char>)
    requires
        c.is(server, key),
    ensures
        c.mode@ == "client"@ && c.server@ == server && c.access_key@ == key,
        c.socks5_bind@ == "127.0.0.1:1088"@ && c.tun_dns@ == "1.1.1.1"@,
        !c.tun_enable && !c.turn_enabled && !c.mux_enabled && c.mux_sessions == 1 && !c.debug,
        c.exclude_domains@.len() == 0 && c.exclude_ips@.len() == 0 && c.exclude_processes@.len() == 0,
{
}

/// Where rules are saved in what is no JSON, or in a file without settings of a proxy, the file
/// is `null`, or what it was.
pub proof fn rules_need_a_place(file: Seq<char>, rules: Seq<char>)
    ensures
        json_fields(file) is None && json_pretty(file) is None ==> rules_saved(file, rules) == "null"@,
        json_fields(file) is None ==> (json_pretty(file) matches Some(t) ==> rules_saved(file, rules) == t),
        json_fields(file) matches Some(f) && field_of(f, "outbound"@) is None ==> (json_pretty(file) matches Some(t)
            ==> rules_saved(file, rules) == t),
        json_fields(file) matches Some(f) && (with_rules(f, rules) matches Some(g) && (json_object(g) matches Some(t)))
            ==> rules_saved(file, rules) == json_object(with_rules(json_fields(file)->Some_0, rules)->Some_0)->Some_0,
{
}

/// A user without a name and a limit is saved as the key alone, any other with what is known.
pub proof fn users_are_saved_as_they_are(key: Seq<char>, meta: UserMeta)
    ensures
        meta.name is None && meta.limit_bytes is None ==> saved_text(key, meta) == json_quoted(key),
        meta.name matches Some(n) && meta.limit_bytes is None ==> saved_text(key, meta) == "{\"access_key\":"@ + json_quoted(
            key,
        ) + (",\"name\":"@ + json_quoted(meta.name->Some_0@)) + "}"@,
        meta.name is None && meta.limit_bytes is Some ==> saved_text(key, meta) == "{\"access_key\":"@ + json_quoted(key)
            + (",\"limit_bytes\":"@ + decimal(meta.limit_bytes->Some_0 as nat)) + "}"@,
{
    let a = "{\"access_key\":"@ + json_quoted(key);
    assert(a + Seq::<char>::empty() =~= a);
    if let Some(n) = meta.name {
        let b = a + (",\"name\":"@ + json_quoted(n@));
        assert(b + Seq::<char>::empty() =~= b);
    }
}

/// An identifier is thirty-two hexadecimal digits with hyphens at their places, and the short
/// form is the first sixteen of them.
pub proof fn identifiers_are_written_with_hyphens(b: Seq<u8>, random: Seq<u8>)
    requires
        b.len() == 16,
        random.len() == 16,
    ensures
        uuid_text(b).len() == 36,
        uuid_text(b)[8] == '-' && uuid_text(b)[13] == '-' && uuid_text(b)[18] == '-' && uuid_text(b)[23] == '-',
        uuid_text(b).take(8) == hex(b.take(4)),
        uuid_text(b).skip(24) == hex(b.skip(10)),
        short_key(random).len() == 16,
        short_key(random) == hex(uuid_bytes(random).take(8)),
{
    reveal_strlit("-");
    let t = uuid_text(b);
    assert(t.take(8) =~= hex(b.subrange(0, 4)));
    assert(b.subrange(0, 4) =~= b.take(4));
    assert(t.skip(24) =~= hex(b.subrange(10, 16)));
    assert(b.subrange(10, 16) =~= b.skip(10));
    assert(uuid_bytes(random).subrange(0, 8) =~= uuid_bytes(random).take(8));
}

/// Each of the keys that are made at once is made from bytes of its own.
pub proof fn keys_are_made_from_their_own_bytes(random: Seq<u8>, count: nat, i: int)
    requires
        0 <= i < count,
        random.len() >= 16 * count,
    ensures
        short_keys(random, count).len() == count,
        short_keys(random, count)[i] == short_key(random.subrange(16 * i, 16 * i + 16)),
{
}

/// Text is given to who asks for it.
pub proof fn text_is_given_to_who_asks(a: Seq<char>, b: Seq<char>)
    ensures
        wants_text(Some(a + "text/plain"@ + b)),
        !wants_text(None),
{
    let s = a + "text/plain"@ + b;
    let n = a.len() as int;
    assert(s.subrange(n, n + "text/plain"@.len()) =~= "text/plain"@);
}

/// A path that stays inside does not begin at the root or at a drive, and never goes up.
pub proof fn paths_inside_never_go_up(p: Seq<char>, i: int)
    requires
        stays_inside(p),
    ensures
        p.len() > 0,
        p[0] != '/' && p[0] != '\\',
        p.len() > 1 ==> p[1] != ':',
        0 <= i < split(slashed(p), '/').len() ==> split(slashed(p), '/')[i] != ".."@,
{
    let s = slashed(p);
    crate::text::parts_make_up_the_text(s, '/');
    crate::text::lemma_find_char(s, '/');
    if p.len() == 0 {
        assert(s.len() == 0);
        assert(split(s, '/') == seq![s]);
    } else if s[0] == '/' {
        crate::text::lemma_find_char_is(s, '/', 0);
        assert(split(s, '/')[0] =~= s.subrange(0, 0));
    }
}

/// The link of a user leads to the server with its key, and says where the server answers for
/// names.
pub proof fn links_lead_to_the_server(key: Seq<char>, host: Seq<char>, port: u16)
    ensures
        starts_with(
            plain_link(key, host, port as int, false),
            "ostp://"@ + key + "@"@ + host + ":"@ + decimal(port as nat),
        ),
        plain_link(key, host, port as int, false) == "ostp://"@ + key + "@"@ + host + ":"@ + decimal(port as nat) + "?type=udp"@,
        plain_link(key, host, port as int, true) == "ostp://"@ + key + "@"@ + host + ":"@ + decimal(port as nat)
            + "?type=udp&owndns=true"@,
{
    let a = "ostp://"@ + key + "@"@ + host + ":"@ + decimal(port as nat);
    assert(plain_link(key, host, port as int, false).subrange(0, a.len() as int) =~= a);
}

} // verus!
