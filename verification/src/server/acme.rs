//! Certificates from an ACME authority over HTTP-01: what the challenge port answers,
//! when a certificate is renewed, and what happens while one is issued.
//!
//! Answers to challenges live in memory and in files, so that one process answers for
//! what another put.

use vstd::hash_map::StringHashMap;
use vstd::prelude::*;
use vstd::utf8::encode_utf8;

use crate::bytes::{get_u64, same_bytes};
use crate::crypto::digest::{sha256, sha256_of};
use crate::dns::lists::{below, join_path};
use crate::encoding::{hex, hex_text};
use crate::framing::padding::random_bytes;
use crate::server::tls::{FileWrite, RedirectTarget};
use crate::text::{
    alnum, chars_of, contains, eq_nocase, holds_str, is_alnum, joined, lossy_text, owned, put_str, same_nocase, string_of, string_views, to_upper, trim, trimmed, upper, utf8_lossy, utf8_of,
};
use crate::time::unix_secs;

verus! {

/// Seconds after which a lock that was left behind is taken over.
pub const STALE_LOCK_SECS: u64 = 900;

/// The longest sleep between two looks at a certificate, in seconds.
pub const MAX_SLEEP_SECS: u64 = 43200;

/// The pause after the first failure, and the longest one, in seconds.
pub const FIRST_BACKOFF_SECS: u64 = 3600;

pub const MAX_BACKOFF_SECS: u64 = 86400;

/// Seconds of a day.
pub const DAY_SECS: i64 = 86400;

/// Where the state of the ACME client is kept.
pub fn state_dir(config_dir: &str) -> (r: String)
    ensures
        r@ == below(config_dir@, "acme"@),
{
    join_path(config_dir, "acme")
}

/// `instant_acme::LetsEncrypt::url` of the staging directory.
#[verifier::external_body]
fn staging_url() -> (r: String)
    ensures
        r@ == "https://acme-staging-v02.api.letsencrypt.org/directory"@,
{
    instant_acme::LetsEncrypt::Staging.url().to_string()
}

/// `instant_acme::LetsEncrypt::url` of the production directory.
#[verifier::external_body]
fn production_url() -> (r: String)
    ensures
        r@ == "https://acme-v02.api.letsencrypt.org/directory"@,
{
    instant_acme::LetsEncrypt::Production.url().to_string()
}

/// The directory of the authority: the one that was set, or Let's Encrypt's.
pub fn directory_url(staging: bool, directory: Option<&str>) -> (r: String)
    ensures
        r@ == match directory {
            Some(d) => d@,
            None => if staging {
                "https://acme-staging-v02.api.letsencrypt.org/directory"@
            } else {
                "https://acme-v02.api.letsencrypt.org/directory"@
            },
        },
{
    match directory {
        Some(d) => owned(d),
        None => if staging {
            staging_url()
        } else {
            production_url()
        },
    }
}

// ── Challenges ───────────────────────────────────────────────────────────────

/// A character of base64url.
pub open spec fn token_char(c: char) -> bool {
    is_alnum(c) || c == '-' || c == '_'
}

/// A token as ACME makes them; anything else could leave the directory.
pub open spec fn is_token(t: Seq<char>) -> bool {
    16 <= t.len() <= 128 && forall|i: int| 0 <= i < t.len() ==> token_char(#[trigger] t[i])
}

pub fn valid_token(t: &str) -> (r: bool)
    ensures
        r == is_token(t@),
{
    let v = chars_of(t);
    if v.len() < 16 || v.len() > 128 {
        return false;
    }
    let mut i: usize = 0;
    while i < v.len()
        invariant
            i <= v@.len(),
            v@ == t@,
            forall|k: int| 0 <= k < i ==> token_char(#[trigger] v@[k]),
        decreases v@.len() - i,
    {
        let c = v[i];
        if !(alnum(c) || c == '-' || c == '_') {
            assert(!token_char(t@[i as int]));
            return false;
        }
        i += 1;
    }
    true
}

/// Why a challenge is not kept.
#[derive(Debug, Clone, Copy, PartialEq, Eq, Structural)]
pub enum StoreError {
    /// The authority sent a malformed token.
    MalformedToken,
}

/// The answers to the challenges that are under way.
pub struct ChallengeStore {
    mem: StringHashMap<String>,
    dir: String,
}

impl View for ChallengeStore {
    type V = Map<Seq<char>, Seq<char>>;

    closed spec fn view(&self) -> Self::V {
        self.mem@.map_values(|v: String| v@)
    }
}

impl ChallengeStore {
    /// The directory of the files.
    pub closed spec fn directory(&self) -> Seq<char> {
        self.dir@
    }

    pub fn new(state_dir: &str) -> (r: Self)
        ensures
            r@ == Map::<Seq<char>, Seq<char>>::empty(),
            r.directory() == below(state_dir@, "challenges"@),
    {
        let r = ChallengeStore { mem: StringHashMap::new(), dir: join_path(state_dir, "challenges") };
        assert(r@ =~= Map::<Seq<char>, Seq<char>>::empty());
        r
    }

    /// Keeps the answer to a challenge; gives the file that other processes find it in.
    pub fn put(&mut self, token: &str, key_authorization: &str) -> (r: Result<FileWrite, StoreError>)
        ensures
            final(self).directory() == old(self).directory(),
            match r {
                Ok(w) => {
                    &&& is_token(token@)
                    &&& final(self)@ == old(self)@.insert(token@, key_authorization@)
                    &&& w.is(below(old(self).directory(), token@), encode_utf8(key_authorization@), false)
                },
                Err(e) => !is_token(token@) && final(self)@ == old(self)@,
            },
    {
        if !valid_token(token) {
            return Err(StoreError::MalformedToken);
        }
        self.mem.insert(owned(token), owned(key_authorization));
        assert(self@ =~= old(self)@.insert(token@, key_authorization@));
        Ok(FileWrite { path: join_path(&self.dir, token), data: utf8_of(key_authorization), private: false })
    }

    /// Forgets the answer to a challenge; gives the file to delete.
    pub fn remove(&mut self, token: &str) -> (r: Option<String>)
        ensures
            final(self).directory() == old(self).directory(),
            final(self)@ == old(self)@.remove(token@),
            match r {
                Some(p) => is_token(token@) && p@ == below(old(self).directory(), token@),
                None => !is_token(token@),
            },
    {
        self.mem.remove(token);
        assert(self@ =~= old(self)@.remove(token@));
        self.file(token)
    }

    /// The file of a token; none for what is not a token.
    pub fn file(&self, token: &str) -> (r: Option<String>)
        ensures
            match r {
                Some(p) => is_token(token@) && p@ == below(self.directory(), token@),
                None => !is_token(token@),
            },
    {
        if valid_token(token) {
            Some(join_path(&self.dir, token))
        } else {
            None
        }
    }

    /// The answer to a challenge: the one in memory, or else what the token's file holds,
    /// where there is one.
    pub fn get(&self, token: &str, on_disk: Option<&str>) -> (r: Option<String>)
        ensures
            match r {
                Some(v) => answer(self@, token@, opt_text(on_disk)) == Some(v@),
                None => answer(self@, token@, opt_text(on_disk)) is None,
            },
    {
        if !valid_token(token) {
            return None;
        }
        if let Some(v) = self.mem.get(token) {
            return Some(owned(v));
        }
        match on_disk {
            Some(s) => {
                let v = chars_of(s);
                Some(string_of(trimmed(&v)))
            },
            None => None,
        }
    }
}

pub open spec fn opt_text(s: Option<&str>) -> Option<Seq<char>> {
    match s {
        Some(s) => Some(s@),
        None => None,
    }
}

/// The answer to a challenge, given what is kept and what the token's file holds.
pub open spec fn answer(kept: Map<Seq<char>, Seq<char>>, token: Seq<char>, on_disk: Option<Seq<char>>) -> Option<
    Seq<char>,
> {
    if !is_token(token) {
        None
    } else if kept.dom().contains(token) {
        Some(kept[token])
    } else {
        match on_disk {
            Some(s) => Some(trim(s)),
            None => None,
        }
    }
}

/// What the challenge port sends.
#[derive(Debug)]
pub enum ChallengeReply {
    /// The answer, as plain text.
    Text(String),
    /// A permanent redirect.
    Redirect(String),
    NotFound,
}

/// The reply to a request for a challenge.
pub fn serve_challenge(store: &ChallengeStore, token: &str, on_disk: Option<&str>) -> (r: ChallengeReply)
    ensures
        match answer(store@, token@, opt_text(on_disk)) {
            Some(a) => r matches ChallengeReply::Text(v) && v@ == a,
            None => r is NotFound,
        },
{
    match store.get(token, on_disk) {
        Some(v) => ChallengeReply::Text(v),
        None => ChallengeReply::NotFound,
    }
}

/// The reply to any other request: a redirect where there is a target.
pub fn not_a_challenge(target: Option<&RedirectTarget>, path_and_query: Option<&str>) -> (r: ChallengeReply)
    ensures
        match target {
            Some(t) => r matches ChallengeReply::Redirect(l) && l@ == t.base@ + match path_and_query {
                Some(p) => p@,
                None => "/"@,
            },
            None => r is NotFound,
        },
{
    match target {
        Some(t) => ChallengeReply::Redirect(t.location(path_and_query)),
        None => ChallengeReply::NotFound,
    }
}

/// What was put is what is answered, whatever a file says, until it is removed; after
/// that only a file can answer.
pub proof fn challenges_are_answered_until_removed(
    kept: Map<Seq<char>, Seq<char>>,
    token: Seq<char>,
    value: Seq<char>,
    on_disk: Option<Seq<char>>,
)
    requires
        is_token(token),
    ensures
        answer(kept.insert(token, value), token, on_disk) == Some(value),
        answer(kept.insert(token, value).remove(token), token, None) is None,
{
}

/// The file of a token lies directly in the directory: its name has no separator and
/// is not a name for another directory.
pub proof fn token_files_stay_inside(dir: Seq<char>, token: Seq<char>)
    requires
        is_token(token),
        dir.len() > 0,
        dir.last() != '/',
    ensures
        below(dir, token).subrange(0, dir.len() as int) == dir,
        below(dir, token)[dir.len() as int] == '/',
        forall|i: int| dir.len() < i < below(dir, token).len() ==> #[trigger] below(dir, token)[i] != '/' && below(dir, token)[i]
            != '.',
{
    let p = below(dir, token);
    reveal_strlit("/");
    assert(p.subrange(0, dir.len() as int) =~= dir);
    assert forall|i: int| dir.len() < i < p.len() implies #[trigger] p[i] != '/' && p[i] != '.' by {
        assert(token_char(token[i - dir.len() - 1]));
    }
}

// ── Certificates and when they are renewed ───────────────────────────────────

/// What a certificate says.
#[derive(Debug)]
pub struct CertInfo {
    pub not_before: i64,
    pub not_after: i64,
    pub sans: Vec<String>,
    pub issuer: String,
    pub self_signed: bool,
}

/// No date is further than this from the Unix epoch, in seconds.
pub const FARTHEST_DATE: i64 = 0x4_0000_0000_0000;

/// A date that a certificate can have.
pub open spec fn is_date(t: int) -> bool {
    -FARTHEST_DATE <= t <= FARTHEST_DATE
}

/// Seconds in whole days, towards zero.
pub open spec fn whole_days(secs: int) -> int {
    if secs >= 0 {
        secs / 86400
    } else {
        -((-secs) / 86400)
    }
}

/// A third of a number of seconds, towards zero.
pub open spec fn third(secs: int) -> int {
    if secs >= 0 {
        secs / 3
    } else {
        -((-secs) / 3)
    }
}

/// An issuer of certificates for trials.
pub open spec fn staging_issuer(issuer: Seq<char>) -> bool {
    contains(upper(issuer), "STAGING"@) || contains(upper(issuer), "FAKE LE"@)
}

/// One of the names is the domain, whatever the case.
pub open spec fn names_domain(sans: Seq<Seq<char>>, domain: Seq<char>) -> bool {
    exists|i: int| 0 <= i < sans.len() && eq_nocase(#[trigger] sans[i], domain)
}

/// The dates are dates that a certificate can have.
pub open spec fn dated(info: CertInfo) -> bool {
    is_date(info.not_before as int) && is_date(info.not_after as int)
}

impl CertInfo {
    pub fn is_staging(&self) -> (r: bool)
        ensures
            r == staging_issuer(self.issuer@),
    {
        let v = chars_of(&self.issuer);
        let u = to_upper(&v);
        holds_str(&u, "STAGING") || holds_str(&u, "FAKE LE")
    }

    /// Whole days until the certificate ends; negative once it has ended.
    pub fn days_left(&self, now: i64) -> (r: i64)
        requires
            i64::MIN <= self.not_after - now <= i64::MAX,
        ensures
            r == whole_days(self.not_after - now),
    {
        let left: i64 = self.not_after - now;
        if left >= 0 {
            (left as u64 / 86400) as i64
        } else {
            let over: i128 = -(left as i128);
            -((over as u128 / 86400) as i64)
        }
    }

    fn names(&self, domain: &str) -> (r: bool)
        ensures
            r == names_domain(string_views(self.sans@), domain@),
    {
        let d = chars_of(domain);
        let mut i: usize = 0;
        while i < self.sans.len()
            invariant
                i <= self.sans@.len(),
                d@ == domain@,
                forall|k: int|
                    0 <= k < i ==> !eq_nocase(#[trigger] string_views(self.sans@)[k], domain@),
            decreases self.sans@.len() - i,
        {
            let s = chars_of(&self.sans[i]);
            assert(string_views(self.sans@)[i as int] == s@);
            if same_nocase(&s, &d) {
                return true;
            }
            i += 1;
        }
        false
    }
}

/// The first PEM block of a file, decoded.
pub uninterp spec fn pem_block(file: Seq<u8>) -> Option<Seq<u8>>;

/// `x509_parser::pem::parse_x509_pem`: the contents of the first block, a function of
/// the bytes alone; nothing where there is none, or it is malformed.
#[verifier::external_body]
fn read_pem(file: &[u8]) -> (r: Option<Vec<u8>>)
    ensures
        match r {
            Some(v) => pem_block(file@) == Some(v@),
            None => pem_block(file@) is None,
        },
{
    x509_parser::pem::parse_x509_pem(file).ok().map(|(_, pem)| pem.contents)
}

/// What is read of a certificate: its dates, its issuer as text, and the raw names of
/// issuer and subject.
#[derive(Debug)]
pub struct Certificate {
    pub not_before: i64,
    pub not_after: i64,
    pub issuer: String,
    pub raw_issuer: Vec<u8>,
    pub raw_subject: Vec<u8>,
}

/// What a certificate holds: its dates, its issuer as text, and the raw names of issuer
/// and subject.
pub uninterp spec fn x509_certificate(der: Seq<u8>) -> Option<(int, int, Seq<char>, Seq<u8>, Seq<u8>)>;

/// `x509_parser::parse_x509_certificate` and the accessors of what it returns, all of
/// them functions of the bytes alone. Dates count their days in 32 bits, which bounds
/// the seconds.
#[verifier::external_body]
fn read_certificate(der: &[u8]) -> (r: Option<Certificate>)
    ensures
        match r {
            Some(c) => {
                &&& x509_certificate(der@) == Some(
                    (c.not_before as int, c.not_after as int, c.issuer@, c.raw_issuer@, c.raw_subject@),
                )
                &&& is_date(c.not_before as int)
                &&& is_date(c.not_after as int)
            },
            None => x509_certificate(der@) is None,
        },
{
    let (_, cert) = x509_parser::parse_x509_certificate(der).ok()?;
    let (from, to) = (cert.validity().not_before.timestamp(), cert.validity().not_after.timestamp());
    let (raw_issuer, raw_subject) = (cert.issuer().as_raw().to_vec(), cert.subject().as_raw().to_vec());
    Some(Certificate { not_before: from, not_after: to, issuer: cert.issuer().to_string(), raw_issuer, raw_subject })
}

pub open spec fn opt_views(v: Seq<Option<String>>) -> Seq<Option<Seq<char>>> {
    Seq::new(
        v.len(),
        |i: int|
            match v[i] {
                Some(s) => Some(s@),
                None => None,
            },
    )
}

/// The alternative names of a certificate, in order: each that is a DNS name as text.
pub uninterp spec fn x509_alternative_names(der: Seq<u8>) -> Seq<Option<Seq<char>>>;

/// `x509_parser::certificate::X509Certificate::subject_alternative_name`: a function of
/// the bytes alone; no names where there is no certificate, or the extension is missing
/// or malformed.
#[verifier::external_body]
fn read_alternative_names(der: &[u8]) -> (r: Vec<Option<String>>)
    ensures
        opt_views(r@) == x509_alternative_names(der@),
{
    let Ok((_, cert)) = x509_parser::parse_x509_certificate(der) else { return Vec::new() };
    match cert.subject_alternative_name() {
        Ok(Some(ext)) => ext.value.general_names.iter().map(|n| match n {
            x509_parser::extensions::GeneralName::DNSName(d) => Some(d.to_string()),
            _ => None,
        }).collect(),
        _ => Vec::new(),
    }
}

/// Why a file is not read as a certificate.
#[derive(Debug, Clone, Copy, PartialEq, Eq, Structural)]
pub enum CertError {
    /// There is no PEM block in it.
    NotPem,
    /// The block is not a certificate.
    NotCertificate,
}

/// The names that are there.
pub open spec fn present(names: Seq<Option<Seq<char>>>) -> Seq<Seq<char>>
    decreases names.len(),
{
    if names.len() == 0 {
        Seq::empty()
    } else {
        match names.last() {
            Some(n) => present(names.drop_last()).push(n),
            None => present(names.drop_last()),
        }
    }
}

/// What is kept of a certificate with these alternative names.
pub fn summary(c: &Certificate, names: &Vec<Option<String>>) -> (r: CertInfo)
    ensures
        r.not_before == c.not_before,
        r.not_after == c.not_after,
        string_views(r.sans@) == present(opt_views(names@)),
        r.issuer@ == c.issuer@,
        r.self_signed == (c.raw_issuer@ == c.raw_subject@),
{
    let mut sans: Vec<String> = Vec::new();
    let ghost all = opt_views(names@);
    let mut i: usize = 0;
    assert(all.subrange(0, 0) =~= Seq::<Option<Seq<char>>>::empty());
    assert(string_views(sans@) =~= present(all.subrange(0, 0)));
    while i < names.len()
        invariant
            i <= names@.len(),
            all == opt_views(names@),
            string_views(sans@) == present(all.subrange(0, i as int)),
        decreases names@.len() - i,
    {
        let ghost u = all.subrange(0, i + 1);
        assert(u.drop_last() =~= all.subrange(0, i as int));
        let ghost before = string_views(sans@);
        if let Some(n) = &names[i] {
            assert(u.last() == Some(n@));
            sans.push(owned(n));
            assert(string_views(sans@) =~= before.push(n@));
        }
        i += 1;
    }
    assert(all.subrange(0, i as int) =~= all);
    let self_signed = same_bytes(&c.raw_issuer, &c.raw_subject);
    CertInfo { not_before: c.not_before, not_after: c.not_after, sans, issuer: owned(&c.issuer), self_signed }
}

/// What a certificate's file says.
pub open spec fn info_of(info: CertInfo, c: (int, int, Seq<char>, Seq<u8>, Seq<u8>), names: Seq<Option<Seq<char>>>) -> bool {
    &&& info.not_before == c.0
    &&& info.not_after == c.1
    &&& string_views(info.sans@) == present(names)
    &&& info.issuer@ == c.2
    &&& info.self_signed == (c.3 == c.4)
}

/// What a certificate's file says; the first block counts.
pub fn cert_info(file: &[u8]) -> (r: Result<CertInfo, CertError>)
    ensures
        match r {
            Ok(info) => {
                &&& pem_block(file@) matches Some(der) && x509_certificate(der) matches Some(c) && info_of(info, c, x509_alternative_names(der))
                &&& dated(info)
            },
            Err(CertError::NotPem) => pem_block(file@) is None,
            Err(CertError::NotCertificate) => pem_block(file@) matches Some(der) && x509_certificate(der) is None,
        },
{
    let der = match read_pem(file) {
        Some(d) => d,
        None => {
            return Err(CertError::NotPem);
        },
    };
    match read_certificate(&der) {
        Some(c) => Ok(summary(&c, &read_alternative_names(&der))),
        None => Err(CertError::NotCertificate),
    }
}

/// A certificate that can stay until it is due: it is the authority's, for the domain,
/// and from the directory that is asked.
pub open spec fn keeps(info: CertInfo, domain: Seq<char>, staging: bool) -> bool {
    !info.self_signed && names_domain(string_views(info.sans@), domain) && staging_issuer(info.issuer@) == staging
}

/// When a certificate is due: so many days before its end, or with a third of its
/// life left; at once where there is none that can stay.
pub open spec fn due(info: Option<CertInfo>, domain: Seq<char>, staging: bool, days: Option<u32>) -> int {
    match info {
        None => 0,
        Some(info) => if !keeps(info, domain, staging) {
            0
        } else {
            match days {
                Some(d) => info.not_after - d * 86400,
                None => info.not_after - third(info.not_after - info.not_before),
            }
        },
    }
}

/// When the certificate is renewed, in seconds since the Unix epoch; not after now
/// means at once.
pub fn renew_at(info: Option<&CertInfo>, domain: &str, staging: bool, renew_days_before: Option<u32>) -> (r: i64)
    requires
        info matches Some(i) ==> dated(*i),
    ensures
        r == due(opt_info(info), domain@, staging, renew_days_before),
        -0x8_0000_0000_0000 <= r <= 0x8_0000_0000_0000,
{
    let info = match info {
        Some(i) => i,
        None => {
            return 0;
        },
    };
    if info.self_signed || !info.names(domain) || info.is_staging() != staging {
        return 0;
    }
    match renew_days_before {
        Some(days) => info.not_after - days as i64 * 86400,
        None => {
            let life: i64 = info.not_after - info.not_before;
            if life >= 0 {
                info.not_after - (life as u64 / 3) as i64
            } else {
                info.not_after + ((-life) as u64 / 3) as i64
            }
        },
    }
}

pub open spec fn opt_info(info: Option<&CertInfo>) -> Option<CertInfo> {
    match info {
        Some(i) => Some(*i),
        None => None,
    }
}

/// Seconds since the Unix epoch.
pub fn unix_now() -> (r: i64)
    ensures
        0 <= r <= u64::MAX / 1000,
{
    unix_secs() as i64
}

/// A certificate that cannot stay is renewed at once, whatever its dates.
pub proof fn unfit_certificates_are_renewed(info: CertInfo, domain: Seq<char>, staging: bool, days: Option<u32>, now: int)
    requires
        now >= 0,
        info.self_signed || !names_domain(string_views(info.sans@), domain) || staging_issuer(info.issuer@) != staging,
    ensures
        due(Some(info), domain, staging, days) <= now,
{
}

/// A certificate is due before it ends, and not before it begins.
pub proof fn renewal_falls_into_the_lifetime(info: CertInfo, domain: Seq<char>, staging: bool)
    requires
        keeps(info, domain, staging),
        info.not_before <= info.not_after,
    ensures
        info.not_before <= due(Some(info), domain, staging, None) <= info.not_after,
        info.not_before + 3 <= info.not_after ==> due(Some(info), domain, staging, None) < info.not_after,
{
}

// ── Issuing ──────────────────────────────────────────────────────────────────

/// The lock that keeps it to one issuance at a time, for as long as its file exists.
#[derive(Debug)]
pub struct AcmeLock {
    pub path: String,
}

/// The file of the lock.
pub fn lock_file(state_dir: &str) -> (r: AcmeLock)
    ensures
        r.path@ == below(state_dir@, ".lock"@),
{
    AcmeLock { path: join_path(state_dir, ".lock") }
}

/// What came of creating the lock's file.
#[derive(Debug, Clone, Copy, PartialEq, Eq, Structural)]
pub enum LockEvent {
    Created,
    /// It exists, and was written so many seconds ago.
    Exists { age_secs: u64 },
    Failed,
}

/// What is done about it.
#[derive(Debug, Clone, Copy, PartialEq, Eq, Structural)]
pub enum LockStep {
    /// The lock is held.
    Taken,
    /// Another issuance is running.
    Busy,
    /// Delete the file, which was left behind, and try again.
    TakeOver,
    /// Delete the file and give up: it was there again.
    GiveUp,
    /// The file cannot be created.
    Failed,
}

/// What is done after a try, the first or the second.
pub fn acquire_lock(second: bool, event: LockEvent) -> (r: LockStep)
    ensures
        r == match event {
            LockEvent::Created => LockStep::Taken,
            LockEvent::Failed => LockStep::Failed,
            LockEvent::Exists { age_secs } => if age_secs < STALE_LOCK_SECS {
                LockStep::Busy
            } else if second {
                LockStep::GiveUp
            } else {
                LockStep::TakeOver
            },
        },
{
    match event {
        LockEvent::Created => LockStep::Taken,
        LockEvent::Failed => LockStep::Failed,
        LockEvent::Exists { age_secs } => if age_secs < STALE_LOCK_SECS {
            LockStep::Busy
        } else if second {
            LockStep::GiveUp
        } else {
            LockStep::TakeOver
        },
    }
}

/// The file that the account with an authority is kept in: named after the first
/// eight bytes of the directory's digest.
pub open spec fn account_path(state_dir: Seq<char>, directory: Seq<char>) -> Seq<char> {
    below(below(state_dir, "accounts"@), hex(sha256(encode_utf8(directory)).subrange(0, 8)) + ".json"@)
}

pub fn account_file(state_dir: &str, directory_url: &str) -> (r: String)
    ensures
        r@ == account_path(state_dir@, directory_url@),
{
    let digest = sha256_of(&utf8_of(directory_url));
    let id = hex_text(vstd::slice::slice_subrange(&digest, 0, 8));
    join_path(&join_path(state_dir, "accounts"), &joined(&id, ".json"))
}

/// How the authority reaches the owner of an account.
pub fn contacts(email: Option<&str>) -> (r: Vec<String>)
    ensures
        string_views(r@) == match email {
            Some(e) => seq!["mailto:"@ + e@],
            None => Seq::<Seq<char>>::empty(),
        },
{
    let mut out: Vec<String> = Vec::new();
    if let Some(e) = email {
        out.push(joined("mailto:", e));
        assert(string_views(out@) =~= seq!["mailto:"@ + e@]);
    } else {
        assert(string_views(out@) =~= Seq::<Seq<char>>::empty());
    }
    out
}

/// What a certificate is asked for with.
#[derive(Debug)]
pub struct IssueRequest {
    pub domain: String,
    pub email: Option<String>,
    pub directory_url: String,
    pub state_dir: String,
    pub cert_path: String,
    pub key_path: String,
}

/// The authority's word on an authorization.
#[derive(Debug, Clone, Copy, PartialEq, Eq, Structural)]
pub enum AuthorizationStatus {
    Pending,
    Valid,
    Other,
}

/// Why a certificate is not issued.
#[derive(Debug, Clone, Copy, PartialEq, Eq, Structural)]
pub enum IssueError {
    /// The authority refused or withdrew the authorization.
    NotAuthorized,
    /// The authority offers no challenge over HTTP.
    NoChallenge,
    /// The authority sent a malformed token.
    MalformedToken,
    /// The authority did not get the answer.
    NotValidated,
}

/// An issuance under way: the tokens that it put into the store.
pub struct Issuance {
    tokens: Vec<String>,
}

impl Issuance {
    pub closed spec fn tokens(&self) -> Seq<Seq<char>> {
        string_views(self.tokens@)
    }

    pub fn new() -> (r: Self)
        ensures
            r.tokens() == Seq::<Seq<char>>::empty(),
    {
        let r = Issuance { tokens: Vec::new() };
        assert(r.tokens() =~= Seq::<Seq<char>>::empty());
        r
    }

    /// An authorization: one that is valid needs nothing; for one that is pending, the
    /// answer to its challenge, a token and a value, is put into the store. Gives the
    /// file to write before the authority is told.
    pub fn on_authorization(
        &mut self,
        store: &mut ChallengeStore,
        status: AuthorizationStatus,
        challenge: Option<(&str, &str)>,
    ) -> (r: Result<Option<FileWrite>, IssueError>)
        ensures
            final(store).directory() == old(store).directory(),
            match authorized(status, challenge_view(challenge)) {
                Ok(None) => {
                    &&& r matches Ok(None)
                    &&& final(self).tokens() == old(self).tokens()
                    &&& final(store)@ == old(store)@
                },
                Ok(Some((token, value))) => {
                    &&& r matches Ok(Some(w)) && w.is(below(old(store).directory(), token), encode_utf8(value), false)
                    &&& final(self).tokens() == old(self).tokens().push(token)
                    &&& final(store)@ == old(store)@.insert(token, value)
                },
                Err(e) => {
                    &&& r matches Err(x) && x == e
                    &&& final(self).tokens() == old(self).tokens()
                    &&& final(store)@ == old(store)@
                },
            },
    {
        match status {
            AuthorizationStatus::Valid => {
                return Ok(None);
            },
            AuthorizationStatus::Other => {
                return Err(IssueError::NotAuthorized);
            },
            AuthorizationStatus::Pending => {},
        }
        let (token, value) = match challenge {
            Some(c) => c,
            None => {
                return Err(IssueError::NoChallenge);
            },
        };
        match store.put(token, value) {
            Ok(w) => {
                self.tokens.push(owned(token));
                assert(self.tokens() =~= old(self).tokens().push(token@));
                Ok(Some(w))
            },
            Err(_) => Err(IssueError::MalformedToken),
        }
    }

    /// Whether the order may be finished once the authority has looked.
    pub fn on_order(&self, ready: bool) -> (r: Result<(), IssueError>)
        ensures
            r == if ready {
                Ok::<(), IssueError>(())
            } else {
                Err(IssueError::NotValidated)
            },
    {
        if ready {
            Ok(())
        } else {
            Err(IssueError::NotValidated)
        }
    }

    /// Ends the issuance, however it went: its answers are forgotten. Gives the files to
    /// delete.
    pub fn finish(self, store: &mut ChallengeStore) -> (r: Vec<String>)
        requires
            forall|i: int| 0 <= i < self.tokens().len() ==> is_token(#[trigger] self.tokens()[i]),
        ensures
            final(store).directory() == old(store).directory(),
            final(store)@ == old(store)@.remove_keys(self.tokens().to_set()),
            r@.len() == self.tokens().len(),
            forall|i: int|
                0 <= i < r@.len() ==> (#[trigger] r@[i])@ == below(old(store).directory(), self.tokens()[i]),
    {
        let mut out: Vec<String> = Vec::new();
        let ghost start = store@;
        let ghost dir = store.directory();
        let mut i: usize = 0;
        assert(store@ =~= start.remove_keys(self.tokens().subrange(0, 0).to_set()));
        while i < self.tokens.len()
            invariant
                i <= self.tokens@.len(),
                self.tokens() == string_views(self.tokens@),
                forall|k: int| 0 <= k < self.tokens().len() ==> is_token(#[trigger] self.tokens()[k]),
                store.directory() == dir,
                store@ == start.remove_keys(self.tokens().subrange(0, i as int).to_set()),
                out@.len() == i,
                forall|k: int| 0 <= k < i ==> (#[trigger] out@[k])@ == below(dir, self.tokens()[k]),
            decreases self.tokens@.len() - i,
        {
            assert(self.tokens()[i as int] == self.tokens@[i as int]@);
            let ghost before = store@;
            let ghost done = self.tokens().subrange(0, i as int);
            let ghost more = self.tokens().subrange(0, i + 1);
            if let Some(p) = store.remove(&self.tokens[i]) {
                out.push(p);
            }
            assert(more =~= done.push(self.tokens()[i as int]));
            assert forall|k: Seq<char>| more.to_set().contains(k) == (done.to_set().contains(k) || k
                == self.tokens()[i as int]) by {
                if done.contains(k) {
                    let j = choose|j: int| 0 <= j < done.len() && done[j] == k;
                    assert(more[j] == k);
                }
                assert(more[i as int] == self.tokens()[i as int]);
                if more.contains(k) && k != self.tokens()[i as int] {
                    let j = choose|j: int| 0 <= j < more.len() && more[j] == k;
                    assert(done[j] == k);
                }
            }
            assert(store@ =~= start.remove_keys(more.to_set()));
            i += 1;
        }
        assert(self.tokens().subrange(0, i as int) =~= self.tokens());
        out
    }
}

pub open spec fn challenge_view(c: Option<(&str, &str)>) -> Option<(Seq<char>, Seq<char>)> {
    match c {
        Some(c) => Some((c.0@, c.1@)),
        None => None,
    }
}

/// The challenge that is answered for an authorization, if any is.
pub open spec fn authorized(status: AuthorizationStatus, challenge: Option<(Seq<char>, Seq<char>)>) -> Result<
    Option<(Seq<char>, Seq<char>)>,
    IssueError,
> {
    match status {
        AuthorizationStatus::Valid => Ok(None),
        AuthorizationStatus::Other => Err(IssueError::NotAuthorized),
        AuthorizationStatus::Pending => match challenge {
            None => Err(IssueError::NoChallenge),
            Some(c) => if is_token(c.0) {
                Ok(Some(c))
            } else {
                Err(IssueError::MalformedToken)
            },
        },
    }
}

// ── Preflight ────────────────────────────────────────────────────────────────

/// The letters of a token of the server's own.
pub const TOKEN_LETTERS: [char; 62] = [
    'A', 'B', 'C', 'D', 'E', 'F', 'G', 'H', 'I', 'J', 'K', 'L', 'M', 'N', 'O', 'P', 'Q', 'R', 'S', 'T', 'U', 'V', 'W', 'X',
    'Y', 'Z', 'a', 'b', 'c', 'd', 'e', 'f', 'g', 'h', 'i', 'j', 'k', 'l', 'm', 'n', 'o', 'p', 'q', 'r', 's', 't', 'u', 'v',
    'w', 'x', 'y', 'z', '0', '1', '2', '3', '4', '5', '6', '7', '8', '9',
];

/// A try of the challenge port from outside, before the authority, which limits
/// failures, is asked.
#[derive(Debug)]
pub struct Preflight {
    pub token: String,
    pub value: String,
}

/// The token of random numbers: a letter for each.
pub open spec fn token_of(random: Seq<u64>) -> Seq<char> {
    Seq::new(random.len(), |i: int| TOKEN_LETTERS@[random[i] as int % 62])
}

/// The value of random bytes.
pub open spec fn value_of(random: Seq<u8>) -> Seq<char> {
    "ostp-preflight-"@ + hex(random)
}

/// What came of the request.
#[derive(Debug)]
pub enum PreflightEvent {
    /// The response, as far as it was read.
    Answered(Vec<u8>),
    Unreachable,
    TimedOut,
}

/// Why the challenge port does not do.
#[derive(Debug, Clone, Copy, PartialEq, Eq, Structural)]
pub enum PreflightError {
    /// Something else answers on the port, or the name points elsewhere.
    AnsweredElsewhere,
    Unreachable,
    TimedOut,
}

impl Preflight {
    /// The try that random bytes make.
    pub fn with(token: &[u64], value: &[u8]) -> (r: Self)
        ensures
            r.token@ == token_of(token@),
            r.value@ == value_of(value@),
    {
        let letters = TOKEN_LETTERS;
        let mut t: Vec<char> = Vec::new();
        let mut i: usize = 0;
        while i < token.len()
            invariant
                i <= token@.len(),
                letters == TOKEN_LETTERS,
                letters@.len() == 62,
                t@.len() == i,
                forall|k: int| 0 <= k < i ==> #[trigger] t@[k] == token_of(token@)[k],
            decreases token@.len() - i,
        {
            t.push(letters[(token[i] % 62) as usize]);
            i += 1;
        }
        assert(t@ =~= token_of(token@));
        Preflight { token: string_of(&t), value: joined("ostp-preflight-", &hex_text(value)) }
    }

    /// A fresh try.
    pub fn new() -> (r: Self)
        ensures
            is_token(r.token@),
            exists|random: Seq<u8>| random.len() == 8 && r.value@ == #[trigger] value_of(random),
    {
        let b = random_bytes(256);
        let v = random_bytes(8);
        let mut t: Vec<u64> = Vec::new();
        while t.len() < 32
            invariant
                t@.len() <= 32,
                b@.len() == 256,
            decreases 32 - t@.len(),
        {
            t.push(get_u64(&b, t.len() * 8));
        }
        let r = Preflight::with(&t, &v);
        assert(r.value@ == value_of(v@));
        proof {
            lemma_token_of(t@);
        }
        r
    }

    /// The path that is asked for.
    pub fn path(&self) -> (r: String)
        ensures
            r@ == "/.well-known/acme-challenge/"@ + self.token@,
    {
        joined("/.well-known/acme-challenge/", &self.token)
    }

    /// The request.
    pub fn request(&self, host: &str) -> (r: String)
        ensures
            r@ == preflight_request(host@, self.token@),
    {
        let mut v: Vec<char> = Vec::new();
        put_str(&mut v, "GET ");
        put_str(&mut v, "/.well-known/acme-challenge/");
        put_str(&mut v, &self.token);
        put_str(&mut v, " HTTP/1.1\r\nHost: ");
        put_str(&mut v, host);
        put_str(&mut v, "\r\nUser-Agent: ostp-acme-preflight\r\nConnection: close\r\n\r\n");
        string_of(&v)
    }

    /// What the event says of the port: it does where the response holds the value.
    pub fn outcome(&self, event: &PreflightEvent) -> (r: Result<(), PreflightError>)
        ensures
            r == match *event {
                PreflightEvent::Answered(b) => if contains(utf8_lossy(b@), self.value@) {
                    Ok::<(), PreflightError>(())
                } else {
                    Err(PreflightError::AnsweredElsewhere)
                },
                PreflightEvent::Unreachable => Err(PreflightError::Unreachable),
                PreflightEvent::TimedOut => Err(PreflightError::TimedOut),
            },
    {
        match event {
            PreflightEvent::Answered(b) => {
                let text = chars_of(&lossy_text(b));
                if holds_str(&text, &self.value) {
                    Ok(())
                } else {
                    Err(PreflightError::AnsweredElsewhere)
                }
            },
            PreflightEvent::Unreachable => Err(PreflightError::Unreachable),
            PreflightEvent::TimedOut => Err(PreflightError::TimedOut),
        }
    }
}

pub open spec fn preflight_request(host: Seq<char>, token: Seq<char>) -> Seq<char> {
    "GET "@ + "/.well-known/acme-challenge/"@ + token + " HTTP/1.1\r\nHost: "@ + host
        + "\r\nUser-Agent: ostp-acme-preflight\r\nConnection: close\r\n\r\n"@
}

proof fn lemma_token_of(random: Seq<u64>)
    requires
        16 <= random.len() <= 128,
    ensures
        is_token(token_of(random)),
{
    let t = token_of(random);
    assert forall|i: int| 0 <= i < t.len() implies token_char(#[trigger] t[i]) by {
        let k = random[i] as int % 62;
        assert(forall|j: int| 0 <= j < 62 ==> token_char(#[trigger] TOKEN_LETTERS@[j]));
        assert(t[i] == TOKEN_LETTERS@[k]);
    }
}

// ── Renewal ──────────────────────────────────────────────────────────────────

/// What the renewal does next.
#[derive(Debug, Clone, Copy, PartialEq, Eq, Structural)]
pub enum RenewalStep {
    /// Look again after so many seconds.
    Wait(u64),
    /// Ask for a certificate now.
    Issue,
}

/// What follows a failure.
#[derive(Debug, Clone, Copy, PartialEq, Eq, Structural)]
pub struct RenewalFailure {
    /// Seconds to sleep.
    pub pause: u64,
    /// The days that the certificate in use has left, where they are fewer than seven.
    pub ends_soon: Option<i64>,
}

/// Keeps a certificate issued and fresh.
#[derive(Debug, Clone, Copy)]
pub struct Renewal {
    backoff: u64,
}

/// What is done about a certificate that is due at `at`.
pub open spec fn renewal_step(at: int, now: int, random: int) -> RenewalStep {
    if at > now {
        RenewalStep::Wait(
            ((if at - now < MAX_SLEEP_SECS {
                at - now
            } else {
                MAX_SLEEP_SECS as int
            }) + random % 3600) as u64,
        )
    } else {
        RenewalStep::Issue
    }
}

/// The pause after another failure.
pub open spec fn longer(backoff: int) -> int {
    if backoff * 2 < MAX_BACKOFF_SECS {
        backoff * 2
    } else {
        MAX_BACKOFF_SECS as int
    }
}

impl Renewal {
    /// The pause after the next failure, in seconds.
    pub closed spec fn backoff(&self) -> int {
        self.backoff as int
    }

    pub open spec fn wf(&self) -> bool {
        FIRST_BACKOFF_SECS <= self.backoff() <= MAX_BACKOFF_SECS
    }

    pub fn new() -> (r: Self)
        ensures
            r.wf(),
            r.backoff() == FIRST_BACKOFF_SECS,
    {
        Renewal { backoff: FIRST_BACKOFF_SECS }
    }

    /// What is done about the certificate in use, with a random number that spreads the
    /// looks over an hour.
    pub fn next(
        &self,
        info: Option<&CertInfo>,
        domain: &str,
        staging: bool,
        renew_days_before: Option<u32>,
        now: i64,
        random: u64,
    ) -> (r: RenewalStep)
        requires
            info matches Some(i) ==> dated(*i),
            now >= 0,
        ensures
            r == renewal_step(due(opt_info(info), domain@, staging, renew_days_before), now as int, random as int),
    {
        let at: i64 = renew_at(info, domain, staging, renew_days_before);
        if at > now {
            let left: u64 = (at - now) as u64;
            let sleep: u64 = if left < MAX_SLEEP_SECS {
                left
            } else {
                MAX_SLEEP_SECS
            };
            RenewalStep::Wait(sleep + random % 3600)
        } else {
            RenewalStep::Issue
        }
    }

    /// A certificate was issued: the pauses start over.
    pub fn on_issued(&mut self)
        ensures
            final(self).wf(),
            final(self).backoff() == FIRST_BACKOFF_SECS,
    {
        self.backoff = FIRST_BACKOFF_SECS;
    }

    /// None was issued: each failure in a row doubles the pause, up to a day.
    pub fn on_failed(&mut self, info: Option<&CertInfo>, now: i64) -> (r: RenewalFailure)
        requires
            old(self).wf(),
            info matches Some(i) ==> i64::MIN <= i.not_after - now <= i64::MAX,
        ensures
            final(self).wf(),
            final(self).backoff() == longer(old(self).backoff()),
            r.pause == old(self).backoff(),
            r.ends_soon == match info {
                Some(i) => if !i.self_signed && whole_days(i.not_after - now) < 7 {
                    Some(whole_days(i.not_after - now) as i64)
                } else {
                    None::<i64>
                },
                None => None,
            },
    {
        let ends_soon: Option<i64> = match info {
            Some(i) => if i.self_signed {
                None
            } else {
                let d: i64 = i.days_left(now);
                if d < 7 {
                    Some(d)
                } else {
                    None
                }
            },
            None => None,
        };
        let pause: u64 = self.backoff;
        self.backoff = if pause * 2 < MAX_BACKOFF_SECS {
            pause * 2
        } else {
            MAX_BACKOFF_SECS
        };
        RenewalFailure { pause, ends_soon }
    }
}

/// No look at a certificate is further away than half a day and an hour.
pub proof fn looks_are_frequent(at: int, now: int, random: int)
    requires
        random >= 0,
    ensures
        renewal_step(at, now, random) matches RenewalStep::Wait(s) ==> 0 < s < MAX_SLEEP_SECS + 3600,
{
}

/// A certificate of the domain, from an authority of the kind that is asked, is renewed the
/// given number of days before it ends, or else when a third of its lifetime is left. Without
/// one, or with one that is not of this kind, a new one is due at once.
pub proof fn certificates_are_renewed_in_time(info: CertInfo, domain: Seq<char>, staging: bool, days: u32, i: int)
    requires
        !info.self_signed,
        0 <= i < info.sans@.len(),
        eq_nocase(info.sans@[i]@, domain),
        staging == (contains(upper(info.issuer@), "STAGING"@) || contains(upper(info.issuer@), "FAKE LE"@)),
        info.not_before <= info.not_after,
    ensures
        due(Some(info), domain, staging, Some(days)) == info.not_after - days * 86400,
        due(Some(info), domain, staging, None) == info.not_after - (info.not_after - info.not_before) / 3,
        due(Some(info), domain, !staging, Some(days)) == 0,
        due(Some(CertInfo { self_signed: true, ..info }), domain, staging, Some(days)) == 0,
        due(None, domain, staging, Some(days)) == 0,
{
    assert(string_views(info.sans@)[i] == info.sans@[i]@);
}

/// While a renewal is not due, the next look is when it is, twelve hours from now at the latest,
/// and up to an hour later by chance; once it is due, a certificate is asked for.
pub proof fn renewals_wait_until_they_are_due(at: int, now: int, random: int)
    requires
        random >= 0,
    ensures
        at <= now ==> renewal_step(at, now, random) == RenewalStep::Issue,
        now < at <= now + 43200 ==> renewal_step(at, now, random) == RenewalStep::Wait((at - now + random % 3600) as u64),
        at > now + 43200 ==> renewal_step(at, now, random) == RenewalStep::Wait((43200 + random % 3600) as u64),
{
}

/// After each failure the pause is twice as long, up to a day.
pub proof fn pauses_double(backoff: int)
    requires
        backoff >= 0,
    ensures
        2 * backoff <= 86400 ==> longer(backoff) == 2 * backoff,
        2 * backoff > 86400 ==> longer(backoff) == 86400,
{
}

/// Times are counted in whole days towards zero.
pub proof fn days_are_whole(secs: int)
    ensures
        secs >= 0 ==> 86400 * whole_days(secs) <= secs < 86400 * whole_days(secs) + 86400,
        secs < 0 ==> 86400 * whole_days(secs) - 86400 < secs <= 86400 * whole_days(secs),
{
}

/// An authorization that is pending is met with the answer to its challenge; one that is given
/// needs none, and any other ends the issuance.
pub proof fn authorizations_are_met(token: Seq<char>, value: Seq<char>)
    ensures
        authorized(AuthorizationStatus::Valid, Some((token, value))) == Ok::<Option<(Seq<char>, Seq<char>)>, IssueError>(
            None,
        ),
        authorized(AuthorizationStatus::Other, Some((token, value))) is Err,
        authorized(AuthorizationStatus::Pending, None) is Err,
        is_token(token) ==> authorized(AuthorizationStatus::Pending, Some((token, value))) == Ok::<
            Option<(Seq<char>, Seq<char>)>,
            IssueError,
        >(Some((token, value))),
        !is_token(token) ==> authorized(AuthorizationStatus::Pending, Some((token, value))) is Err,
{
}

/// What is no token is not answered; a token that is not kept is answered with what is on disk,
/// without white space at its ends.
pub proof fn unkept_challenges_come_from_disk(kept: Map<Seq<char>, Seq<char>>, token: Seq<char>, file: Seq<char>)
    ensures
        token.len() < 16 || token.len() > 128 ==> answer(kept, token, Some(file)) is None,
        is_token(token) && !kept.contains_key(token) ==> answer(kept, token, Some(file)) == Some(trim(file)),
        is_token(token) && kept.contains_key(token) ==> answer(kept, token, Some(file)) == Some(kept[token]),
        is_token(token) ==> forall|i: int|
            0 <= i < token.len() ==> (#[trigger] token[i]) != '/' && token[i] != '.' && token[i] != '\\',
{
}

/// The names of a certificate are those that it has.
pub proof fn certificate_names_are_kept(names: Seq<Option<Seq<char>>>, i: int, n: Seq<char>)
    requires
        0 <= i < names.len(),
        names[i] == Some(n),
    ensures
        present(names).contains(n),
    decreases names.len(),
{
    let d = names.drop_last();
    if i < names.len() - 1 {
        assert(d[i] == names[i]);
        certificate_names_are_kept(d, i, n);
        let j = choose|j: int| 0 <= j < present(d).len() && present(d)[j] == n;
        assert(present(names)[j] == n);
    } else {
        assert(present(names)[present(names).len() - 1] == n);
    }
}

/// Each directory has an account of its own, in a file that its address names.
pub proof fn accounts_are_kept_by_directory(state_dir: Seq<char>, directory: Seq<char>)
    ensures
        account_path(state_dir, directory) == below(
            below(state_dir, "accounts"@),
            hex(sha256(encode_utf8(directory)).take(8)) + ".json"@,
        ) || sha256(encode_utf8(directory)).len() < 8,
{
    let s = sha256(encode_utf8(directory));
    if s.len() >= 8 {
        assert(s.subrange(0, 8) =~= s.take(8));
    }
}

/// The trial before an order asks for its own token at the place of the challenges.
pub proof fn trials_ask_for_their_token(host: Seq<char>, token: Seq<char>)
    ensures
        crate::text::starts_with(
            preflight_request(host, token),
            "GET "@ + "/.well-known/acme-challenge/"@ + token + " HTTP/1.1\r\nHost: "@ + host,
        ),
{
    let a = "GET "@ + "/.well-known/acme-challenge/"@ + token + " HTTP/1.1\r\nHost: "@ + host;
    let s = preflight_request(host, token);
    assert(s.subrange(0, a.len() as int) =~= a);
}

} // verus!
