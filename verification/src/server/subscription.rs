//! `GET <prefix>/<token>`: the links of one user, so that clients follow changes
//! on the server without being handed a new link.
//!
//! The token is a credential: it is answered inside TLS, or to a local web server
//! that ended TLS. Unknown tokens get what any other path gets.

use vstd::prelude::*;
use vstd::slice::slice_subrange;
use vstd::utf8::encode_utf8;

use crate::encoding::{base64_char, base64_of, base64_text};
use crate::http::{header, http_head, opt_chars, parse_head, same_secret, Head, RequestHead};
use crate::server::users::{wrapped, Book, Users};
use crate::share_link::{plain_link, read_link, Link, LinkTransport, ShareLink};
use crate::subscription::{token, token_for_key, Doc, SubscriptionDoc, SubscriptionUsage};
use crate::text::{
    begins, begins_str, chars_are, chars_of, contains, cut, decimal, has_char, hex_digit, holds_str, is_hex,
    join_strings, lower, owned, pieces, put_chars, put_decimal, put_str, replace_all, replaced,
    split, split_once, starts_with, string_of, string_views, to_lower, trim, trimmed, utf8_of, views,
};

verus! {

/// Where the server is reached with TLS.
#[derive(Debug, Clone)]
pub struct TlsLink {
    pub host: String,
    pub port: u16,
    /// Path of the HTTP upgrade.
    pub path: Option<String>,
}

#[derive(Debug, Clone)]
pub struct SubscriptionSettings {
    /// For example `/sub`.
    pub prefix: String,
    pub name: String,
    pub update_interval_hours: u32,
    pub include_tls: bool,
    pub include_udp: bool,
}

#[derive(Debug)]
pub struct SubscriptionService {
    pub settings: SubscriptionSettings,
    pub tls: Option<TlsLink>,
    /// Host and port of the plain link.
    pub udp: (String, u16),
    /// Whether the server answers the clients' name queries itself.
    pub owndns: bool,
}

/// What a request asks for.
#[derive(Debug, Clone)]
pub struct Request {
    pub token: String,
    pub json: bool,
    /// A browser: a person opened the link, not an application.
    pub html: bool,
    /// Of the languages that the person reads, Russian and English.
    pub languages: Vec<LanguageRange>,
    pub head_only: bool,
}

/// What a request asks for.
#[verifier::ext_equal]
pub struct Asked {
    pub token: Seq<char>,
    pub json: bool,
    pub html: bool,
    pub languages: Seq<Range>,
    pub head_only: bool,
}

impl View for Request {
    type V = Asked;

    open spec fn view(&self) -> Asked {
        Asked {
            token: self.token@,
            json: self.json,
            html: self.html,
            languages: range_views(self.languages@),
            head_only: self.head_only,
        }
    }
}

// ── Languages ────────────────────────────────────────────────────────────────

/// Russian or English in a list of languages, with the texts that may be its quality.
#[derive(Debug, Clone)]
pub struct LanguageRange {
    pub ru: bool,
    pub qualities: Vec<String>,
}

/// The same with the contents of its texts.
#[verifier::ext_equal]
pub struct Range {
    pub ru: bool,
    pub qualities: Seq<Seq<char>>,
}

impl View for LanguageRange {
    type V = Range;

    open spec fn view(&self) -> Range {
        Range { ru: self.ru, qualities: string_views(self.qualities@) }
    }
}

pub open spec fn range_views(v: Seq<LanguageRange>) -> Seq<Range> {
    Seq::new(v.len(), |i: int| v[i]@)
}

pub open spec fn is_language(tag: Seq<char>, language: Seq<char>) -> bool {
    tag == language || starts_with(tag, language + "-"@)
}

pub open spec fn language_tag(part: Seq<char>) -> Seq<char> {
    lower(trim(split(part, ';')[0]))
}

/// The texts behind `q=` among the first `n` parts of a range; its first part is the language.
pub open spec fn quality_texts(params: Seq<Seq<char>>, n: int) -> Seq<Seq<char>>
    decreases n,
{
    if n <= 1 {
        Seq::empty()
    } else {
        let p = trim(params[n - 1]);
        let before = quality_texts(params, n - 1);
        if starts_with(p, "q="@) {
            before.push(trim(p.subrange(2, p.len() as int)))
        } else {
            before
        }
    }
}

/// What a part of the list says of Russian or English; nothing where it names neither.
pub open spec fn range_of(part: Seq<char>) -> Option<Range> {
    let params = split(part, ';');
    let ru = is_language(language_tag(part), "ru"@);
    if ru || is_language(language_tag(part), "en"@) {
        Some(Range { ru, qualities: quality_texts(params, params.len() as int) })
    } else {
        None
    }
}

/// Russian and English in a list of languages, in their order.
pub open spec fn ranges_of(parts: Seq<Seq<char>>) -> Seq<Range>
    decreases parts.len(),
{
    if parts.len() == 0 {
        Seq::empty()
    } else {
        let before = ranges_of(parts.drop_last());
        match range_of(parts.last()) {
            Some(r) => before.push(r),
            None => before,
        }
    }
}

fn in_language(tag: &[char], language: &str) -> (r: bool)
    ensures
        r == is_language(tag@, language@),
{
    let mut p = chars_of(language);
    if chars_are(tag, language) {
        return true;
    }
    put_str(&mut p, "-");
    begins(tag, &p)
}

fn find_qualities(params: &Vec<Vec<char>>) -> (r: Vec<String>)
    ensures
        string_views(r@) == quality_texts(views(params@), params@.len() as int),
{
    let mut out: Vec<String> = Vec::new();
    let mut i: usize = 1;
    assert(string_views(out@) =~= Seq::<Seq<char>>::empty());
    while i < params.len()
        invariant
            1 <= i,
            i <= params@.len() || i == 1,
            string_views(out@) == quality_texts(views(params@), i as int),
        decreases params@.len() - i,
    {
        let t = trimmed(&params[i]);
        let n: usize = t.len();
        assert(t@ == trim(views(params@)[i as int]));
        if begins_str(t, "q=") {
            proof {
                reveal_strlit("q=");
            }
            let ghost before = out@;
            let q = string_of(trimmed(slice_subrange(t, 2, n)));
            out.push(q);
            assert(string_views(out@) =~= string_views(before).push(q@));
        }
        i += 1;
    }
    out
}

/// Russian and English in a list of languages, in their order, each with the texts that may be
/// its quality.
pub fn accepted_languages(accept_language: &str) -> (r: Vec<LanguageRange>)
    ensures
        range_views(r@) == ranges_of(split(accept_language@, ',')),
{
    let c = chars_of(accept_language);
    let parts = pieces(&c, ',');
    let ghost all = views(parts@);
    let mut out: Vec<LanguageRange> = Vec::new();
    let mut i: usize = 0;
    assert(all.subrange(0, 0) =~= Seq::<Seq<char>>::empty());
    assert(range_views(out@) =~= Seq::<Range>::empty());
    while i < parts.len()
        invariant
            all == views(parts@),
            i <= parts@.len(),
            range_views(out@) == ranges_of(all.subrange(0, i as int)),
        decreases parts@.len() - i,
    {
        let ghost u = all.subrange(0, i + 1);
        assert(u.drop_last() =~= all.subrange(0, i as int));
        assert(u.last() == parts@[i as int]@);
        let params = pieces(&parts[i], ';');
        proof {
            crate::text::lemma_split_nonempty(parts@[i as int]@, ';');
            assert(views(params@).len() == params@.len());
            assert(views(params@)[0] == params@[0]@);
        }
        let tag = to_lower(trimmed(&params[0]));
        assert(tag@ == language_tag(parts@[i as int]@));
        let ru = in_language(&tag, "ru");
        if ru || in_language(&tag, "en") {
            let ghost before = out@;
            let range = LanguageRange { ru, qualities: find_qualities(&params) };
            out.push(range);
            assert(range_views(out@) =~= range_views(before).push(range@));
        }
        i += 1;
    }
    assert(all.subrange(0, i as int) =~= all);
    out
}

/// A quality as a number. Only the order of numbers matters, so a number stands for its place
/// among all of them: zero is `0`, and one is [`ONE`].
#[derive(Debug, Clone, Copy, PartialEq, Eq, Structural)]
pub enum Quality {
    NotANumber,
    Number(i32),
}

/// The place of the number one.
pub const ONE: i32 = 0x3f80_0000;

impl Quality {
    /// Whether a language of this quality is wanted at all: it is not where the number is zero
    /// or less.
    pub open spec fn wanted(self) -> bool {
        match self {
            Quality::NotANumber => true,
            Quality::Number(n) => n > 0,
        }
    }

    /// Whether this is the greater number of two.
    pub open spec fn above(self, o: Quality) -> bool {
        match (self, o) {
            (Quality::Number(a), Quality::Number(b)) => a > b,
            _ => false,
        }
    }
}

/// A language with what its texts are as numbers; nothing for a text that is none.
#[derive(Debug, Clone)]
pub struct RankedLanguage {
    pub ru: bool,
    pub qualities: Vec<Option<Quality>>,
}

/// The first of the texts that is a number; one where none is.
pub open spec fn first_quality(read: Seq<Option<Quality>>) -> Quality
    decreases read.len(),
{
    if read.len() == 0 {
        Quality::Number(ONE)
    } else {
        match read[0] {
            Some(q) => q,
            None => first_quality(read.drop_first()),
        }
    }
}

/// The best of the two languages: the one with the greatest quality, the earlier
/// one of equal ones.
pub open spec fn best_language(languages: Seq<RankedLanguage>) -> Option<(Quality, bool)>
    decreases languages.len(),
{
    if languages.len() == 0 {
        None
    } else {
        let best = best_language(languages.drop_last());
        let q = first_quality(languages.last().qualities@);
        if q.wanted() && (best matches Some((b, _)) ==> q.above(b)) {
            Some((q, languages.last().ru))
        } else {
            best
        }
    }
}

/// Whether the `i`th language is the best: it is wanted, none that is wanted is above it, and it
/// is above every one before it that is wanted.
pub open spec fn is_best(languages: Seq<RankedLanguage>, i: int) -> bool {
    let q = first_quality(languages[i].qualities@);
    &&& 0 <= i < languages.len() && q.wanted()
    &&& forall|j: int|
        0 <= j < languages.len() && first_quality((#[trigger] languages[j]).qualities@).wanted() ==> !first_quality(
            languages[j].qualities@,
        ).above(q) && (j < i ==> q.above(first_quality(languages[j].qualities@)))
}

/// Of languages whose qualities are numbers, the first one with the greatest quality is
/// taken; none is taken where none is wanted.
pub proof fn the_greatest_quality_wins(languages: Seq<RankedLanguage>)
    requires
        forall|i: int|
            0 <= i < languages.len() ==> first_quality((#[trigger] languages[i]).qualities@) !is NotANumber,
    ensures
        match best_language(languages) {
            Some((q, ru)) => exists|i: int| #[trigger]
                is_best(languages, i) && q == first_quality(languages[i].qualities@) && ru == languages[i].ru,
            None => forall|i: int|
                0 <= i < languages.len() ==> !first_quality((#[trigger] languages[i]).qualities@).wanted(),
        },
    decreases languages.len(),
{
    if languages.len() > 0 {
        let d = languages.drop_last();
        let n = languages.len() - 1;
        assert forall|i: int| 0 <= i < d.len() implies first_quality((#[trigger] d[i]).qualities@) !is NotANumber by {
            assert(d[i] == languages[i]);
        }
        the_greatest_quality_wins(d);
        let last = first_quality(languages[n].qualities@);
        match best_language(d) {
            Some((b, ru)) => {
                let i = choose|i: int| #[trigger] is_best(d, i) && b == first_quality(d[i].qualities@) && ru == d[i].ru;
                assert(d[i] == languages[i]);
                assert forall|j: int| 0 <= j < n && first_quality((#[trigger] languages[j]).qualities@).wanted() implies {
                    &&& !first_quality(languages[j].qualities@).above(b)
                    &&& j < i ==> b.above(first_quality(languages[j].qualities@))
                } by {
                    assert(d[j] == languages[j]);
                }
                if last.wanted() && last.above(b) {
                    assert(is_best(languages, n));
                } else {
                    assert(is_best(languages, i));
                }
            },
            None => {
                assert forall|j: int| 0 <= j < n implies !first_quality((#[trigger] languages[j]).qualities@).wanted() by {
                    assert(d[j] == languages[j]);
                }
                if last.wanted() {
                    assert(is_best(languages, n));
                }
            },
        }
    }
}

fn quality_of(read: &Vec<Option<Quality>>) -> (r: Quality)
    ensures
        r == first_quality(read@),
{
    let mut i: usize = 0;
    assert(read@.subrange(0, read@.len() as int) =~= read@);
    while i < read.len()
        invariant
            i <= read@.len(),
            first_quality(read@) == first_quality(read@.subrange(i as int, read@.len() as int)),
        decreases read@.len() - i,
    {
        let ghost rest = read@.subrange(i as int, read@.len() as int);
        if let Some(q) = read[i] {
            return q;
        }
        assert(rest.drop_first() =~= read@.subrange(i + 1, read@.len() as int));
        i += 1;
    }
    Quality::Number(ONE)
}

/// Whether a list of accepted languages ranks Russian above English, by
/// quality, then by order. Where it names neither, English is taken.
pub fn prefers_russian(languages: &Vec<RankedLanguage>) -> (r: bool)
    ensures
        r == (best_language(languages@) matches Some((_, ru)) && ru),
{
    let mut best: Option<(Quality, bool)> = None;
    let mut i: usize = 0;
    assert(languages@.subrange(0, 0) =~= Seq::<RankedLanguage>::empty());
    while i < languages.len()
        invariant
            i <= languages@.len(),
            best == best_language(languages@.subrange(0, i as int)),
        decreases languages@.len() - i,
    {
        let ghost u = languages@.subrange(0, i + 1);
        assert(u.drop_last() =~= languages@.subrange(0, i as int));
        assert(u.last() == languages@[i as int]);
        let q = quality_of(&languages[i].qualities);
        let wanted = match q {
            Quality::NotANumber => true,
            Quality::Number(n) => n > 0,
        };
        let better = match best {
            None => true,
            Some((b, _)) => match (q, b) {
                (Quality::Number(x), Quality::Number(y)) => x > y,
                _ => false,
            },
        };
        if wanted && better {
            best = Some((q, languages[i].ru));
        }
        i += 1;
    }
    assert(languages@.subrange(0, i as int) =~= languages@);
    match best {
        Some((_, ru)) => ru,
        None => false,
    }
}

// ── Texts ────────────────────────────────────────────────────────────────────

/// A text as it can stand in HTML.
pub open spec fn escaped(s: Seq<char>) -> Seq<char> {
    let a = replace_all(s, "&"@, "&amp;"@);
    let b = replace_all(a, "<"@, "&lt;"@);
    let c = replace_all(b, ">"@, "&gt;"@);
    let d = replace_all(c, "\""@, "&quot;"@);
    replace_all(d, "'"@, "&#39;"@)
}

pub fn html_escape(s: &str) -> (r: String)
    ensures
        r@ == escaped(s@),
{
    proof {
        reveal_strlit("&");
        reveal_strlit("<");
        reveal_strlit(">");
        reveal_strlit("\"");
        reveal_strlit("'");
    }
    let a = replaced(&chars_of(s), &chars_of("&"), &chars_of("&amp;"));
    let b = replaced(&a, &chars_of("<"), &chars_of("&lt;"));
    let c = replaced(&b, &chars_of(">"), &chars_of("&gt;"));
    let d = replaced(&c, &chars_of("\""), &chars_of("&quot;"));
    string_of(&replaced(&d, &chars_of("'"), &chars_of("&#39;")))
}

/// A byte that can stand in a header as it is.
pub open spec fn header_safe(s: Seq<char>) -> bool {
    forall|i: int| 0 <= i < s.len() ==> ' ' <= #[trigger] s[i] <= '~'
}

/// A title as it can stand in a header.
pub open spec fn title_text(s: Seq<char>) -> Seq<char> {
    if header_safe(s) {
        s
    } else {
        "base64:"@ + base64_text(encode_utf8(s))
    }
}

/// A title as it can stand in a header: printable ASCII as it is, anything else in
/// base 64.
pub fn header_text(s: &str) -> (r: String)
    ensures
        r@ == title_text(s@),
        header_safe(r@),
{
    let c = chars_of(s);
    let mut i: usize = 0;
    while i < c.len()
        invariant
            c@ == s@,
            i <= c@.len(),
            forall|k: int| 0 <= k < i ==> ' ' <= #[trigger] c@[k] <= '~',
        decreases c@.len() - i,
    {
        if c[i] < ' ' || c[i] > '~' {
            let mut v = chars_of("base64:");
            let e = base64_of(&utf8_of(s));
            put_str(&mut v, &e);
            proof {
                reveal_strlit("base64:");
                assert forall|k: int| 0 <= k < v@.len() implies ' ' <= #[trigger] v@[k] <= '~' by {
                    if k >= 7 {
                        assert(base64_char(e@[k - 7]));
                    }
                }
            }
            return string_of(&v);
        }
        i += 1;
    }
    owned(s)
}

// ── Requests ─────────────────────────────────────────────────────────────────

/// What stands behind a prefix.
pub open spec fn behind(s: Seq<char>, prefix: Seq<char>) -> Option<Seq<char>> {
    if starts_with(s, prefix) {
        Some(s.subrange(prefix.len() as int, s.len() as int))
    } else {
        None
    }
}

/// Whether a path is under a prefix.
pub open spec fn under(path: Seq<char>, prefix: Seq<char>) -> bool {
    behind(path, prefix) matches Some(rest) && rest.len() > 0 && rest[0] == '/'
}

pub open spec fn is_token(t: Seq<char>) -> bool {
    t.len() == 32 && forall|i: int| 0 <= i < t.len() ==> is_hex(#[trigger] t[i])
}

/// The text of a header in lower case, empty where there is none.
pub open spec fn low_header(h: Head, name: Seq<char>) -> Seq<char> {
    match header(h, name) {
        Some(t) => lower(t),
        None => Seq::empty(),
    }
}

/// What the head of a request asks for; nothing where it is not for a
/// subscription.
pub open spec fn asked(h: Head, prefix: Seq<char>) -> Option<Asked> {
    match (h.0, h.1) {
        (Some(method), Some(full)) => if method == "GET"@ || method == "HEAD"@ {
            let (path, query) = match split_once(full, '?') {
                Some((p, q)) => (p, q),
                None => (full, Seq::empty()),
            };
            if under(path, prefix) {
                let t = path.subrange(prefix.len() as int + 1, path.len() as int);
                if is_token(t) {
                    let accept = low_header(h, "accept"@);
                    let json = contains(accept, "application/json"@) || split(query, '&').contains("format=json"@);
                    Some(
                        Asked {
                            token: lower(t),
                            json,
                            html: !json && contains(accept, "text/html"@),
                            languages: ranges_of(split(low_header(h, "accept-language"@), ',')),
                            head_only: method == "HEAD"@,
                        },
                    )
                } else {
                    None
                }
            } else {
                None
            }
        } else {
            None
        },
        _ => None,
    }
}

fn path_under<'a>(path: &'a [char], prefix: &str) -> (r: Option<&'a [char]>)
    ensures
        match r {
            Some(t) => under(path@, prefix@) && t@ == path@.subrange(prefix@.len() as int + 1, path@.len() as int),
            None => !under(path@, prefix@),
        },
{
    let p = chars_of(prefix);
    if !begins(path, &p) {
        return None;
    }
    let n: usize = path.len();
    let m: usize = p.len();
    if n > m && path[m] == '/' {
        assert(path@.subrange(m as int, n as int)[0] == '/');
        Some(slice_subrange(path, m + 1, n))
    } else {
        assert(n > m ==> path@.subrange(m as int, n as int)[0] == path@[m as int]);
        None
    }
}

fn token_shaped(t: &[char]) -> (r: bool)
    ensures
        r == is_token(t@),
{
    if t.len() != 32 {
        return false;
    }
    let mut i: usize = 0;
    while i < t.len()
        invariant
            i <= t@.len(),
            t@.len() == 32,
            forall|k: int| 0 <= k < i ==> is_hex(#[trigger] t@[k]),
        decreases t@.len() - i,
    {
        if !hex_digit(t[i]) {
            return false;
        }
        i += 1;
    }
    true
}

fn some_piece(parts: &Vec<Vec<char>>, s: &str) -> (r: bool)
    ensures
        r == views(parts@).contains(s@),
{
    let mut i: usize = 0;
    while i < parts.len()
        invariant
            i <= parts@.len(),
            forall|k: int| 0 <= k < i ==> #[trigger] views(parts@)[k] != s@,
        decreases parts@.len() - i,
    {
        if chars_are(&parts[i], s) {
            assert(views(parts@)[i as int] == s@);
            return true;
        }
        i += 1;
    }
    false
}

fn lowered_header(h: &RequestHead, name: &str) -> (r: Vec<char>)
    ensures
        r@ == low_header(h@, name@),
{
    match h.header(name) {
        Some(t) => to_lower(&chars_of(&t)),
        None => {
            let v: Vec<char> = Vec::new();
            assert(v@ =~= Seq::<char>::empty());
            v
        },
    }
}

/// What the head of a request asks for.
pub fn read_request(h: &RequestHead, prefix: &str) -> (r: Option<Request>)
    ensures
        match r {
            Some(q) => asked(h@, prefix@) == Some(q@),
            None => asked(h@, prefix@) is None,
        },
{
    let method = match &h.method {
        Some(m) => chars_of(m),
        None => {
            return None;
        },
    };
    let full = match &h.path {
        Some(p) => chars_of(p),
        None => {
            return None;
        },
    };
    let head_only = chars_are(&method, "HEAD");
    if !head_only && !chars_are(&method, "GET") {
        return None;
    }
    let n: usize = full.len();
    let (path, query) = match cut(&full, '?') {
        Some((p, q)) => (p, q),
        None => (slice_subrange(&full, 0, n), slice_subrange(&full, 0, 0)),
    };
    assert(full@.subrange(0, n as int) =~= full@);
    assert(full@.subrange(0, 0) =~= Seq::<char>::empty());
    let t = match path_under(path, prefix) {
        Some(t) => t,
        None => {
            return None;
        },
    };
    if !token_shaped(t) {
        return None;
    }
    let accept = lowered_header(h, "accept");
    let json = holds_str(&accept, "application/json") || some_piece(&pieces(query, '&'), "format=json");
    let html = !json && holds_str(&accept, "text/html");
    let languages = accepted_languages(&string_of(&lowered_header(h, "accept-language")));
    let q = Request { token: string_of(&to_lower(t)), json, html, languages, head_only };
    assert(q@ =~= asked(h@, prefix@)->Some_0);
    Some(q)
}

// ── Documents ────────────────────────────────────────────────────────────────

pub open spec fn opt_path(s: Option<String>) -> Option<Seq<char>> {
    match s {
        Some(t) => Some(t@),
        None => None,
    }
}

/// The name of a user, where there is one.
pub open spec fn user_name(book: Book, key: Seq<char>) -> Option<Seq<char>> {
    if book.keys.contains_key(key) {
        match book.keys[key].name {
            Some(n) => if n@.len() > 0 {
                Some(n@)
            } else {
                None
            },
            None => None,
        }
    } else {
        None
    }
}

/// The title of a link.
pub open spec fn link_title(name: Seq<char>, user: Option<Seq<char>>, kind: Seq<char>) -> Seq<char> {
    match user {
        Some(u) => name + " · "@ + u + " · "@ + kind,
        None => name + " · "@ + kind,
    }
}

/// What a user has used.
pub open spec fn usage_of(book: Book, key: Seq<char>) -> Option<SubscriptionUsage> {
    if book.stats.contains_key(key) {
        let s = book.stats[key];
        Some(SubscriptionUsage { used_bytes: wrapped(s.bytes_up + s.bytes_down), limit_bytes: s.limit_bytes })
    } else {
        None
    }
}

impl SubscriptionService {
    /// The link over TLS.
    pub open spec fn tls_link(&self, key: Seq<char>, t: TlsLink, user: Option<Seq<char>>) -> Link {
        Link {
            transport: LinkTransport::Uot,
            tls: true,
            path: opt_path(t.path),
            owndns: self.owndns,
            name: Some(link_title(self.settings.name@, user, "TLS"@)),
            ..plain_link(key, t.host@, t.port)
        }
    }

    /// The plain link.
    pub open spec fn udp_link(&self, key: Seq<char>, user: Option<Seq<char>>) -> Link {
        Link {
            owndns: self.owndns,
            name: Some(link_title(self.settings.name@, user, "UDP"@)),
            ..plain_link(key, self.udp.0@, self.udp.1)
        }
    }

    /// The links of a key: over TLS first.
    pub open spec fn links_of(&self, key: Seq<char>, user: Option<Seq<char>>) -> Seq<Link> {
        let tls = match self.tls {
            Some(t) => if self.settings.include_tls {
                seq![self.tls_link(key, t, user)]
            } else {
                Seq::empty()
            },
            None => Seq::empty(),
        };
        let udp = if self.settings.include_udp {
            seq![self.udp_link(key, user)]
        } else {
            Seq::empty()
        };
        tls + udp
    }

    /// The document of a key.
    pub open spec fn doc_of(&self, key: Seq<char>, book: Book) -> Doc {
        Doc {
            name: self.settings.name@,
            update_interval_hours: self.settings.update_interval_hours,
            links: crate::subscription::uris(self.links_of(key, user_name(book, key))),
            usage: usage_of(book, key),
        }
    }

    /// Whether a path is one of the service.
    pub fn wants(&self, path: &str) -> (r: bool)
        ensures
            r == under(path@, self.settings.prefix@),
    {
        match path_under(&chars_of(path), &self.settings.prefix) {
            Some(_) => true,
            None => false,
        }
    }

    /// The access key that a token belongs to. Every key is tried, so that the time
    /// does not tell where, or whether, one fits.
    pub fn key_for(&self, wanted: &str, users: &Users) -> (r: Option<String>)
        requires
            users.wf(),
        ensures
            match r {
                Some(k) => users@.keys.contains_key(k@) && token(k@) == wanted@,
                None => forall|k: Seq<char>| #[trigger] users@.keys.contains_key(k) ==> token(k) != wanted@,
            },
    {
        let want = utf8_of(wanted);
        let n: usize = users.keys.len();
        let mut found: Option<String> = None;
        let mut i: usize = 0;
        proof {
            crate::table::lemma_map_of(users.keys.pairs());
            crate::table::lemma_table_view(users.keys);
        }
        while i < n
            invariant
                users.wf(),
                want@ == encode_utf8(wanted@),
                n == users.keys.pairs().len(),
                i <= n,
                match found {
                    Some(k) => users@.keys.contains_key(k@) && token(k@) == wanted@,
                    None => forall|j: int| 0 <= j < i ==> token((#[trigger] users.keys.pairs()[j]).0) != wanted@,
                },
            decreases n - i,
        {
            let k = users.keys.key_at(i);
            let t = token_for_key(k);
            let fits = same_secret(&utf8_of(&t), &want);
            proof {
                if encode_utf8(t@) == encode_utf8(wanted@) {
                    crate::text::lemma_text_of_encoded(t@);
                    crate::text::lemma_text_of_encoded(wanted@);
                }
            }
            if fits {
                found = Some(owned(k));
            }
            i += 1;
        }
        proof {
            if found is None {
                assert forall|k: Seq<char>| #[trigger] users@.keys.contains_key(k) implies token(k) != wanted@ by {
                    let j = choose|j: int| 0 <= j < users.keys.pairs().len() && (#[trigger] users.keys.pairs()[j]).0
                        == k;
                    assert(token(users.keys.pairs()[j].0) != wanted@);
                }
            }
        }
        found
    }

    fn title(&self, user: &Option<String>, kind: &str) -> (r: String)
        ensures
            r@ == link_title(self.settings.name@, opt_chars(*user), kind@),
    {
        let mut v = chars_of(&self.settings.name);
        put_str(&mut v, " · ");
        if let Some(u) = user {
            put_str(&mut v, u);
            put_str(&mut v, " · ");
        }
        put_str(&mut v, kind);
        string_of(&v)
    }

    /// The document of a key.
    pub fn document(&self, key: &String, users: &Users) -> (r: SubscriptionDoc)
        requires
            users.wf(),
        ensures
            r@ == self.doc_of(key@, users@),
    {
        let user = match users.keys.get(key) {
            Some(m) => match &m.name {
                Some(n) => if chars_of(n).len() > 0 {
                    Some(owned(n))
                } else {
                    None
                },
                None => None,
            },
            None => None,
        };
        assert(opt_chars(user) == user_name(users@, key@));
        let ghost u = user_name(users@, key@);
        let ghost want = crate::subscription::uris(self.links_of(key@, u));
        let mut links: Vec<String> = Vec::new();
        if self.settings.include_tls {
            if let Some(t) = &self.tls {
                let mut l = ShareLink::new(owned(key), owned(&t.host), t.port);
                l.transport = LinkTransport::Uot;
                l.tls = true;
                l.path = match &t.path {
                    Some(p) => Some(owned(p)),
                    None => None,
                };
                l.owndns = self.owndns;
                l.name = Some(self.title(&user, "TLS"));
                assert(l@ =~= self.tls_link(key@, *t, u));
                links.push(l.to_uri());
            }
        }
        let ghost first = string_views(links@);
        if self.settings.include_udp {
            let mut l = ShareLink::new(owned(key), owned(&self.udp.0), self.udp.1);
            l.owndns = self.owndns;
            l.name = Some(self.title(&user, "UDP"));
            assert(l@ =~= self.udp_link(key@, u));
            links.push(l.to_uri());
        }
        assert(string_views(links@) =~= want);
        let usage = match users.stats.get(key) {
            Some(s) => Some(
                SubscriptionUsage { used_bytes: s.bytes_up.wrapping_add(s.bytes_down), limit_bytes: s.limit_bytes },
            ),
            None => None,
        };
        SubscriptionDoc {
            name: owned(&self.settings.name),
            update_interval_hours: self.settings.update_interval_hours,
            links,
            usage,
        }
    }
}

// ── Answers ──────────────────────────────────────────────────────────────────

pub open spec fn content_type(a: Asked) -> Seq<char> {
    if a.json {
        "application/json"@
    } else if a.html {
        "text/html; charset=utf-8"@
    } else {
        "text/plain; charset=utf-8"@
    }
}

pub open spec fn page_headers(html: bool) -> Seq<char> {
    if html {
        "X-Robots-Tag: noindex, nofollow\r\nReferrer-Policy: no-referrer\r\nX-Content-Type-Options: nosniff\r\nX-Frame-Options: DENY\r\nContent-Security-Policy: default-src 'none'; style-src 'unsafe-inline'; script-src 'unsafe-inline'; img-src data:; base-uri 'none'; form-action 'none'; frame-ancestors 'none'\r\n"@
    } else {
        Seq::empty()
    }
}

pub open spec fn usage_header(usage: Option<SubscriptionUsage>) -> Seq<char> {
    match usage {
        Some(u) => "Subscription-Userinfo: upload=0; download="@ + decimal(u.used_bytes as nat) + "; total="@ + decimal(
            match u.limit_bytes {
                Some(l) => l as nat,
                None => 0,
            },
        ) + "; expire=0\r\n"@,
        None => Seq::empty(),
    }
}

/// The head of the answer with a document.
pub open spec fn answer_head(a: Asked, d: Doc, body_len: nat) -> Seq<char> {
    "HTTP/1.1 200 OK\r\nContent-Type: "@ + content_type(a) + "\r\nContent-Length: "@ + decimal(body_len)
        + "\r\nCache-Control: no-store\r\nProfile-Update-Interval: "@ + decimal(d.update_interval_hours as nat)
        + "\r\nProfile-Title: "@ + title_text(d.name) + "\r\n"@ + page_headers(a.html) + usage_header(d.usage)
        + "Connection: close\r\n\r\n"@
}

/// The answer with a document whose text is `body`; without the body where only
/// the head was asked for.
pub open spec fn answer(a: Asked, d: Doc, body: Seq<char>) -> Seq<u8> {
    let b = encode_utf8(body);
    encode_utf8(answer_head(a, d, b.len())) + (if a.head_only {
        Seq::empty()
    } else {
        b
    })
}

/// The answer with a document whose text is `body`.
pub fn respond(req: &Request, doc: &SubscriptionDoc, body: &str) -> (r: Vec<u8>)
    ensures
        r@ == answer(req@, doc@, body@),
{
    let mut b = utf8_of(body);
    let kind = if req.json {
        "application/json"
    } else if req.html {
        "text/html; charset=utf-8"
    } else {
        "text/plain; charset=utf-8"
    };
    let mut v = chars_of("HTTP/1.1 200 OK\r\nContent-Type: ");
    put_str(&mut v, kind);
    put_str(&mut v, "\r\nContent-Length: ");
    put_decimal(&mut v, b.len() as u64);
    put_str(&mut v, "\r\nCache-Control: no-store\r\nProfile-Update-Interval: ");
    put_decimal(&mut v, doc.update_interval_hours as u64);
    put_str(&mut v, "\r\nProfile-Title: ");
    put_str(&mut v, &header_text(&doc.name));
    put_str(&mut v, "\r\n");
    let ghost before = v@;
    if req.html {
        put_str(
            &mut v,
            "X-Robots-Tag: noindex, nofollow\r\nReferrer-Policy: no-referrer\r\nX-Content-Type-Options: nosniff\r\nX-Frame-Options: DENY\r\nContent-Security-Policy: default-src 'none'; style-src 'unsafe-inline'; script-src 'unsafe-inline'; img-src data:; base-uri 'none'; form-action 'none'; frame-ancestors 'none'\r\n",
        );
    }
    assert(v@ =~= before + page_headers(req.html));
    let ghost before = v@;
    if let Some(u) = &doc.usage {
        put_str(&mut v, "Subscription-Userinfo: upload=0; download=");
        put_decimal(&mut v, u.used_bytes);
        put_str(&mut v, "; total=");
        put_decimal(
            &mut v,
            match u.limit_bytes {
                Some(l) => l,
                None => 0,
            },
        );
        put_str(&mut v, "; expire=0\r\n");
    }
    assert(v@ =~= before + usage_header(doc.usage));
    put_str(&mut v, "Connection: close\r\n\r\n");
    assert(v@ =~= answer_head(req@, doc@, b@.len()));
    let mut out = utf8_of(&string_of(&v));
    if !req.head_only {
        out.append(&mut b);
    }
    assert(out@ =~= answer(req@, doc@, body@));
    out
}

/// The document as a list.
pub fn plain_body(doc: &SubscriptionDoc) -> (r: String)
    ensures
        r@ == crate::subscription::list_text(doc@.links),
{
    let mut v = chars_of(&join_strings(&doc.links, "\n"));
    put_str(&mut v, "\n");
    string_of(&v)
}

/// A request that is answered: what it asks for, and the document.
#[derive(Debug)]
pub struct Fetch {
    pub request: Request,
    pub doc: SubscriptionDoc,
}

impl SubscriptionService {
    /// Whether a request has an answer, and which document it is answered with.
    pub open spec fn fetched(&self, h: Option<Head>, book: Book, r: Option<(Asked, Doc)>) -> bool {
        match h {
            None => r is None,
            Some(head) => match asked(head, self.settings.prefix@) {
                None => r is None,
                Some(a) => match r {
                    Some((b, d)) => b == a && exists|k: Seq<char>| #[trigger]
                        book.keys.contains_key(k) && token(k) == a.token && d == self.doc_of(k, book),
                    None => forall|k: Seq<char>| #[trigger] book.keys.contains_key(k) ==> token(k) != a.token,
                },
            },
        }
    }

    /// The document that the head of a request asks for; nothing where the request
    /// is not a valid fetch of a subscription.
    pub fn fetch(&self, head: &[u8], users: &Users) -> (r: Option<Fetch>)
        requires
            users.wf(),
        ensures
            self.fetched(
                http_head(head@),
                users@,
                match r {
                    Some(f) => Some((f.request@, f.doc@)),
                    None => None,
                },
            ),
    {
        match parse_head(head) {
            Some(h) => self.fetch_for(&h, users),
            None => None,
        }
    }

    /// The document that a request asks for.
    pub fn fetch_for(&self, head: &RequestHead, users: &Users) -> (r: Option<Fetch>)
        requires
            users.wf(),
        ensures
            self.fetched(
                Some(head@),
                users@,
                match r {
                    Some(f) => Some((f.request@, f.doc@)),
                    None => None,
                },
            ),
    {
        let request = match read_request(head, &self.settings.prefix) {
            Some(q) => q,
            None => {
                return None;
            },
        };
        let key = match self.key_for(&request.token, users) {
            Some(k) => k,
            None => {
                return None;
            },
        };
        let doc = self.document(&key, users);
        assert(users@.keys.contains_key(key@));
        Some(Fetch { request, doc })
    }

    /// The subscription's own address.
    pub open spec fn address(&self, t: Seq<char>) -> Seq<char> {
        match self.tls {
            Some(l) => "https://"@ + l.host@ + (if l.port == 443 {
                Seq::empty()
            } else {
                ":"@ + decimal(l.port as nat)
            }) + self.settings.prefix@ + "/"@ + t,
            None => self.settings.prefix@ + "/"@ + t,
        }
    }

    /// The subscription's own address, as a person would paste it.
    pub fn url(&self, t: &str) -> (r: String)
        ensures
            r@ == self.address(t@),
    {
        let mut v: Vec<char> = Vec::new();
        if let Some(l) = &self.tls {
            put_str(&mut v, "https://");
            put_str(&mut v, &l.host);
            if l.port != 443 {
                put_str(&mut v, ":");
                put_decimal(&mut v, l.port as u64);
            }
        }
        put_str(&mut v, &self.settings.prefix);
        put_str(&mut v, "/");
        put_str(&mut v, t);
        assert(v@ =~= self.address(t@));
        string_of(&v)
    }
}

// ── The page ─────────────────────────────────────────────────────────────────

/// A picture of bytes as a QR code, as SVG; nothing where they do not fit into
/// one.
pub uninterp spec fn qr_svg(data: Seq<u8>, side: u32, dark: Seq<char>, light: Seq<char>) -> Option<Seq<char>>;

/// `qrcode::QrCode::new` and its SVG renderer with a least width and height and
/// two colours: the picture, or nothing where the data is too long; a function of
/// the arguments alone. The renderer adds at most a few hundred to `side`.
#[verifier::external_body]
pub(crate) fn qr_picture(data: &[u8], side: u32, dark: &str, light: &str) -> (r: Option<String>)
    requires
        side <= 0xffff,
    ensures
        match r {
            Some(t) => qr_svg(data@, side, dark@, light@) == Some(t@),
            None => qr_svg(data@, side, dark@, light@) is None,
        },
{
    let code = qrcode::QrCode::new(data).ok()?;
    let mut picture = code.render::<qrcode::render::svg::Color>();
    picture.min_dimensions(side, side);
    picture.dark_color(qrcode::render::svg::Color(dark));
    picture.light_color(qrcode::render::svg::Color(light));
    Some(picture.build())
}

/// What stands from the first occurrence of a text on; all where there is none.
pub open spec fn from_first(s: Seq<char>, p: Seq<char>) -> Seq<char>
    decreases s.len(),
{
    if s.len() < p.len() || s.len() == 0 {
        s
    } else if starts_with(s, p) {
        s
    } else {
        from_first(s.drop_first(), p)
    }
}

/// The picture without what stands before its element.
pub open spec fn inline_svg(svg: Seq<char>) -> Seq<char> {
    if contains(svg, "<svg"@) {
        from_first(svg, "<svg"@)
    } else {
        svg
    }
}

fn without_prolog(svg: &str) -> (r: String)
    ensures
        r@ == inline_svg(svg@),
{
    let c = chars_of(svg);
    let p = chars_of("<svg");
    proof {
        reveal_strlit("<svg");
    }
    if !holds_str(&c, "<svg") {
        return owned(svg);
    }
    let n: usize = c.len();
    let mut i: usize = 0;
    assert(c@.subrange(0, n as int) =~= c@);
    while i < n
        invariant
            c@ == svg@,
            n == c@.len(),
            p@ == "<svg"@,
            p@.len() == 4,
            i <= n,
            contains(svg@, "<svg"@),
            from_first(svg@, "<svg"@) == from_first(c@.subrange(i as int, n as int), "<svg"@),
        decreases n - i,
    {
        let rest = slice_subrange(&c, i, n);
        if n - i < 4 || begins(rest, &p) {
            return string_of(rest);
        }
        assert(rest@.drop_first() =~= c@.subrange(i + 1, n as int));
        i += 1;
    }
    string_of(slice_subrange(&c, n, n))
}

/// What a user has used, as a page shows it.
#[derive(Debug, Clone)]
pub struct UsageText {
    pub used: String,
    /// The limit, and how much of it is used, in percent.
    pub limit: Option<UsageLimit>,
}

#[derive(Debug, Clone)]
pub struct UsageLimit {
    pub limit: String,
    pub percent: String,
}

/// The part of the page about traffic.
pub open spec fn usage_section(u: UsageText) -> Seq<char> {
    let (ru, en, bar) = match u.limit {
        Some(l) => (
            "из "@ + l.limit@,
            "of "@ + l.limit@,
            "<div class=\"bar\"><div style=\"width:"@ + l.percent@ + "%\"></div></div>"@,
        ),
        None => ("без лимита"@, "no limit"@, Seq::empty()),
    };
    "<section class=\"card\"><h2><span lang=\"ru\">Трафик</span><span lang=\"en\">Traffic</span></h2><div class=\"usage-row\"><span><span lang=\"ru\">Использовано</span><span lang=\"en\">Used</span>: <b>"@
        + u.used@ + "</b></span><span class=\"muted\"><span lang=\"ru\">"@ + ru + "</span><span lang=\"en\">"@ + en
        + "</span></span></div>"@ + bar + "</section>"@
}

fn put_usage(v: &mut Vec<char>, u: &UsageText)
    ensures
        final(v)@ == old(v)@ + usage_section(*u),
{
    put_str(
        v,
        "<section class=\"card\"><h2><span lang=\"ru\">Трафик</span><span lang=\"en\">Traffic</span></h2><div class=\"usage-row\"><span><span lang=\"ru\">Использовано</span><span lang=\"en\">Used</span>: <b>",
    );
    put_str(v, &u.used);
    put_str(v, "</b></span><span class=\"muted\"><span lang=\"ru\">");
    match &u.limit {
        Some(l) => {
            put_str(v, "из ");
            put_str(v, &l.limit);
            put_str(v, "</span><span lang=\"en\">");
            put_str(v, "of ");
            put_str(v, &l.limit);
            put_str(v, "</span></span></div>");
            put_str(v, "<div class=\"bar\"><div style=\"width:");
            put_str(v, &l.percent);
            put_str(v, "%\"></div></div>");
        },
        None => {
            put_str(v, "без лимита");
            put_str(v, "</span><span lang=\"en\">");
            put_str(v, "no limit");
            put_str(v, "</span></span></div>");
        },
    }
    put_str(v, "</section>");
    assert(v@ =~= old(v)@ + usage_section(*u));
}

/// What kind of connection a link is for.
pub open spec fn link_kind(l: Seq<char>) -> Seq<char> {
    match read_link(l) {
        Ok(s) => if s.tls {
            "TLS"@
        } else if s.transport == LinkTransport::Uot {
            "TCP"@
        } else {
            "UDP"@
        },
        Err(_) => "UDP"@,
    }
}

/// The row of the page for the `i`th link.
pub open spec fn link_row(i: nat, l: Seq<char>) -> Seq<char> {
    "<div class=\"link-row\"><div class=\"muted\">"@ + link_kind(l) + "</div><div class=\"copy\"><input id=\"link-"@
        + decimal(i) + "\" readonly value=\""@ + escaped(l) + "\" aria-label=\""@ + link_kind(l)
        + "\"><button class=\"btn\" type=\"button\" data-copy=\"link-"@ + decimal(i)
        + "\"><span lang=\"ru\">Копировать</span><span lang=\"en\">Copy</span></button></div></div>"@
}

pub open spec fn link_rows(links: Seq<Seq<char>>) -> Seq<char>
    decreases links.len(),
{
    if links.len() == 0 {
        Seq::empty()
    } else {
        link_rows(links.drop_last()) + link_row((links.len() - 1) as nat, links.last())
    }
}

fn kind_of(l: &str) -> (r: &'static str)
    ensures
        r@ == link_kind(l@),
{
    match ShareLink::parse(l) {
        Ok(s) => if s.tls {
            "TLS"
        } else {
            match s.transport {
                LinkTransport::Uot => "TCP",
                LinkTransport::Udp => "UDP",
            }
        },
        Err(_) => "UDP",
    }
}

/// The row of a link: its kind and the link itself, then the button that copies it.
fn row(i: usize, kind: &str, link: &str) -> (r: Vec<char>)
    ensures
        r@ == "<div class=\"link-row\"><div class=\"muted\">"@ + kind@ + "</div><div class=\"copy\"><input id=\"link-"@
            + decimal(i as nat) + "\" readonly value=\""@ + link@ + "\" aria-label=\""@ + kind@
            + "\"><button class=\"btn\" type=\"button\" data-copy=\"link-"@ + decimal(i as nat)
            + "\"><span lang=\"ru\">Копировать</span><span lang=\"en\">Copy</span></button></div></div>"@,
{
    let mut v = chars_of("<div class=\"link-row\"><div class=\"muted\">");
    put_str(&mut v, kind);
    put_str(&mut v, "</div><div class=\"copy\"><input id=\"link-");
    put_decimal(&mut v, i as u64);
    put_str(&mut v, "\" readonly value=\"");
    put_str(&mut v, link);
    put_str(&mut v, "\" aria-label=\"");
    put_str(&mut v, kind);
    put_str(&mut v, "\"><button class=\"btn\" type=\"button\" data-copy=\"link-");
    put_decimal(&mut v, i as u64);
    put_str(&mut v, "\"><span lang=\"ru\">Копировать</span><span lang=\"en\">Copy</span></button></div></div>");
    v
}

fn put_row(v: &mut Vec<char>, i: usize, l: &str)
    ensures
        final(v)@ == old(v)@ + link_row(i as nat, l@),
{
    put_chars(v, &row(i, kind_of(l), &html_escape(l)));
}

fn put_rows(v: &mut Vec<char>, links: &Vec<String>)
    ensures
        final(v)@ == old(v)@ + link_rows(string_views(links@)),
{
    let ghost all = string_views(links@);
    let mut i: usize = 0;
    assert(all.subrange(0, 0) =~= Seq::<Seq<char>>::empty());
    assert(v@ =~= old(v)@ + link_rows(all.subrange(0, 0)));
    while i < links.len()
        invariant
            all == string_views(links@),
            i <= links@.len(),
            v@ == old(v)@ + link_rows(all.subrange(0, i as int)),
        decreases links@.len() - i,
    {
        let ghost u = all.subrange(0, i + 1);
        assert(u.drop_last() =~= all.subrange(0, i as int));
        assert(u.last() == links@[i as int]@);
        put_row(v, i, &links[i]);
        assert(v@ =~= old(v)@ + link_rows(u));
        i += 1;
    }
    assert(all.subrange(0, i as int) =~= all);
}

/// The page with its placeholders filled, in this order.
pub open spec fn filled(
    template: Seq<char>,
    d: Doc,
    ru: bool,
    usage: Seq<char>,
    qr: Seq<char>,
    url: Seq<char>,
) -> Seq<char> {
    let name = if d.name.len() == 0 {
        "OSTP"@
    } else {
        d.name
    };
    let a = replace_all(template, "{{LANG}}"@, if ru { "ru"@ } else { "en"@ });
    let b = replace_all(a, "{{RU_PRESSED}}"@, if ru { "true"@ } else { "false"@ });
    let c = replace_all(b, "{{EN_PRESSED}}"@, if ru { "false"@ } else { "true"@ });
    let e = replace_all(c, "{{NAME}}"@, escaped(name));
    let f = replace_all(e, "{{INTERVAL}}"@, decimal(d.update_interval_hours as nat));
    let g = replace_all(f, "{{USAGE}}"@, usage);
    let h = replace_all(g, "{{LINKS}}"@, link_rows(d.links));
    let i = replace_all(h, "{{QR}}"@, qr);
    replace_all(i, "{{SUB_URL}}"@, escaped(url))
}

fn fill(v: &Vec<char>, mark: &str, with: &str) -> (r: Vec<char>)
    requires
        mark@.len() > 0,
    ensures
        r@ == replace_all(v@, mark@, with@),
{
    replaced(v, &chars_of(mark), &chars_of(with))
}

fn fill_page(template: &str, doc: &SubscriptionDoc, ru: bool, usage: &str, qr: &str, url: &str) -> (r: String)
    ensures
        r@ == filled(template@, doc@, ru, usage@, qr@, url@),
{
    proof {
        reveal_strlit("{{LANG}}");
        reveal_strlit("{{RU_PRESSED}}");
        reveal_strlit("{{EN_PRESSED}}");
        reveal_strlit("{{NAME}}");
        reveal_strlit("{{INTERVAL}}");
        reveal_strlit("{{USAGE}}");
        reveal_strlit("{{LINKS}}");
        reveal_strlit("{{QR}}");
        reveal_strlit("{{SUB_URL}}");
    }
    let name = if chars_of(&doc.name).len() == 0 {
        html_escape("OSTP")
    } else {
        html_escape(&doc.name)
    };
    let mut rows: Vec<char> = Vec::new();
    put_rows(&mut rows, &doc.links);
    assert(rows@ =~= link_rows(doc@.links));
    let mut interval: Vec<char> = Vec::new();
    put_decimal(&mut interval, doc.update_interval_hours as u64);
    assert(interval@ =~= decimal(doc.update_interval_hours as nat));
    let a = fill(&chars_of(template), "{{LANG}}", if ru { "ru" } else { "en" });
    let b = fill(&a, "{{RU_PRESSED}}", if ru { "true" } else { "false" });
    let c = fill(&b, "{{EN_PRESSED}}", if ru { "false" } else { "true" });
    let e = fill(&c, "{{NAME}}", &name);
    let f = fill(&e, "{{INTERVAL}}", &string_of(&interval));
    let g = fill(&f, "{{USAGE}}", usage);
    let h = fill(&g, "{{LINKS}}", &string_of(&rows));
    let i = fill(&h, "{{QR}}", qr);
    string_of(&fill(&i, "{{SUB_URL}}", &html_escape(url)))
}

impl SubscriptionService {
    /// The picture of an address on the page.
    pub open spec fn page_qr(&self, t: Seq<char>) -> Seq<char> {
        inline_svg(
            match qr_svg(encode_utf8(self.address(t)), 176, "#000000"@, "#ffffff"@) {
                Some(p) => p,
                None => Seq::empty(),
            },
        )
    }

    /// The page that a person sees who opens the subscription in a browser, made
    /// from a template. The usage comes as texts, and is shown where the document
    /// has one.
    pub fn page(&self, doc: &SubscriptionDoc, t: &str, ru: bool, usage: &UsageText, template: &str) -> (r: String)
        ensures
            r@ == filled(
                template@,
                doc@,
                ru,
                match doc@.usage {
                    Some(_) => usage_section(*usage),
                    None => Seq::empty(),
                },
                self.page_qr(t@),
                self.address(t@),
            ),
    {
        let url = self.url(t);
        let mut empty: Vec<char> = Vec::new();
        assert(empty@ =~= Seq::<char>::empty());
        let picture = match qr_picture(&utf8_of(&url), 176, "#000000", "#ffffff") {
            Some(p) => p,
            None => string_of(&empty),
        };
        let qr = without_prolog(&picture);
        let mut section: Vec<char> = Vec::new();
        if doc.usage.is_some() {
            put_usage(&mut section, usage);
            assert(section@ =~= usage_section(*usage));
        }
        fill_page(template, doc, ru, &string_of(&section), &qr, &url)
    }
}

// ── Laws ─────────────────────────────────────────────────────────────────────

/// Replacing a character leaves none of it, and brings no other one than those
/// of the replacement.
proof fn lemma_replaced_chars(s: Seq<char>, c: char, to: Seq<char>)
    ensures
        !has_char(to, c) ==> !has_char(replace_all(s, seq![c], to), c),
        forall|d: char|
            !has_char(s, d) && !has_char(to, d) ==> !#[trigger] has_char(replace_all(s, seq![c], to), d),
    decreases s.len(),
{
    let r = replace_all(s, seq![c], to);
    if s.len() > 0 {
        let t = s.drop_first();
        lemma_replaced_chars(t, c, to);
        assert(s.subrange(1, s.len() as int) =~= t);
        let rest = replace_all(t, seq![c], to);
        assert(s.subrange(0, 1) =~= seq![s[0]]);
        if s[0] == c {
            assert(starts_with(s, seq![c]));
            assert(r == to + rest);
        } else {
            assert(s.subrange(0, 1)[0] != seq![c][0]);
            assert(r == seq![s[0]] + rest);
        }
        assert forall|d: char| !has_char(s, d) && !has_char(to, d) implies !#[trigger] has_char(r, d) by {
            assert(s[0] != d);
            assert(!has_char(t, d)) by {
                if has_char(t, d) {
                    let i = choose|i: int| 0 <= i < t.len() && #[trigger] t[i] == d;
                    assert(s[i + 1] == d);
                }
            }
            assert(!has_char(rest, d));
            if has_char(r, d) {
                let i = choose|i: int| 0 <= i < r.len() && #[trigger] r[i] == d;
                if s[0] == c {
                    if i < to.len() {
                        assert(to[i] == d);
                    } else {
                        assert(rest[i - to.len()] == d);
                    }
                } else if i > 0 {
                    assert(rest[i - 1] == d);
                }
            }
        }
        if !has_char(to, c) && has_char(r, c) {
            let i = choose|i: int| 0 <= i < r.len() && #[trigger] r[i] == c;
            if s[0] == c {
                if i < to.len() {
                    assert(to[i] == c);
                } else {
                    assert(rest[i - to.len()] == c);
                }
            } else if i > 0 {
                assert(rest[i - 1] == c);
            }
        }
    }
}

/// An escaped text holds no character that begins or ends a tag or an attribute.
pub proof fn escaped_texts_are_inert(s: Seq<char>)
    ensures
        !has_char(escaped(s), '<'),
        !has_char(escaped(s), '>'),
        !has_char(escaped(s), '"'),
        !has_char(escaped(s), '\''),
{
    reveal_strlit("&");
    reveal_strlit("<");
    reveal_strlit(">");
    reveal_strlit("\"");
    reveal_strlit("'");
    reveal_strlit("&amp;");
    reveal_strlit("&lt;");
    reveal_strlit("&gt;");
    reveal_strlit("&quot;");
    reveal_strlit("&#39;");
    assert("&"@ =~= seq!['&'] && "<"@ =~= seq!['<'] && ">"@ =~= seq!['>'] && "\""@ =~= seq!['"'] && "'"@ =~= seq!['\'']);
    let a = replace_all(s, "&"@, "&amp;"@);
    let b = replace_all(a, "<"@, "&lt;"@);
    let c = replace_all(b, ">"@, "&gt;"@);
    let d = replace_all(c, "\""@, "&quot;"@);
    lemma_replaced_chars(a, '<', "&lt;"@);
    lemma_replaced_chars(b, '>', "&gt;"@);
    lemma_replaced_chars(c, '"', "&quot;"@);
    lemma_replaced_chars(d, '\'', "&#39;"@);
    assert(!has_char(b, '<'));
    assert(!has_char(c, '<') && !has_char(c, '>'));
    assert(!has_char(d, '<') && !has_char(d, '>') && !has_char(d, '"'));
}

/// Whoever fetches the subscription of a key as a list reads the links of that key:
/// their texts and what they say.
pub proof fn fetched_links_are_the_keys(s: SubscriptionService, key: Seq<char>, book: Book)
    requires
        s.links_of(key, user_name(book, key)).len() > 0,
        forall|i: int|
            0 <= i < s.links_of(key, user_name(book, key)).len() ==> crate::share_link::expressible(
                #[trigger] s.links_of(key, user_name(book, key))[i],
            ) && forall|k: int|
                0 <= k < s.links_of(key, user_name(book, key))[i].host.len() ==> #[trigger] s.links_of(
                    key,
                    user_name(book, key),
                )[i].host[k] != '\n',
    ensures
        crate::subscription::read_body(crate::subscription::list_text(s.doc_of(key, book).links)) matches Ok(
            crate::subscription::Form::List(d),
        ) && d.links == s.doc_of(key, book).links && crate::subscription::readable(d.links) == s.links_of(
            key,
            user_name(book, key),
        ),
{
    crate::subscription::served_links_are_read(s.links_of(key, user_name(book, key)));
}

/// A language is meant by its name, and by its name with a region behind a hyphen.
pub proof fn regions_belong_to_their_language(language: Seq<char>, region: Seq<char>, tag: Seq<char>)
    ensures
        is_language(language, language),
        is_language(language + "-"@ + region, language),
        is_language(tag, language) && tag != language ==> tag.len() > language.len() && tag.take(language.len() as int)
            == language && tag[language.len() as int] == '-',
{
    reveal_strlit("-");
    let t = language + "-"@ + region;
    assert(t.subrange(0, language.len() as int + 1) =~= language + "-"@);
    if is_language(tag, language) && tag != language {
        let p = language + "-"@;
        assert(tag.subrange(0, p.len() as int) == p);
        assert(tag.take(language.len() as int) =~= p.take(language.len() as int));
        assert(p.take(language.len() as int) =~= language);
        assert(tag[language.len() as int] == p[language.len() as int]);
    }
}

/// Each part of the list that names Russian or English is heeded, in the order of the list.
pub proof fn named_languages_are_heeded(parts: Seq<Seq<char>>, i: int)
    requires
        0 <= i < parts.len(),
        is_language(lower(trim(split(parts[i], ';')[0])), "ru"@) || is_language(lower(trim(split(parts[i], ';')[0])), "en"@),
    ensures
        exists|k: int|
            0 <= k < ranges_of(parts).len() && (#[trigger] ranges_of(parts)[k]).ru == is_language(
                lower(trim(split(parts[i], ';')[0])),
                "ru"@,
            ),
        ranges_of(parts).len() <= parts.len(),
    decreases parts.len(),
{
    let d = parts.drop_last();
    lemma_ranges_len(d);
    let all = ranges_of(parts);
    let ru = is_language(language_tag(parts[i]), "ru"@);
    if i < parts.len() - 1 {
        assert(d[i] == parts[i]);
        named_languages_are_heeded(d, i);
        let k = choose|k: int| 0 <= k < ranges_of(d).len() && (#[trigger] ranges_of(d)[k]).ru == ru;
        assert(all[k] == ranges_of(d)[k]);
    } else {
        assert(all[all.len() - 1].ru == ru);
    }
}

proof fn lemma_ranges_len(parts: Seq<Seq<char>>)
    ensures
        ranges_of(parts).len() <= parts.len(),
    decreases parts.len(),
{
    if parts.len() > 0 {
        lemma_ranges_len(parts.drop_last());
    }
}

/// A text behind `q=` is a quality; the language itself is none.
pub proof fn qualities_stand_behind_their_mark(params: Seq<Seq<char>>, i: int)
    requires
        1 <= i < params.len(),
        starts_with(trim(params[i]), "q="@),
    ensures
        ({
            let p = trim(params[i]);
            quality_texts(params, params.len() as int).contains(trim(p.subrange(2, p.len() as int)))
        }),
{
    lemma_quality_texts(params, params.len() as int, i);
}

proof fn lemma_quality_texts(params: Seq<Seq<char>>, n: int, i: int)
    requires
        1 <= i < n <= params.len(),
        starts_with(trim(params[i]), "q="@),
    ensures
        ({
            let p = trim(params[i]);
            quality_texts(params, n).contains(trim(p.subrange(2, p.len() as int)))
        }),
    decreases n,
{
    let p = trim(params[i]);
    let x = trim(p.subrange(2, p.len() as int));
    let r = quality_texts(params, n);
    if i < n - 1 {
        lemma_quality_texts(params, n - 1, i);
        let before = quality_texts(params, n - 1);
        let j = choose|j: int| 0 <= j < before.len() && before[j] == x;
        assert(r[j] == x);
    } else {
        assert(r[r.len() - 1] == x);
    }
}

/// The first of the qualities that is a number counts; without one it is one.
pub proof fn the_first_number_counts(read: Seq<Option<Quality>>, i: int, q: Quality)
    requires
        0 <= i < read.len(),
        read[i] == Some(q),
        forall|j: int| 0 <= j < i ==> (#[trigger] read[j]) is None,
    ensures
        first_quality(read) == q,
        first_quality(Seq::empty()) == Quality::Number(0x3f80_0000),
    decreases i,
{
    if i > 0 {
        assert(read[0] is None);
        let d = read.drop_first();
        assert forall|j: int| 0 <= j < i - 1 implies (#[trigger] d[j]) is None by {
            assert(d[j] == read[j + 1]);
        }
        the_first_number_counts(d, i - 1, q);
    }
}

/// A path is under another where that and a slash are its beginning.
pub proof fn paths_are_under_their_beginning(prefix: Seq<char>, rest: Seq<char>, path: Seq<char>)
    ensures
        under(prefix + "/"@ + rest, prefix),
        under(path, prefix) <==> path.len() > prefix.len() && path.take(prefix.len() as int) == prefix
            && path[prefix.len() as int] == '/',
{
    reveal_strlit("/");
    let p = prefix + "/"@ + rest;
    let n = prefix.len() as int;
    assert(p.subrange(0, n) =~= prefix);
    assert(p.subrange(n, p.len() as int)[0] == '/');
    if path.len() >= n {
        assert(path.subrange(0, n) =~= path.take(n));
    }
    if path.len() > n {
        assert(path.subrange(n, path.len() as int)[0] == path[n]);
    }
}

/// A subscription is fetched with GET or HEAD at the prefix, a slash and the token of a key, 32
/// hexadecimal digits; any other request is none. It is given as JSON where the client takes it
/// or asks for it, as a page to a browser, and as plain text to anything else.
pub proof fn subscriptions_are_fetched_by_token(h: Head, prefix: Seq<char>, t: Seq<char>)
    requires
        h.0 == Some("GET"@) || h.0 == Some("HEAD"@),
        h.1 == Some(prefix + "/"@ + t),
        split_once(prefix + "/"@ + t, '?') is None,
    ensures
        t.len() == 32 && (forall|i: int| 0 <= i < 32 ==> is_hex(#[trigger] t[i])) ==> (asked(h, prefix) matches Some(a)
            && a.token == lower(t) && a.head_only == (h.0 == Some("HEAD"@)) && a.json == contains(
            low_header(h, "accept"@),
            "application/json"@,
        ) && a.html == (!contains(low_header(h, "accept"@), "application/json"@) && contains(
            low_header(h, "accept"@),
            "text/html"@,
        ))),
        t.len() != 32 ==> asked(h, prefix) is None,
        forall|m: Seq<char>| m != "GET"@ && m != "HEAD"@ ==> #[trigger] asked((Some(m), h.1, h.2), prefix) is None,
{
    reveal_strlit("/");
    reveal_strlit("format=json");
    let full = prefix + "/"@ + t;
    paths_are_under_their_beginning(prefix, t, full);
    assert(full.subrange(prefix.len() as int + 1, full.len() as int) =~= t);
    let one = seq![Seq::<char>::empty()];
    assert(crate::text::find_char(Seq::<char>::empty(), '&') is None);
    assert(split(Seq::empty(), '&') == one);
    assert(!one.contains("format=json"@)) by {
        if one.contains("format=json"@) {
            let i = choose|i: int| 0 <= i < one.len() && one[i] == "format=json"@;
            assert(one[i].len() == 0);
        }
    }
}

/// A subscription lists the link over TLS and the plain one, as far as they are wanted and there
/// is TLS; both are for the key, and lead to where the server is reached.
pub proof fn subscriptions_list_the_wanted_links(s: SubscriptionService, key: Seq<char>, user: Option<Seq<char>>)
    ensures
        ({
            let l = s.links_of(key, user);
            let tls = s.settings.include_tls && s.tls is Some;
            &&& l.len() == (if tls {
                1int
            } else {
                0
            }) + (if s.settings.include_udp {
                1int
            } else {
                0
            })
            &&& tls ==> l[0].tls && l[0].key == key && l[0].host == s.tls->Some_0.host@ && l[0].port == s.tls->Some_0.port
                && l[0].owndns == s.owndns && l[0].path == (match s.tls->Some_0.path {
                Some(p) => Some(p@),
                None => None,
            })
            &&& s.settings.include_udp ==> !l.last().tls && l.last().key == key && l.last().host == s.udp.0@
                && l.last().port == s.udp.1 && l.last().owndns == s.owndns
        }),
{
}

/// What a subscription says of its use is the traffic of both directions together and the
/// limit.
pub proof fn use_is_both_directions(book: Book, key: Seq<char>)
    requires
        book.stats.contains_key(key),
        book.stats[key].bytes_up + book.stats[key].bytes_down <= u64::MAX,
    ensures
        usage_of(book, key) matches Some(u) && u.used_bytes == book.stats[key].bytes_up + book.stats[key].bytes_down
            && u.limit_bytes == book.stats[key].limit_bytes,
{
}

/// A page is answered as one, JSON as JSON and anything else as text; a request for the head
/// alone gets no body.
pub proof fn answers_say_what_they_are(a: Asked, d: Doc, body: Seq<char>)
    ensures
        a.json ==> content_type(a) == "application/json"@,
        !a.json && a.html ==> content_type(a) == "text/html; charset=utf-8"@,
        !a.json && !a.html ==> content_type(a) == "text/plain; charset=utf-8"@,
        ({
            let head = encode_utf8(answer_head(a, d, encode_utf8(body).len()));
            answer(a, d, body) == if a.head_only {
                head
            } else {
                head + encode_utf8(body)
            }
        }),
{
    let head = encode_utf8(answer_head(a, d, encode_utf8(body).len()));
    assert(head + Seq::<u8>::empty() =~= head);
}

/// The address of a subscription is at the TLS host, whose port is named where it is not that of
/// HTTPS.
pub proof fn subscriptions_have_an_address(s: SubscriptionService, l: TlsLink, t: Seq<char>)
    requires
        s.tls == Some(l),
    ensures
        l.port == 443 ==> s.address(t) == "https://"@ + l.host@ + s.settings.prefix@ + "/"@ + t,
        l.port != 443 ==> s.address(t) == "https://"@ + l.host@ + (":"@ + decimal(l.port as nat)) + s.settings.prefix@ + "/"@
            + t,
{
    assert("https://"@ + l.host@ + Seq::<char>::empty() =~= "https://"@ + l.host@);
}

/// The kind of a link is that of its connection.
pub proof fn links_are_named_by_kind(l: Seq<char>)
    ensures
        read_link(l) matches Ok(s) && s.tls ==> link_kind(l) == "TLS"@,
        read_link(l) matches Ok(s) && !s.tls && s.transport == LinkTransport::Uot ==> link_kind(l) == "TCP"@,
        read_link(l) matches Ok(s) && !s.tls && s.transport != LinkTransport::Uot ==> link_kind(l) == "UDP"@,
{
}

/// The page has a row for each link.
pub proof fn every_link_has_a_row(links: Seq<Seq<char>>, i: int)
    requires
        0 <= i < links.len(),
    ensures
        contains(link_rows(links), link_row(i as nat, links[i])),
    decreases links.len(),
{
    let d = links.drop_last();
    let r = link_rows(d);
    let all = link_rows(links);
    let row = link_row(i as nat, links[i]);
    if i < d.len() {
        assert(d[i] == links[i]);
        every_link_has_a_row(d, i);
        let k = choose|k: int| 0 <= k <= r.len() - row.len() && #[trigger] r.subrange(k, k + row.len()) == row;
        assert(all.subrange(k, k + row.len()) =~= row);
    } else {
        let n = r.len() as int;
        assert(all.subrange(n, n + row.len()) =~= row);
    }
}

/// A picture in a page begins with its own tag; what stands before it is left out.
pub proof fn pictures_begin_with_their_tag(a: Seq<char>, rest: Seq<char>)
    requires
        starts_with(rest, "<svg"@),
        forall|j: int| 0 <= j < a.len() ==> !starts_with(#[trigger] (a + rest).skip(j), "<svg"@),
    ensures
        inline_svg(a + rest) == rest,
{
    let s = a + rest;
    let n = a.len() as int;
    assert(s.subrange(n, n + "<svg"@.len()) =~= rest.subrange(0, "<svg"@.len() as int));
    lemma_from_first(a, rest);
}

proof fn lemma_from_first(a: Seq<char>, rest: Seq<char>)
    requires
        starts_with(rest, "<svg"@),
        forall|j: int| 0 <= j < a.len() ==> !starts_with(#[trigger] (a + rest).skip(j), "<svg"@),
    ensures
        from_first(a + rest, "<svg"@) == rest,
    decreases a.len(),
{
    reveal_strlit("<svg");
    let s = a + rest;
    if a.len() == 0 {
        assert(s =~= rest);
    } else {
        assert(s.skip(0) =~= s);
        let b = a.drop_first();
        assert(s.drop_first() =~= b + rest);
        assert forall|j: int| 0 <= j < b.len() implies !starts_with(#[trigger] (b + rest).skip(j), "<svg"@) by {
            assert((b + rest).skip(j) =~= s.skip(j + 1));
        }
        lemma_from_first(b, rest);
    }
}

/// The header on the use of a subscription gives the bytes that were used and the limit, or zero
/// where there is none.
pub proof fn headers_carry_the_use(used: u64, limit: u64)
    ensures
        usage_header(Some(SubscriptionUsage { used_bytes: used, limit_bytes: Some(limit) }))
            == "Subscription-Userinfo: upload=0; download="@ + decimal(used as nat) + "; total="@ + decimal(limit as nat)
            + "; expire=0\r\n"@,
        usage_header(Some(SubscriptionUsage { used_bytes: used, limit_bytes: None })) == usage_header(
            Some(SubscriptionUsage { used_bytes: used, limit_bytes: Some(0) }),
        ),
        usage_header(None) == Seq::<char>::empty(),
{
}

/// A title that a header cannot hold is encoded, and any other is not.
pub proof fn titles_fit_into_a_header(s: Seq<char>, i: int)
    ensures
        (forall|k: int| 0 <= k < s.len() ==> ' ' <= #[trigger] s[k] <= '~') ==> title_text(s) == s,
        0 <= i < s.len() && !(' ' <= s[i] <= '~') ==> title_text(s) == "base64:"@ + base64_text(encode_utf8(s)),
{
}

/// A request for a subscription is answered where its token is that of a key, with what belongs
/// to such a key, and not otherwise.
pub proof fn known_tokens_are_answered(
    s: SubscriptionService,
    head: Head,
    book: Book,
    a: Asked,
    r: Option<(Asked, Doc)>,
    k: Seq<char>,
)
    requires
        s.fetched(Some(head), book, r),
        asked(head, s.settings.prefix@) == Some(a),
    ensures
        book.keys.contains_key(k) && token(k) == a.token ==> r is Some,
        (forall|x: Seq<char>| #[trigger] book.keys.contains_key(x) ==> token(x) != a.token) ==> r is None,
        r matches Some((b, d)) ==> b == a && d.name == s.settings.name@ && d.update_interval_hours
            == s.settings.update_interval_hours && exists|x: Seq<char>| #[trigger]
            book.keys.contains_key(x) && token(x) == a.token && d.usage == usage_of(book, x) && d.links
                == crate::subscription::uris(s.links_of(x, user_name(book, x))),
{
    if let Some((b, d)) = r {
        let x = choose|x: Seq<char>| #[trigger]
            book.keys.contains_key(x) && token(x) == a.token && d == s.doc_of(x, book);
        assert(book.keys.contains_key(x) && token(x) == a.token && d.usage == usage_of(book, x) && d.links
            == crate::subscription::uris(s.links_of(x, user_name(book, x))));
    }
}

/// Links are titled with the name of the subscription, that of the user, where there is one, and
/// the kind of the connection; those over TLS go over TCP, and the others do not.
pub proof fn links_are_titled(s: SubscriptionService, key: Seq<char>, u: Seq<char>)
    requires
        s.tls is Some,
        s.settings.include_tls,
        s.settings.include_udp,
    ensures
        s.links_of(key, Some(u))[0].name == Some(s.settings.name@ + " · "@ + u + " · "@ + "TLS"@),
        s.links_of(key, Some(u))[1].name == Some(s.settings.name@ + " · "@ + u + " · "@ + "UDP"@),
        s.links_of(key, None)[0].name == Some(s.settings.name@ + " · "@ + "TLS"@),
        s.links_of(key, None)[1].name == Some(s.settings.name@ + " · "@ + "UDP"@),
        s.links_of(key, None)[0].transport == LinkTransport::Uot && s.links_of(key, None)[1].transport == LinkTransport::Udp,
        !s.links_of(key, None)[0].insecure && s.links_of(key, None)[0].sni is None && s.links_of(key, None)[1].path is None,
{
}

} // verus!
