//! Subscription documents, and the token that addresses one access key without
//! putting the key itself into addresses.

use vstd::prelude::*;
use vstd::slice::slice_subrange;
use vstd::utf8::encode_utf8;

use crate::crypto::digest::{sha256, sha256_of};
use crate::encoding::{base64_bytes, base64_char, base64_read, hex, hex_text, url_base64_bytes, url_base64_read};
use crate::share_link::{
    component, components_round_trip, encoded_char, expressible, lemma_query_chars, links_round_trip, read_link, Link,
    ShareLink,
};
use crate::text::{
    begins_str, chars_of, contains, decimal, has_char, holds_str, is_digit, is_white, join, joined,
    lemma_decimal_digits, lemma_find_char_is, lemma_find_char_none, lemma_join_front, lemma_one_word, lemma_text_of_encoded, lines,
    lines_of, put_chars, starts_with, string_of, string_views, text_from, text_of, trim, trim_end, trim_end_char,
    trim_start, trim_start_char, trimmed, utf8_of, views, without_leading, without_trailing, words, words_of,
};

verus! {

/// The token of an access key: the first half of a digest, in hexadecimal.
pub open spec fn token(access_key: Seq<char>) -> Seq<char> {
    hex(sha256(encode_utf8("ostp-subscription:"@ + access_key)).subrange(0, 16))
}

/// The token that addresses an access key: 32 hexadecimal digits, always the
/// same for the same key.
pub fn token_for_key(access_key: &str) -> (r: String)
    ensures
        r@ == token(access_key@),
        r@.len() == 32,
{
    let d = sha256_of(&utf8_of(&joined("ostp-subscription:", access_key)));
    let half = slice_subrange(&d, 0, 16);
    hex_text(half)
}

#[derive(Debug, Clone, Copy, PartialEq, Eq, Structural)]
pub struct SubscriptionUsage {
    /// What was used so far, in both directions.
    pub used_bytes: u64,
    pub limit_bytes: Option<u64>,
}

#[derive(Debug, Clone)]
pub struct SubscriptionDoc {
    /// The title that applications show.
    pub name: String,
    /// How often clients should fetch the document again.
    pub update_interval_hours: u32,
    /// Links, the best first.
    pub links: Vec<String>,
    pub usage: Option<SubscriptionUsage>,
}

/// What a subscription document says.
#[verifier::ext_equal]
pub struct Doc {
    pub name: Seq<char>,
    pub update_interval_hours: u32,
    pub links: Seq<Seq<char>>,
    pub usage: Option<SubscriptionUsage>,
}

impl View for SubscriptionDoc {
    type V = Doc;

    open spec fn view(&self) -> Doc {
        Doc {
            name: self.name@,
            update_interval_hours: self.update_interval_hours,
            links: string_views(self.links@),
            usage: self.usage,
        }
    }
}

/// A document as it came.
#[derive(Debug, Clone)]
pub enum Subscription {
    /// The text of a JSON document.
    Json(String),
    /// A list of links.
    List(SubscriptionDoc),
}

/// A document as it came.
pub enum Form {
    Json(Seq<char>),
    List(Doc),
}

impl View for Subscription {
    type V = Form;

    open spec fn view(&self) -> Form {
        match *self {
            Subscription::Json(t) => Form::Json(t@),
            Subscription::List(d) => Form::List(d@),
        }
    }
}

#[derive(Debug, Clone, Copy, PartialEq, Eq, Structural)]
pub enum SubscriptionError {
    /// There are no links in it.
    NoLinks,
    /// What it encodes is not text.
    NotText,
}

/// How often clients fetch a document that does not say so.
pub const DEFAULT_INTERVAL_HOURS: u32 = 12;

/// All words of a text, with nothing between them.
pub open spec fn compact(parts: Seq<Seq<char>>) -> Seq<char>
    decreases parts.len(),
{
    if parts.len() == 0 {
        Seq::empty()
    } else {
        compact(parts.drop_last()) + parts.last()
    }
}

/// The text of a list: as it is, or in base 64 as a whole.
pub open spec fn listing(body: Seq<char>) -> Result<Seq<char>, SubscriptionError> {
    if contains(body, "ostp://"@) {
        Ok(body)
    } else {
        let c = compact(words(body));
        let raw = match base64_bytes(c) {
            Some(b) => Some(b),
            None => url_base64_bytes(trim_end_char(c, '=')),
        };
        match raw {
            None => Err(SubscriptionError::NoLinks),
            Some(b) => match text_of(b) {
                Some(t) => Ok(t),
                None => Err(SubscriptionError::NotText),
            },
        }
    }
}

/// The lines that are links.
pub open spec fn link_lines(all: Seq<Seq<char>>) -> Seq<Seq<char>>
    decreases all.len(),
{
    if all.len() == 0 {
        Seq::empty()
    } else {
        let rest = link_lines(all.drop_last());
        let l = trim(all.last());
        if starts_with(l, "ostp://"@) {
            rest.push(l)
        } else {
            rest
        }
    }
}

/// A document that is only a list.
pub open spec fn list_doc(links: Seq<Seq<char>>) -> Doc {
    Doc { name: Seq::empty(), update_interval_hours: DEFAULT_INTERVAL_HOURS, links, usage: None }
}

/// What a body stands for: a JSON document, or a list of links, one in each
/// line, as it is or in base 64 as a whole.
pub open spec fn read_body(body: Seq<char>) -> Result<Form, SubscriptionError> {
    let t = trim(trim_start_char(body, '\u{feff}'));
    if t.len() > 0 && t[0] == '{' {
        Ok(Form::Json(t))
    } else {
        match listing(t) {
            Err(e) => Err(e),
            Ok(text) => {
                let links = link_lines(lines(text));
                if links.len() == 0 {
                    Err(SubscriptionError::NoLinks)
                } else {
                    Ok(Form::List(list_doc(links)))
                }
            },
        }
    }
}

/// The links that can be read, in order.
pub open spec fn readable(links: Seq<Seq<char>>) -> Seq<Link>
    decreases links.len(),
{
    if links.len() == 0 {
        Seq::empty()
    } else {
        match read_link(links.last()) {
            Ok(l) => readable(links.drop_last()).push(l),
            Err(_) => readable(links.drop_last()),
        }
    }
}

pub open spec fn share_views(v: Seq<ShareLink>) -> Seq<Link> {
    Seq::new(v.len(), |i: int| v[i]@)
}

fn read_listing(body: &[char]) -> (r: Result<String, SubscriptionError>)
    ensures
        match r {
            Ok(t) => listing(body@) == Ok::<Seq<char>, SubscriptionError>(t@),
            Err(e) => listing(body@) == Err::<Seq<char>, SubscriptionError>(e),
        },
{
    if holds_str(body, "ostp://") {
        return Ok(string_of(body));
    }
    let parts = words_of(body);
    let ghost all = views(parts@);
    let mut c: Vec<char> = Vec::new();
    let mut i: usize = 0;
    assert(all.subrange(0, 0) =~= Seq::<Seq<char>>::empty());
    assert(c@ =~= compact(all.subrange(0, 0)));
    while i < parts.len()
        invariant
            all == views(parts@),
            i <= parts@.len(),
            c@ == compact(all.subrange(0, i as int)),
        decreases parts@.len() - i,
    {
        let ghost u = all.subrange(0, i + 1);
        assert(u.drop_last() =~= all.subrange(0, i as int));
        assert(u.last() == parts@[i as int]@);
        put_chars(&mut c, &parts[i]);
        i += 1;
    }
    assert(all.subrange(0, i as int) =~= all);
    let raw = match base64_read(&string_of(&c)) {
        Some(b) => b,
        None => match url_base64_read(&string_of(without_trailing(&c, '='))) {
            Some(b) => b,
            None => {
                return Err(SubscriptionError::NoLinks);
            },
        },
    };
    match text_from(&raw) {
        Some(t) => Ok(t),
        None => Err(SubscriptionError::NotText),
    }
}

fn find_links(text: &str) -> (r: Vec<String>)
    ensures
        string_views(r@) == link_lines(lines(text@)),
{
    let c = chars_of(text);
    let all = lines_of(&c);
    let ghost a = views(all@);
    let mut out: Vec<String> = Vec::new();
    let mut i: usize = 0;
    assert(a.subrange(0, 0) =~= Seq::<Seq<char>>::empty());
    assert(string_views(out@) =~= link_lines(a.subrange(0, 0)));
    while i < all.len()
        invariant
            a == views(all@),
            i <= all@.len(),
            string_views(out@) == link_lines(a.subrange(0, i as int)),
        decreases all@.len() - i,
    {
        let ghost u = a.subrange(0, i + 1);
        assert(u.drop_last() =~= a.subrange(0, i as int));
        assert(u.last() == all@[i as int]@);
        let ghost before = out@;
        let l = trimmed(&all[i]);
        if begins_str(l, "ostp://") {
            out.push(string_of(l));
            assert(string_views(out@) =~= string_views(before).push(l@));
        }
        i += 1;
    }
    assert(a.subrange(0, i as int) =~= a);
    out
}

impl SubscriptionDoc {
    /// Reads a body: a JSON document, or a list of links, one in each line, as it
    /// is or in base 64 as a whole.
    pub fn parse(body: &str) -> (r: Result<Subscription, SubscriptionError>)
        ensures
            match r {
                Ok(s) => read_body(body@) == Ok::<Form, SubscriptionError>(s@),
                Err(e) => read_body(body@) == Err::<Form, SubscriptionError>(e),
            },
    {
        let c = chars_of(body);
        let t = trimmed(without_leading(&c, '\u{feff}'));
        if t.len() > 0 && t[0] == '{' {
            return Ok(Subscription::Json(string_of(t)));
        }
        let text = match read_listing(t) {
            Ok(text) => text,
            Err(e) => {
                return Err(e);
            },
        };
        let links = find_links(&text);
        if links.len() == 0 {
            return Err(SubscriptionError::NoLinks);
        }
        let name = string_of(vstd::slice::slice_subrange(t, 0, 0));
        assert(name@ =~= Seq::<char>::empty());
        let d = SubscriptionDoc { name, update_interval_hours: DEFAULT_INTERVAL_HOURS, links, usage: None };
        assert(d@ =~= list_doc(link_lines(lines(text@))));
        Ok(Subscription::List(d))
    }

    /// The links that can be read, in order.
    pub fn valid_links(&self) -> (r: Vec<ShareLink>)
        ensures
            share_views(r@) == readable(self@.links),
    {
        let ghost a = self@.links;
        let mut out: Vec<ShareLink> = Vec::new();
        let mut i: usize = 0;
        assert(a.subrange(0, 0) =~= Seq::<Seq<char>>::empty());
        assert(share_views(out@) =~= readable(a.subrange(0, 0)));
        while i < self.links.len()
            invariant
                a == string_views(self.links@),
                i <= a.len(),
                share_views(out@) == readable(a.subrange(0, i as int)),
            decreases a.len() - i,
        {
            let ghost u = a.subrange(0, i + 1);
            assert(u.drop_last() =~= a.subrange(0, i as int));
            assert(u.last() == self.links@[i as int]@);
            let ghost before = out@;
            match ShareLink::parse(&self.links[i]) {
                Ok(l) => {
                    out.push(l);
                    assert(share_views(out@) =~= share_views(before).push(l@));
                },
                Err(_) => {},
            }
            i += 1;
        }
        assert(a.subrange(0, i as int) =~= a);
        out
    }
}

// ── Laws ─────────────────────────────────────────────────────────────────────

/// The text of a list, as it is sent: one link in each line.
pub open spec fn list_text(links: Seq<Seq<char>>) -> Seq<char> {
    join(links, "\n"@) + "\n"@
}

/// A link that can stand in a list: it begins as links do, does not end with white space,
/// and holds no line break.
pub open spec fn listable(l: Seq<char>) -> bool {
    starts_with(l, "ostp://"@) && !is_white(l.last()) && forall|i: int| 0 <= i < l.len() ==> #[trigger] l[i] != '\n'
}

proof fn lemma_trim_clean(l: Seq<char>)
    requires
        listable(l),
    ensures
        trim(l) == l,
        l.len() >= 7,
        l[0] == 'o',
{
    reveal_strlit("ostp://");
    assert(l.subrange(0, 7)[0] == "ostp://"@[0]);
    assert(!is_white(l[0]));
}

proof fn lemma_clean_lines(links: Seq<Seq<char>>)
    requires
        forall|i: int| 0 <= i < links.len() ==> listable(#[trigger] links[i]),
    ensures
        link_lines(links) == links,
    decreases links.len(),
{
    if links.len() > 0 {
        assert forall|i: int| 0 <= i < links.drop_last().len() implies listable(#[trigger] links.drop_last()[i]) by {
            assert(listable(links[i]));
        }
        lemma_clean_lines(links.drop_last());
        assert(listable(links[links.len() - 1]));
        lemma_trim_clean(links.last());
        assert(link_lines(links) =~= links);
    } else {
        assert(link_lines(links) =~= links);
    }
}

proof fn lemma_lines_of_list(links: Seq<Seq<char>>)
    requires
        links.len() > 0,
        forall|i: int| 0 <= i < links.len() ==> listable(#[trigger] links[i]),
    ensures
        lines(join(links, "\n"@)) == links,
        lines(list_text(links)) == links,
    decreases links.len(),
{
    reveal_strlit("\n");
    assert("\n"@ =~= seq!['\n']);
    let s = join(links, "\n"@);
    let l = links[0];
    assert(listable(links[0]));
    lemma_trim_clean(l);
    let t = list_text(links);
    if links.len() == 1 {
        lemma_find_char_none(s, '\n');
        assert(lines(s) =~= links);
        lemma_find_char_is(t, '\n', l.len() as int);
        assert(t.subrange(0, l.len() as int) =~= l);
        assert(t.subrange(1int + l.len(), t.len() as int) =~= Seq::<char>::empty());
        assert(lines(Seq::<char>::empty()) =~= Seq::<Seq<char>>::empty());
        assert(seq![l] + Seq::<Seq<char>>::empty() =~= links);
        assert(lines(t) =~= links);
    } else {
        let rest = links.drop_first();
        lemma_join_front(links, "\n"@);
        assert forall|i: int| 0 <= i < rest.len() implies listable(#[trigger] rest[i]) by {
            assert(listable(links[i + 1]));
        }
        lemma_lines_of_list(rest);
        let n = l.len() as int;
        lemma_find_char_is(s, '\n', n);
        assert(s.subrange(0, n) =~= l);
        assert(s.subrange(n + 1, s.len() as int) =~= join(rest, "\n"@));
        lemma_find_char_is(t, '\n', n);
        assert(t.subrange(0, n) =~= l);
        assert(t.subrange(n + 1, t.len() as int) =~= list_text(rest));
        assert(seq![l] + rest =~= links);
    }
}

/// A list of links, one in each line, is read as that list, with a line break at its end or
/// without.
pub proof fn lists_round_trip(links: Seq<Seq<char>>)
    requires
        links.len() > 0,
        forall|i: int| 0 <= i < links.len() ==> listable(#[trigger] links[i]),
    ensures
        read_body(list_text(links)) == Ok::<Form, SubscriptionError>(Form::List(list_doc(links))),
        read_body(join(links, "\n"@)) == Ok::<Form, SubscriptionError>(Form::List(list_doc(links))),
{
    reveal_strlit("\n");
    reveal_strlit("ostp://");
    let j = join(links, "\n"@);
    let body = list_text(links);
    assert(listable(links[0]) && listable(links[links.len() - 1]));
    lemma_trim_clean(links[0]);
    lemma_trim_clean(links.last());
    if links.len() > 1 {
        lemma_join_front(links, "\n"@);
    }
    assert(j.len() >= 7);
    assert(j.subrange(0, 7) =~= links[0].subrange(0, 7));
    assert(j[0] == 'o');
    assert(j.last() == links.last().last());
    assert(trim_start_char(j, '\u{feff}') == j);
    assert(trim(j) == j);
    assert(body[0] == 'o');
    assert(trim_start_char(body, '\u{feff}') == body);
    assert(trim_start(body) == body);
    assert(body.last() == '\n');
    assert(body.drop_last() =~= j);
    assert(trim_end(body) == trim_end(j));
    assert(trim(body) == j);
    assert(j.subrange(0, 0int + "ostp://"@.len()) == "ostp://"@);
    assert(contains(j, "ostp://"@));
    lemma_lines_of_list(links);
    lemma_clean_lines(links);
}

/// Links as they are sent are read as the links that they were made from.
pub proof fn served_links_are_read(ls: Seq<Link>)
    requires
        ls.len() > 0,
        forall|i: int|
            0 <= i < ls.len() ==> expressible(#[trigger] ls[i]) && forall|k: int|
                0 <= k < ls[i].host.len() ==> #[trigger] ls[i].host[k] != '\n',
    ensures
        read_body(list_text(uris(ls))) == Ok::<Form, SubscriptionError>(Form::List(list_doc(uris(ls)))),
        readable(uris(ls)) == ls,
{
    assert forall|i: int| 0 <= i < uris(ls).len() implies listable(#[trigger] uris(ls)[i]) by {
        assert(expressible(ls[i]));
        uris_are_listable(ls[i]);
    }
    lists_round_trip(uris(ls));
    lemma_readable(ls);
}

/// The texts of links.
pub open spec fn uris(ls: Seq<Link>) -> Seq<Seq<char>> {
    Seq::new(ls.len(), |i: int| ls[i].uri())
}

proof fn lemma_readable(ls: Seq<Link>)
    requires
        forall|i: int| 0 <= i < ls.len() ==> expressible(#[trigger] ls[i]),
    ensures
        readable(uris(ls)) == ls,
    decreases ls.len(),
{
    if ls.len() > 0 {
        assert forall|i: int| 0 <= i < ls.drop_last().len() implies expressible(#[trigger] ls.drop_last()[i]) by {
            assert(expressible(ls[i]));
        }
        lemma_readable(ls.drop_last());
        assert(uris(ls).drop_last() =~= uris(ls.drop_last()));
        assert(expressible(ls[ls.len() - 1]));
        links_round_trip(ls.last());
        assert(uris(ls).last() == ls.last().uri());
        assert(readable(uris(ls)) =~= ls);
    } else {
        assert(readable(uris(ls)) =~= ls);
    }
}

/// The text of a link can stand in a list.
pub proof fn uris_are_listable(l: Link)
    requires
        expressible(l),
        forall|k: int| 0 <= k < l.host.len() ==> #[trigger] l.host[k] != '\n',
    ensures
        listable(l.uri()),
{
    reveal_strlit("ostp://");
    reveal_strlit("&");
    let u = l.uri();
    let key = component(l.key);
    let server = l.server_text();
    let q = join(l.params(), "&"@);
    components_round_trip(l.key);
    lemma_query_chars(l);
    lemma_decimal_digits(l.port as nat);
    let d = decimal(l.port as nat);
    assert forall|k: int| 0 <= k < server.len() implies #[trigger] server[k] != '\n' by {
        let m = server.len() - d.len();
        if k >= m {
            assert(is_digit(d[k - m]));
        } else if has_char(l.host, ':') {
            if 1 <= k <= l.host.len() {
                assert(l.host[k - 1] != '\n');
            }
        } else if k < l.host.len() {
            assert(l.host[k] != '\n');
        }
    }
    assert(u.subrange(0, 7) =~= "ostp://"@);
    assert(u.last() == if q.len() > 0 {
        q.last()
    } else {
        '?'
    });
    assert forall|i: int| 0 <= i < u.len() implies #[trigger] u[i] != '\n' by {
        let k = key.len() as int;
        let m = server.len() as int;
        if i < 7 {
            assert(u[i] == "ostp://"@[i]);
        } else if i < 7 + k {
            assert(u[i] == key[i - 7]);
            assert(encoded_char(key[i - 7]));
        } else if i == 7 + k {
        } else if i < 8 + k + m {
            assert(u[i] == server[i - 8 - k]);
        } else if i == 8 + k + m {
        } else {
            assert(u[i] == q[i - 9 - k - m]);
        }
    }
}

/// A list that is sent in base 64 as a whole is read as the list itself: any text
/// of the alphabet of base 64 that decodes to the bytes of a list.
pub proof fn encoded_lists_are_read(e: Seq<char>, t: Seq<char>)
    requires
        base64_bytes(e) == Some(encode_utf8(t)),
        forall|i: int| 0 <= i < e.len() ==> base64_char(#[trigger] e[i]),
        link_lines(lines(t)).len() > 0,
    ensures
        read_body(e) == Ok::<Form, SubscriptionError>(Form::List(list_doc(link_lines(lines(t))))),
{
    reveal_strlit("ostp://");
    assert forall|i: int| 0 <= i < e.len() implies !is_white(#[trigger] e[i]) by {
        assert(base64_char(e[i]));
    }
    if e.len() > 0 {
        assert(base64_char(e[0]) && base64_char(e[e.len() - 1]));
        assert(!is_white(e[0]) && !is_white(e[e.len() - 1]));
    }
    assert(trim_start_char(e, '\u{feff}') == e);
    assert(trim(e) == e);
    if contains(e, "ostp://"@) {
        let i = choose|i: int|
            0 <= i <= e.len() - "ostp://"@.len() && #[trigger] e.subrange(i, i + "ostp://"@.len()) == "ostp://"@;
        assert(e.subrange(i, i + 7)[4] == "ostp://"@[4]);
        assert(base64_char(e[i + 4]));
    }
    lemma_compact_word(e);
    lemma_text_of_encoded(t);
}

/// A list of links that is sent in base 64 as a whole is read as that list.
pub proof fn encoded_lists_round_trip(links: Seq<Seq<char>>, e: Seq<char>)
    requires
        links.len() > 0,
        forall|i: int| 0 <= i < links.len() ==> listable(#[trigger] links[i]),
        base64_bytes(e) == Some(encode_utf8(join(links, "\n"@))) || base64_bytes(e) == Some(
            encode_utf8(list_text(links)),
        ),
        forall|i: int| 0 <= i < e.len() ==> base64_char(#[trigger] e[i]),
    ensures
        read_body(e) == Ok::<Form, SubscriptionError>(Form::List(list_doc(links))),
{
    lemma_lines_of_list(links);
    lemma_clean_lines(links);
    if base64_bytes(e) == Some(encode_utf8(list_text(links))) {
        encoded_lists_are_read(e, list_text(links));
    } else {
        encoded_lists_are_read(e, join(links, "\n"@));
    }
}

proof fn lemma_compact_word(e: Seq<char>)
    requires
        forall|i: int| 0 <= i < e.len() ==> !is_white(#[trigger] e[i]),
    ensures
        compact(words(e)) == e,
{
    assert(compact(Seq::<Seq<char>>::empty()) =~= Seq::<char>::empty());
    if e.len() == 0 {
        assert(words(e) =~= Seq::<Seq<char>>::empty());
    } else {
        lemma_one_word(e);
        assert(words(e).drop_last() =~= Seq::<Seq<char>>::empty());
        assert(compact(words(e)) =~= e);
    }
}

/// Links that can be read are read, and the others are passed over.
pub proof fn readable_links_are_read(links: Seq<Seq<char>>, i: int, l: Link)
    requires
        0 <= i < links.len(),
        read_link(links[i]) matches Ok(m) && m == l,
    ensures
        readable(links).contains(l),
        readable(links).len() <= links.len(),
    decreases links.len(),
{
    let d = links.drop_last();
    let r = readable(links);
    lemma_readable_len(d);
    if i < links.len() - 1 {
        assert(d[i] == links[i]);
        readable_links_are_read(d, i, l);
        let k = choose|k: int| 0 <= k < readable(d).len() && readable(d)[k] == l;
        assert(r[k] == l);
    } else {
        assert(r[r.len() - 1] == l);
    }
}

proof fn lemma_readable_len(links: Seq<Seq<char>>)
    ensures
        readable(links).len() <= links.len(),
    decreases links.len(),
{
    if links.len() > 0 {
        lemma_readable_len(links.drop_last());
    }
}

/// A body that begins with a brace is JSON, whatever stands in it.
pub proof fn braces_mean_json(body: Seq<char>)
    requires
        body.len() > 0,
        body[0] == '{',
        !is_white(body.last()),
    ensures
        read_body(body) == Ok::<Form, SubscriptionError>(Form::Json(body)),
{
    assert(trim_start_char(body, '\u{feff}') == body);
    assert(!is_white('{'));
    assert(trim_start(body) == body);
    assert(trim(body) == body);
}

/// The token of a key is the half of a digest, in hexadecimal: thirty-two digits.
pub proof fn tokens_are_half_a_digest(access_key: Seq<char>)
    requires
        sha256(encode_utf8("ostp-subscription:"@ + access_key)).len() == 32,
    ensures
        token(access_key).len() == 32,
        token(access_key) == hex(sha256(encode_utf8("ostp-subscription:"@ + access_key)).take(16)),
{
    let s = sha256(encode_utf8("ostp-subscription:"@ + access_key));
    assert(s.subrange(0, 16) =~= s.take(16));
}

} // verus!
