//! Heads of HTTP requests.

use subtle::ConstantTimeEq;
use vstd::prelude::*;

use crate::text::{
    chars_of, eq_nocase, same_nocase, string_of, text_from, text_of, trim, trimmed,
};

verus! {

/// The head of a request.
#[derive(Debug, Clone)]
pub struct RequestHead {
    pub method: Option<String>,
    pub path: Option<String>,
    pub headers: Vec<(String, Vec<u8>)>,
}

/// What the head of a request says.
pub type Head = (Option<Seq<char>>, Option<Seq<char>>, Seq<(Seq<char>, Seq<u8>)>);

pub open spec fn header_views(v: Seq<(String, Vec<u8>)>) -> Seq<(Seq<char>, Seq<u8>)> {
    Seq::new(v.len(), |i: int| (v[i].0@, v[i].1@))
}

pub open spec fn opt_chars(s: Option<String>) -> Option<Seq<char>> {
    match s {
        Some(t) => Some(t@),
        None => None,
    }
}

impl View for RequestHead {
    type V = Head;

    open spec fn view(&self) -> Head {
        (opt_chars(self.method), opt_chars(self.path), header_views(self.headers@))
    }
}

/// The head that bytes hold: method, path and at most 32 headers, where the
/// bytes are a whole and proper head of a request.
pub uninterp spec fn http_head(b: Seq<u8>) -> Option<
    (Option<Seq<char>>, Option<Seq<char>>, Seq<(Seq<char>, Seq<u8>)>),
>;

/// `httparse::Request::parse` with room for 32 headers: method, path and headers
/// of a complete head, and nothing where the head is partial or an error; a
/// function of the bytes alone.
#[verifier::external_body]
pub(crate) fn parse_head(b: &[u8]) -> (r: Option<RequestHead>)
    ensures
        match r {
            Some(h) => http_head(b@) == Some(h@),
            None => http_head(b@) is None,
        },
{
    let mut headers = [httparse::EMPTY_HEADER; 32];
    let mut req = httparse::Request::new(&mut headers);
    match req.parse(b) {
        Ok(httparse::Status::Complete(_)) => Some(RequestHead {
            method: req.method.map(|m| m.to_string()),
            path: req.path.map(|p| p.to_string()),
            headers: req.headers.iter().map(|h| (h.name.to_string(), h.value.to_vec())).collect(),
        }),
        Ok(httparse::Status::Partial) | Err(_) => None,
    }
}

/// `subtle::ConstantTimeEq::ct_eq` on byte slices: whether they are equal, in a
/// time that does not tell where they differ.
#[verifier::external_body]
pub(crate) fn same_secret(a: &[u8], b: &[u8]) -> (r: bool)
    ensures
        r == (a@ == b@),
{
    bool::from(a.ct_eq(b))
}

/// The value of the first header of a name, whatever its case.
pub open spec fn first_header(h: Seq<(Seq<char>, Seq<u8>)>, name: Seq<char>) -> Option<Seq<u8>>
    decreases h.len(),
{
    if h.len() == 0 {
        None
    } else if eq_nocase(h[0].0, name) {
        Some(h[0].1)
    } else {
        first_header(h.drop_first(), name)
    }
}

/// The text of the first header of a name; nothing where it is not UTF-8.
pub open spec fn header(h: Head, name: Seq<char>) -> Option<Seq<char>> {
    match first_header(h.2, name) {
        Some(v) => text_of(v),
        None => None,
    }
}

/// The same without white space around it.
pub open spec fn trimmed_header(h: Head, name: Seq<char>) -> Option<Seq<char>> {
    match header(h, name) {
        Some(t) => Some(trim(t)),
        None => None,
    }
}

impl RequestHead {
    /// The text of the first header of a name.
    pub fn header(&self, name: &str) -> (r: Option<String>)
        ensures
            opt_chars(r) == header(self@, name@),
    {
        let n = chars_of(name);
        let ghost all = self@.2;
        let mut i: usize = 0;
        assert(all.subrange(0, all.len() as int) =~= all);
        while i < self.headers.len()
            invariant
                n@ == name@,
                all == header_views(self.headers@),
                all == self@.2,
                i <= all.len(),
                first_header(all, name@) == first_header(all.subrange(i as int, all.len() as int), name@),
            decreases all.len() - i,
        {
            let ghost rest = all.subrange(i as int, all.len() as int);
            assert(rest.drop_first() =~= all.subrange(i + 1, all.len() as int));
            assert(rest[0] == all[i as int]);
            if same_nocase(&chars_of(&self.headers[i].0), &n) {
                return text_from(&self.headers[i].1);
            }
            i += 1;
        }
        assert(all.subrange(i as int, all.len() as int) =~= Seq::empty());
        None
    }

    /// The same without white space around it.
    pub fn trimmed_header(&self, name: &str) -> (r: Option<String>)
        ensures
            opt_chars(r) == trimmed_header(self@, name@),
    {
        match self.header(name) {
            Some(t) => {
                let c = chars_of(&t);
                Some(string_of(trimmed(&c)))
            },
            None => None,
        }
    }
}

/// A header is found whatever the case of its name, and the first one of a name counts.
pub proof fn the_first_header_counts(h: Seq<(Seq<char>, Seq<u8>)>, i: int, name: Seq<char>)
    requires
        0 <= i < h.len(),
        eq_nocase(h[i].0, name),
        forall|j: int| 0 <= j < i ==> !eq_nocase((#[trigger] h[j]).0, name),
    ensures
        first_header(h, name) == Some(h[i].1),
    decreases i,
{
    if i > 0 {
        assert(!eq_nocase(h[0].0, name));
        let d = h.drop_first();
        assert forall|j: int| 0 <= j < i - 1 implies !eq_nocase((#[trigger] d[j]).0, name) by {
            assert(d[j] == h[j + 1]);
        }
        the_first_header_counts(d, i - 1, name);
    }
}

/// A header that is not there is not found, and one that is no text counts for none.
pub proof fn missing_headers_are_not_found(h: Head, name: Seq<char>)
    ensures
        (forall|j: int| 0 <= j < h.2.len() ==> !eq_nocase((#[trigger] h.2[j]).0, name)) ==> header(h, name) is None
            && trimmed_header(h, name) is None,
        first_header(h.2, name) matches Some(v) ==> header(h, name) == text_of(v),
        header(h, name) matches Some(t) ==> trimmed_header(h, name) == Some(trim(t)),
{
    if forall|j: int| 0 <= j < h.2.len() ==> !eq_nocase((#[trigger] h.2[j]).0, name) {
        lemma_no_header(h.2, name);
    }
}

proof fn lemma_no_header(h: Seq<(Seq<char>, Seq<u8>)>, name: Seq<char>)
    requires
        forall|j: int| 0 <= j < h.len() ==> !eq_nocase((#[trigger] h[j]).0, name),
    ensures
        first_header(h, name) is None,
    decreases h.len(),
{
    if h.len() > 0 {
        let d = h.drop_first();
        assert(!eq_nocase(h[0].0, name));
        assert forall|j: int| 0 <= j < d.len() implies !eq_nocase((#[trigger] d[j]).0, name) by {
            assert(d[j] == h[j + 1]);
        }
        lemma_no_header(d, name);
    }
}

} // verus!
