//! Text as sequences of characters: searching, splitting, trimming, numbers.
//!
//! Strings come in as `&str`, are worked on as slices of `char` and go out as
//! `String`; every function here states its result over `Seq<char>`.

use vstd::prelude::*;
use vstd::slice::slice_subrange;

verus! {

broadcast use vstd::string::group_string_axioms;

/// `String::push` of std: appends one character.
pub assume_specification[ String::push ](s: &mut String, c: char)
    ensures
        final(s)@ == old(s)@.push(c),
;

// ── Characters ───────────────────────────────────────────────────────────────

/// Characters with the Unicode property White_Space.
pub open spec fn is_white(c: char) -> bool {
    let u = c as u32;
    (0x9 <= u && u <= 0xD) || u == 0x20 || u == 0x85 || u == 0xA0 || u == 0x1680 || (0x2000 <= u
        && u <= 0x200A) || u == 0x2028 || u == 0x2029 || u == 0x202F || u == 0x205F || u == 0x3000
}

pub fn white(c: char) -> (r: bool)
    ensures
        r == is_white(c),
{
    let u: u32 = c as u32;
    (0x9 <= u && u <= 0xD) || u == 0x20 || u == 0x85 || u == 0xA0 || u == 0x1680 || (0x2000 <= u
        && u <= 0x200A) || u == 0x2028 || u == 0x2029 || u == 0x202F || u == 0x205F || u == 0x3000
}

pub open spec fn is_digit(c: char) -> bool {
    '0' <= c && c <= '9'
}

pub open spec fn is_alpha(c: char) -> bool {
    ('a' <= c && c <= 'z') || ('A' <= c && c <= 'Z')
}

pub open spec fn is_alnum(c: char) -> bool {
    is_digit(c) || is_alpha(c)
}

pub open spec fn is_hex(c: char) -> bool {
    is_digit(c) || ('a' <= c && c <= 'f') || ('A' <= c && c <= 'F')
}

pub fn digit(c: char) -> (r: bool)
    ensures
        r == is_digit(c),
{
    '0' <= c && c <= '9'
}

pub fn alpha(c: char) -> (r: bool)
    ensures
        r == is_alpha(c),
{
    ('a' <= c && c <= 'z') || ('A' <= c && c <= 'Z')
}

pub fn alnum(c: char) -> (r: bool)
    ensures
        r == is_alnum(c),
{
    digit(c) || alpha(c)
}

pub fn hex_digit(c: char) -> (r: bool)
    ensures
        r == is_hex(c),
{
    digit(c) || ('a' <= c && c <= 'f') || ('A' <= c && c <= 'F')
}

/// The ASCII lower case of `c`; other characters stay.
pub open spec fn lower_char(c: char) -> char {
    if 'A' <= c && c <= 'Z' {
        ((c as u32) + 32) as char
    } else {
        c
    }
}

/// The ASCII upper case of `c`; other characters stay.
pub open spec fn upper_char(c: char) -> char {
    if 'a' <= c && c <= 'z' {
        ((c as u32) - 32) as char
    } else {
        c
    }
}

pub fn to_lower_char(c: char) -> (r: char)
    ensures
        r == lower_char(c),
{
    if 'A' <= c && c <= 'Z' {
        ((c as u8) + 32) as char
    } else {
        c
    }
}

pub fn to_upper_char(c: char) -> (r: char)
    ensures
        r == upper_char(c),
{
    if 'a' <= c && c <= 'z' {
        ((c as u8) - 32) as char
    } else {
        c
    }
}

pub open spec fn lower(s: Seq<char>) -> Seq<char> {
    Seq::new(s.len(), |i: int| lower_char(s[i]))
}

pub open spec fn upper(s: Seq<char>) -> Seq<char> {
    Seq::new(s.len(), |i: int| upper_char(s[i]))
}

// ── Strings and character slices ─────────────────────────────────────────────

/// The characters of `s`.
pub fn chars_of(s: &str) -> (out: Vec<char>)
    ensures
        out@ == s@,
{
    let mut out: Vec<char> = Vec::new();
    for c in it: s.chars()
        invariant
            it.seq() == s@,
            out@ == s@.subrange(0, it.index() as int),
    {
        out.push(c);
        assert(out@ =~= s@.subrange(0, it.index() + 1));
    }
    assert(s@.subrange(0, s@.len() as int) =~= s@);
    out
}

/// The characters of `s` as a string.
pub fn string_of(s: &[char]) -> (out: String)
    ensures
        out@ == s@,
{
    let mut out = String::new();
    let mut i: usize = 0;
    while i < s.len()
        invariant
            i <= s@.len(),
            out@ == s@.subrange(0, i as int),
        decreases s@.len() - i,
    {
        out.push(s[i]);
        i += 1;
        assert(out@ =~= s@.subrange(0, i as int));
    }
    assert(s@.subrange(0, s@.len() as int) =~= s@);
    out
}

/// Appends the characters of `s`.
pub fn put_chars(out: &mut Vec<char>, s: &[char])
    ensures
        final(out)@ == old(out)@ + s@,
{
    let mut i: usize = 0;
    while i < s.len()
        invariant
            i <= s@.len(),
            out@ == old(out)@ + s@.subrange(0, i as int),
        decreases s@.len() - i,
    {
        out.push(s[i]);
        i += 1;
        assert(out@ =~= old(out)@ + s@.subrange(0, i as int));
    }
    assert(s@.subrange(0, s@.len() as int) =~= s@);
}

/// Appends the characters of `s`.
pub fn put_str(out: &mut Vec<char>, s: &str)
    ensures
        final(out)@ == old(out)@ + s@,
{
    let v = chars_of(s);
    put_chars(out, &v);
}

/// The characters `from..to` of `s`, copied.
pub fn chars_range(s: &[char], from: usize, to: usize) -> (out: Vec<char>)
    requires
        from <= to <= s@.len(),
    ensures
        out@ == s@.subrange(from as int, to as int),
{
    vstd::slice::slice_to_vec(slice_subrange(s, from, to))
}

/// Whether the two hold the same characters.
pub fn same_chars(a: &[char], b: &[char]) -> (r: bool)
    ensures
        r == (a@ == b@),
{
    if a.len() != b.len() {
        return false;
    }
    let mut i: usize = 0;
    while i < a.len()
        invariant
            a@.len() == b@.len(),
            i <= a@.len(),
            forall|k: int| 0 <= k < i ==> a@[k] == b@[k],
        decreases a@.len() - i,
    {
        if a[i] != b[i] {
            return false;
        }
        i += 1;
    }
    assert(a@ =~= b@);
    true
}

/// Whether the characters are those of `s`.
pub fn chars_are(a: &[char], s: &str) -> (r: bool)
    ensures
        r == (a@ == s@),
{
    let v = chars_of(s);
    same_chars(a, &v)
}

/// Whether the two strings hold the same characters.
pub fn same_str(a: &str, b: &str) -> (r: bool)
    ensures
        r == (a@ == b@),
{
    let v = chars_of(a);
    chars_are(&v, b)
}

/// A copy of `s`.
pub fn owned(s: &str) -> (out: String)
    ensures
        out@ == s@,
{
    s.to_owned()
}

/// `a` followed by `b`.
pub fn joined(a: &str, b: &str) -> (out: String)
    ensures
        out@ == a@ + b@,
{
    let mut v = chars_of(a);
    put_str(&mut v, b);
    string_of(&v)
}

pub fn to_lower(s: &[char]) -> (out: Vec<char>)
    ensures
        out@ == lower(s@),
{
    let mut out: Vec<char> = Vec::new();
    let mut i: usize = 0;
    while i < s.len()
        invariant
            i <= s@.len(),
            out@ == lower(s@).subrange(0, i as int),
        decreases s@.len() - i,
    {
        out.push(to_lower_char(s[i]));
        i += 1;
        assert(out@ =~= lower(s@).subrange(0, i as int));
    }
    assert(lower(s@).subrange(0, s@.len() as int) =~= lower(s@));
    out
}

pub fn to_upper(s: &[char]) -> (out: Vec<char>)
    ensures
        out@ == upper(s@),
{
    let mut out: Vec<char> = Vec::new();
    let mut i: usize = 0;
    while i < s.len()
        invariant
            i <= s@.len(),
            out@ == upper(s@).subrange(0, i as int),
        decreases s@.len() - i,
    {
        out.push(to_upper_char(s[i]));
        i += 1;
        assert(out@ =~= upper(s@).subrange(0, i as int));
    }
    assert(upper(s@).subrange(0, s@.len() as int) =~= upper(s@));
    out
}

/// The ASCII lower case of a string.
pub fn lower_str(s: &str) -> (out: String)
    ensures
        out@ == lower(s@),
{
    let v = chars_of(s);
    string_of(&to_lower(&v))
}

/// Equality without regard to ASCII case.
pub open spec fn eq_nocase(a: Seq<char>, b: Seq<char>) -> bool {
    lower(a) == lower(b)
}

pub fn same_nocase(a: &[char], b: &[char]) -> (r: bool)
    ensures
        r == eq_nocase(a@, b@),
{
    let x = to_lower(a);
    let y = to_lower(b);
    same_chars(&x, &y)
}

// ── Searching ────────────────────────────────────────────────────────────────

/// The first position of `c`.
pub open spec fn find_char(s: Seq<char>, c: char) -> Option<int>
    decreases s.len(),
{
    if s.len() == 0 {
        None
    } else if s[0] == c {
        Some(0)
    } else {
        match find_char(s.drop_first(), c) {
            Some(i) => Some(i + 1),
            None => None,
        }
    }
}

/// The last position of `c`.
pub open spec fn rfind_char(s: Seq<char>, c: char) -> Option<int>
    decreases s.len(),
{
    if s.len() == 0 {
        None
    } else if s.last() == c {
        Some(s.len() - 1)
    } else {
        rfind_char(s.drop_last(), c)
    }
}

pub proof fn lemma_find_char(s: Seq<char>, c: char)
    ensures
        match find_char(s, c) {
            Some(i) => 0 <= i < s.len() && s[i] == c && forall|k: int| 0 <= k < i ==> s[k] != c,
            None => forall|k: int| 0 <= k < s.len() ==> s[k] != c,
        },
    decreases s.len(),
{
    if s.len() > 0 && s[0] != c {
        let t = s.drop_first();
        lemma_find_char(t, c);
        assert forall|k: int| 0 < k < s.len() implies s[k] == t[k - 1] by {}
    }
}

/// The first position is the one before which the character does not occur.
pub proof fn lemma_find_char_is(s: Seq<char>, c: char, i: int)
    requires
        0 <= i < s.len(),
        s[i] == c,
        forall|k: int| 0 <= k < i ==> s[k] != c,
    ensures
        find_char(s, c) == Some(i),
{
    lemma_find_char(s, c);
}

pub proof fn lemma_find_char_none(s: Seq<char>, c: char)
    requires
        forall|k: int| 0 <= k < s.len() ==> s[k] != c,
    ensures
        find_char(s, c) == None::<int>,
{
    lemma_find_char(s, c);
}

pub proof fn lemma_rfind_char(s: Seq<char>, c: char)
    ensures
        match rfind_char(s, c) {
            Some(i) => 0 <= i < s.len() && s[i] == c && forall|k: int| i < k < s.len() ==> s[k] != c,
            None => forall|k: int| 0 <= k < s.len() ==> s[k] != c,
        },
    decreases s.len(),
{
    if s.len() > 0 && s.last() != c {
        let t = s.drop_last();
        lemma_rfind_char(t, c);
        assert forall|k: int| 0 <= k < s.len() - 1 implies s[k] == t[k] by {}
    }
}

pub proof fn lemma_rfind_char_is(s: Seq<char>, c: char, i: int)
    requires
        0 <= i < s.len(),
        s[i] == c,
        forall|k: int| i < k < s.len() ==> s[k] != c,
    ensures
        rfind_char(s, c) == Some(i),
{
    lemma_rfind_char(s, c);
}

pub fn position(s: &[char], c: char) -> (r: Option<usize>)
    ensures
        match r {
            Some(i) => find_char(s@, c) == Some(i as int) && i < s@.len(),
            None => find_char(s@, c) is None,
        },
{
    let mut i: usize = 0;
    while i < s.len()
        invariant
            i <= s@.len(),
            forall|k: int| 0 <= k < i ==> s@[k] != c,
        decreases s@.len() - i,
    {
        if s[i] == c {
            proof {
                lemma_find_char_is(s@, c, i as int);
            }
            return Some(i);
        }
        i += 1;
    }
    proof {
        lemma_find_char_none(s@, c);
    }
    None
}

pub fn last_position(s: &[char], c: char) -> (r: Option<usize>)
    ensures
        match r {
            Some(i) => rfind_char(s@, c) == Some(i as int) && i < s@.len(),
            None => rfind_char(s@, c) is None,
        },
{
    let mut i: usize = s.len();
    while i > 0
        invariant
            i <= s@.len(),
            forall|k: int| i <= k < s@.len() ==> s@[k] != c,
        decreases i,
    {
        if s[i - 1] == c {
            proof {
                lemma_rfind_char_is(s@, c, i - 1);
            }
            return Some(i - 1);
        }
        i -= 1;
    }
    proof {
        lemma_rfind_char(s@, c);
    }
    None
}

pub open spec fn starts_with(s: Seq<char>, p: Seq<char>) -> bool {
    p.len() <= s.len() && s.subrange(0, p.len() as int) == p
}

pub open spec fn ends_with(s: Seq<char>, p: Seq<char>) -> bool {
    p.len() <= s.len() && s.subrange(s.len() - p.len(), s.len() as int) == p
}

pub open spec fn contains(s: Seq<char>, p: Seq<char>) -> bool {
    exists|i: int| 0 <= i <= s.len() - p.len() && #[trigger] s.subrange(i, i + p.len()) == p
}

pub open spec fn has_char(s: Seq<char>, c: char) -> bool {
    exists|i: int| 0 <= i < s.len() && #[trigger] s[i] == c
}

pub fn begins(s: &[char], p: &[char]) -> (r: bool)
    ensures
        r == starts_with(s@, p@),
{
    if p.len() > s.len() {
        return false;
    }
    same_chars(slice_subrange(s, 0, p.len()), p)
}

pub fn begins_str(s: &[char], p: &str) -> (r: bool)
    ensures
        r == starts_with(s@, p@),
{
    let v = chars_of(p);
    begins(s, &v)
}

pub fn ends(s: &[char], p: &[char]) -> (r: bool)
    ensures
        r == ends_with(s@, p@),
{
    if p.len() > s.len() {
        return false;
    }
    same_chars(slice_subrange(s, s.len() - p.len(), s.len()), p)
}

pub fn ends_str(s: &[char], p: &str) -> (r: bool)
    ensures
        r == ends_with(s@, p@),
{
    let v = chars_of(p);
    ends(s, &v)
}

pub fn holds(s: &[char], p: &[char]) -> (r: bool)
    ensures
        r == contains(s@, p@),
{
    if p.len() > s.len() {
        return false;
    }
    let last: usize = s.len() - p.len();
    let mut i: usize = 0;
    loop
        invariant
            last == s@.len() - p@.len(),
            last <= s@.len(),
            s@.len() <= usize::MAX,
            i <= last,
            forall|k: int| 0 <= k < i ==> #[trigger] s@.subrange(k, k + p@.len()) != p@,
        decreases last - i,
    {
        if same_chars(slice_subrange(s, i, i + p.len()), p) {
            return true;
        }
        if i == last {
            return false;
        }
        i += 1;
    }
}

pub fn holds_str(s: &[char], p: &str) -> (r: bool)
    ensures
        r == contains(s@, p@),
{
    let v = chars_of(p);
    holds(s, &v)
}

pub fn holds_char(s: &[char], c: char) -> (r: bool)
    ensures
        r == has_char(s@, c),
{
    let r = position(s, c);
    proof {
        lemma_find_char(s@, c);
    }
    r.is_some()
}

// ── Splitting ────────────────────────────────────────────────────────────────

/// What stands before and after the first `c`.
pub open spec fn split_once(s: Seq<char>, c: char) -> Option<(Seq<char>, Seq<char>)> {
    match find_char(s, c) {
        Some(i) => Some((s.subrange(0, i), s.subrange(i + 1, s.len() as int))),
        None => None,
    }
}

/// What stands before and after the last `c`.
pub open spec fn rsplit_once(s: Seq<char>, c: char) -> Option<(Seq<char>, Seq<char>)> {
    match rfind_char(s, c) {
        Some(i) => Some((s.subrange(0, i), s.subrange(i + 1, s.len() as int))),
        None => None,
    }
}

pub fn cut<'a>(s: &'a [char], c: char) -> (r: Option<(&'a [char], &'a [char])>)
    ensures
        match r {
            Some((a, b)) => split_once(s@, c) == Some((a@, b@)),
            None => split_once(s@, c) is None,
        },
{
    let n: usize = s.len();
    match position(s, c) {
        Some(i) => Some((slice_subrange(s, 0, i), slice_subrange(s, i + 1, n))),
        None => None,
    }
}

pub fn rcut<'a>(s: &'a [char], c: char) -> (r: Option<(&'a [char], &'a [char])>)
    ensures
        match r {
            Some((a, b)) => rsplit_once(s@, c) == Some((a@, b@)),
            None => rsplit_once(s@, c) is None,
        },
{
    let n: usize = s.len();
    match last_position(s, c) {
        Some(i) => Some((slice_subrange(s, 0, i), slice_subrange(s, i + 1, n))),
        None => None,
    }
}

/// The pieces between the occurrences of `c`; always at least one.
pub open spec fn split(s: Seq<char>, c: char) -> Seq<Seq<char>>
    decreases s.len(),
{
    match find_char(s, c) {
        Some(i) => if 0 <= i < s.len() {
            seq![s.subrange(0, i)] + split(s.subrange(i + 1, s.len() as int), c)
        } else {
            seq![s]
        },
        None => seq![s],
    }
}

/// The views of the parts of a list of character vectors.
pub open spec fn views(v: Seq<Vec<char>>) -> Seq<Seq<char>> {
    Seq::new(v.len(), |i: int| v[i]@)
}

/// The views of the strings of a list.
pub open spec fn string_views(v: Seq<String>) -> Seq<Seq<char>> {
    Seq::new(v.len(), |i: int| v[i]@)
}

pub proof fn lemma_split_nonempty(s: Seq<char>, c: char)
    ensures
        split(s, c).len() >= 1,
    decreases s.len(),
{
    lemma_find_char(s, c);
}

pub fn pieces(s: &[char], c: char) -> (out: Vec<Vec<char>>)
    ensures
        views(out@) == split(s@, c),
{
    let mut out: Vec<Vec<char>> = Vec::new();
    let mut rest: &[char] = s;
    loop
        invariant
            views(out@) + split(rest@, c) == split(s@, c),
        decreases rest@.len(),
    {
        proof {
            lemma_find_char(rest@, c);
        }
        match cut(rest, c) {
            Some((a, b)) => {
                let ghost before = views(out@);
                out.push(chars_range(a, 0, a.len()));
                assert(a@.subrange(0, a@.len() as int) =~= a@);
                assert(views(out@) =~= before.push(a@));
                assert(before.push(a@) + split(b@, c) =~= before + (seq![a@] + split(b@, c)));
                rest = b;
            },
            None => {
                let ghost before = views(out@);
                out.push(chars_range(rest, 0, rest.len()));
                assert(rest@.subrange(0, rest@.len() as int) =~= rest@);
                assert(views(out@) =~= before + seq![rest@]);
                return out;
            },
        }
    }
}

/// `parts` with `sep` between each two.
pub open spec fn join(parts: Seq<Seq<char>>, sep: Seq<char>) -> Seq<char>
    decreases parts.len(),
{
    if parts.len() == 0 {
        Seq::empty()
    } else if parts.len() == 1 {
        parts[0]
    } else {
        join(parts.drop_last(), sep) + sep + parts.last()
    }
}

/// The first part goes in front of the join of the others.
pub proof fn lemma_join_front(parts: Seq<Seq<char>>, sep: Seq<char>)
    requires
        parts.len() >= 2,
    ensures
        join(parts, sep) == parts[0] + sep + join(parts.drop_first(), sep),
    decreases parts.len(),
{
    let rest = parts.drop_first();
    if parts.len() > 2 {
        lemma_join_front(parts.drop_last(), sep);
        assert(parts.drop_last().drop_first() =~= rest.drop_last());
        assert(join(parts, sep) =~= parts[0] + sep + (join(rest.drop_last(), sep) + sep + rest.last()));
    } else {
        assert(join(parts.drop_last(), sep) == parts.drop_last()[0]);
        assert(join(rest, sep) == rest[0]);
        assert(join(parts, sep) =~= parts[0] + sep + rest[0]);
    }
}

/// Splitting at a character that the parts lack undoes joining with it.
pub proof fn lemma_split_join(parts: Seq<Seq<char>>, c: char)
    requires
        parts.len() >= 1,
        forall|i: int| 0 <= i < parts.len() ==> !has_char(#[trigger] parts[i], c),
    ensures
        split(join(parts, seq![c]), c) == parts,
    decreases parts.len(),
{
    let s = join(parts, seq![c]);
    let p = parts[0];
    assert forall|k: int| 0 <= k < p.len() implies p[k] != c by {
        assert(!has_char(parts[0], c));
    }
    if parts.len() == 1 {
        lemma_find_char_none(s, c);
        assert(split(s, c) =~= parts);
    } else {
        let rest = parts.drop_first();
        lemma_join_front(parts, seq![c]);
        assert forall|i: int| 0 <= i < rest.len() implies !has_char(#[trigger] rest[i], c) by {
            assert(!has_char(parts[i + 1], c));
        }
        lemma_split_join(rest, c);
        lemma_find_char_is(s, c, p.len() as int);
        assert(s.subrange(0, p.len() as int) =~= p);
        assert(s.subrange(p.len() as int + 1, s.len() as int) =~= join(rest, seq![c]));
        assert(split(s, c) =~= seq![p] + rest);
        assert(seq![p] + rest =~= parts);
    }
}

/// Each character of a join is one of a part or of the separator.
pub proof fn lemma_join_chars(parts: Seq<Seq<char>>, sep: Seq<char>, k: int)
    requires
        0 <= k < join(parts, sep).len(),
    ensures
        has_char(sep, join(parts, sep)[k]) || exists|i: int|
            0 <= i < parts.len() && has_char(#[trigger] parts[i], join(parts, sep)[k]),
    decreases parts.len(),
{
    let c = join(parts, sep)[k];
    if parts.len() == 1 {
        assert(parts[0][k] == c);
        assert(has_char(parts[0], c));
    } else if parts.len() > 1 {
        let j = join(parts.drop_last(), sep);
        if k < j.len() {
            lemma_join_chars(parts.drop_last(), sep, k);
            if !has_char(sep, c) {
                let i = choose|i: int|
                    0 <= i < parts.drop_last().len() && has_char(#[trigger] parts.drop_last()[i], c);
                assert(has_char(parts[i], c));
            }
        } else if k < j.len() + sep.len() {
            assert(sep[k - j.len()] == c);
        } else {
            assert(parts.last()[k - j.len() - sep.len()] == c);
            assert(has_char(parts[parts.len() - 1], c));
        }
    }
}

pub fn join_strings(parts: &Vec<String>, sep: &str) -> (out: String)
    ensures
        out@ == join(string_views(parts@), sep@),
{
    let mut out: Vec<char> = Vec::new();
    let mut i: usize = 0;
    let ghost all = string_views(parts@);
    while i < parts.len()
        invariant
            i <= parts@.len(),
            all == string_views(parts@),
            out@ == join(all.subrange(0, i as int), sep@),
        decreases parts@.len() - i,
    {
        let ghost next = all.subrange(0, i + 1);
        assert(next.drop_last() =~= all.subrange(0, i as int));
        if i > 0 {
            put_str(&mut out, sep);
        }
        put_str(&mut out, parts[i].as_str());
        i += 1;
        assert(out@ =~= join(next, sep@));
    }
    assert(all.subrange(0, all.len() as int) =~= all);
    string_of(&out)
}

// ── Trimming ─────────────────────────────────────────────────────────────────

pub open spec fn trim_start(s: Seq<char>) -> Seq<char>
    decreases s.len(),
{
    if s.len() > 0 && is_white(s[0]) {
        trim_start(s.drop_first())
    } else {
        s
    }
}

pub open spec fn trim_end(s: Seq<char>) -> Seq<char>
    decreases s.len(),
{
    if s.len() > 0 && is_white(s.last()) {
        trim_end(s.drop_last())
    } else {
        s
    }
}

/// Without white space at either end.
pub open spec fn trim(s: Seq<char>) -> Seq<char> {
    trim_end(trim_start(s))
}

pub open spec fn trim_start_char(s: Seq<char>, c: char) -> Seq<char>
    decreases s.len(),
{
    if s.len() > 0 && s[0] == c {
        trim_start_char(s.drop_first(), c)
    } else {
        s
    }
}

pub open spec fn trim_end_char(s: Seq<char>, c: char) -> Seq<char>
    decreases s.len(),
{
    if s.len() > 0 && s.last() == c {
        trim_end_char(s.drop_last(), c)
    } else {
        s
    }
}

pub fn trimmed_start<'a>(s: &'a [char]) -> (r: &'a [char])
    ensures
        r@ == trim_start(s@),
{
    let mut i: usize = 0;
    assert(s@.subrange(0, s@.len() as int) =~= s@);
    while i < s.len() && white(s[i])
        invariant
            i <= s@.len(),
            trim_start(s@) == trim_start(s@.subrange(i as int, s@.len() as int)),
        decreases s@.len() - i,
    {
        let ghost t = s@.subrange(i as int, s@.len() as int);
        assert(t.drop_first() =~= s@.subrange(i + 1, s@.len() as int));
        i += 1;
    }
    slice_subrange(s, i, s.len())
}

pub fn trimmed_end<'a>(s: &'a [char]) -> (r: &'a [char])
    ensures
        r@ == trim_end(s@),
{
    let mut i: usize = s.len();
    assert(s@.subrange(0, s@.len() as int) =~= s@);
    while i > 0 && white(s[i - 1])
        invariant
            i <= s@.len(),
            trim_end(s@) == trim_end(s@.subrange(0, i as int)),
        decreases i,
    {
        let ghost t = s@.subrange(0, i as int);
        assert(t.drop_last() =~= s@.subrange(0, i - 1));
        i -= 1;
    }
    slice_subrange(s, 0, i)
}

pub fn trimmed<'a>(s: &'a [char]) -> (r: &'a [char])
    ensures
        r@ == trim(s@),
{
    trimmed_end(trimmed_start(s))
}

pub fn without_leading<'a>(s: &'a [char], c: char) -> (r: &'a [char])
    ensures
        r@ == trim_start_char(s@, c),
{
    let mut i: usize = 0;
    assert(s@.subrange(0, s@.len() as int) =~= s@);
    while i < s.len() && s[i] == c
        invariant
            i <= s@.len(),
            trim_start_char(s@, c) == trim_start_char(s@.subrange(i as int, s@.len() as int), c),
        decreases s@.len() - i,
    {
        let ghost t = s@.subrange(i as int, s@.len() as int);
        assert(t.drop_first() =~= s@.subrange(i + 1, s@.len() as int));
        i += 1;
    }
    slice_subrange(s, i, s.len())
}

pub fn without_trailing<'a>(s: &'a [char], c: char) -> (r: &'a [char])
    ensures
        r@ == trim_end_char(s@, c),
{
    let mut i: usize = s.len();
    assert(s@.subrange(0, s@.len() as int) =~= s@);
    while i > 0 && s[i - 1] == c
        invariant
            i <= s@.len(),
            trim_end_char(s@, c) == trim_end_char(s@.subrange(0, i as int), c),
        decreases i,
    {
        let ghost t = s@.subrange(0, i as int);
        assert(t.drop_last() =~= s@.subrange(0, i - 1));
        i -= 1;
    }
    slice_subrange(s, 0, i)
}

// ── Lines and words ──────────────────────────────────────────────────────────

/// A line without the carriage return that may end it.
pub open spec fn drop_cr(s: Seq<char>) -> Seq<char> {
    if s.len() > 0 && s.last() == '\r' {
        s.drop_last()
    } else {
        s
    }
}

/// The lines of a text: ended by a newline or by the end of the text, without
/// the newline or the carriage return before it. A newline at the very end
/// starts no further line.
pub open spec fn lines(s: Seq<char>) -> Seq<Seq<char>>
    decreases s.len(),
{
    if s.len() == 0 {
        Seq::empty()
    } else {
        match find_char(s, '\n') {
            Some(i) => if 0 <= i < s.len() {
                seq![drop_cr(s.subrange(0, i))] + lines(s.subrange(i + 1, s.len() as int))
            } else {
                seq![s]
            },
            None => seq![s],
        }
    }
}

pub fn lines_of(s: &[char]) -> (out: Vec<Vec<char>>)
    ensures
        views(out@) == lines(s@),
{
    let mut out: Vec<Vec<char>> = Vec::new();
    let mut rest: &[char] = s;
    while rest.len() > 0
        invariant
            views(out@) + lines(rest@) == lines(s@),
        decreases rest@.len(),
    {
        let ghost before = views(out@);
        proof {
            lemma_find_char(rest@, '\n');
        }
        match cut(rest, '\n') {
            Some((a, b)) => {
                let n: usize = if a.len() > 0 && a[a.len() - 1] == '\r' {
                    a.len() - 1
                } else {
                    a.len()
                };
                out.push(chars_range(a, 0, n));
                assert(a@.subrange(0, n as int) =~= drop_cr(a@));
                assert(views(out@) =~= before.push(drop_cr(a@)));
                assert(before.push(drop_cr(a@)) + lines(b@) =~= before + (seq![drop_cr(a@)] + lines(b@)));
                rest = b;
            },
            None => {
                out.push(chars_range(rest, 0, rest.len()));
                assert(rest@.subrange(0, rest@.len() as int) =~= rest@);
                assert(views(out@) =~= before + seq![rest@]);
                return out;
            },
        }
    }
    assert(views(out@) + lines(rest@) =~= views(out@));
    out
}

/// The number of characters before the first white space.
pub open spec fn word_len(s: Seq<char>) -> int
    decreases s.len(),
{
    if s.len() == 0 || is_white(s[0]) {
        0
    } else {
        1 + word_len(s.drop_first())
    }
}

pub proof fn lemma_word_len(s: Seq<char>)
    ensures
        0 <= word_len(s) <= s.len(),
        s.len() > 0 && !is_white(s[0]) ==> word_len(s) > 0,
    decreases s.len(),
{
    if s.len() > 0 && !is_white(s[0]) {
        lemma_word_len(s.drop_first());
    }
}

pub proof fn lemma_trim_start_len(s: Seq<char>)
    ensures
        trim_start(s).len() <= s.len(),
        trim_start(s).len() > 0 ==> !is_white(trim_start(s)[0]),
    decreases s.len(),
{
    if s.len() > 0 && is_white(s[0]) {
        lemma_trim_start_len(s.drop_first());
    }
}

/// The runs of characters between white space.
pub open spec fn words(s: Seq<char>) -> Seq<Seq<char>>
    decreases s.len(),
{
    proof {
        lemma_trim_start_len(s);
        lemma_word_len(trim_start(s));
    }
    let t = trim_start(s);
    let n = word_len(t);
    if t.len() == 0 || n <= 0 || n > t.len() {
        Seq::empty()
    } else {
        seq![t.subrange(0, n)] + words(t.subrange(n, t.len() as int))
    }
}

/// A text without white space is one word.
pub proof fn lemma_one_word(e: Seq<char>)
    requires
        e.len() > 0,
        forall|i: int| 0 <= i < e.len() ==> !is_white(#[trigger] e[i]),
    ensures
        words(e) == seq![e],
{
    assert(!is_white(e[0]));
    lemma_whole_word(e);
    let rest = e.subrange(e.len() as int, e.len() as int);
    assert(rest =~= Seq::<char>::empty());
    assert(words(rest) =~= Seq::<Seq<char>>::empty());
    assert(e.subrange(0, e.len() as int) =~= e);
    assert(words(e) =~= seq![e]);
}

/// A word before white space is the first one.
pub proof fn lemma_first_word(e: Seq<char>, rest: Seq<char>)
    requires
        e.len() > 0,
        forall|i: int| 0 <= i < e.len() ==> !is_white(#[trigger] e[i]),
        rest.len() == 0 || is_white(rest[0]),
    ensures
        words(e + rest) == seq![e] + words(rest),
{
    let s = e + rest;
    assert(!is_white(e[0]));
    assert(trim_start(s) == s);
    lemma_word_before(e, rest);
    assert(s.subrange(0, e.len() as int) =~= e);
    assert(s.subrange(e.len() as int, s.len() as int) =~= rest);
}

proof fn lemma_word_before(e: Seq<char>, rest: Seq<char>)
    requires
        forall|i: int| 0 <= i < e.len() ==> !is_white(#[trigger] e[i]),
        rest.len() == 0 || is_white(rest[0]),
    ensures
        word_len(e + rest) == e.len(),
    decreases e.len(),
{
    if e.len() == 0 {
        assert(e + rest =~= rest);
    } else {
        assert(!is_white(e[0]));
        let t = e.drop_first();
        assert forall|i: int| 0 <= i < t.len() implies !is_white(#[trigger] t[i]) by {
            assert(!is_white(e[i + 1]));
        }
        lemma_word_before(t, rest);
        assert((e + rest).drop_first() =~= t + rest);
    }
}

/// White space before a text adds no word.
pub proof fn lemma_space_before(s: Seq<char>)
    ensures
        words(seq![' '] + s) == words(s),
{
    let t = seq![' '] + s;
    assert(t.drop_first() =~= s);
    assert(is_white(t[0]));
    assert(trim_start(t) == trim_start(s));
}

proof fn lemma_whole_word(e: Seq<char>)
    requires
        forall|i: int| 0 <= i < e.len() ==> !is_white(#[trigger] e[i]),
    ensures
        word_len(e) == e.len(),
    decreases e.len(),
{
    if e.len() > 0 {
        assert(!is_white(e[0]));
        let t = e.drop_first();
        assert forall|i: int| 0 <= i < t.len() implies !is_white(#[trigger] t[i]) by {
            assert(!is_white(e[i + 1]));
        }
        lemma_whole_word(t);
    }
}

pub fn words_of(s: &[char]) -> (out: Vec<Vec<char>>)
    ensures
        views(out@) == words(s@),
{
    let mut out: Vec<Vec<char>> = Vec::new();
    let mut rest: &[char] = s;
    loop
        invariant
            views(out@) + words(rest@) == words(s@),
        decreases rest@.len(),
    {
        let ghost before = views(out@);
        let t = trimmed_start(rest);
        proof {
            lemma_trim_start_len(rest@);
            lemma_word_len(t@);
        }
        if t.len() == 0 {
            assert(before + words(rest@) =~= before);
            return out;
        }
        let mut n: usize = 0;
        assert(t@.subrange(0, t@.len() as int) =~= t@);
        while n < t.len() && !white(t[n])
            invariant
                n <= t@.len(),
                word_len(t@) == n + word_len(t@.subrange(n as int, t@.len() as int)),
            decreases t@.len() - n,
        {
            let ghost u = t@.subrange(n as int, t@.len() as int);
            assert(u.drop_first() =~= t@.subrange(n + 1, t@.len() as int));
            n += 1;
        }
        out.push(chars_range(t, 0, n));
        let next = slice_subrange(t, n, t.len());
        assert(views(out@) =~= before.push(t@.subrange(0, n as int)));
        assert(before.push(t@.subrange(0, n as int)) + words(next@) =~= before + (seq![
            t@.subrange(0, n as int),
        ] + words(next@)));
        rest = next;
    }
}

// ── Numbers ──────────────────────────────────────────────────────────────────

pub open spec fn all_digits(s: Seq<char>) -> bool {
    forall|i: int| 0 <= i < s.len() ==> is_digit(#[trigger] s[i])
}

/// The value of a run of decimal digits.
pub open spec fn digits_value(s: Seq<char>) -> int
    decreases s.len(),
{
    if s.len() == 0 {
        0
    } else {
        digits_value(s.drop_last()) * 10 + (s.last() as u32 - '0' as u32)
    }
}

/// The number that a decimal text stands for: digits, with a `+` in front of
/// them or not, at most `max`.
pub open spec fn parse_number(s: Seq<char>, max: int) -> Option<int> {
    let d = if s.len() > 0 && s[0] == '+' {
        s.drop_first()
    } else {
        s
    };
    plain_number(d, max)
}

proof fn lemma_digits_value_mono(s: Seq<char>, i: int)
    requires
        all_digits(s),
        0 <= i <= s.len(),
    ensures
        0 <= digits_value(s.subrange(0, i)) <= digits_value(s),
    decreases s.len() - i,
{
    if i == s.len() {
        assert(s.subrange(0, i) =~= s);
        lemma_digits_value_nonneg(s);
    } else {
        let t = s.subrange(0, i + 1);
        lemma_digits_value_mono(s, i + 1);
        assert(t.drop_last() =~= s.subrange(0, i));
        assert(all_digits(s.subrange(0, i))) by {
            assert forall|k: int| 0 <= k < i implies is_digit(#[trigger] s.subrange(0, i)[k]) by {
                assert(is_digit(s[k]));
            }
        }
        lemma_digits_value_nonneg(s.subrange(0, i));
        assert(is_digit(s[i]));
        assert(t.last() == s[i]);
    }
}

pub proof fn lemma_digits_value_nonneg(s: Seq<char>)
    requires
        all_digits(s),
    ensures
        digits_value(s) >= 0,
    decreases s.len(),
{
    if s.len() > 0 {
        assert(is_digit(s[s.len() - 1]));
        assert(all_digits(s.drop_last())) by {
            assert forall|k: int| 0 <= k < s.len() - 1 implies is_digit(#[trigger] s.drop_last()[k]) by {
                assert(is_digit(s[k]));
            }
        }
        lemma_digits_value_nonneg(s.drop_last());
    }
}

/// The number that a run of decimal digits stands for, at most `max`.
pub open spec fn plain_number(d: Seq<char>, max: int) -> Option<int> {
    if d.len() > 0 && all_digits(d) && digits_value(d) <= max {
        Some(digits_value(d))
    } else {
        None
    }
}

/// Reads a run of decimal digits of at most `max`.
pub fn digits_number(d: &[char], max: u64) -> (r: Option<u64>)
    requires
        max <= 0xffff_ffff_ffff,
    ensures
        match r {
            Some(n) => plain_number(d@, max as int) == Some(n as int),
            None => plain_number(d@, max as int) is None,
        },
{
    if d.len() == 0 {
        return None;
    }
    let mut i: usize = 0;
    while i < d.len()
        invariant
            i <= d@.len(),
            forall|k: int| 0 <= k < i ==> is_digit(#[trigger] d@[k]),
        decreases d@.len() - i,
    {
        if !digit(d[i]) {
            assert(!is_digit(d@[i as int]));
            return None;
        }
        i += 1;
    }
    assert(all_digits(d@));
    let mut n: u64 = 0;
    let mut j: usize = 0;
    while j < d.len()
        invariant
            j <= d@.len(),
            all_digits(d@),
            n <= max <= 0xffff_ffff_ffff,
            n == digits_value(d@.subrange(0, j as int)),
        decreases d@.len() - j,
    {
        let ghost t = d@.subrange(0, j + 1);
        assert(t.drop_last() =~= d@.subrange(0, j as int));
        assert(t.last() == d@[j as int]);
        assert(is_digit(d@[j as int]));
        n = n * 10 + (d[j] as u64 - '0' as u64);
        if n > max {
            proof {
                lemma_digits_value_mono(d@, j + 1);
            }
            return None;
        }
        j += 1;
    }
    assert(d@.subrange(0, d@.len() as int) =~= d@);
    Some(n)
}

/// Reads a decimal number of at most `max`.
pub fn number(s: &[char], max: u64) -> (r: Option<u64>)
    requires
        max <= 0xffff_ffff_ffff,
    ensures
        match r {
            Some(n) => parse_number(s@, max as int) == Some(n as int),
            None => parse_number(s@, max as int) is None,
        },
{
    if s.len() > 0 && s[0] == '+' {
        let d = slice_subrange(s, 1, s.len());
        assert(d@ =~= s@.drop_first());
        digits_number(d, max)
    } else {
        digits_number(s, max)
    }
}

/// The decimal digit of a value below ten.
pub open spec fn digit_char(d: int) -> char {
    (('0' as u32) + d) as char
}

/// The decimal text of `n`.
pub open spec fn decimal(n: nat) -> Seq<char>
    decreases n,
{
    if n < 10 {
        seq![digit_char(n as int)]
    } else {
        decimal(n / 10).push(digit_char((n % 10) as int))
    }
}

/// The character of a decimal digit.
pub fn char_of_digit(d: u64) -> (c: char)
    requires
        d < 10,
    ensures
        c == digit_char(d as int),
{
    (48 + d as u8) as char
}

/// Appends the decimal text of `n`.
pub fn put_decimal(out: &mut Vec<char>, n: u64)
    ensures
        final(out)@ == old(out)@ + decimal(n as nat),
    decreases n,
{
    if n < 10 {
        out.push(char_of_digit(n));
    } else {
        put_decimal(out, n / 10);
        out.push(char_of_digit(n % 10));
    }
    assert(out@ =~= old(out)@ + decimal(n as nat));
}

/// The decimal text of `n`.
pub fn decimal_string(n: u64) -> (out: String)
    ensures
        out@ == decimal(n as nat),
{
    let mut v: Vec<char> = Vec::new();
    put_decimal(&mut v, n);
    assert(v@ =~= decimal(n as nat));
    string_of(&v)
}

/// A decimal text holds digits only.
pub proof fn lemma_decimal_digits(n: nat)
    ensures
        decimal(n).len() > 0,
        all_digits(decimal(n)),
    decreases n,
{
    if n >= 10 {
        lemma_decimal_digits(n / 10);
        assert forall|k: int| 0 <= k < decimal(n).len() implies is_digit(#[trigger] decimal(n)[k]) by {
            if k < decimal(n / 10).len() {
                assert(is_digit(decimal(n / 10)[k]));
            }
        }
    }
}

/// Reading the decimal text of a number gives the number.
pub proof fn lemma_decimal_value(n: nat)
    ensures
        digits_value(decimal(n)) == n,
    decreases n,
{
    if n >= 10 {
        lemma_decimal_value(n / 10);
        assert(decimal(n).drop_last() =~= decimal(n / 10));
    } else {
        assert(decimal(n).drop_last() =~= Seq::<char>::empty());
        assert(digits_value(Seq::<char>::empty()) == 0);
        assert(decimal(n).last() == digit_char(n as int));
    }
}

/// A number survives being written in decimal and read again.
pub proof fn lemma_parse_decimal(n: nat, max: int)
    requires
        n <= max,
    ensures
        parse_number(decimal(n), max) == Some(n as int),
{
    lemma_decimal_digits(n);
    lemma_decimal_value(n);
    assert(is_digit(decimal(n)[0]));
}

// ── Bytes of text ────────────────────────────────────────────────────────────

/// The UTF-8 bytes of `s`.
pub fn utf8_of(s: &str) -> (out: Vec<u8>)
    ensures
        out@ == vstd::utf8::encode_utf8(s@),
{
    vstd::slice::slice_to_vec(s.as_bytes())
}

/// The error of `String::from_utf8`.
#[verifier::external_type_specification]
#[verifier::external_body]
pub struct ExFromUtf8Error(std::string::FromUtf8Error);

/// `String::from_utf8` of std: the text that the bytes encode, or the error
/// where they are not valid UTF-8.
pub assume_specification[ String::from_utf8 ](v: Vec<u8>) -> (r: Result<
    String,
    std::string::FromUtf8Error,
>)
    ensures
        match r {
            Ok(s) => vstd::utf8::valid_utf8(v@) && s@ == vstd::utf8::decode_utf8(v@),
            Err(_) => !vstd::utf8::valid_utf8(v@),
        },
;

/// The text that `b` encodes.
pub open spec fn text_of(b: Seq<u8>) -> Option<Seq<char>> {
    if vstd::utf8::valid_utf8(b) {
        Some(vstd::utf8::decode_utf8(b))
    } else {
        None
    }
}

/// The text that `b` encodes.
pub fn text_from(b: &[u8]) -> (r: Option<String>)
    ensures
        match r {
            Some(s) => text_of(b@) == Some(s@),
            None => text_of(b@) is None,
        },
{
    match String::from_utf8(vstd::slice::slice_to_vec(b)) {
        Ok(s) => Some(s),
        Err(_) => None,
    }
}

/// Encoding a text and decoding the bytes gives the text.
pub proof fn lemma_text_of_encoded(s: Seq<char>)
    ensures
        text_of(vstd::utf8::encode_utf8(s)) == Some(s),
{
    vstd::utf8::encode_utf8_valid_utf8(s);
    vstd::utf8::encode_utf8_decode_utf8(s);
}

// ── Order ────────────────────────────────────────────────────────────────────

/// Whether a text comes before another: at the first place where they differ it
/// has the smaller character, or it ends there.
pub open spec fn text_less(a: Seq<char>, b: Seq<char>) -> bool
    decreases a.len(),
{
    if b.len() == 0 {
        false
    } else if a.len() == 0 {
        true
    } else if a[0] != b[0] {
        a[0] < b[0]
    } else {
        text_less(a.drop_first(), b.drop_first())
    }
}

/// Texts are ordered: none comes before itself, and of two different ones one
/// comes before the other.
pub proof fn lemma_text_order(a: Seq<char>, b: Seq<char>)
    ensures
        !text_less(a, a),
        a != b ==> text_less(a, b) != text_less(b, a),
    decreases a.len(),
{
    if a.len() > 0 && b.len() > 0 {
        lemma_text_order(a.drop_first(), b.drop_first());
        if a[0] == b[0] && a.drop_first() == b.drop_first() {
            assert(a =~= seq![a[0]] + a.drop_first());
            assert(b =~= seq![b[0]] + b.drop_first());
        }
    } else {
        if a.len() > 0 {
            lemma_text_order(a.drop_first(), a.drop_first());
        }
        if a.len() == 0 && b.len() == 0 {
            assert(a =~= b);
        }
    }
}

/// What comes before a text comes before those after it.
pub proof fn lemma_text_less_transitive(a: Seq<char>, b: Seq<char>, c: Seq<char>)
    requires
        text_less(a, b),
        text_less(b, c),
    ensures
        text_less(a, c),
    decreases a.len(),
{
    if a.len() > 0 && a[0] == b[0] && b[0] == c[0] {
        lemma_text_less_transitive(a.drop_first(), b.drop_first(), c.drop_first());
    }
}

/// Whether a text comes before another.
pub fn comes_before(a: &[char], b: &[char]) -> (r: bool)
    ensures
        r == text_less(a@, b@),
{
    let n: usize = a.len();
    let m: usize = b.len();
    let mut i: usize = 0;
    assert(a@.subrange(0, n as int) =~= a@);
    assert(b@.subrange(0, m as int) =~= b@);
    while i < n && i < m
        invariant
            n == a@.len(),
            m == b@.len(),
            i <= n,
            i <= m,
            text_less(a@, b@) == text_less(a@.subrange(i as int, n as int), b@.subrange(i as int, m as int)),
        decreases n - i,
    {
        let ghost x = a@.subrange(i as int, n as int);
        let ghost y = b@.subrange(i as int, m as int);
        if a[i] != b[i] {
            return a[i] < b[i];
        }
        assert(x.drop_first() =~= a@.subrange(i + 1, n as int));
        assert(y.drop_first() =~= b@.subrange(i + 1, m as int));
        i += 1;
    }
    i < m
}

/// `s` with every occurrence of `from` replaced by `to`, from the left.
pub open spec fn replace_all(s: Seq<char>, from: Seq<char>, to: Seq<char>) -> Seq<char>
    decreases s.len(),
{
    if from.len() == 0 || s.len() < from.len() {
        s
    } else if starts_with(s, from) {
        to + replace_all(s.subrange(from.len() as int, s.len() as int), from, to)
    } else {
        seq![s[0]] + replace_all(s.drop_first(), from, to)
    }
}

/// `s` with every occurrence of `from` replaced by `to`.
pub fn replaced(s: &[char], from: &[char], to: &[char]) -> (out: Vec<char>)
    requires
        from@.len() > 0,
    ensures
        out@ == replace_all(s@, from@, to@),
{
    let mut out: Vec<char> = Vec::new();
    let n: usize = s.len();
    let m: usize = from.len();
    let mut i: usize = 0;
    assert(s@.subrange(0, n as int) =~= s@);
    assert(out@ + replace_all(s@, from@, to@) =~= replace_all(s@, from@, to@));
    while m <= n - i
        invariant
            n == s@.len(),
            m == from@.len(),
            m > 0,
            i <= n,
            out@ + replace_all(s@.subrange(i as int, n as int), from@, to@) == replace_all(s@, from@, to@),
        decreases n - i,
    {
        let ghost rest = s@.subrange(i as int, n as int);
        let ghost before = out@;
        let tail = slice_subrange(s, i, n);
        if begins(tail, from) {
            put_chars(&mut out, to);
            let ghost more = replace_all(s@.subrange(i + m, n as int), from@, to@);
            assert(rest.subrange(m as int, rest.len() as int) =~= s@.subrange(i + m, n as int));
            assert(before + (to@ + more) =~= out@ + more);
            i += m;
        } else {
            out.push(s[i]);
            let ghost more = replace_all(s@.subrange(i + 1, n as int), from@, to@);
            assert(rest.drop_first() =~= s@.subrange(i + 1, n as int));
            assert(before + (seq![s@[i as int]] + more) =~= out@ + more);
            i += 1;
        }
    }
    let ghost before = out@;
    let tail = slice_subrange(s, i, n);
    put_chars(&mut out, tail);
    assert(out@ == before + s@.subrange(i as int, n as int));
    out
}

/// The lower-case form of a text by the rules of Unicode.
pub uninterp spec fn unicode_lower(s: Seq<char>) -> Seq<char>;

/// Whether all characters are ASCII.
pub open spec fn ascii_only(s: Seq<char>) -> bool {
    forall|i: int| 0 <= i < s.len() ==> #[trigger] s[i] <= '\x7f'
}

/// What is left of an ASCII text when its ends are trimmed is ASCII.
pub proof fn lemma_trims_are_ascii(s: Seq<char>, c: char)
    requires
        ascii_only(s),
    ensures
        ascii_only(trim_start(s)),
        ascii_only(trim_end(s)),
        ascii_only(trim_start_char(s, c)),
        ascii_only(trim_end_char(s, c)),
    decreases s.len(),
{
    if s.len() > 0 {
        let d = s.drop_first();
        assert forall|i: int| 0 <= i < d.len() implies #[trigger] d[i] <= '\x7f' by {
            assert(d[i] == s[i + 1]);
        }
        lemma_trims_are_ascii(d, c);
        lemma_trims_are_ascii(s.drop_last(), c);
    }
}

/// `str::to_lowercase`: the lower-case form of a text depends on the text alone. Of an ASCII
/// text it is the ASCII lower case.
#[verifier::external_body]
pub(crate) fn lowercase(s: &str) -> (out: String)
    ensures
        out@ == unicode_lower(s@),
        ascii_only(s@) ==> out@ == lower(s@),
{
    s.to_lowercase()
}

/// The text of bytes in which what is not UTF-8 is replaced.
pub uninterp spec fn utf8_lossy(b: Seq<u8>) -> Seq<char>;

/// `String::from_utf8_lossy`: the text depends on the bytes alone, and is their
/// text where they are UTF-8.
#[verifier::external_body]
pub(crate) fn lossy_text(b: &[u8]) -> (out: String)
    ensures
        out@ == utf8_lossy(b@),
        text_of(b@) matches Some(t) ==> out@ == t,
{
    String::from_utf8_lossy(b).into_owned()
}

proof fn lemma_trim_start_parts(s: Seq<char>)
    ensures
        exists|k: int| 0 <= k <= s.len() && trim_start(s) == #[trigger] s.skip(k) && forall|i: int| 0 <= i < k ==> is_white(s[i]),
        trim_start(s).len() > 0 ==> !is_white(trim_start(s)[0]),
    decreases s.len(),
{
    if s.len() > 0 && is_white(s[0]) {
        let d = s.drop_first();
        lemma_trim_start_parts(d);
        let k = choose|k: int| 0 <= k <= d.len() && trim_start(d) == #[trigger] d.skip(k) && forall|i: int| 0 <= i < k ==> is_white(d[i]);
        assert(s.skip(k + 1) =~= d.skip(k));
        assert forall|i: int| 0 <= i < k + 1 implies is_white(s[i]) by {
            if i > 0 {
                assert(d[i - 1] == s[i]);
            }
        }
    } else {
        assert(s.skip(0) =~= s);
    }
}

proof fn lemma_trim_end_parts(s: Seq<char>)
    ensures
        exists|k: int| 0 <= k <= s.len() && trim_end(s) == #[trigger] s.take(k) && forall|i: int| k <= i < s.len() ==> is_white(s[i]),
        trim_end(s).len() > 0 ==> !is_white(trim_end(s).last()),
    decreases s.len(),
{
    if s.len() > 0 && is_white(s.last()) {
        let d = s.drop_last();
        lemma_trim_end_parts(d);
        let k = choose|k: int| 0 <= k <= d.len() && trim_end(d) == #[trigger] d.take(k) && forall|i: int| k <= i < d.len() ==> is_white(d[i]);
        assert(s.take(k) =~= d.take(k));
        assert forall|i: int| k <= i < s.len() implies is_white(s[i]) by {
            if i < d.len() {
                assert(d[i] == s[i]);
            }
        }
    } else {
        assert(s.take(s.len() as int) =~= s);
    }
}

/// Trimming takes the white space at both ends, all of it and nothing else.
pub proof fn trimming_takes_white_space(s: Seq<char>)
    ensures
        exists|a: int, b: int|
            0 <= a <= b <= s.len() && trim(s) == #[trigger] s.subrange(a, b) && (forall|i: int|
                0 <= i < a || b <= i < s.len() ==> is_white(s[i])),
        trim(s).len() > 0 ==> !is_white(trim(s)[0]) && !is_white(trim(s).last()),
{
    lemma_trim_start_parts(s);
    let a = choose|k: int| 0 <= k <= s.len() && trim_start(s) == #[trigger] s.skip(k) && forall|i: int| 0 <= i < k ==> is_white(s[i]);
    let t = trim_start(s);
    lemma_trim_end_parts(t);
    let k = choose|k: int| 0 <= k <= t.len() && trim_end(t) == #[trigger] t.take(k) && forall|i: int| k <= i < t.len() ==> is_white(t[i]);
    assert(s.subrange(a, a + k) =~= t.take(k));
    assert forall|i: int| 0 <= i < a || a + k <= i < s.len() implies is_white(s[i]) by {
        if i >= a {
            assert(t[i - a] == s[i]);
        }
    }
    if k > 0 {
        assert(trim(s)[0] == t[0]);
    }
}

/// A cut is at the first such character, or at the last one; without one there is no cut.
pub proof fn cuts_are_at_the_character(s: Seq<char>, c: char)
    ensures
        split_once(s, c) matches Some((a, b)) ==> s == a + seq![c] + b && !has_char(a, c),
        rsplit_once(s, c) matches Some((a, b)) ==> s == a + seq![c] + b && !has_char(b, c),
        split_once(s, c) is None <==> !has_char(s, c),
        rsplit_once(s, c) is None <==> !has_char(s, c),
{
    lemma_find_char(s, c);
    lemma_rfind_char(s, c);
    if let Some(i) = find_char(s, c) {
        assert(s =~= s.subrange(0, i) + seq![c] + s.subrange(i + 1, s.len() as int));
        assert(s[i] == c);
    }
    if let Some(i) = rfind_char(s, c) {
        assert(s =~= s.subrange(0, i) + seq![c] + s.subrange(i + 1, s.len() as int));
        assert(s[i] == c);
    }
}

/// The parts of a text, with the character between them, are the text, and none holds it.
pub proof fn parts_make_up_the_text(s: Seq<char>, c: char)
    ensures
        join(split(s, c), seq![c]) == s,
        forall|i: int| 0 <= i < split(s, c).len() ==> !has_char(#[trigger] split(s, c)[i], c),
    decreases s.len(),
{
    lemma_find_char(s, c);
    if let Some(i) = find_char(s, c) {
        let a = s.subrange(0, i);
        let b = s.subrange(i + 1, s.len() as int);
        parts_make_up_the_text(b, c);
        lemma_split_nonempty(b, c);
        let all = split(s, c);
        assert(all == seq![a] + split(b, c));
        assert(all.drop_first() =~= split(b, c));
        lemma_join_front(all, seq![c]);
        assert(s =~= a + seq![c] + b);
        assert forall|k: int| 0 <= k < all.len() implies !has_char(#[trigger] all[k], c) by {
            if k > 0 {
                assert(all[k] == split(b, c)[k - 1]);
            }
        }
    }
}

/// Words are not empty and hold no white space.
pub proof fn words_hold_no_white_space(s: Seq<char>, k: int, i: int)
    requires
        0 <= k < words(s).len(),
    ensures
        words(s)[k].len() > 0,
        0 <= i < words(s)[k].len() ==> !is_white(words(s)[k][i]),
    decreases s.len(),
{
    lemma_trim_start_len(s);
    let t = trim_start(s);
    let n = word_len(t);
    lemma_word_len(t);
    let rest = t.subrange(n, t.len() as int);
    if k == 0 {
        if 0 <= i < n {
            lemma_word_chars(t, i);
            assert(t.subrange(0, n)[i] == t[i]);
        }
    } else {
        assert(words(s)[k] == words(rest)[k - 1]);
        words_hold_no_white_space(rest, k - 1, i);
    }
}

proof fn lemma_word_chars(s: Seq<char>, i: int)
    requires
        0 <= i < word_len(s),
    ensures
        !is_white(s[i]),
    decreases s.len(),
{
    lemma_word_len(s);
    if i > 0 {
        lemma_word_chars(s.drop_first(), i - 1);
    }
}

/// Letters are told apart by case or not: lower case has none of the upper one, and upper case
/// counts for the same.
pub proof fn case_is_folded(s: Seq<char>, i: int)
    requires
        0 <= i < s.len(),
    ensures
        lower(s).len() == s.len() && upper(s).len() == s.len(),
        !('A' <= lower(s)[i] <= 'Z') && !('a' <= upper(s)[i] <= 'z'),
        'A' <= s[i] <= 'Z' ==> lower(s)[i] as u32 == s[i] as u32 + 32,
        !('A' <= s[i] <= 'Z') ==> lower(s)[i] == s[i],
        'a' <= s[i] <= 'z' ==> upper(s)[i] as u32 + 32 == s[i] as u32,
        !('a' <= s[i] <= 'z') ==> upper(s)[i] == s[i],
        eq_nocase(upper(s), s) && eq_nocase(lower(s), s),
{
    assert(lower(upper(s)) =~= lower(s));
    assert(lower(lower(s)) =~= lower(s));
}

/// Once a character is replaced by a text without it, it is gone; where it is not, nothing
/// changes.
pub proof fn replaced_characters_are_gone(s: Seq<char>, c: char, to: Seq<char>)
    ensures
        !has_char(to, c) ==> !has_char(replace_all(s, seq![c], to), c),
        !has_char(s, c) ==> replace_all(s, seq![c], to) == s,
        to.len() == 1 ==> replace_all(s, seq![c], to).len() == s.len(),
        to.len() == 0 ==> forall|x: char| x != c ==> (#[trigger] has_char(replace_all(s, seq![c], to), x) == has_char(s, x)),
    decreases s.len(),
{
    if s.len() > 0 {
        let d = s.drop_first();
        replaced_characters_are_gone(d, c, to);
        let r = replace_all(d, seq![c], to);
        let all = replace_all(s, seq![c], to);
        assert(s.subrange(1, s.len() as int) =~= d);
        if s[0] == c {
            assert(s.subrange(0, 1) =~= seq![c]);
            assert(all == to + r);
            assert(has_char(s, c)) by {
                assert(s[0] == c);
            }
        } else {
            assert(s.subrange(0, 1)[0] == s[0]);
            assert(!starts_with(s, seq![c]));
            assert(all == seq![s[0]] + r);
        }
        if !has_char(to, c) {
            assert forall|k: int| 0 <= k < all.len() implies all[k] != c by {
                if s[0] == c {
                    if k < to.len() {
                        assert(to[k] == all[k]);
                    } else {
                        assert(r[k - to.len()] == all[k]);
                    }
                } else if k > 0 {
                    assert(r[k - 1] == all[k]);
                }
            }
        }
        if !has_char(s, c) {
            assert forall|k: int| 0 <= k < d.len() implies d[k] != c by {
                assert(s[k + 1] == d[k]);
            }
            assert(s[0] != c);
            assert(all =~= s);
        }
        if to.len() == 0 {
            assert forall|x: char| x != c implies (#[trigger] has_char(all, x) == has_char(s, x)) by {
                assert(has_char(r, x) == has_char(d, x));
                if has_char(s, x) {
                    let k = choose|k: int| 0 <= k < s.len() && #[trigger] s[k] == x;
                    if k > 0 {
                        assert(d[k - 1] == x);
                        let j = choose|j: int| 0 <= j < r.len() && #[trigger] r[j] == x;
                        assert(all[all.len() - r.len() + j] == x);
                    } else {
                        assert(all[0] == x);
                    }
                }
                if has_char(all, x) {
                    let k = choose|k: int| 0 <= k < all.len() && #[trigger] all[k] == x;
                    if s[0] == c {
                        assert(r[k] == x);
                        let j = choose|j: int| 0 <= j < d.len() && #[trigger] d[j] == x;
                        assert(s[j + 1] == x);
                    } else if k == 0 {
                        assert(s[0] == x);
                    } else {
                        assert(r[k - 1] == x);
                        let j = choose|j: int| 0 <= j < d.len() && #[trigger] d[j] == x;
                        assert(s[j + 1] == x);
                    }
                }
            }
        }
    } else {
        assert(replace_all(s, seq![c], to) == s);
    }
}

/// Numbers are read from their decimal text, with a sign in front or not, where they are not too
/// large; a text without digits or with anything else is none.
pub proof fn numbers_are_read(n: nat, max: int, s: Seq<char>, i: int)
    ensures
        n <= max ==> parse_number(decimal(n), max) == Some(n as int) && parse_number(seq!['+'] + decimal(n), max) == Some(
            n as int,
        ),
        n > max ==> parse_number(decimal(n), max) is None && plain_number(decimal(n), max) is None,
        parse_number(Seq::empty(), max) is None,
        1 <= i < s.len() && !('0' <= s[i] <= '9') ==> parse_number(s, max) is None,
        0 <= i < s.len() && !('0' <= s[i] <= '9') ==> plain_number(s, max) is None,
{
    lemma_decimal_digits(n);
    lemma_decimal_value(n);
    assert(is_digit(decimal(n)[0]));
    let p = seq!['+'] + decimal(n);
    assert(p.drop_first() =~= decimal(n));
    if 1 <= i < s.len() && !('0' <= s[i] <= '9') {
        assert(!is_digit(s.drop_first()[i - 1]));
        assert(!is_digit(s[i]));
    }
    if 0 <= i < s.len() && !('0' <= s[i] <= '9') {
        assert(!is_digit(s[i]));
    }
}

} // verus!
