//! Lists of rules: where they are kept, when they are due, and the filter that
//! they make.

use vstd::prelude::*;
use vstd::utf8::encode_utf8;

use crate::dns::filter::{Filter, Rules};
use crate::dns::settings::{DnsSettings, FilterList};
use crate::text::{
    chars_of, decimal, join, join_strings, owned, put_decimal, put_str, string_of, string_views, utf8_of,
};
use crate::time::Duration;

verus! {

/// The longest list that is taken.
pub const MAX_LIST_BYTES: u64 = 64 * 1024 * 1024;

/// The 64-bit FNV-1a hash.
pub open spec fn fnv_of(b: Seq<u8>) -> u64
    decreases b.len(),
{
    if b.len() == 0 {
        0xcbf29ce484222325
    } else {
        ((fnv_of(b.drop_last()) ^ b.last() as u64) as int * 0x100000001b3 % 0x1_0000_0000_0000_0000) as u64
    }
}

/// The sixteen hexadecimal digits of a number.
pub open spec fn hex16(n: u64) -> Seq<char> {
    crate::encoding::hex(crate::bytes::be64(n as int))
}

/// The name of the file that a list is kept in.
pub open spec fn file_name(url: Seq<char>) -> Seq<char> {
    hex16(fnv_of(encode_utf8(url))) + ".txt"@
}

/// A path below a directory.
pub open spec fn below(dir: Seq<char>, name: Seq<char>) -> Seq<char> {
    if dir.len() == 0 {
        name
    } else if dir.last() == '/' {
        dir + name
    } else {
        dir + "/"@ + name
    }
}

fn fnv(s: &str) -> (r: u64)
    ensures
        r == fnv_of(encode_utf8(s@)),
{
    let b = utf8_of(s);
    let mut h: u64 = 0xcbf29ce484222325;
    let mut i: usize = 0;
    assert(b@.subrange(0, 0) =~= Seq::<u8>::empty());
    while i < b.len()
        invariant
            i <= b@.len(),
            h == fnv_of(b@.subrange(0, i as int)),
        decreases b@.len() - i,
    {
        let ghost u = b@.subrange(0, i + 1);
        assert(u.drop_last() =~= b@.subrange(0, i as int));
        assert(u.last() == b@[i as int]);
        let x: u64 = h ^ b[i] as u64;
        h = wrapping_product(x);
        i += 1;
    }
    assert(b@.subrange(0, i as int) =~= b@);
    h
}

fn wrapping_product(x: u64) -> (r: u64)
    ensures
        r == x as int * 0x100000001b3 % 0x1_0000_0000_0000_0000,
{
    let p: u128 = x as u128 * 0x100000001b3u128;
    (p % 0x1_0000_0000_0000_0000u128) as u64
}

pub(crate) fn join_path(dir: &str, name: &str) -> (r: String)
    ensures
        r@ == below(dir@, name@),
{
    let mut v = chars_of(dir);
    let n: usize = v.len();
    if n > 0 && v[n - 1] != '/' {
        put_str(&mut v, "/");
    }
    put_str(&mut v, name);
    assert(v@ =~= below(dir@, name@));
    string_of(&v)
}

/// The directory that lists are kept in.
pub fn lists_dir(data_dir: &str) -> (r: String)
    ensures
        r@ == below(below(data_dir@, "dns"@), "lists"@),
{
    join_path(&join_path(data_dir, "dns"), "lists")
}

/// The file that a list is kept in.
pub fn cache_path(data_dir: &str, url: &str) -> (r: String)
    ensures
        r@ == below(below(below(data_dir@, "dns"@), "lists"@), file_name(url@)),
{
    let mut b: Vec<u8> = Vec::new();
    crate::bytes::put_u64(&mut b, fnv(url));
    assert(b@ =~= crate::bytes::be64(fnv_of(encode_utf8(url@)) as int));
    let mut v = chars_of(&crate::encoding::hex_text(&b));
    put_str(&mut v, ".txt");
    join_path(&lists_dir(data_dir), &string_of(&v))
}

/// A list that is in use.
#[derive(Debug, Clone)]
pub struct ListSource {
    pub name: String,
    pub url: String,
    /// It holds exceptions.
    pub allow: bool,
}

pub open spec fn source_views(v: Seq<ListSource>) -> Seq<(Seq<char>, Seq<char>, bool)> {
    Seq::new(v.len(), |i: int| (v[i].name@, v[i].url@, v[i].allow))
}

/// The lists that are turned on.
pub open spec fn turned_on(lists: Seq<FilterList>, allow: bool) -> Seq<(Seq<char>, Seq<char>, bool)>
    decreases lists.len(),
{
    if lists.len() == 0 {
        Seq::empty()
    } else {
        let rest = turned_on(lists.drop_last(), allow);
        if lists.last().enabled {
            rest.push((lists.last().name@, lists.last().url@, allow))
        } else {
            rest
        }
    }
}

fn push_turned_on(out: &mut Vec<ListSource>, lists: &Vec<FilterList>, allow: bool)
    ensures
        source_views(final(out)@) == source_views(old(out)@) + turned_on(lists@, allow),
{
    let ghost start = source_views(out@);
    let mut i: usize = 0;
    assert(lists@.subrange(0, 0) =~= Seq::<FilterList>::empty());
    assert(start + turned_on(lists@.subrange(0, 0), allow) =~= start);
    while i < lists.len()
        invariant
            i <= lists@.len(),
            source_views(out@) == start + turned_on(lists@.subrange(0, i as int), allow),
        decreases lists@.len() - i,
    {
        let ghost u = lists@.subrange(0, i + 1);
        assert(u.drop_last() =~= lists@.subrange(0, i as int));
        assert(u.last() == lists@[i as int]);
        if lists[i].enabled {
            let ghost before = out@;
            out.push(ListSource { name: owned(&lists[i].name), url: owned(&lists[i].url), allow });
            assert(source_views(out@) =~= source_views(before).push((u.last().name@, u.last().url@, allow)));
            assert(source_views(out@) =~= start + turned_on(u, allow));
        }
        i += 1;
    }
    assert(lists@.subrange(0, i as int) =~= lists@);
}

/// The lists that are turned on: those that block, then those with exceptions.
pub fn list_sources(settings: &DnsSettings) -> (r: Vec<ListSource>)
    ensures
        source_views(r@) == turned_on(settings.lists@, false) + turned_on(settings.allowlists@, true),
{
    let mut out: Vec<ListSource> = Vec::new();
    assert(source_views(out@) =~= Seq::<(Seq<char>, Seq<char>, bool)>::empty());
    push_turned_on(&mut out, &settings.lists, false);
    assert(source_views(out@) =~= turned_on(settings.lists@, false));
    push_turned_on(&mut out, &settings.allowlists, true);
    out
}

/// A list that was never fetched, or too long ago.
pub open spec fn outdated(age: Option<Duration>, interval_hours: u32) -> bool {
    let hours = if interval_hours == 0 {
        1
    } else {
        interval_hours as int
    };
    match age {
        None => true,
        Some(a) => a.nanos >= hours * 3600 * 1_000_000_000,
    }
}

/// Whether lists are due, by how long ago each was fetched.
pub fn update_due(settings: &DnsSettings, ages: &[Option<Duration>]) -> (r: bool)
    ensures
        r == exists|i: int|
            0 <= i < ages@.len() && outdated(#[trigger] ages@[i], settings.update_interval_hours),
{
    let hours: u64 = if settings.update_interval_hours == 0 {
        1
    } else {
        settings.update_interval_hours as u64
    };
    let most: u128 = hours as u128 * 3600 * 1_000_000_000;
    let mut i: usize = 0;
    while i < ages.len()
        invariant
            i <= ages@.len(),
            hours == if settings.update_interval_hours == 0 {
                1
            } else {
                settings.update_interval_hours as int
            },
            most == hours * 3600 * 1_000_000_000,
            forall|k: int| 0 <= k < i ==> !outdated(#[trigger] ages@[k], settings.update_interval_hours),
        decreases ages@.len() - i,
    {
        let due = match ages[i] {
            None => true,
            Some(a) => a.nanos as u128 >= most,
        };
        if due {
            assert(outdated(ages@[i as int], settings.update_interval_hours));
            return true;
        }
        i += 1;
    }
    false
}

/// The text of a list.
#[derive(Debug, Clone)]
pub struct ListText {
    pub name: String,
    pub text: String,
    /// It holds exceptions.
    pub allow: bool,
}

/// The rules of lists, one after the other.
pub open spec fn rules_of(lists: Seq<ListText>) -> Rules
    decreases lists.len(),
{
    if lists.len() == 0 {
        Rules::empty()
    } else {
        let l = lists.last();
        rules_of(lists.drop_last()).with_source(l.name@, l.text@, l.allow)
    }
}

/// The filter that lists make, and the user's own rules after them.
pub fn build_filter(lists: &[ListText], user_rules: &Vec<String>) -> (r: Filter)
    ensures
        r@ == rules_of(lists@).with_source("user rules"@, join(string_views(user_rules@), "\n"@), false),
{
    let mut f = Filter::new();
    let mut i: usize = 0;
    assert(lists@.subrange(0, 0) =~= Seq::<ListText>::empty());
    while i < lists.len()
        invariant
            i <= lists@.len(),
            f@ == rules_of(lists@.subrange(0, i as int)),
        decreases lists@.len() - i,
    {
        let ghost u = lists@.subrange(0, i + 1);
        assert(u.drop_last() =~= lists@.subrange(0, i as int));
        assert(u.last() == lists@[i as int]);
        f.add_source(&lists[i].name, &lists[i].text, lists[i].allow);
        i += 1;
    }
    assert(lists@.subrange(0, i as int) =~= lists@);
    f.add_source("user rules", &join_strings(user_rules, "\n"), false);
    f
}

/// What came of fetching a list.
#[derive(Debug, Clone)]
pub struct UpdateResult {
    pub name: String,
    pub url: String,
    pub ok: bool,
    pub detail: String,
}

/// What came of fetching a list of `bytes` bytes.
pub fn fetched(list: &ListSource, bytes: u64) -> (r: UpdateResult)
    ensures
        r.name@ == list.name@,
        r.url@ == list.url@,
        r.ok,
        r.detail@ == decimal((bytes / 1024) as nat) + " KB"@,
{
    let mut v: Vec<char> = Vec::new();
    put_decimal(&mut v, bytes / 1024);
    put_str(&mut v, " KB");
    assert(v@ =~= decimal((bytes / 1024) as nat) + " KB"@);
    UpdateResult { name: owned(&list.name), url: owned(&list.url), ok: true, detail: string_of(&v) }
}

/// What came of a list that was not fetched.
pub fn failed(list: &ListSource, why: &str) -> (r: UpdateResult)
    ensures
        r.name@ == list.name@,
        r.url@ == list.url@,
        !r.ok,
        r.detail@ == why@,
{
    UpdateResult { name: owned(&list.name), url: owned(&list.url), ok: false, detail: owned(why) }
}

/// Whether a list is too long to be taken.
pub fn is_too_long(bytes: u64) -> (r: bool)
    ensures
        r == (bytes > MAX_LIST_BYTES),
{
    bytes > MAX_LIST_BYTES
}

/// The file of a list is named by sixteen hexadecimal digits, which its address gives.
pub proof fn files_are_named_by_address(url: Seq<char>, b: Seq<u8>, x: u8)
    ensures
        file_name(url).len() == 20,
        file_name(url).take(16) == crate::encoding::hex(crate::bytes::be64(fnv_of(encode_utf8(url)) as int)),
        file_name(url).skip(16) == ".txt"@,
        fnv_of(Seq::empty()) == 0xcbf29ce484222325,
        fnv_of(b.push(x)) == (fnv_of(b) ^ x as u64) as int * 0x100000001b3 % 0x1_0000_0000_0000_0000,
{
    broadcast use crate::bytes::group_big_endian;

    reveal_strlit(".txt");
    let f = file_name(url);
    let h = hex16(fnv_of(encode_utf8(url)));
    assert(f.take(16) =~= h);
    assert(f.skip(16) =~= ".txt"@);
    assert(b.push(x).drop_last() =~= b);
}

/// Each list is one more source, in the order of the lists; a list of exceptions only allows.
pub proof fn lists_are_sources_in_order(lists: Seq<ListText>, i: int)
    requires
        0 <= i < lists.len(),
    ensures
        rules_of(lists).sources.len() == lists.len(),
        rules_of(lists).sources[i].name == lists[i].name@,
    decreases lists.len(),
{
    let d = lists.drop_last();
    let before = rules_of(d);
    let l = lists.last();
    if i < d.len() {
        assert(d[i] == lists[i]);
        lists_are_sources_in_order(d, i);
    } else if d.len() > 0 {
        lists_are_sources_in_order(d, 0);
    }
}

/// A name in a directory stands behind one slash.
pub proof fn names_stand_behind_one_slash(dir: Seq<char>, name: Seq<char>)
    ensures
        below(Seq::empty(), name) == name,
        dir.len() > 0 && dir.last() != '/' ==> below(dir, name) == dir + "/"@ + name,
        below(dir + "/"@, name) == dir + "/"@ + name,
{
    reveal_strlit("/");
    assert((dir + "/"@).last() == '/');
}

} // verus!
