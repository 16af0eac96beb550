//! Messages of the domain name system: what the resolver reads from them and the
//! replies that it makes.

use simple_dns::rdata::{RData, A, AAAA, CNAME};
use simple_dns::{Name, Packet, PacketFlag, Question, ResourceRecord, CLASS, QCLASS, QTYPE, RCODE};
use vstd::prelude::*;
use vstd::slice::slice_to_vec;

use crate::bytes::u16_at;
use crate::net::IpAddr;
use crate::text::{chars_of, lower, owned, string_of, string_views, to_lower, trim_end_char, without_trailing};

verus! {

/// What the resolver reads from a query.
#[derive(Debug, Clone)]
pub struct Query {
    pub id: u16,
    pub recursion_desired: bool,
    pub questions: Vec<Asked>,
}

/// A question: a name and the number of a type.
#[derive(Debug, Clone)]
pub struct Asked {
    pub name: String,
    pub qtype: u16,
}

/// What the resolver reads from an answer.
#[derive(Debug)]
pub struct Answers {
    pub records: Vec<Record>,
    /// The times to live of the records about name servers.
    pub name_servers: Vec<u32>,
    /// The times to live of the additional records.
    pub additional: Vec<u32>,
}

/// A record of an answer: its time to live and what it holds.
#[derive(Debug, Clone)]
pub struct Record {
    pub ttl: u32,
    pub data: Data,
}

/// What a record holds: another name, an IPv4 or IPv6 address, or something else.
#[derive(Debug, Clone)]
pub enum Data {
    Alias(String),
    V4(u32),
    V6(u128),
    Other,
}

impl Data {
    pub open spec fn alias(self) -> Option<Seq<char>> {
        match self {
            Data::Alias(n) => Some(n@),
            _ => None,
        }
    }

    pub open spec fn v4(self) -> Option<u32> {
        match self {
            Data::V4(a) => Some(a),
            _ => None,
        }
    }

    pub open spec fn v6(self) -> Option<u128> {
        match self {
            Data::V6(a) => Some(a),
            _ => None,
        }
    }
}

pub open spec fn asked_views(v: Seq<Asked>) -> Seq<(Seq<char>, u16)> {
    Seq::new(v.len(), |i: int| (v[i].name@, v[i].qtype))
}

pub open spec fn record_views(v: Seq<Record>) -> Seq<(u32, Option<Seq<char>>, Option<u32>, Option<u128>)> {
    Seq::new(v.len(), |i: int| (v[i].ttl, v[i].data.alias(), v[i].data.v4(), v[i].data.v6()))
}

/// What is read from a query: its number, whether recursion is desired, and its
/// questions.
pub type QueryParts = (u16, bool, Seq<(Seq<char>, u16)>);

/// What is read from an answer: its records, and the times to live of the other
/// two sections.
pub type AnswerParts = (Seq<(u32, Option<Seq<char>>, Option<u32>, Option<u128>)>, Seq<u32>, Seq<u32>);

impl View for Query {
    type V = QueryParts;

    open spec fn view(&self) -> QueryParts {
        (self.id, self.recursion_desired, asked_views(self.questions@))
    }
}

impl View for Answers {
    type V = AnswerParts;

    open spec fn view(&self) -> AnswerParts {
        (record_views(self.records@), self.name_servers@, self.additional@)
    }
}

/// A message that is made of addresses: its number, flags and code, its questions by their
/// places in a query, and its records.
#[derive(Debug)]
pub struct Message {
    pub id: u16,
    pub flags: u16,
    pub code: u8,
    pub questions: Vec<usize>,
    pub answers: Vec<Own>,
}

/// A record that is made: it stands under the name of a question, by its place in the
/// query.
#[derive(Debug)]
pub struct Own {
    pub of: usize,
    pub ttl: u32,
    pub data: Given,
}

/// The address that a record holds.
#[derive(Debug)]
pub enum Given {
    V4(u32),
    V6(u128),
}

/// A message that is made of another name: its number and flags, its questions by their
/// places in a query, the place of the question that has the other name, and the records by
/// their places in another message that follow.
#[derive(Debug)]
pub struct AliasMessage {
    pub id: u16,
    pub flags: u16,
    pub questions: Vec<usize>,
    pub of: usize,
    pub ttl: u32,
    pub target: String,
    pub copied: Vec<usize>,
}

/// A record that is made: the place of its question, its time to live, and the address that
/// it holds.
pub type OwnParts = (usize, u32, Option<u32>, Option<u128>);

impl View for Own {
    type V = OwnParts;

    open spec fn view(&self) -> OwnParts {
        match self.data {
            Given::V4(v) => (self.of, self.ttl, Some(v), None),
            Given::V6(v) => (self.of, self.ttl, None, Some(v)),
        }
    }
}

pub open spec fn own_views(v: Seq<Own>) -> Seq<OwnParts> {
    Seq::new(v.len(), |i: int| v[i]@)
}

impl Message {
    /// The places are those of questions of the query.
    pub open spec fn refers_to(&self, query: Seq<u8>) -> bool {
        dns_question(query) matches Some(q) && (forall|i: int|
            0 <= i < self.questions@.len() ==> #[trigger] self.questions@[i] < q.2.len()) && (forall|i: int|
            0 <= i < self.answers@.len() ==> (#[trigger] self.answers@[i]).of < q.2.len())
    }
}

impl AliasMessage {
    /// The places are those of questions of the query, and of records of the other message.
    pub open spec fn refers_to(&self, query: Seq<u8>, other: Seq<u8>) -> bool {
        &&& dns_question(query) matches Some(q) && self.of < q.2.len() && (forall|i: int|
            0 <= i < self.questions@.len() ==> #[trigger] self.questions@[i] < q.2.len())
        &&& dns_answer(other) matches Some(a) && forall|i: int|
            0 <= i < self.copied@.len() ==> #[trigger] self.copied@[i] < a.0.len()
    }
}

/// The flag that recursion is desired.
pub const RECURSION_DESIRED: u16 = 0x0100;

/// The flag that recursion is available.
pub const RECURSION_AVAILABLE: u16 = 0x0080;

/// The query that bytes hold.
pub uninterp spec fn dns_question(b: Seq<u8>) -> Option<(u16, bool, Seq<(Seq<char>, u16)>)>;

/// The answer that bytes hold.
pub uninterp spec fn dns_answer(b: Seq<u8>) -> Option<
    (Seq<(u32, Option<Seq<char>>, Option<u32>, Option<u128>)>, Seq<u32>, Seq<u32>),
>;

/// The bytes of a message of addresses: its number, flags and code, its questions by their
/// places in a query, and its records.
pub uninterp spec fn dns_message(
    query: Seq<u8>,
    id: u16,
    flags: u16,
    code: u8,
    questions: Seq<usize>,
    answers: Seq<(usize, u32, Option<u32>, Option<u128>)>,
) -> Option<Seq<u8>>;

/// The bytes of a message of another name: its number and flags, its questions by their
/// places in a query, the place of the question that has the other name, the time to live of
/// that record and the name, and the records by their places in another message that follow.
pub uninterp spec fn dns_alias_message(
    query: Seq<u8>,
    other: Seq<u8>,
    id: u16,
    flags: u16,
    questions: Seq<usize>,
    of: usize,
    ttl: u32,
    target: Seq<char>,
    copied: Seq<usize>,
) -> Option<Seq<u8>>;

/// A query for a name.
pub uninterp spec fn dns_query(id: u16, rd: bool, name: Seq<char>, qtype: u16) -> Option<Seq<u8>>;

/// A message with other times to live.
pub uninterp spec fn dns_retimed(b: Seq<u8>, ttls: Seq<u32>) -> Option<Seq<u8>>;

/// `simple_dns::Packet::parse`, of which the number, a flag and the questions are
/// taken: these, or nothing where it is an error; a function of the bytes alone. A
/// message begins with its number in two bytes, and its header has twelve.
#[verifier::external_body]
pub(crate) fn read_query(b: &[u8]) -> (r: Option<Query>)
    ensures
        match r {
            Some(m) => dns_question(b@) == Some(m@) && b@.len() >= 12 && m.id == u16_at(b@, 0),
            None => dns_question(b@) is None,
        },
{
    let p = Packet::parse(b).ok()?;
    Some(Query {
        id: p.id(),
        recursion_desired: p.has_flags(PacketFlag::RECURSION_DESIRED),
        questions: p.questions.iter().map(|q| Asked { name: q.qname.to_string(), qtype: q.qtype.into() }).collect(),
    })
}

/// `simple_dns::Packet::parse`, of which the records are taken: these, or nothing
/// where it is an error; a function of the bytes alone.
#[verifier::external_body]
pub(crate) fn read_answers(b: &[u8]) -> (r: Option<Answers>)
    ensures
        match r {
            Some(m) => dns_answer(b@) == Some(m@),
            None => dns_answer(b@) is None,
        },
{
    let p = Packet::parse(b).ok()?;
    let held = |r: &ResourceRecord| match &r.rdata {
        RData::CNAME(CNAME(n)) => Data::Alias(n.to_string()),
        RData::A(a) => Data::V4(a.address),
        RData::AAAA(a) => Data::V6(a.address),
        _ => Data::Other,
    };
    Some(Answers {
        records: p.answers.iter().map(|r| Record { ttl: r.ttl, data: held(r) }).collect(),
        name_servers: p.name_servers.iter().map(|r| r.ttl).collect(),
        additional: p.additional_records.iter().map(|r| r.ttl).collect(),
    })
}

/// `simple_dns::Packet::new_reply` and `build_bytes_vec_compressed`, with records of addresses
/// in the Internet class: the bytes of the message; a function of the arguments alone. They
/// begin with the number, and the low bits of the fourth are the code. The message can
/// always be built from a query that can be read.
#[verifier::external_body]
pub(crate) fn write_message(query: &[u8], m: &Message) -> (r: Option<Vec<u8>>)
    requires
        m.code < 11,
        m.refers_to(query@),
    ensures
        r is Some,
        r matches Some(b) ==> dns_message(query@, m.id, m.flags, m.code, m.questions@, own_views(m.answers@)) == Some(b@)
            && b@.len() >= 12 && u16_at(b@, 0) == m.id && b@[3] % 16 == m.code,
{
    let q = Packet::parse(query).ok()?;
    let mut r = Packet::new_reply(m.id);
    r.set_flags(PacketFlag::from_bits_truncate(m.flags));
    *r.rcode_mut() = RCODE::from(m.code as u16);
    r.questions = m.questions.iter().map(|k| q.questions[*k].clone()).collect();
    for o in &m.answers {
        let data = match o.data {
            Given::V4(address) => RData::A(A { address }),
            Given::V6(address) => RData::AAAA(AAAA { address }),
        };
        r.answers.push(ResourceRecord::new(q.questions[o.of].qname.clone(), CLASS::IN, o.ttl, data));
    }
    r.build_bytes_vec_compressed().ok()
}

/// `simple_dns::Packet::new_reply` and `build_bytes_vec_compressed`, with a record of another
/// name in the Internet class and copies of records: the bytes of the message, or nothing
/// where the other name is none or the message cannot be built; a function of the arguments
/// alone. They begin with the number.
#[verifier::external_body]
pub(crate) fn write_alias(query: &[u8], other: &[u8], m: &AliasMessage) -> (r: Option<Vec<u8>>)
    requires
        m.refers_to(query@, other@),
    ensures
        match r {
            Some(b) => dns_alias_message(
                query@,
                other@,
                m.id,
                m.flags,
                m.questions@,
                m.of,
                m.ttl,
                m.target@,
                m.copied@,
            ) == Some(b@) && b@.len() >= 12 && u16_at(b@, 0) == m.id,
            None => dns_alias_message(
                query@,
                other@,
                m.id,
                m.flags,
                m.questions@,
                m.of,
                m.ttl,
                m.target@,
                m.copied@,
            ) is None,
        },
{
    let (q, a) = (Packet::parse(query).ok()?, Packet::parse(other).ok()?);
    let mut r = Packet::new_reply(m.id);
    r.set_flags(PacketFlag::from_bits_truncate(m.flags));
    r.questions = m.questions.iter().map(|k| q.questions[*k].clone()).collect();
    let target = RData::CNAME(CNAME(Name::new(&m.target).ok()?));
    r.answers.push(ResourceRecord::new(q.questions[m.of].qname.clone(), CLASS::IN, m.ttl, target));
    r.answers.extend(m.copied.iter().map(|k| a.answers[*k].clone()));
    r.build_bytes_vec_compressed().ok()
}

/// `simple_dns::Packet::new_query` with one question in the Internet class: the
/// query, or an error where the name or the type is none; a function of the
/// arguments alone. It begins with its number.
#[verifier::external_body]
pub(crate) fn write_query(id: u16, rd: bool, name: &str, qtype: u16) -> (r: Option<Vec<u8>>)
    ensures
        match r {
            Some(b) => dns_query(id, rd, name@, qtype) == Some(b@) && b@.len() >= 12 && u16_at(b@, 0) == id,
            None => dns_query(id, rd, name@, qtype) is None,
        },
{
    let mut q = Packet::new_query(id);
    q.set_flags(if rd { PacketFlag::RECURSION_DESIRED } else { PacketFlag::empty() });
    let kind = QTYPE::try_from(qtype).ok()?;
    q.questions.push(Question::new(Name::new(name).ok()?, kind, QCLASS::CLASS(CLASS::IN), false));
    q.build_bytes_vec().ok()
}

/// `simple_dns::Packet::parse` and `build_bytes_vec_compressed`, with the times to
/// live of the records of all sections, in their order, replaced by those given: the
/// message, or an error; a function of the arguments alone. It has a header of
/// twelve bytes.
#[verifier::external_body]
pub(crate) fn write_ttls(b: &[u8], ttls: &[u32]) -> (r: Option<Vec<u8>>)
    ensures
        match r {
            Some(m) => dns_retimed(b@, ttls@) == Some(m@) && m@.len() >= 12,
            None => dns_retimed(b@, ttls@) is None,
        },
{
    let mut p = Packet::parse(b).ok()?;
    let records = p.answers.iter_mut().chain(p.name_servers.iter_mut()).chain(p.additional_records.iter_mut());
    for (r, ttl) in records.zip(ttls) {
        r.ttl = *ttl;
    }
    p.build_bytes_vec_compressed().ok()
}

// ── Reading ──────────────────────────────────────────────────────────────────

/// A name as the resolver works with it.
pub open spec fn plain(name: Seq<char>) -> Seq<char> {
    lower(trim_end_char(name, '.'))
}

/// A name as the resolver works with it.
pub fn plain_name(name: &str) -> (r: String)
    ensures
        r@ == plain(name@),
{
    let c = chars_of(name);
    string_of(&to_lower(without_trailing(&c, '.')))
}

/// The smaller of what there is so far and a list.
pub open spec fn least(so_far: Option<u32>, v: Seq<u32>) -> Option<u32>
    decreases v.len(),
{
    if v.len() == 0 {
        so_far
    } else {
        match least(so_far, v.drop_last()) {
            Some(m) => Some(
                if v.last() < m {
                    v.last()
                } else {
                    m
                },
            ),
            None => Some(v.last()),
        }
    }
}

pub open spec fn record_ttls(v: Seq<(u32, Option<Seq<char>>, Option<u32>, Option<u128>)>) -> Seq<u32> {
    Seq::new(v.len(), |i: int| v[i].0)
}

/// The shortest time to live of answers and name servers.
pub open spec fn shortest(a: AnswerParts) -> Option<u32> {
    least(least(None, record_ttls(a.0)), a.1)
}

fn least_of(so_far: Option<u32>, v: &[u32]) -> (r: Option<u32>)
    ensures
        r == least(so_far, v@),
{
    let mut m = so_far;
    let mut i: usize = 0;
    assert(v@.subrange(0, 0) =~= Seq::<u32>::empty());
    while i < v.len()
        invariant
            i <= v@.len(),
            m == least(so_far, v@.subrange(0, i as int)),
        decreases v@.len() - i,
    {
        let ghost u = v@.subrange(0, i + 1);
        assert(u.drop_last() =~= v@.subrange(0, i as int));
        assert(u.last() == v@[i as int]);
        m = match m {
            Some(x) => Some(
                if v[i] < x {
                    v[i]
                } else {
                    x
                },
            ),
            None => Some(v[i]),
        };
        i += 1;
    }
    assert(v@.subrange(0, i as int) =~= v@);
    m
}

impl Answers {
    fn ttls(&self) -> (r: Vec<u32>)
        ensures
            r@ == record_ttls(self@.0),
    {
        let mut out: Vec<u32> = Vec::new();
        let mut i: usize = 0;
        while i < self.records.len()
            invariant
                i <= self.records@.len(),
                out@.len() == i,
                forall|k: int| 0 <= k < i ==> #[trigger] out@[k] == self.records@[k].ttl,
            decreases self.records@.len() - i,
        {
            out.push(self.records[i].ttl);
            i += 1;
        }
        assert(out@ =~= record_ttls(self@.0));
        out
    }

    /// The shortest time to live of answers and name servers.
    pub fn min_ttl(&self) -> (r: Option<u32>)
        ensures
            r == shortest(self@),
    {
        least_of(least_of(None, &self.ttls()), &self.name_servers)
    }
}

/// The names that the records of an answer lead to.
pub open spec fn cnames(v: Seq<(u32, Option<Seq<char>>, Option<u32>, Option<u128>)>) -> Seq<Seq<char>>
    decreases v.len(),
{
    if v.len() == 0 {
        Seq::empty()
    } else {
        match v.last().1 {
            Some(n) => cnames(v.drop_last()).push(plain(n)),
            None => cnames(v.drop_last()),
        }
    }
}

/// The names that an answer leads to; none where it cannot be read.
pub open spec fn names_in(answer: Seq<u8>) -> Seq<Seq<char>> {
    match dns_answer(answer) {
        Some(a) => cnames(a.0),
        None => Seq::empty(),
    }
}

/// The names that an answer leads to.
pub fn answer_names(answer: &[u8]) -> (r: Vec<String>)
    ensures
        string_views(r@) == names_in(answer@),
{
    let mut out: Vec<String> = Vec::new();
    assert(string_views(out@) =~= Seq::<Seq<char>>::empty());
    match read_answers(answer) {
        Some(a) => {
            let ghost all = record_views(a.records@);
            let mut i: usize = 0;
            assert(all.subrange(0, 0) =~= Seq::empty());
            while i < a.records.len()
                invariant
                    all == record_views(a.records@),
                    i <= all.len(),
                    string_views(out@) == cnames(all.subrange(0, i as int)),
                decreases all.len() - i,
            {
                let ghost u = all.subrange(0, i + 1);
                assert(u.drop_last() =~= all.subrange(0, i as int));
                assert(u.last() == all[i as int]);
                if let Data::Alias(n) = &a.records[i].data {
                    let ghost before = out@;
                    out.push(plain_name(n));
                    assert(string_views(out@) =~= string_views(before).push(plain(n@)));
                }
                i += 1;
            }
            assert(all.subrange(0, i as int) =~= all);
        },
        None => {},
    }
    out
}

/// The first address among records.
pub open spec fn first_address(v: Seq<(u32, Option<Seq<char>>, Option<u32>, Option<u128>)>) -> Option<IpAddr>
    decreases v.len(),
{
    if v.len() == 0 {
        None
    } else {
        match (v[0].2, v[0].3) {
            (Some(a), _) => Some(IpAddr::V4(a)),
            (None, Some(a)) => Some(IpAddr::V6(a)),
            _ => first_address(v.drop_first()),
        }
    }
}

/// The first address of an answer.
pub open spec fn address_in(answer: Seq<u8>) -> Option<IpAddr> {
    match dns_answer(answer) {
        Some(a) => first_address(a.0),
        None => None,
    }
}

/// The first address of an answer.
pub fn answer_address(answer: &[u8]) -> (r: Option<IpAddr>)
    ensures
        r == address_in(answer@),
{
    match read_answers(answer) {
        Some(a) => {
            let ghost all = record_views(a.records@);
            let mut i: usize = 0;
            assert(all.subrange(0, all.len() as int) =~= all);
            while i < a.records.len()
                invariant
                    all == record_views(a.records@),
                    i <= all.len(),
                    dns_answer(answer@) == Some(a@),
                    first_address(all) == first_address(all.subrange(i as int, all.len() as int)),
                decreases all.len() - i,
            {
                let ghost rest = all.subrange(i as int, all.len() as int);
                assert(rest.drop_first() =~= all.subrange(i + 1, all.len() as int));
                assert(rest[0] == all[i as int]);
                if let Data::V4(v) = a.records[i].data {
                    return Some(IpAddr::V4(v));
                }
                if let Data::V6(v) = a.records[i].data {
                    return Some(IpAddr::V6(v));
                }
                i += 1;
            }
            assert(all.subrange(i as int, all.len() as int) =~= Seq::empty());
            None
        },
        None => None,
    }
}

// ── Replies ──────────────────────────────────────────────────────────────────

/// A time to live that `elapsed` seconds have passed of: at least one second is
/// left.
pub open spec fn counted_down(ttl: u32, elapsed: u32) -> u32 {
    if ttl > elapsed + 1 {
        (ttl - elapsed) as u32
    } else {
        1
    }
}

pub open spec fn all_counted_down(v: Seq<u32>, elapsed: u32) -> Seq<u32> {
    Seq::new(v.len(), |i: int| counted_down(v[i], elapsed))
}

/// The bytes of a message with another number.
pub open spec fn renumbered(b: Seq<u8>, id: u16) -> Seq<u8> {
    b.update(0, (id / 256) as u8).update(1, (id % 256) as u8)
}

/// A kept answer with the number of a query, and with its times to live counted
/// down.
pub open spec fn refreshed(answer: Seq<u8>, id: u16, elapsed: u32) -> Seq<u8> {
    let rebuilt = match dns_answer(answer) {
        Some(a) => dns_retimed(
            answer,
            all_counted_down(record_ttls(a.0), elapsed) + all_counted_down(a.1, elapsed) + all_counted_down(a.2, elapsed),
        ),
        None => None,
    };
    renumbered(
        match rebuilt {
            Some(b) => b,
            None => answer,
        },
        id,
    )
}

fn count_down(out: &mut Vec<u32>, v: &[u32], elapsed: u32)
    ensures
        final(out)@ == old(out)@ + all_counted_down(v@, elapsed),
{
    let mut i: usize = 0;
    let ghost start = out@;
    while i < v.len()
        invariant
            i <= v@.len(),
            out@ == start + all_counted_down(v@, elapsed).subrange(0, i as int),
        decreases v@.len() - i,
    {
        let left: u32 = v[i].saturating_sub(elapsed);
        out.push(
            if left > 1 {
                left
            } else {
                1
            },
        );
        assert(out@ =~= start + all_counted_down(v@, elapsed).subrange(0, i + 1));
        i += 1;
    }
    assert(out@ =~= start + all_counted_down(v@, elapsed));
}

/// A kept answer with the number of a query, and with its times to live counted
/// down.
pub fn refresh(answer: &[u8], id: u16, elapsed: u32) -> (r: Vec<u8>)
    requires
        answer@.len() >= 2,
    ensures
        r@ == refreshed(answer@, id, elapsed),
{
    let rebuilt = match read_answers(answer) {
        Some(a) => {
            let mut ttls: Vec<u32> = Vec::new();
            count_down(&mut ttls, &a.ttls(), elapsed);
            count_down(&mut ttls, &a.name_servers, elapsed);
            count_down(&mut ttls, &a.additional, elapsed);
            assert(ttls@ =~= all_counted_down(record_ttls(a@.0), elapsed) + all_counted_down(a@.1, elapsed)
                + all_counted_down(a@.2, elapsed));
            write_ttls(answer, &ttls)
        },
        None => None,
    };
    let mut out = match rebuilt {
        Some(b) => b,
        None => slice_to_vec(answer),
    };
    out.set(0, (id / 256) as u8);
    out.set(1, (id % 256) as u8);
    out
}

/// The flags of a reply: whether recursion is desired is taken over, and it is available.
pub open spec fn reply_flags(rd: bool) -> u16 {
    if rd {
        0x0180
    } else {
        RECURSION_AVAILABLE
    }
}

/// The first `n` places.
pub open spec fn places(n: nat) -> Seq<usize> {
    Seq::new(n, |i: int| i as usize)
}

/// A record for an address, under the name of the first question.
pub open spec fn address_record(a: (bool, u128), ttl: u32) -> OwnParts {
    if a.0 {
        (0, ttl, None, Some(a.1))
    } else {
        (0, ttl, Some(a.1 as u32), None)
    }
}

pub open spec fn address_records(addresses: Seq<(bool, u128)>, ttl: u32) -> Seq<OwnParts> {
    Seq::new(addresses.len(), |i: int| address_record(addresses[i], ttl))
}

/// A reply to a query: with its number and all of its questions, a code, and addresses
/// for the name of its first question.
pub open spec fn dns_reply(query: Seq<u8>, rd: bool, code: u8, addresses: Seq<(bool, u128)>, ttl: u32) -> Option<
    Seq<u8>,
> {
    match dns_question(query) {
        Some(q) => dns_message(query, q.0, reply_flags(rd), code, places(q.2.len()), address_records(addresses, ttl)),
        None => None,
    }
}

/// A reply to a query: with its number and all of its questions, that the name of its
/// first question is another name, and all records of the answer for that name after it.
pub open spec fn dns_cname_reply(query: Seq<u8>, rd: bool, target: Seq<char>, ttl: u32, answer: Seq<u8>) -> Option<
    Seq<u8>,
> {
    match (dns_question(query), dns_answer(answer)) {
        (Some(q), Some(a)) => dns_alias_message(
            query,
            answer,
            q.0,
            reply_flags(rd),
            places(q.2.len()),
            0,
            ttl,
            target,
            places(a.0.len()),
        ),
        _ => None,
    }
}

/// The reply to a query that is answered with another name; the failure of the server
/// where there is none.
pub open spec fn alias_reply(query: Seq<u8>, rd: bool, target: Seq<char>, ttl: u32, answer: Seq<u8>) -> Option<Seq<u8>> {
    match dns_cname_reply(query, rd, target, ttl, answer) {
        Some(b) => Some(b),
        None => dns_reply(query, rd, 2, Seq::empty(), 0),
    }
}

fn first_places(n: usize) -> (r: Vec<usize>)
    ensures
        r@ == places(n as nat),
{
    let mut out: Vec<usize> = Vec::new();
    let mut i: usize = 0;
    while i < n
        invariant
            i <= n,
            out@ == places(i as nat),
        decreases n - i,
    {
        out.push(i);
        i += 1;
        assert(out@ =~= places(i as nat));
    }
    out
}

fn flags_of(rd: bool) -> (r: u16)
    ensures
        r == reply_flags(rd),
{
    if rd {
        RECURSION_DESIRED + RECURSION_AVAILABLE
    } else {
        RECURSION_AVAILABLE
    }
}

fn records_of(addresses: &[(bool, u128)], ttl: u32) -> (r: Vec<Own>)
    ensures
        own_views(r@) == address_records(addresses@, ttl),
        forall|i: int|
            0 <= i < r@.len() ==> (#[trigger] r@[i]).of == 0,
{
    let mut out: Vec<Own> = Vec::new();
    let mut i: usize = 0;
    while i < addresses.len()
        invariant
            i <= addresses@.len(),
            out@.len() == i,
            forall|k: int| 0 <= k < i ==> (#[trigger] out@[k])@ == address_record(addresses@[k], ttl),
            forall|k: int| 0 <= k < i ==> (#[trigger] out@[k]).of == 0,
        decreases addresses@.len() - i,
    {
        let (v6, bits) = addresses[i];
        out.push(
            Own {
                of: 0,
                ttl,
                data: if v6 {
                    Given::V6(bits)
                } else {
                    Given::V4(bits as u32)
                },
            },
        );
        i += 1;
    }
    assert(own_views(out@) =~= address_records(addresses@, ttl));
    out
}

/// A reply to a query with a code, and addresses for the name of its first question. It can
/// always be built.
pub(crate) fn write_reply(query: &[u8], rd: bool, code: u8, addresses: &[(bool, u128)], ttl: u32) -> (r: Option<Vec<u8>>)
    requires
        code < 11,
        dns_question(query@) matches Some(m) && (addresses@.len() > 0 ==> m.2.len() > 0),
    ensures
        r matches Some(b) && dns_reply(query@, rd, code, addresses@, ttl) == Some(b@) && b@.len() >= 12 && u16_at(b@, 0)
            == u16_at(query@, 0) && b@[3] % 16 == code,
{
    let q = match read_query(query) {
        Some(q) => q,
        None => {
            return None;
        },
    };
    let m = Message {
        id: q.id,
        flags: flags_of(rd),
        code,
        questions: first_places(q.questions.len()),
        answers: records_of(addresses, ttl),
    };
    assert(own_views(m.answers@).len() == m.answers@.len());
    assert(m.refers_to(query@));
    write_message(query, &m)
}

/// The reply to a query that is answered with another name and the records for it; the
/// failure of the server where such a reply cannot be built.
pub(crate) fn write_alias_reply(query: &[u8], rd: bool, target: &str, ttl: u32, answer: &[u8]) -> (r: Option<Vec<u8>>)
    requires
        dns_question(query@) matches Some(m) && m.2.len() > 0,
    ensures
        r matches Some(b) && alias_reply(query@, rd, target@, ttl, answer@) == Some(b@) && b@.len() >= 12 && u16_at(b@, 0)
            == u16_at(query@, 0),
{
    let q = match read_query(query) {
        Some(q) => q,
        None => {
            return None;
        },
    };
    if let Some(a) = read_answers(answer) {
        let m = AliasMessage {
            id: q.id,
            flags: flags_of(rd),
            questions: first_places(q.questions.len()),
            of: 0,
            ttl,
            target: owned(target),
            copied: first_places(a.records.len()),
        };
        assert(m.refers_to(query@, answer@));
        if let Some(b) = write_alias(query, answer, &m) {
            return Some(b);
        }
    }
    let none: [(bool, u128); 0] = [];
    assert(none@ =~= Seq::<(bool, u128)>::empty());
    write_reply(query, rd, 2, &none, 0)
}

/// The addresses that answer a question of a type.
pub open spec fn fitting(ips: Seq<IpAddr>, qtype: u16) -> Seq<(bool, u128)>
    decreases ips.len(),
{
    if ips.len() == 0 {
        Seq::empty()
    } else {
        let rest = fitting(ips.drop_last(), qtype);
        match ips.last() {
            IpAddr::V4(v) => if qtype == 1 || qtype == 255 {
                rest.push((false, v as u128))
            } else {
                rest
            },
            IpAddr::V6(v) => if qtype == 28 || qtype == 255 {
                rest.push((true, v))
            } else {
                rest
            },
        }
    }
}

/// The addresses that answer a question of a type.
pub fn fitting_addresses(ips: &[IpAddr], qtype: u16) -> (r: Vec<(bool, u128)>)
    ensures
        r@ == fitting(ips@, qtype),
{
    let mut out: Vec<(bool, u128)> = Vec::new();
    let mut i: usize = 0;
    assert(ips@.subrange(0, 0) =~= Seq::<IpAddr>::empty());
    assert(out@ =~= fitting(ips@.subrange(0, 0), qtype));
    while i < ips.len()
        invariant
            i <= ips@.len(),
            out@ == fitting(ips@.subrange(0, i as int), qtype),
        decreases ips@.len() - i,
    {
        let ghost u = ips@.subrange(0, i + 1);
        assert(u.drop_last() =~= ips@.subrange(0, i as int));
        assert(u.last() == ips@[i as int]);
        match ips[i] {
            IpAddr::V4(v) => {
                if qtype == 1 || qtype == 255 {
                    out.push((false, v as u128));
                }
            },
            IpAddr::V6(v) => {
                if qtype == 28 || qtype == 255 {
                    out.push((true, v));
                }
            },
        }
        i += 1;
    }
    assert(ips@.subrange(0, i as int) =~= ips@);
    out
}

/// The time that is left of a record is what it had without what has passed, and a second at
/// least.
pub proof fn times_of_records_run_down(ttl: u32, elapsed: u32, later: u32)
    requires
        elapsed <= later,
    ensures
        ttl > elapsed ==> counted_down(ttl, elapsed) + elapsed == ttl,
        ttl <= elapsed ==> counted_down(ttl, elapsed) == 1,
        counted_down(ttl, later) <= counted_down(ttl, elapsed),
{
}

} // verus!
