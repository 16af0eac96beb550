//! Network addresses and their texts.

use vstd::prelude::*;
use vstd::slice::slice_subrange;

use crate::table::Key;
use crate::text::{
    chars_of, decimal, digit, digits_number, find_char, hex_digit, is_digit, is_hex, lemma_find_char,
    last_position, pieces, plain_number, position, put_decimal, rfind_char, split, string_of, views,
};

verus! {

/// An IP address as a number.
#[derive(Clone, Copy, Debug, PartialEq, Eq, Structural)]
pub enum IpAddr {
    V4(u32),
    V6(u128),
}

/// An IP address, a port and the scope of a link-local address.
#[derive(Clone, Copy, Debug, PartialEq, Eq, Structural)]
pub struct SocketAddr {
    pub ip: IpAddr,
    pub port: u16,
    pub scope_id: u32,
}

impl Key for SocketAddr {
    type Id = SocketAddr;

    open spec fn id(&self) -> SocketAddr {
        *self
    }

    fn same(&self, other: &Self) -> (r: bool) {
        *self == *other
    }

    fn duplicate(&self) -> (r: Self) {
        *self
    }
}

impl Key for IpAddr {
    type Id = IpAddr;

    open spec fn id(&self) -> IpAddr {
        *self
    }

    fn same(&self, other: &Self) -> (r: bool) {
        *self == *other
    }

    fn duplicate(&self) -> (r: Self) {
        *self
    }
}

/// The address `a.b.c.d` as a number.
pub open spec fn quad(a: int, b: int, c: int, d: int) -> int {
    a * 0x100_0000 + b * 0x1_0000 + c * 0x100 + d
}

/// The addresses `::ffff:a.b.c.d` stand for IPv4 addresses.
pub open spec fn is_mapped(v: int) -> bool {
    v / 0x1_0000_0000 == 0xffff
}

impl IpAddr {
    /// The IPv4 address that an IPv6 address stands for, itself otherwise.
    pub open spec fn canonical(self) -> IpAddr {
        match self {
            IpAddr::V6(v) if is_mapped(v as int) => IpAddr::V4((v % 0x1_0000_0000) as u32),
            _ => self,
        }
    }

    pub fn to_canonical(&self) -> (r: IpAddr)
        ensures
            r == self.canonical(),
    {
        match *self {
            IpAddr::V6(v) => if v / 0x1_0000_0000 == 0xffff {
                IpAddr::V4((v % 0x1_0000_0000) as u32)
            } else {
                *self
            },
            IpAddr::V4(_) => *self,
        }
    }

    /// `127.0.0.0/8` and `::1`.
    pub open spec fn loopback(self) -> bool {
        match self {
            IpAddr::V4(v) => v / 0x100_0000 == 127,
            IpAddr::V6(v) => v == 1,
        }
    }

    pub fn is_loopback(&self) -> (r: bool)
        ensures
            r == self.loopback(),
    {
        match *self {
            IpAddr::V4(v) => v / 0x100_0000 == 127,
            IpAddr::V6(v) => v == 1,
        }
    }

    /// The IPv4 address in the last four bytes of `::a.b.c.d` or
    /// `::ffff:a.b.c.d`.
    pub open spec fn embedded(v: u128) -> Option<u32> {
        if v / 0x1_0000_0000 == 0 || v / 0x1_0000_0000 == 0xffff {
            Some((v % 0x1_0000_0000) as u32)
        } else {
            None
        }
    }
}

impl SocketAddr {
    pub fn new(ip: IpAddr, port: u16) -> (r: SocketAddr)
        ensures
            r == (SocketAddr { ip, port, scope_id: 0 }),
    {
        SocketAddr { ip, port, scope_id: 0 }
    }

    /// An address in which IPv6 stands for IPv4, as IPv4.
    pub open spec fn unmapped(self) -> SocketAddr {
        match self.ip {
            IpAddr::V6(v) => match IpAddr::embedded(v) {
                Some(a) => SocketAddr { ip: IpAddr::V4(a), port: self.port, scope_id: 0 },
                None => self,
            },
            IpAddr::V4(_) => self,
        }
    }

    /// An address in which IPv6 stands for IPv4, as IPv4.
    pub fn normalized(&self) -> (r: SocketAddr)
        ensures
            r == self.unmapped(),
    {
        match self.ip {
            IpAddr::V6(v) => {
                let high: u128 = v / 0x1_0000_0000;
                if high == 0 || high == 0xffff {
                    SocketAddr { ip: IpAddr::V4((v % 0x1_0000_0000) as u32), port: self.port, scope_id: 0 }
                } else {
                    *self
                }
            },
            IpAddr::V4(_) => *self,
        }
    }
}

// ── Reading ──────────────────────────────────────────────────────────────────

/// A part of a dotted quad: up to three digits, no leading zero, at most 255.
pub open spec fn octet(p: Seq<char>) -> Option<int> {
    if p.len() <= 3 && (p.len() == 1 || p.len() > 1 && p[0] != '0') {
        plain_number(p, 255)
    } else {
        None
    }
}

/// A dotted quad.
pub open spec fn read_v4(s: Seq<char>) -> Option<int> {
    let p = split(s, '.');
    if p.len() == 4 {
        match (octet(p[0]), octet(p[1]), octet(p[2]), octet(p[3])) {
            (Some(a), Some(b), Some(c), Some(d)) => Some(quad(a, b, c, d)),
            _ => None,
        }
    } else {
        None
    }
}

pub open spec fn hex_value_of(c: char) -> int {
    if is_digit(c) {
        c as u32 - '0' as u32
    } else if 'a' <= c && c <= 'f' {
        c as u32 - 'a' as u32 + 10
    } else {
        c as u32 - 'A' as u32 + 10
    }
}

pub open spec fn hex_value(s: Seq<char>) -> int
    decreases s.len(),
{
    if s.len() == 0 {
        0
    } else {
        hex_value(s.drop_last()) * 16 + hex_value_of(s.last())
    }
}

/// A group of an IPv6 address: one to four hexadecimal digits.
pub open spec fn hex_group(p: Seq<char>) -> Option<int> {
    if 1 <= p.len() <= 4 && forall|i: int| 0 <= i < p.len() ==> is_hex(#[trigger] p[i]) {
        Some(hex_value(p))
    } else {
        None
    }
}

/// Groups of an IPv6 address; the last part may be a dotted quad, which is two
/// groups, where `quad_ok`.
pub open spec fn groups(parts: Seq<Seq<char>>, quad_ok: bool) -> Option<Seq<int>>
    decreases parts.len(),
{
    if parts.len() == 0 {
        Some(Seq::empty())
    } else if parts.len() == 1 && quad_ok && read_v4(parts[0]) is Some {
        let v = read_v4(parts[0])->0;
        Some(seq![v / 0x1_0000, v % 0x1_0000])
    } else {
        match (hex_group(parts[0]), groups(parts.drop_first(), quad_ok)) {
            (Some(g), Some(rest)) => Some(seq![g] + rest),
            _ => None,
        }
    }
}

/// The groups on one side of `::`.
pub open spec fn side(s: Seq<char>, quad_ok: bool) -> Option<Seq<int>> {
    if s.len() == 0 {
        Some(Seq::empty())
    } else {
        groups(split(s, ':'), quad_ok)
    }
}

/// Where the first `::` is.
pub open spec fn double_colon(s: Seq<char>) -> Option<int>
    decreases s.len(),
{
    if s.len() < 2 {
        None
    } else if s[0] == ':' && s[1] == ':' {
        Some(0)
    } else {
        match double_colon(s.drop_first()) {
            Some(i) => Some(i + 1),
            None => None,
        }
    }
}

pub open spec fn zero_groups(n: int) -> Seq<int> {
    Seq::new(n as nat, |i: int| 0int)
}

/// The number of eight groups.
pub open spec fn groups_value(g: Seq<int>) -> int {
    g[0] * 0x1_0000_0000_0000_0000_0000_0000_0000 + g[1] * 0x1_0000_0000_0000_0000_0000_0000 + g[2]
        * 0x1_0000_0000_0000_0000_0000 + g[3] * 0x1_0000_0000_0000_0000 + g[4] * 0x1_0000_0000_0000 + g[5]
        * 0x1_0000_0000 + g[6] * 0x1_0000 + g[7]
}

/// An IPv6 address: eight groups, or fewer around a `::` that stands for at
/// least one.
pub open spec fn read_v6(s: Seq<char>) -> Option<int> {
    match double_colon(s) {
        Some(i) => match (side(s.subrange(0, i), false), side(s.subrange(i + 2, s.len() as int), true)) {
            (Some(h), Some(t)) => if h.len() + t.len() <= 7 {
                Some(groups_value(h + zero_groups(8 - h.len() - t.len()) + t))
            } else {
                None
            },
            _ => None,
        },
        None => match side(s, true) {
            Some(g) => if g.len() == 8 {
                Some(groups_value(g))
            } else {
                None
            },
            None => None,
        },
    }
}

/// The address that a text stands for.
pub open spec fn read_ip(s: Seq<char>) -> Option<IpAddr> {
    match read_v4(s) {
        Some(v) => Some(IpAddr::V4(v as u32)),
        None => match read_v6(s) {
            Some(v) => Some(IpAddr::V6(v as u128)),
            None => None,
        },
    }
}

/// Whether a text has no characters but those of addresses.
pub open spec fn address_shaped(s: Seq<char>) -> bool {
    forall|i: int| 0 <= i < s.len() ==> is_hex(#[trigger] s[i]) || s[i] == '.' || s[i] == ':'
}

proof fn lemma_shaped_pieces(s: Seq<char>, c: char)
    requires
        c == '.' || c == ':',
        forall|i: int| 0 <= i < split(s, c).len() ==> address_shaped(#[trigger] split(s, c)[i]),
    ensures
        address_shaped(s),
    decreases s.len(),
{
    lemma_find_char(s, c);
    let p = split(s, c);
    match find_char(s, c) {
        Some(i) => {
            let t = s.subrange(i + 1, s.len() as int);
            assert(p =~= seq![s.subrange(0, i)] + split(t, c));
            assert forall|k: int| 0 <= k < split(t, c).len() implies address_shaped(#[trigger] split(t, c)[k]) by {
                assert(p[k + 1] == split(t, c)[k]);
            }
            lemma_shaped_pieces(t, c);
            assert(address_shaped(p[0]));
            assert forall|k: int| 0 <= k < s.len() implies is_hex(#[trigger] s[k]) || s[k] == '.' || s[k] == ':' by {
                if k < i {
                    assert(p[0][k] == s[k]);
                } else if k > i {
                    assert(t[k - i - 1] == s[k]);
                }
            }
        },
        None => {
            assert(p[0] == s);
        },
    }
}

proof fn lemma_shaped_v4(s: Seq<char>)
    requires
        read_v4(s) is Some,
    ensures
        address_shaped(s),
{
    let p = split(s, '.');
    assert forall|i: int| 0 <= i < p.len() implies address_shaped(#[trigger] p[i]) by {
        assert(i == 0 || i == 1 || i == 2 || i == 3);
        assert(octet(p[i]) is Some);
    }
    lemma_shaped_pieces(s, '.');
}

proof fn lemma_shaped_groups(parts: Seq<Seq<char>>, quad_ok: bool, i: int)
    requires
        groups(parts, quad_ok) is Some,
        0 <= i < parts.len(),
    ensures
        address_shaped(parts[i]),
    decreases parts.len(),
{
    if parts.len() == 1 && quad_ok && read_v4(parts[0]) is Some {
        lemma_shaped_v4(parts[0]);
    } else if i > 0 {
        lemma_shaped_groups(parts.drop_first(), quad_ok, i - 1);
    }
}

proof fn lemma_shaped_side(s: Seq<char>, quad_ok: bool)
    requires
        side(s, quad_ok) is Some,
    ensures
        address_shaped(s),
{
    if s.len() > 0 {
        let p = split(s, ':');
        assert forall|i: int| 0 <= i < p.len() implies address_shaped(#[trigger] p[i]) by {
            lemma_shaped_groups(p, quad_ok, i);
        }
        lemma_shaped_pieces(s, ':');
    }
}

proof fn lemma_double_colon(s: Seq<char>)
    ensures
        double_colon(s) matches Some(i) ==> 0 <= i && i + 2 <= s.len() && s[i] == ':' && s[i + 1] == ':',
    decreases s.len(),
{
    if s.len() >= 2 {
        lemma_double_colon(s.drop_first());
    }
}

/// A text that stands for an address has no characters but those of addresses.
pub proof fn lemma_address_shaped(s: Seq<char>)
    requires
        read_ip(s) is Some,
    ensures
        s.len() > 0,
        address_shaped(s),
{
    if read_v4(s) is Some {
        lemma_shaped_v4(s);
        if s.len() == 0 {
            lemma_find_char(s, '.');
            assert(split(s, '.').len() == 1);
        }
    } else {
        lemma_double_colon(s);
        match double_colon(s) {
            Some(i) => {
                let (h, t) = (s.subrange(0, i), s.subrange(i + 2, s.len() as int));
                lemma_shaped_side(h, false);
                lemma_shaped_side(t, true);
                assert forall|k: int| 0 <= k < s.len() implies is_hex(#[trigger] s[k]) || s[k] == '.' || s[k] == ':' by {
                    if k < i {
                        assert(h[k] == s[k]);
                    } else if k > i + 1 {
                        assert(t[k - i - 2] == s[k]);
                    }
                }
            },
            None => {
                lemma_shaped_side(s, true);
            },
        }
    }
}

/// `a.b.c.d:port`, `[v6]:port` or `[v6%scope]:port`.
pub open spec fn read_socket(s: Seq<char>) -> Option<SocketAddr> {
    match rfind_char(s, ':') {
        Some(i) => {
            let host = s.subrange(0, i);
            match plain_number(s.subrange(i + 1, s.len() as int), 0xffff) {
                Some(port) => if host.len() >= 2 && host[0] == '[' && host.last() == ']' {
                    let inner = host.subrange(1, host.len() - 1);
                    match find_char(inner, '%') {
                        Some(k) => match (
                            read_v6(inner.subrange(0, k)),
                            plain_number(inner.subrange(k + 1, inner.len() as int), 0xffff_ffff),
                        ) {
                            (Some(v), Some(scope)) => Some(
                                SocketAddr { ip: IpAddr::V6(v as u128), port: port as u16, scope_id: scope as u32 },
                            ),
                            _ => None,
                        },
                        None => match read_v6(inner) {
                            Some(v) => Some(SocketAddr { ip: IpAddr::V6(v as u128), port: port as u16, scope_id: 0 }),
                            None => None,
                        },
                    }
                } else {
                    match read_v4(host) {
                        Some(v) => Some(SocketAddr { ip: IpAddr::V4(v as u32), port: port as u16, scope_id: 0 }),
                        None => None,
                    }
                },
                None => None,
            }
        },
        None => None,
    }
}

fn parse_octet(p: &[char]) -> (r: Option<u32>)
    ensures
        match r {
            Some(v) => octet(p@) == Some(v as int) && v <= 255,
            None => octet(p@) is None,
        },
{
    if p.len() == 0 || p.len() > 3 || (p.len() > 1 && p[0] == '0') {
        return None;
    }
    match digits_number(p, 255) {
        Some(v) => Some(v as u32),
        None => None,
    }
}

fn parse_v4(s: &[char]) -> (r: Option<u32>)
    ensures
        match r {
            Some(v) => read_v4(s@) == Some(v as int),
            None => read_v4(s@) is None,
        },
{
    let p = pieces(s, '.');
    assert(views(p@).len() == p@.len());
    if p.len() != 4 {
        return None;
    }
    assert(views(p@)[0] == p@[0]@ && views(p@)[1] == p@[1]@ && views(p@)[2] == p@[2]@ && views(p@)[3] == p@[3]@);
    match (parse_octet(&p[0]), parse_octet(&p[1]), parse_octet(&p[2]), parse_octet(&p[3])) {
        (Some(a), Some(b), Some(c), Some(d)) => Some(a * 0x100_0000 + b * 0x1_0000 + c * 0x100 + d),
        _ => None,
    }
}

fn hex_value_char(c: char) -> (r: u32)
    requires
        is_hex(c),
    ensures
        r == hex_value_of(c),
        r < 16,
{
    if digit(c) {
        c as u32 - 48
    } else if 'a' <= c && c <= 'f' {
        c as u32 - 97 + 10
    } else {
        c as u32 - 65 + 10
    }
}

fn parse_group(p: &[char]) -> (r: Option<u16>)
    ensures
        match r {
            Some(v) => hex_group(p@) == Some(v as int),
            None => hex_group(p@) is None,
        },
{
    let n: usize = p.len();
    if n == 0 || n > 4 {
        return None;
    }
    let mut v: u32 = 0;
    let mut i: usize = 0;
    let mut limit: u32 = 1;
    assert(p@.subrange(0, 0) =~= Seq::<char>::empty());
    while i < n
        invariant
            n == p@.len(),
            i <= n <= 4,
            i == 0 ==> limit == 1,
            i == 1 ==> limit == 0x10,
            i == 2 ==> limit == 0x100,
            i == 3 ==> limit == 0x1000,
            i == 4 ==> limit == 0x1_0000,
            v < limit,
            v == hex_value(p@.subrange(0, i as int)),
            forall|k: int| 0 <= k < i ==> is_hex(#[trigger] p@[k]),
        decreases n - i,
    {
        if !hex_digit(p[i]) {
            return None;
        }
        let ghost t = p@.subrange(0, i + 1);
        assert(t.drop_last() =~= p@.subrange(0, i as int));
        assert(t.last() == p@[i as int]);
        v = v * 16 + hex_value_char(p[i]);
        limit = limit * 16;
        i += 1;
    }
    assert(p@.subrange(0, n as int) =~= p@);
    Some(v as u16)
}

pub open spec fn ints(v: Seq<u16>) -> Seq<int> {
    Seq::new(v.len(), |i: int| v[i] as int)
}

fn parse_groups(parts: &Vec<Vec<char>>, quad_ok: bool) -> (r: Option<Vec<u16>>)
    ensures
        match r {
            Some(v) => groups(views(parts@), quad_ok) == Some(ints(v@)),
            None => groups(views(parts@), quad_ok) is None,
        },
{
    let mut out: Vec<u16> = Vec::new();
    let mut i: usize = 0;
    let n: usize = parts.len();
    let ghost all = views(parts@);
    assert(all.subrange(0, n as int) =~= all);
    assert(ints(out@) =~= Seq::<int>::empty());
    proof {
        if let Some(g) = groups(all, quad_ok) {
            assert(ints(out@) + g =~= g);
        }
    }
    while i < n
        invariant
            n == parts@.len(),
            all == views(parts@),
            i <= n,
            match groups(all.subrange(i as int, n as int), quad_ok) {
                Some(g) => groups(all, quad_ok) == Some(ints(out@) + g),
                None => groups(all, quad_ok) is None,
            },
        decreases n - i,
    {
        let ghost rest = all.subrange(i as int, n as int);
        let ghost before = ints(out@);
        assert(rest[0] == parts@[i as int]@);
        assert(rest.drop_first() =~= all.subrange(i + 1, n as int));
        if quad_ok && i + 1 == n {
            match parse_v4(&parts[i]) {
                Some(v) => {
                    out.push((v / 0x1_0000) as u16);
                    out.push((v % 0x1_0000) as u16);
                    assert(ints(out@) =~= before + seq![v as int / 0x1_0000, v as int % 0x1_0000]);
                    return Some(out);
                },
                None => {},
            }
        }
        match parse_group(&parts[i]) {
            Some(g) => {
                out.push(g);
                assert(ints(out@) =~= before.push(g as int));
                proof {
                    if let Some(t) = groups(rest.drop_first(), quad_ok) {
                        assert(before + (seq![g as int] + t) =~= ints(out@) + t);
                    }
                }
            },
            None => {
                return None;
            },
        }
        i += 1;
    }
    assert(all.subrange(n as int, n as int) =~= Seq::<Seq<char>>::empty());
    assert(ints(out@) + Seq::<int>::empty() =~= ints(out@));
    Some(out)
}

fn parse_side(s: &[char], quad_ok: bool) -> (r: Option<Vec<u16>>)
    ensures
        match r {
            Some(v) => side(s@, quad_ok) == Some(ints(v@)),
            None => side(s@, quad_ok) is None,
        },
{
    if s.len() == 0 {
        let v: Vec<u16> = Vec::new();
        assert(ints(v@) =~= Seq::<int>::empty());
        return Some(v);
    }
    parse_groups(&pieces(s, ':'), quad_ok)
}

fn find_double_colon(s: &[char]) -> (r: Option<usize>)
    ensures
        match r {
            Some(i) => double_colon(s@) == Some(i as int) && i + 2 <= s@.len(),
            None => double_colon(s@) is None,
        },
{
    let n: usize = s.len();
    let mut i: usize = 0;
    assert(s@.subrange(0, n as int) =~= s@);
    while i < n
        invariant
            n == s@.len(),
            i <= n,
            match double_colon(s@.subrange(i as int, n as int)) {
                Some(k) => double_colon(s@) == Some(i + k),
                None => double_colon(s@) is None,
            },
        decreases n - i,
    {
        let ghost rest = s@.subrange(i as int, n as int);
        assert(rest.drop_first() =~= s@.subrange(i + 1, n as int));
        if i + 1 >= n {
            return None;
        }
        if s[i] == ':' && s[i + 1] == ':' {
            return Some(i);
        }
        i += 1;
    }
    None
}

fn join_groups(g: &Vec<u16>) -> (r: u128)
    requires
        g@.len() == 8,
    ensures
        r == groups_value(ints(g@)),
{
    (g[0] as u128) * 0x1_0000_0000_0000_0000_0000_0000_0000 + (g[1] as u128) * 0x1_0000_0000_0000_0000_0000_0000 + (
    g[2] as u128) * 0x1_0000_0000_0000_0000_0000 + (g[3] as u128) * 0x1_0000_0000_0000_0000 + (g[4] as u128)
        * 0x1_0000_0000_0000 + (g[5] as u128) * 0x1_0000_0000 + (g[6] as u128) * 0x1_0000 + (g[7] as u128)
}

fn append_groups(out: &mut Vec<u16>, g: &Vec<u16>)
    ensures
        ints(final(out)@) == ints(old(out)@) + ints(g@),
{
    let mut k: usize = 0;
    assert(ints(out@) =~= ints(old(out)@) + ints(g@).subrange(0, 0));
    while k < g.len()
        invariant
            k <= g@.len(),
            ints(out@) == ints(old(out)@) + ints(g@).subrange(0, k as int),
        decreases g@.len() - k,
    {
        let ghost before = out@;
        out.push(g[k]);
        k += 1;
        assert(ints(out@) =~= ints(before).push(g@[k - 1] as int));
        assert(ints(g@).subrange(0, k as int) =~= ints(g@).subrange(0, k - 1).push(g@[k - 1] as int));
        assert(ints(out@) =~= ints(old(out)@) + ints(g@).subrange(0, k as int));
    }
    assert(ints(g@).subrange(0, k as int) =~= ints(g@));
}

fn parse_v6(s: &[char]) -> (r: Option<u128>)
    ensures
        match r {
            Some(v) => read_v6(s@) == Some(v as int),
            None => read_v6(s@) is None,
        },
{
    let n: usize = s.len();
    match find_double_colon(s) {
        Some(i) => {
            let head = parse_side(slice_subrange(s, 0, i), false);
            let tail = parse_side(slice_subrange(s, i + 2, n), true);
            match (head, tail) {
                (Some(h), Some(t)) => {
                    assert(ints(h@).len() == h@.len() && ints(t@).len() == t@.len());
                    if h.len() > 7 || t.len() > 7 - h.len() {
                        return None;
                    }
                    let gap: usize = 8 - h.len() - t.len();
                    let mut all: Vec<u16> = Vec::new();
                    append_groups(&mut all, &h);
                    let mut k: usize = 0;
                    assert(ints(all@) =~= ints(h@) + zero_groups(0));
                    while k < gap
                        invariant
                            k <= gap,
                            ints(all@) == ints(h@) + zero_groups(k as int),
                        decreases gap - k,
                    {
                        let ghost before = all@;
                        all.push(0);
                        k += 1;
                        assert(ints(all@) =~= ints(before).push(0));
                        assert(zero_groups(k as int) =~= zero_groups(k - 1).push(0));
                        assert(ints(all@) =~= ints(h@) + zero_groups(k as int));
                    }
                    append_groups(&mut all, &t);
                    assert(all@.len() == ints(all@).len());
                    Some(join_groups(&all))
                },
                _ => None,
            }
        },
        None => match parse_side(s, true) {
            Some(g) => {
                assert(ints(g@).len() == g@.len());
                if g.len() == 8 {
                    Some(join_groups(&g))
                } else {
                    None
                }
            },
            None => None,
        },
    }
}

/// The address that a text stands for.
pub fn parse_ip(s: &[char]) -> (r: Option<IpAddr>)
    ensures
        r == read_ip(s@),
{
    match parse_v4(s) {
        Some(v) => Some(IpAddr::V4(v)),
        None => match parse_v6(s) {
            Some(v) => Some(IpAddr::V6(v)),
            None => None,
        },
    }
}

/// The address that a text stands for.
pub fn ip_of(s: &str) -> (r: Option<IpAddr>)
    ensures
        r == read_ip(s@),
{
    let c = chars_of(s);
    parse_ip(&c)
}

/// The address and port that a text stands for.
pub fn parse_socket(s: &[char]) -> (r: Option<SocketAddr>)
    ensures
        r == read_socket(s@),
{
    let n: usize = s.len();
    let i: usize = match last_position(s, ':') {
        Some(i) => i,
        None => {
            return None;
        },
    };
    let host = slice_subrange(s, 0, i);
    let port: u16 = match digits_number(slice_subrange(s, i + 1, n), 0xffff) {
        Some(p) => p as u16,
        None => {
            return None;
        },
    };
    let h: usize = host.len();
    if h >= 2 && host[0] == '[' && host[h - 1] == ']' {
        let inner = slice_subrange(host, 1, h - 1);
        let m: usize = inner.len();
        match position(inner, '%') {
            Some(k) => {
                let v = parse_v6(slice_subrange(inner, 0, k));
                let scope = digits_number(slice_subrange(inner, k + 1, m), 0xffff_ffff);
                match (v, scope) {
                    (Some(v), Some(scope)) => Some(
                        SocketAddr { ip: IpAddr::V6(v), port, scope_id: scope as u32 },
                    ),
                    _ => None,
                }
            },
            None => match parse_v6(inner) {
                Some(v) => Some(SocketAddr { ip: IpAddr::V6(v), port, scope_id: 0 }),
                None => None,
            },
        }
    } else {
        match parse_v4(host) {
            Some(v) => Some(SocketAddr { ip: IpAddr::V4(v), port, scope_id: 0 }),
            None => None,
        }
    }
}

/// The address and port that a text stands for.
pub fn socket_of(s: &str) -> (r: Option<SocketAddr>)
    ensures
        r == read_socket(s@),
{
    let c = chars_of(s);
    parse_socket(&c)
}

// ── Writing ──────────────────────────────────────────────────────────────────

/// A dotted quad.
pub open spec fn show_v4(v: int) -> Seq<char> {
    decimal((v / 0x100_0000) as nat) + seq!['.'] + decimal((v / 0x1_0000 % 0x100) as nat) + seq!['.'] + decimal(
        (v / 0x100 % 0x100) as nat,
    ) + seq!['.'] + decimal((v % 0x100) as nat)
}

pub open spec fn hex_char(d: int) -> char {
    if d < 10 {
        ('0' as u32 + d) as char
    } else {
        ('a' as u32 + d - 10) as char
    }
}

/// The hexadecimal text of a number, in lower case.
pub open spec fn hexadecimal(n: nat) -> Seq<char>
    decreases n,
{
    if n < 16 {
        seq![hex_char(n as int)]
    } else {
        hexadecimal(n / 16).push(hex_char((n % 16) as int))
    }
}

/// The eight groups of an address.
pub open spec fn groups_of(v: int) -> Seq<int> {
    seq![
        v / 0x1_0000_0000_0000_0000_0000_0000_0000,
        v / 0x1_0000_0000_0000_0000_0000_0000 % 0x1_0000,
        v / 0x1_0000_0000_0000_0000_0000 % 0x1_0000,
        v / 0x1_0000_0000_0000_0000 % 0x1_0000,
        v / 0x1_0000_0000_0000 % 0x1_0000,
        v / 0x1_0000_0000 % 0x1_0000,
        v / 0x1_0000 % 0x1_0000,
        v % 0x1_0000,
    ]
}

/// How many of the groups before `i` are zero without a break.
pub open spec fn zero_run(g: Seq<int>, i: int) -> int
    decreases i,
{
    if i <= 0 || g[i - 1] != 0 {
        0
    } else {
        1 + zero_run(g, i - 1)
    }
}

/// The first longest run of zeros before group `i`: where it starts, and how
/// long it is.
pub open spec fn longest_run(g: Seq<int>, i: int) -> (int, int)
    decreases i,
{
    if i <= 0 {
        (0, 0)
    } else {
        let best = longest_run(g, i - 1);
        let now = zero_run(g, i);
        if now > best.1 {
            (i - now, now)
        } else {
            best
        }
    }
}

/// Groups `from` to `to` with colons between them.
pub open spec fn show_groups(g: Seq<int>, from: int, to: int) -> Seq<char>
    decreases to - from,
{
    if from >= to {
        Seq::empty()
    } else if from + 1 == to {
        hexadecimal(g[from] as nat)
    } else {
        show_groups(g, from, to - 1) + seq![':'] + hexadecimal(g[to - 1] as nat)
    }
}

/// The text of an IPv6 address: the first longest run of zeros, where it has at
/// least two groups, is left out; an address that stands for an IPv4 address
/// ends in it.
pub open spec fn show_v6(v: int) -> Seq<char> {
    let g = groups_of(v);
    let (start, len) = longest_run(g, 8);
    if is_mapped(v) {
        "::ffff:"@ + show_v4(v % 0x1_0000_0000)
    } else if len > 1 {
        show_groups(g, 0, start) + seq![':', ':'] + show_groups(g, start + len, 8)
    } else {
        show_groups(g, 0, 8)
    }
}

pub open spec fn show_ip(ip: IpAddr) -> Seq<char> {
    match ip {
        IpAddr::V4(v) => show_v4(v as int),
        IpAddr::V6(v) => show_v6(v as int),
    }
}

pub open spec fn show_socket(a: SocketAddr) -> Seq<char> {
    match a.ip {
        IpAddr::V4(v) => show_v4(v as int) + seq![':'] + decimal(a.port as nat),
        IpAddr::V6(v) => seq!['['] + show_v6(v as int) + (if a.scope_id == 0 {
            Seq::empty()
        } else {
            seq!['%'] + decimal(a.scope_id as nat)
        }) + seq![']', ':'] + decimal(a.port as nat),
    }
}

fn put_v4(out: &mut Vec<char>, v: u32)
    ensures
        final(out)@ == old(out)@ + show_v4(v as int),
{
    put_decimal(out, (v / 0x100_0000) as u64);
    out.push('.');
    put_decimal(out, (v / 0x1_0000 % 0x100) as u64);
    out.push('.');
    put_decimal(out, (v / 0x100 % 0x100) as u64);
    out.push('.');
    put_decimal(out, (v % 0x100) as u64);
    assert(out@ =~= old(out)@ + show_v4(v as int));
}

fn char_of_hex(d: u16) -> (c: char)
    requires
        d < 16,
    ensures
        c == hex_char(d as int),
{
    if d < 10 {
        (48 + d as u8) as char
    } else {
        (97 + (d as u8 - 10)) as char
    }
}

fn put_hex(out: &mut Vec<char>, n: u16)
    ensures
        final(out)@ == old(out)@ + hexadecimal(n as nat),
    decreases n,
{
    if n < 16 {
        out.push(char_of_hex(n));
    } else {
        put_hex(out, n / 16);
        out.push(char_of_hex(n % 16));
    }
    assert(out@ =~= old(out)@ + hexadecimal(n as nat));
}

fn split_groups(v: u128) -> (r: [u16; 8])
    ensures
        ints(r@) == groups_of(v as int),
{
    let r: [u16; 8] = [
        (v / 0x1_0000_0000_0000_0000_0000_0000_0000) as u16,
        (v / 0x1_0000_0000_0000_0000_0000_0000 % 0x1_0000) as u16,
        (v / 0x1_0000_0000_0000_0000_0000 % 0x1_0000) as u16,
        (v / 0x1_0000_0000_0000_0000 % 0x1_0000) as u16,
        (v / 0x1_0000_0000_0000 % 0x1_0000) as u16,
        (v / 0x1_0000_0000 % 0x1_0000) as u16,
        (v / 0x1_0000 % 0x1_0000) as u16,
        (v % 0x1_0000) as u16,
    ];
    assert(ints(r@) =~= groups_of(v as int));
    r
}

fn put_groups(out: &mut Vec<char>, g: &[u16; 8], from: usize, to: usize)
    requires
        from <= to <= 8,
    ensures
        final(out)@ == old(out)@ + show_groups(ints(g@), from as int, to as int),
{
    let mut i: usize = from;
    assert(out@ =~= old(out)@ + show_groups(ints(g@), from as int, from as int));
    while i < to
        invariant
            from <= i <= to <= 8,
            out@ == old(out)@ + show_groups(ints(g@), from as int, i as int),
        decreases to - i,
    {
        let ghost before = show_groups(ints(g@), from as int, i as int);
        if i > from {
            out.push(':');
        }
        put_hex(out, g[i]);
        assert(ints(g@)[i as int] == g@[i as int]);
        assert(out@ =~= old(out)@ + show_groups(ints(g@), from as int, i + 1));
        i += 1;
    }
}

fn longest_zeros(g: &[u16; 8]) -> (r: (usize, usize))
    ensures
        (r.0 as int, r.1 as int) == longest_run(ints(g@), 8),
        r.0 + r.1 <= 8,
{
    let mut best: (usize, usize) = (0, 0);
    let mut run: usize = 0;
    let mut i: usize = 0;
    while i < 8
        invariant
            i <= 8,
            run == zero_run(ints(g@), i as int),
            run <= i,
            (best.0 as int, best.1 as int) == longest_run(ints(g@), i as int),
            best.0 + best.1 <= i,
        decreases 8 - i,
    {
        assert(ints(g@)[i as int] == g@[i as int]);
        run = if g[i] == 0 {
            run + 1
        } else {
            0
        };
        i += 1;
        if run > best.1 {
            best = (i - run, run);
        }
    }
    best
}

fn put_v6(out: &mut Vec<char>, v: u128)
    ensures
        final(out)@ == old(out)@ + show_v6(v as int),
{
    if v / 0x1_0000_0000 == 0xffff {
        crate::text::put_str(out, "::ffff:");
        put_v4(out, (v % 0x1_0000_0000) as u32);
        assert(out@ =~= old(out)@ + show_v6(v as int));
        return;
    }
    let g = split_groups(v);
    let (start, len) = longest_zeros(&g);
    if len > 1 {
        put_groups(out, &g, 0, start);
        out.push(':');
        out.push(':');
        put_groups(out, &g, start + len, 8);
        assert(out@ =~= old(out)@ + show_v6(v as int));
    } else {
        put_groups(out, &g, 0, 8);
    }
}

impl IpAddr {
    /// The text of the address.
    pub fn text(&self) -> (r: String)
        ensures
            r@ == show_ip(*self),
    {
        let mut out: Vec<char> = Vec::new();
        match *self {
            IpAddr::V4(v) => put_v4(&mut out, v),
            IpAddr::V6(v) => put_v6(&mut out, v),
        }
        assert(out@ =~= show_ip(*self));
        string_of(&out)
    }
}

impl SocketAddr {
    /// The text of the address and port.
    pub fn text(&self) -> (r: String)
        ensures
            r@ == show_socket(*self),
    {
        let mut out: Vec<char> = Vec::new();
        match self.ip {
            IpAddr::V4(v) => {
                put_v4(&mut out, v);
                out.push(':');
                put_decimal(&mut out, self.port as u64);
            },
            IpAddr::V6(v) => {
                out.push('[');
                put_v6(&mut out, v);
                if self.scope_id != 0 {
                    out.push('%');
                    put_decimal(&mut out, self.scope_id as u64);
                }
                out.push(']');
                out.push(':');
                put_decimal(&mut out, self.port as u64);
            },
        }
        assert(out@ =~= show_socket(*self));
        string_of(&out)
    }
}

// ── Addresses are read as they are shown ─────────────────────────────────────

proof fn lemma_octet(a: nat)
    requires
        a < 256,
    ensures
        octet(decimal(a)) == Some(a as int),
        decimal(a).len() > 0,
        is_digit(decimal(a)[0]),
        !crate::text::has_char(decimal(a), '.'),
        !crate::text::has_char(decimal(a), ':'),
        !crate::text::has_char(decimal(a), '%'),
{
    reveal_with_fuel(decimal, 4);
    crate::text::lemma_decimal_digits(a);
    crate::text::lemma_decimal_value(a);
    assert(is_digit(decimal(a)[0]));
    if a >= 100 {
        assert(a / 10 / 10 == a / 100);
        assert(decimal(a) =~= seq![
            crate::text::digit_char((a / 100) as int),
            crate::text::digit_char((a / 10 % 10) as int),
            crate::text::digit_char((a % 10) as int),
        ]);
    } else if a >= 10 {
        assert(decimal(a) =~= seq![crate::text::digit_char((a / 10) as int), crate::text::digit_char((a % 10) as int)]);
    }
    assert(forall|i: int| 0 <= i < decimal(a).len() ==> is_digit(#[trigger] decimal(a)[i]));
}

spec fn quad_parts(v: int) -> Seq<Seq<char>> {
    seq![
        decimal((v / 0x100_0000) as nat),
        decimal((v / 0x1_0000 % 0x100) as nat),
        decimal((v / 0x100 % 0x100) as nat),
        decimal((v % 0x100) as nat),
    ]
}

proof fn lemma_join4(a: Seq<char>, b: Seq<char>, c: Seq<char>, d: Seq<char>, sep: Seq<char>)
    ensures
        crate::text::join(seq![a, b, c, d], sep) == a + sep + b + sep + c + sep + d,
{
    let p4 = seq![a, b, c, d];
    let p3 = seq![a, b, c];
    let p2 = seq![a, b];
    let p1 = seq![a];
    assert(p4.drop_last() =~= p3);
    assert(p3.drop_last() =~= p2);
    assert(p2.drop_last() =~= p1);
    assert(crate::text::join(p1, sep) == a);
    assert(crate::text::join(p2, sep) == a + sep + b);
    assert(crate::text::join(p3, sep) == a + sep + b + sep + c);
}

proof fn lemma_quad_parts(v: int, i: int)
    requires
        0 <= v <= u32::MAX,
        0 <= i < 4,
    ensures
        quad_parts(v).len() == 4,
        !crate::text::has_char(quad_parts(v)[i], '.'),
        !crate::text::has_char(quad_parts(v)[i], ':'),
        !crate::text::has_char(quad_parts(v)[i], '%'),
        quad_parts(v)[i].len() > 0,
        is_digit(quad_parts(v)[i][0]),
{
    lemma_octet((v / 0x100_0000) as nat);
    lemma_octet((v / 0x1_0000 % 0x100) as nat);
    lemma_octet((v / 0x100 % 0x100) as nat);
    lemma_octet((v % 0x100) as nat);
}

proof fn lemma_show_split(v: int)
    requires
        0 <= v <= u32::MAX,
    ensures
        show_v4(v) == crate::text::join(quad_parts(v), seq!['.']),
        split(show_v4(v), '.') == quad_parts(v),
{
    let p = quad_parts(v);
    lemma_join4(p[0], p[1], p[2], p[3], seq!['.']);
    assert(p =~= seq![p[0], p[1], p[2], p[3]]);
    assert forall|i: int| 0 <= i < p.len() implies !crate::text::has_char(#[trigger] p[i], '.') by {
        lemma_quad_parts(v, i);
    }
    crate::text::lemma_split_join(p, '.');
}

proof fn lemma_show_chars(v: int, k: int)
    requires
        0 <= v <= u32::MAX,
        0 <= k < show_v4(v).len(),
    ensures
        show_v4(v)[k] != ':' && show_v4(v)[k] != '%',
{
    let p = quad_parts(v);
    let sep = seq!['.'];
    lemma_show_split(v);
    crate::text::lemma_join_chars(p, sep, k);
    let c = crate::text::join(p, sep)[k];
    if crate::text::has_char(sep, c) {
        let i = choose|i: int| 0 <= i < sep.len() && #[trigger] sep[i] == c;
        assert(c == '.');
    } else {
        let i = choose|i: int| 0 <= i < p.len() && crate::text::has_char(#[trigger] p[i], c);
        lemma_quad_parts(v, i);
    }
}

#[verifier::spinoff_prover]
#[verifier::rlimit(40)]
proof fn lemma_show_v4(v: int)
    requires
        0 <= v <= u32::MAX,
    ensures
        read_v4(show_v4(v)) == Some(v),
        show_v4(v).len() > 0,
        is_digit(show_v4(v)[0]),
        !crate::text::has_char(show_v4(v), ':'),
        !crate::text::has_char(show_v4(v), '%'),
{
    lemma_show_split(v);
    lemma_octet((v / 0x100_0000) as nat);
    lemma_octet((v / 0x1_0000 % 0x100) as nat);
    lemma_octet((v / 0x100 % 0x100) as nat);
    lemma_octet((v % 0x100) as nat);
    assert(quad(v / 0x100_0000, v / 0x1_0000 % 0x100, v / 0x100 % 0x100, v % 0x100) == v);
    lemma_quad_parts(v, 0);
    assert(show_v4(v)[0] == quad_parts(v)[0][0]);
    assert forall|k: int| 0 <= k < show_v4(v).len() implies show_v4(v)[k] != ':' && show_v4(v)[k] != '%' by {
        lemma_show_chars(v, k);
    }
}

proof fn lemma_hexadecimal(n: nat)
    ensures
        hexadecimal(n).len() > 0,
        hex_value(hexadecimal(n)) == n,
        forall|i: int| 0 <= i < hexadecimal(n).len() ==> is_hex(#[trigger] hexadecimal(n)[i]),
    decreases n,
{
    if n >= 16 {
        lemma_hexadecimal(n / 16);
        let h = hexadecimal(n / 16);
        let all = hexadecimal(n);
        assert(all.drop_last() =~= h);
        assert forall|i: int| 0 <= i < all.len() implies is_hex(#[trigger] all[i]) by {
            if i < h.len() {
                assert(all[i] == h[i]);
            }
        }
    } else {
        assert(hexadecimal(n).drop_last() =~= Seq::<char>::empty());
        assert(hex_value(Seq::<char>::empty()) == 0);
    }
}

proof fn lemma_hex_group(n: nat)
    requires
        n < 0x1_0000,
    ensures
        hex_group(hexadecimal(n)) == Some(n as int),
        hexadecimal(n).len() > 0,
        read_v4(hexadecimal(n)) is None,
        forall|i: int| 0 <= i < hexadecimal(n).len() ==> is_hex(#[trigger] hexadecimal(n)[i]),
{
    reveal_with_fuel(hexadecimal, 5);
    lemma_hexadecimal(n);
    let h = hexadecimal(n);
    assert(n / 16 / 16 / 16 < 16);
    crate::text::lemma_find_char(h, '.');
    if let Some(i) = find_char(h, '.') {
        assert(is_hex(h[i]));
    }
    assert(split(h, '.') == seq![h]);
}

spec fn shown(g: Seq<int>) -> Seq<Seq<char>> {
    Seq::new(g.len(), |i: int| hexadecimal(g[i] as nat))
}

spec fn small(g: Seq<int>) -> bool {
    forall|i: int| 0 <= i < g.len() ==> 0 <= #[trigger] g[i] < 0x1_0000
}

/// No two colons stand together, and none at an end.
spec fn parted(s: Seq<char>) -> bool {
    &&& s.len() > 0 ==> s[0] != ':' && s.last() != ':'
    &&& forall|i: int| 0 <= i < s.len() - 1 ==> !(#[trigger] s[i] == ':' && s[i + 1] == ':')
    &&& forall|i: int| 0 <= i < s.len() ==> is_hex(#[trigger] s[i]) || s[i] == ':'
}

#[verifier::spinoff_prover]
#[verifier::rlimit(40)]
proof fn lemma_show_groups(g: Seq<int>, from: int, to: int)
    requires
        small(g),
        0 <= from <= to <= g.len(),
    ensures
        show_groups(g, from, to) == crate::text::join(shown(g.subrange(from, to)), seq![':']),
        parted(show_groups(g, from, to)),
        from < to ==> show_groups(g, from, to).len() > 0,
        from + 1 < to ==> crate::text::has_char(show_groups(g, from, to), ':'),
    decreases to - from,
{
    let parts = shown(g.subrange(from, to));
    let s = show_groups(g, from, to);
    if from >= to {
    } else if from + 1 == to {
        lemma_hex_group(g[from] as nat);
        assert(parts =~= seq![hexadecimal(g[from] as nat)]);
        assert forall|i: int| 0 <= i < s.len() implies is_hex(#[trigger] s[i]) by {}
        assert(is_hex(s[0]) && is_hex(s[s.len() - 1]));
    } else {
        lemma_show_groups(g, from, to - 1);
        lemma_hex_group(g[to - 1] as nat);
        let a = show_groups(g, from, to - 1);
        let h = hexadecimal(g[to - 1] as nat);
        assert(parts.drop_last() =~= shown(g.subrange(from, to - 1)));
        assert(s == a + seq![':'] + h);
        assert(s[0] == a[0]);
        assert(is_hex(h[h.len() - 1]) && is_hex(h[0]));
        assert(s.last() == h.last());
        assert(s[a.len() as int] == ':');
        assert forall|i: int| 0 <= i < s.len() implies is_hex(#[trigger] s[i]) || s[i] == ':' by {
            if i < a.len() {
                assert(s[i] == a[i]);
            } else if i > a.len() {
                assert(s[i] == h[i - a.len() - 1]);
            }
        }
        assert forall|i: int| 0 <= i < s.len() - 1 implies !(#[trigger] s[i] == ':' && s[i + 1] == ':') by {
            if i + 1 < a.len() {
                assert(s[i] == a[i] && s[i + 1] == a[i + 1]);
            } else if i + 1 == a.len() {
                assert(s[i] == a.last());
            } else if i == a.len() {
                assert(s[i + 1] == h[0]);
            } else {
                assert(s[i] == h[i - a.len() - 1]);
            }
        }
    }
}

proof fn lemma_groups(g: Seq<int>, quad_ok: bool)
    requires
        small(g),
    ensures
        groups(shown(g), quad_ok) == Some(g),
    decreases g.len(),
{
    if g.len() > 0 {
        let rest = g.drop_first();
        assert(shown(g).drop_first() =~= shown(rest));
        assert forall|i: int| 0 <= i < rest.len() implies 0 <= #[trigger] rest[i] < 0x1_0000 by {
            assert(rest[i] == g[i + 1]);
        }
        lemma_groups(rest, quad_ok);
        lemma_hex_group(g[0] as nat);
        assert(shown(g)[0] == hexadecimal(g[0] as nat));
        assert(seq![g[0]] + rest =~= g);
    } else {
        assert(shown(g) =~= Seq::<Seq<char>>::empty());
        assert(g =~= Seq::<int>::empty());
    }
}

#[verifier::spinoff_prover]
#[verifier::rlimit(40)]
proof fn lemma_side(g: Seq<int>, from: int, to: int, quad_ok: bool)
    requires
        small(g),
        0 <= from <= to <= g.len(),
    ensures
        side(show_groups(g, from, to), quad_ok) == Some(g.subrange(from, to)),
{
    let part = g.subrange(from, to);
    lemma_show_groups(g, from, to);
    if from < to {
        let p = shown(part);
        assert forall|i: int| 0 <= i < p.len() implies !crate::text::has_char(#[trigger] p[i], ':') by {
            lemma_hex_group(part[i] as nat);
            assert(forall|k: int| 0 <= k < p[i].len() ==> is_hex(#[trigger] p[i][k]));
        }
        crate::text::lemma_split_join(p, ':');
        assert forall|i: int| 0 <= i < part.len() implies 0 <= #[trigger] part[i] < 0x1_0000 by {
            assert(part[i] == g[from + i]);
        }
        lemma_groups(part, quad_ok);
    } else {
        assert(part =~= Seq::<int>::empty());
    }
}

proof fn lemma_no_double_colon(s: Seq<char>)
    requires
        forall|i: int| 0 <= i < s.len() - 1 ==> !(#[trigger] s[i] == ':' && s[i + 1] == ':'),
    ensures
        double_colon(s) is None,
    decreases s.len(),
{
    if s.len() >= 2 {
        assert(!(s[0] == ':' && s[1] == ':'));
        let d = s.drop_first();
        assert forall|i: int| 0 <= i < d.len() - 1 implies !(#[trigger] d[i] == ':' && d[i + 1] == ':') by {
            assert(d[i] == s[i + 1] && d[i + 1] == s[i + 2]);
        }
        lemma_no_double_colon(d);
    }
}

proof fn lemma_double_colon_at(a: Seq<char>, rest: Seq<char>)
    requires
        a.len() > 0 ==> a.last() != ':',
        forall|i: int| 0 <= i < a.len() - 1 ==> !(#[trigger] a[i] == ':' && a[i + 1] == ':'),
        rest.len() >= 2,
        rest[0] == ':',
        rest[1] == ':',
    ensures
        double_colon(a + rest) == Some(a.len() as int),
    decreases a.len(),
{
    let s = a + rest;
    if a.len() == 0 {
        assert(s =~= rest);
    } else {
        assert(s[0] == a[0]);
        if a.len() >= 2 {
            assert(s[1] == a[1]);
            assert(!(a[0] == ':' && a[1] == ':'));
        }
        let d = a.drop_first();
        assert(s.drop_first() =~= d + rest);
        assert forall|i: int| 0 <= i < d.len() - 1 implies !(#[trigger] d[i] == ':' && d[i + 1] == ':') by {
            assert(d[i] == a[i + 1] && d[i + 1] == a[i + 2]);
        }
        if d.len() > 0 {
            assert(d.last() == a.last());
        }
        lemma_double_colon_at(d, rest);
    }
}

proof fn lemma_zero_run(g: Seq<int>, i: int)
    requires
        0 <= i <= g.len(),
    ensures
        0 <= zero_run(g, i) <= i,
        forall|k: int| i - zero_run(g, i) <= k < i ==> #[trigger] g[k] == 0,
    decreases i,
{
    if i > 0 && g[i - 1] == 0 {
        lemma_zero_run(g, i - 1);
    }
}

proof fn lemma_longest_run(g: Seq<int>, i: int)
    requires
        0 <= i <= g.len(),
    ensures
        ({
            let (start, len) = longest_run(g, i);
            &&& 0 <= start && 0 <= len && start + len <= i
            &&& forall|k: int| start <= k < start + len ==> #[trigger] g[k] == 0
        }),
    decreases i,
{
    if i > 0 {
        lemma_longest_run(g, i - 1);
        lemma_zero_run(g, i);
    }
}

#[verifier::spinoff_prover]
#[verifier::rlimit(40)]
proof fn lemma_groups_value(v: int)
    requires
        0 <= v <= u128::MAX,
    ensures
        groups_value(groups_of(v)) == v,
        small(groups_of(v)),
        groups_of(v).len() == 8,
{
    let a1 = v / 0x1_0000;
    let a2 = a1 / 0x1_0000;
    let a3 = a2 / 0x1_0000;
    let a4 = a3 / 0x1_0000;
    let a5 = a4 / 0x1_0000;
    let a6 = a5 / 0x1_0000;
    let a7 = a6 / 0x1_0000;
    assert(a2 == v / 0x1_0000_0000);
    assert(a3 == v / 0x1_0000_0000_0000);
    assert(a4 == v / 0x1_0000_0000_0000_0000);
    assert(a5 == v / 0x1_0000_0000_0000_0000_0000);
    assert(a6 == v / 0x1_0000_0000_0000_0000_0000_0000);
    assert(a7 == v / 0x1_0000_0000_0000_0000_0000_0000_0000);
    let g = groups_of(v);
    assert(g[7] == v - a1 * 0x1_0000);
    assert(g[6] == a1 - a2 * 0x1_0000);
    assert(g[5] == a2 - a3 * 0x1_0000);
    assert(g[4] == a3 - a4 * 0x1_0000);
    assert(g[3] == a4 - a5 * 0x1_0000);
    assert(g[2] == a5 - a6 * 0x1_0000);
    assert(g[1] == a6 - a7 * 0x1_0000);
    assert(g[0] == a7);
}

#[verifier::spinoff_prover]
#[verifier::rlimit(40)]
proof fn lemma_no_quad_with_colon(s: Seq<char>)
    requires
        crate::text::has_char(s, ':'),
    ensures
        read_v4(s) is None,
{
    let p = split(s, '.');
    if read_v4(s) is Some {
        let sep = seq!['.'];
        crate::text::parts_make_up_the_text(s, '.');
        let k = choose|k: int| 0 <= k < s.len() && #[trigger] s[k] == ':';
        crate::text::lemma_join_chars(p, sep, k);
        let c = crate::text::join(p, sep)[k];
        assert(c == ':');
        if crate::text::has_char(sep, c) {
            let i = choose|i: int| 0 <= i < sep.len() && #[trigger] sep[i] == c;
            assert(false);
        } else {
            let i = choose|i: int| 0 <= i < p.len() && crate::text::has_char(#[trigger] p[i], c);
            assert(octet(p[0]) is Some && octet(p[1]) is Some && octet(p[2]) is Some && octet(p[3]) is Some);
            assert(octet(p[i]) is Some);
            let j = choose|j: int| 0 <= j < p[i].len() && #[trigger] p[i][j] == c;
            assert(is_digit(p[i][j]));
        }
    }
}

#[verifier::spinoff_prover]
#[verifier::rlimit(40)]
proof fn lemma_show_mapped(v: int)
    requires
        0 <= v <= u128::MAX,
        is_mapped(v),
    ensures
        read_v6(show_v6(v)) == Some(v),
        crate::text::has_char(show_v6(v), ':'),
        !crate::text::has_char(show_v6(v), '%'),
{
    reveal_strlit("::ffff:");
    let x = v % 0x1_0000_0000;
    let q = show_v4(x);
    let s = show_v6(v);
    lemma_show_v4(x);
    assert(s == "::ffff:"@ + q);
    assert(s[0] == ':' && s[1] == ':');
    assert(double_colon(s) == Some(0int));
    let t = s.subrange(2, s.len() as int);
    let f = seq!['f', 'f', 'f', 'f'];
    let parts = seq![f, q];
    let one = parts.drop_last();
    assert(one =~= seq![f]);
    assert(crate::text::join(one, seq![':']) == f);
    assert(parts.last() == q);
    assert(crate::text::join(parts, seq![':']) == f + seq![':'] + q);
    assert(t =~= f + seq![':'] + q);
    assert forall|i: int| 0 <= i < parts.len() implies !crate::text::has_char(#[trigger] parts[i], ':') by {}
    crate::text::lemma_split_join(parts, ':');
    assert(hex_value(f) == 0xffff) by {
        reveal_with_fuel(hex_value, 5);
        assert(f.drop_last() =~= seq!['f', 'f', 'f']);
        assert(seq!['f', 'f', 'f'].drop_last() =~= seq!['f', 'f']);
        assert(seq!['f', 'f'].drop_last() =~= seq!['f']);
        assert(seq!['f'].drop_last() =~= Seq::<char>::empty());
    }
    assert(hex_group(f) == Some(0xffffint));
    assert(parts.drop_first() =~= seq![q]);
    let tail = seq![x / 0x1_0000, x % 0x1_0000];
    assert(groups(seq![q], true) == Some(tail));
    assert(groups(parts, true) == Some(seq![0xffffint] + tail));
    let h = s.subrange(0, 0);
    assert(h =~= Seq::<char>::empty());
    assert(side(h, false) == Some(Seq::<int>::empty()));
    assert(side(t, true) == Some(seq![0xffffint] + tail));
    let g = Seq::<int>::empty() + zero_groups(5) + (seq![0xffffint] + tail);
    assert(g =~= seq![0int, 0, 0, 0, 0, 0xffff, x / 0x1_0000, x % 0x1_0000]);
    assert(groups_value(g) == v);
    assert forall|k: int| 0 <= k < s.len() implies s[k] != '%' by {
        if k >= 7 {
            assert(s[k] == q[k - 7]);
        }
    }
}

#[verifier::spinoff_prover]
#[verifier::rlimit(60)]
proof fn lemma_show_shortened(g: Seq<int>, start: int, len: int)
    requires
        g.len() == 8,
        small(g),
        0 <= start,
        1 < len,
        start + len <= 8,
        forall|k: int| start <= k < start + len ==> #[trigger] g[k] == 0,
    ensures
        ({
            let s = show_groups(g, 0, start) + seq![':', ':'] + show_groups(g, start + len, 8);
            &&& read_v6(s) == Some(groups_value(g))
            &&& crate::text::has_char(s, ':')
            &&& !crate::text::has_char(s, '%')
        }),
{
    let a = show_groups(g, 0, start);
    let b = show_groups(g, start + len, 8);
    let c = seq![':', ':'];
    let s = a + c + b;
    lemma_show_groups(g, 0, start);
    lemma_show_groups(g, start + len, 8);
    lemma_side(g, 0, start, false);
    lemma_side(g, start + len, 8, true);
    let rest = c + b;
    assert(s =~= a + rest);
    lemma_double_colon_at(a, rest);
    let n = a.len() as int;
    assert(s.subrange(0, n) =~= a);
    assert(s.subrange(n + 2, s.len() as int) =~= b);
    let h = g.subrange(0, start);
    let t = g.subrange(start + len, 8);
    assert(h + zero_groups(8 - h.len() - t.len()) + t =~= g);
    assert(s[n] == ':');
    assert forall|k: int| 0 <= k < s.len() implies s[k] != '%' by {
        if k < n {
            assert(s[k] == a[k]);
        } else if k >= n + 2 {
            assert(s[k] == b[k - n - 2]);
        }
    }
}

#[verifier::spinoff_prover]
#[verifier::rlimit(40)]
proof fn lemma_show_whole(g: Seq<int>)
    requires
        g.len() == 8,
        small(g),
    ensures
        read_v6(show_groups(g, 0, 8)) == Some(groups_value(g)),
        crate::text::has_char(show_groups(g, 0, 8), ':'),
        !crate::text::has_char(show_groups(g, 0, 8), '%'),
{
    let s = show_groups(g, 0, 8);
    lemma_show_groups(g, 0, 8);
    lemma_side(g, 0, 8, true);
    lemma_no_double_colon(s);
    assert(g.subrange(0, 8) =~= g);
}

proof fn lemma_show_v6(v: int)
    requires
        0 <= v <= u128::MAX,
    ensures
        read_v6(show_v6(v)) == Some(v),
        crate::text::has_char(show_v6(v), ':'),
        !crate::text::has_char(show_v6(v), '%'),
{
    let g = groups_of(v);
    lemma_groups_value(v);
    lemma_longest_run(g, 8);
    let (start, len) = longest_run(g, 8);
    if is_mapped(v) {
        lemma_show_mapped(v);
    } else if len > 1 {
        lemma_show_shortened(g, start, len);
    } else {
        lemma_show_whole(g);
    }
}

/// An address that is shown is read back as it was.
pub proof fn addresses_are_read_as_shown(ip: IpAddr)
    ensures
        read_ip(show_ip(ip)) == Some(ip),
{
    match ip {
        IpAddr::V4(v) => {
            lemma_show_v4(v as int);
        },
        IpAddr::V6(v) => {
            lemma_show_v6(v as int);
            lemma_no_quad_with_colon(show_v6(v as int));
        },
    }
}

proof fn lemma_port_behind(host: Seq<char>, port: u16)
    ensures
        ({
            let s = host + seq![':'] + decimal(port as nat);
            &&& rfind_char(s, ':') == Some(host.len() as int)
            &&& s.subrange(0, host.len() as int) == host
            &&& plain_number(s.subrange(1int + host.len(), s.len() as int), 0xffff) == Some(port as int)
        }),
{
    let d = decimal(port as nat);
    let s = host + seq![':'] + d;
    let k = host.len() as int;
    crate::text::lemma_decimal_digits(port as nat);
    crate::text::lemma_decimal_value(port as nat);
    assert(s[k] == ':');
    assert forall|i: int| k < i < s.len() implies s[i] != ':' by {
        assert(s[i] == d[i - k - 1]);
        assert(is_digit(d[i - k - 1]));
    }
    crate::text::lemma_rfind_char_is(s, ':', k);
    assert(s.subrange(0, k) =~= host);
    assert(s.subrange(k + 1, s.len() as int) =~= d);
}

proof fn lemma_scope_behind(t: Seq<char>, scope: u32)
    requires
        !crate::text::has_char(t, '%'),
    ensures
        ({
            let s = t + seq!['%'] + decimal(scope as nat);
            &&& find_char(s, '%') == Some(t.len() as int)
            &&& s.subrange(0, t.len() as int) == t
            &&& plain_number(s.subrange(1int + t.len(), s.len() as int), 0xffff_ffff) == Some(scope as int)
        }),
        find_char(t, '%') is None,
{
    let d = decimal(scope as nat);
    let s = t + seq!['%'] + d;
    let n = t.len() as int;
    crate::text::lemma_decimal_digits(scope as nat);
    crate::text::lemma_decimal_value(scope as nat);
    assert(s[n] == '%');
    assert forall|i: int| 0 <= i < n implies s[i] != '%' by {
        assert(s[i] == t[i]);
    }
    crate::text::lemma_find_char_is(s, '%', n);
    crate::text::lemma_find_char(t, '%');
    assert(s.subrange(0, n) =~= t);
    assert(s.subrange(n + 1, s.len() as int) =~= d);
}

#[verifier::spinoff_prover]
#[verifier::rlimit(40)]
proof fn lemma_socket_v4(v: u32, port: u16)
    ensures
        read_socket(show_v4(v as int) + seq![':'] + decimal(port as nat)) == Some(
            SocketAddr { ip: IpAddr::V4(v), port, scope_id: 0 },
        ),
{
    lemma_show_v4(v as int);
    lemma_port_behind(show_v4(v as int), port);
}

#[verifier::spinoff_prover]
#[verifier::rlimit(40)]
proof fn lemma_socket_v6(inner: Seq<char>, port: u16)
    ensures
        ({
            let host = seq!['['] + inner + seq![']'];
            read_socket(host + seq![':'] + decimal(port as nat)) == match find_char(inner, '%') {
                Some(k) => match (
                    read_v6(inner.subrange(0, k)),
                    plain_number(inner.subrange(k + 1, inner.len() as int), 0xffff_ffff),
                ) {
                    (Some(v), Some(scope)) => Some(SocketAddr { ip: IpAddr::V6(v as u128), port, scope_id: scope as u32 }),
                    _ => None,
                },
                None => match read_v6(inner) {
                    Some(v) => Some(SocketAddr { ip: IpAddr::V6(v as u128), port, scope_id: 0 }),
                    None => None,
                },
            }
        }),
{
    let host = seq!['['] + inner + seq![']'];
    lemma_port_behind(host, port);
    assert(host[0] == '[' && host.last() == ']');
    assert(host.subrange(1, host.len() - 1) =~= inner);
}

proof fn lemma_bracketed(t: Seq<char>, x: Seq<char>, d: Seq<char>)
    ensures
        seq!['['] + t + x + seq![']', ':'] + d == seq!['['] + (t + x) + seq![']'] + seq![':'] + d,
{
    assert(seq!['['] + t + x =~= seq!['['] + (t + x));
    assert(seq!['['] + (t + x) + seq![']', ':'] =~= seq!['['] + (t + x) + seq![']'] + seq![':']);
}

#[verifier::spinoff_prover]
#[verifier::rlimit(60)]
proof fn lemma_scoped(t: Seq<char>, v: u128, port: u16, scope: u32)
    requires
        read_v6(t) == Some(v as int),
        !crate::text::has_char(t, '%'),
    ensures
        read_socket(seq!['['] + t + (seq!['%'] + decimal(scope as nat)) + seq![']', ':'] + decimal(port as nat)) == Some(
            SocketAddr { ip: IpAddr::V6(v), port, scope_id: scope },
        ),
{
    let x = seq!['%'] + decimal(scope as nat);
    let inner = t + x;
    lemma_scope_behind(t, scope);
    assert(t + seq!['%'] + decimal(scope as nat) =~= inner);
    lemma_socket_v6(inner, port);
    lemma_bracketed(t, x, decimal(port as nat));
}

#[verifier::spinoff_prover]
#[verifier::rlimit(60)]
proof fn lemma_unscoped(t: Seq<char>, v: u128, port: u16)
    requires
        read_v6(t) == Some(v as int),
        !crate::text::has_char(t, '%'),
    ensures
        read_socket(seq!['['] + t + Seq::<char>::empty() + seq![']', ':'] + decimal(port as nat)) == Some(
            SocketAddr { ip: IpAddr::V6(v), port, scope_id: 0 },
        ),
{
    let x = Seq::<char>::empty();
    lemma_scope_behind(t, 0);
    assert(t + x =~= t);
    lemma_socket_v6(t, port);
    lemma_bracketed(t, x, decimal(port as nat));
}

/// An address with its port is read back as it was shown; the scope is that of an IPv6 address.
#[verifier::spinoff_prover]
#[verifier::rlimit(60)]
pub proof fn sockets_are_read_as_shown(a: SocketAddr)
    requires
        a.ip is V4 ==> a.scope_id == 0,
    ensures
        read_socket(show_socket(a)) == Some(a),
{
    match a.ip {
        IpAddr::V4(v) => {
            lemma_socket_v4(v, a.port);
        },
        IpAddr::V6(v) => {
            lemma_show_v6(v as int);
            if a.scope_id == 0 {
                lemma_unscoped(show_v6(v as int), v, a.port);
            } else {
                lemma_scoped(show_v6(v as int), v, a.port, a.scope_id);
            }
        },
    }
}

/// An IPv6 address that stands for an IPv4 one is taken for it; others stay as they are.
pub proof fn mapped_addresses_are_taken_for_their_own(v: u32, w: u128, port: u16, scope_id: u32)
    ensures
        IpAddr::V6((0xffff_0000_0000 + v) as u128).canonical() == IpAddr::V4(v),
        w / 0x1_0000_0000 != 0xffff ==> IpAddr::V6(w).canonical() == IpAddr::V6(w),
        IpAddr::V4(v).canonical() == IpAddr::V4(v),
        ({
            let ip = IpAddr::V6((0xffff_0000_0000 + v) as u128);
            (SocketAddr { ip, port, scope_id }).unmapped() == (SocketAddr { ip: IpAddr::V4(v), port, scope_id: 0 })
        }),
        w / 0x1_0000_0000 != 0xffff && w / 0x1_0000_0000 != 0 ==> (SocketAddr { ip: IpAddr::V6(w), port, scope_id }).unmapped()
            == (SocketAddr { ip: IpAddr::V6(w), port, scope_id }),
        IpAddr::V4(v).loopback() <==> 0x7f00_0000 <= v <= 0x7fff_ffff,
        IpAddr::V6(w).loopback() <==> w == 1,
{
    let m = (0xffff_0000_0000 + v) as u128;
    assert(m / 0x1_0000_0000 == 0xffff);
    assert(m % 0x1_0000_0000 == v);
}

} // verus!
