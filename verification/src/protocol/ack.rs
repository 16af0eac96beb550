//! Acknowledgements: ranges of packet numbers.
//!
//! `[count:1]` and `count` times `[first:8][last:8]`.

use vstd::prelude::*;

use crate::bytes::{be64, get_u64, lemma_be64, put_u64, u64_at};
use crate::protocol::ProtocolError;
use crate::text::owned;

verus! {

broadcast use crate::bytes::group_big_endian;

/// Ranges that one acknowledgement can hold.
pub const MAX_RANGES: usize = 8;

/// Whether a packet number is in one of the ranges.
pub open spec fn in_ranges(n: u64, ranges: Seq<(u64, u64)>) -> bool {
    exists|i: int| 0 <= i < ranges.len() && (#[trigger] ranges[i]).0 <= n && n <= ranges[i].1
}

/// The longest runs of consecutive numbers in an increasing list.
pub open spec fn runs(keys: Seq<u64>) -> Seq<(u64, u64)>
    decreases keys.len(),
{
    if keys.len() == 0 {
        Seq::empty()
    } else {
        let r = runs(keys.drop_last());
        let k = keys.last();
        if r.len() > 0 && r.last().1 + 1 == k {
            r.update(r.len() - 1, (r.last().0, k))
        } else {
            r.push((k, k))
        }
    }
}

/// Everything received: all below `expected`, and the numbers held beyond it.
pub open spec fn received_ranges(expected: u64, keys: Seq<u64>) -> Seq<(u64, u64)> {
    if expected > 0 {
        seq![(0u64, (expected - 1) as u64)] + runs(keys)
    } else {
        runs(keys)
    }
}

/// At most as many ranges as an acknowledgement holds: the first and the last
/// ones.
pub open spec fn trimmed_ranges(r: Seq<(u64, u64)>) -> Seq<(u64, u64)> {
    if r.len() > MAX_RANGES {
        seq![r[0]] + r.subrange(r.len() - (MAX_RANGES - 1), r.len() as int)
    } else {
        r
    }
}

pub open spec fn ranges_bytes(r: Seq<(u64, u64)>) -> Seq<u8>
    decreases r.len(),
{
    if r.len() == 0 {
        Seq::empty()
    } else {
        ranges_bytes(r.drop_last()) + be64(r.last().0 as int) + be64(r.last().1 as int)
    }
}

/// The payload of an acknowledgement; empty where there is nothing to say.
pub open spec fn ranges_payload(r: Seq<(u64, u64)>) -> Seq<u8> {
    if r.len() == 0 {
        Seq::empty()
    } else {
        seq![r.len() as u8] + ranges_bytes(r)
    }
}

/// The acknowledgement of what was received.
pub open spec fn ack_payload(expected: u64, keys: Seq<u64>) -> Seq<u8> {
    ranges_payload(trimmed_ranges(received_ranges(expected, keys)))
}

/// The ranges of an acknowledgement; nothing where it is cut short.
pub open spec fn parse_ranges(p: Seq<u8>) -> Option<Seq<(u64, u64)>> {
    if p.len() == 0 {
        Some(Seq::empty())
    } else if p.len() < 1 + p[0] * 16 {
        None
    } else {
        Some(Seq::new(p[0] as nat, |i: int| (u64_at(p, 1 + 16 * i) as u64, u64_at(p, 9 + 16 * i) as u64)))
    }
}

/// Whether a packet number is in one of the ranges.
pub fn nonce_in_ranges(nonce: u64, ranges: &[(u64, u64)]) -> (r: bool)
    ensures
        r == in_ranges(nonce, ranges@),
{
    let mut i: usize = 0;
    while i < ranges.len()
        invariant
            i <= ranges@.len(),
            forall|k: int| 0 <= k < i ==> !((#[trigger] ranges@[k]).0 <= nonce && nonce <= ranges@[k].1),
        decreases ranges@.len() - i,
    {
        if ranges[i].0 <= nonce && nonce <= ranges[i].1 {
            assert(ranges@[i as int].0 <= nonce && nonce <= ranges@[i as int].1);
            return true;
        }
        i += 1;
    }
    false
}

/// Reads the ranges of an acknowledgement.
pub fn parse_ack_ranges(payload: &[u8]) -> (r: Result<Vec<(u64, u64)>, ProtocolError>)
    ensures
        match r {
            Ok(v) => parse_ranges(payload@) == Some(v@),
            Err(e) => parse_ranges(payload@) is None && e is Framing,
        },
{
    if payload.len() == 0 {
        let v: Vec<(u64, u64)> = Vec::new();
        return Ok(v);
    }
    let count: usize = payload[0] as usize;
    if payload.len() < 1 + count * 16 {
        return Err(ProtocolError::Framing(owned("ack payload truncated")));
    }
    let mut ranges: Vec<(u64, u64)> = Vec::new();
    let mut i: usize = 0;
    while i < count
        invariant
            payload@.len() > 0,
            count == payload@[0],
            i <= count,
            payload@.len() >= 1 + count * 16,
            ranges@.len() == i,
            forall|k: int|
                0 <= k < i ==> #[trigger] ranges@[k] == (
                    u64_at(payload@, 1 + 16 * k) as u64,
                    u64_at(payload@, 9 + 16 * k) as u64,
                ),
        decreases count - i,
    {
        ranges.push((get_u64(payload, 1 + 16 * i), get_u64(payload, 9 + 16 * i)));
        i += 1;
    }
    assert(ranges@ =~= parse_ranges(payload@)->0);
    Ok(ranges)
}

/// The longest runs of consecutive numbers in `keys`.
fn runs_of(keys: &[u64]) -> (out: Vec<(u64, u64)>)
    requires
        forall|i: int, j: int| 0 <= i < j < keys@.len() ==> keys@[i] < keys@[j],
    ensures
        out@ == runs(keys@),
{
    let mut out: Vec<(u64, u64)> = Vec::new();
    let mut i: usize = 0;
    while i < keys.len()
        invariant
            i <= keys@.len(),
            forall|a: int, b: int| 0 <= a < b < keys@.len() ==> keys@[a] < keys@[b],
            out@ == runs(keys@.subrange(0, i as int)),
            out@.len() > 0 <==> i > 0,
            i > 0 ==> out@.last().1 == keys@[i - 1],
        decreases keys@.len() - i,
    {
        let k: u64 = keys[i];
        let ghost t = keys@.subrange(0, i + 1);
        assert(t.drop_last() =~= keys@.subrange(0, i as int));
        assert(t.last() == k);
        let n: usize = out.len();
        if n > 0 && out[n - 1].1 + 1 == k {
            let first: u64 = out[n - 1].0;
            out.set(n - 1, (first, k));
        } else {
            out.push((k, k));
        }
        i += 1;
        assert(out@ =~= runs(t));
    }
    assert(keys@.subrange(0, keys@.len() as int) =~= keys@);
    out
}

/// The payload of an acknowledgement of everything below `expected` and of the
/// numbers in `keys`.
pub fn build_ack_payload(expected: u64, keys: &[u64]) -> (out: Vec<u8>)
    requires
        forall|i: int, j: int| 0 <= i < j < keys@.len() ==> keys@[i] < keys@[j],
    ensures
        out@ == ack_payload(expected, keys@),
        out@.len() <= 1 + 16 * MAX_RANGES,
{
    let r = runs_of(keys);
    let mut ranges: Vec<(u64, u64)> = Vec::new();
    if expected > 0 {
        ranges.push((0, expected - 1));
    }
    let mut i: usize = 0;
    let ghost head = ranges@;
    while i < r.len()
        invariant
            i <= r@.len(),
            ranges@ == head + r@.subrange(0, i as int),
        decreases r@.len() - i,
    {
        ranges.push(r[i]);
        i += 1;
        assert(ranges@ =~= head + r@.subrange(0, i as int));
    }
    assert(r@.subrange(0, r@.len() as int) =~= r@);
    assert(ranges@ =~= received_ranges(expected, keys@));
    let kept: Vec<(u64, u64)> = if ranges.len() > MAX_RANGES {
        let mut t: Vec<(u64, u64)> = Vec::new();
        t.push(ranges[0]);
        let start: usize = ranges.len() - (MAX_RANGES - 1);
        let mut j: usize = start;
        while j < ranges.len()
            invariant
                ranges@.len() > MAX_RANGES,
                start == ranges@.len() - (MAX_RANGES - 1),
                start <= j <= ranges@.len(),
                t@ == seq![ranges@[0]] + ranges@.subrange(start as int, j as int),
            decreases ranges@.len() - j,
        {
            t.push(ranges[j]);
            j += 1;
            assert(t@ =~= seq![ranges@[0]] + ranges@.subrange(start as int, j as int));
        }
        t
    } else {
        ranges
    };
    assert(kept@ == trimmed_ranges(received_ranges(expected, keys@)));
    put_ranges(&kept)
}

fn put_ranges(r: &Vec<(u64, u64)>) -> (out: Vec<u8>)
    requires
        r@.len() <= MAX_RANGES,
    ensures
        out@ == ranges_payload(r@),
        out@.len() <= 1 + 16 * r@.len(),
{
    let mut out: Vec<u8> = Vec::new();
    if r.len() == 0 {
        return out;
    }
    out.push(r.len() as u8);
    let mut i: usize = 0;
    while i < r.len()
        invariant
            i <= r@.len(),
            0 < r@.len() <= MAX_RANGES,
            out@ == seq![r@.len() as u8] + ranges_bytes(r@.subrange(0, i as int)),
            out@.len() == 1 + 16 * i,
        decreases r@.len() - i,
    {
        let ghost t = r@.subrange(0, i + 1);
        assert(t.drop_last() =~= r@.subrange(0, i as int));
        assert(t.last() == r@[i as int]);
        put_u64(&mut out, r[i].0);
        put_u64(&mut out, r[i].1);
        i += 1;
        assert(out@ =~= seq![r@.len() as u8] + ranges_bytes(t));
    }
    assert(r@.subrange(0, r@.len() as int) =~= r@);
    out
}

proof fn lemma_ranges_bytes_len(r: Seq<(u64, u64)>)
    ensures
        ranges_bytes(r).len() == 16 * r.len(),
    decreases r.len(),
{
    if r.len() > 0 {
        lemma_ranges_bytes_len(r.drop_last());
    }
}

proof fn lemma_ranges_bytes_at(r: Seq<(u64, u64)>, i: int)
    requires
        0 <= i < r.len(),
    ensures
        ranges_bytes(r).len() == 16 * r.len(),
        ranges_bytes(r).subrange(16 * i, 16 * i + 8) == be64(r[i].0 as int),
        ranges_bytes(r).subrange(16 * i + 8, 16 * i + 16) == be64(r[i].1 as int),
    decreases r.len(),
{
    let d = r.drop_last();
    lemma_ranges_bytes_len(r);
    lemma_ranges_bytes_len(d);
    let b = ranges_bytes(r);
    if i == r.len() - 1 {
        assert(b.subrange(16 * i, 16 * i + 8) =~= be64(r[i].0 as int));
        assert(b.subrange(16 * i + 8, 16 * i + 16) =~= be64(r[i].1 as int));
    } else {
        lemma_ranges_bytes_at(d, i);
        assert(d[i] == r[i]);
        assert(b.subrange(16 * i, 16 * i + 8) =~= ranges_bytes(d).subrange(16 * i, 16 * i + 8));
        assert(b.subrange(16 * i + 8, 16 * i + 16) =~= ranges_bytes(d).subrange(16 * i + 8, 16 * i + 16));
    }
}

/// Ranges survive being written and read.
pub proof fn ack_ranges_round_trip(r: Seq<(u64, u64)>)
    requires
        r.len() <= 255,
    ensures
        parse_ranges(ranges_payload(r)) == Some(r),
{
    if r.len() > 0 {
        let p = ranges_payload(r);
        lemma_ranges_bytes_len(r);
        let got = parse_ranges(p)->0;
        assert forall|i: int| 0 <= i < r.len() implies got[i] == r[i] by {
            lemma_ranges_bytes_at(r, i);
            assert(p.subrange(1 + 16 * i, 1 + 16 * i + 8) =~= ranges_bytes(r).subrange(16 * i, 16 * i + 8));
            assert(p.subrange(9 + 16 * i, 9 + 16 * i + 8) =~= ranges_bytes(r).subrange(16 * i + 8, 16 * i + 16));
            lemma_be64(p, 1 + 16 * i, r[i].0 as int);
            lemma_be64(p, 9 + 16 * i, r[i].1 as int);
        }
        assert(got =~= r);
    } else {
        assert(parse_ranges(ranges_payload(r))->0 =~= r);
    }
}

proof fn lemma_runs(keys: Seq<u64>)
    requires
        forall|i: int, j: int| 0 <= i < j < keys.len() ==> keys[i] < keys[j],
    ensures
        keys.len() > 0 ==> runs(keys).len() > 0 && runs(keys).last().1 == keys.last(),
        keys.len() == 0 ==> runs(keys).len() == 0,
        forall|i: int| 0 <= i < runs(keys).len() ==> (#[trigger] runs(keys)[i]).0 <= runs(keys)[i].1,
        forall|n: u64| in_ranges(n, runs(keys)) <==> keys.contains(n),
    decreases keys.len(),
{
    if keys.len() > 0 {
        let d = keys.drop_last();
        let k = keys.last();
        lemma_runs(d);
        let r = runs(d);
        let s = runs(keys);
        assert(keys =~= d.push(k));
        assert forall|n: u64| in_ranges(n, s) <==> keys.contains(n) by {
            if in_ranges(n, s) {
                let i = choose|i: int| 0 <= i < s.len() && (#[trigger] s[i]).0 <= n && n <= s[i].1;
                if n != k {
                    if i < r.len() {
                        assert(r[i].0 <= n && n <= r[i].1);
                    }
                    assert(in_ranges(n, r));
                    assert(d.contains(n));
                    let j = choose|j: int| 0 <= j < d.len() && d[j] == n;
                    assert(keys[j] == n);
                } else {
                    assert(keys[keys.len() - 1] == n);
                }
            }
            if keys.contains(n) {
                let j = choose|j: int| 0 <= j < keys.len() && keys[j] == n;
                if j < d.len() {
                    assert(d[j] == n);
                    assert(d.contains(n));
                    assert(in_ranges(n, r));
                    let i = choose|i: int| 0 <= i < r.len() && (#[trigger] r[i]).0 <= n && n <= r[i].1;
                    assert(s[i].0 <= n && n <= s[i].1);
                } else {
                    assert(s[s.len() - 1].0 <= n && n <= s[s.len() - 1].1);
                }
            }
        }
    } else {
        assert forall|n: u64| in_ranges(n, runs(keys)) <==> keys.contains(n) by {}
    }
}

/// The ranges of what was received hold exactly the numbers that were received.
pub proof fn received_ranges_are_exact(expected: u64, keys: Seq<u64>, n: u64)
    requires
        forall|i: int, j: int| 0 <= i < j < keys.len() ==> keys[i] < keys[j],
    ensures
        in_ranges(n, received_ranges(expected, keys)) <==> n < expected || keys.contains(n),
{
    lemma_runs(keys);
    let r = runs(keys);
    let s = received_ranges(expected, keys);
    if in_ranges(n, s) {
        let i = choose|i: int| 0 <= i < s.len() && (#[trigger] s[i]).0 <= n && n <= s[i].1;
        if expected > 0 {
            if i > 0 {
                assert(r[i - 1].0 <= n && n <= r[i - 1].1);
                assert(in_ranges(n, r));
            }
        } else {
            assert(r[i].0 <= n && n <= r[i].1);
            assert(in_ranges(n, r));
        }
    }
    if n < expected {
        assert(s[0].0 <= n && n <= s[0].1);
    }
    if keys.contains(n) {
        assert(in_ranges(n, r));
        let i = choose|i: int| 0 <= i < r.len() && (#[trigger] r[i]).0 <= n && n <= r[i].1;
        let j = if expected > 0 {
            i + 1
        } else {
            i
        };
        assert(s[j].0 <= n && n <= s[j].1);
    }
}

/// An acknowledgement speaks only of packets that were received, and, once one
/// was received in order, of all that were received in order.
pub proof fn acknowledgements_are_sound(expected: u64, keys: Seq<u64>, n: u64)
    requires
        forall|i: int, j: int| 0 <= i < j < keys.len() ==> keys[i] < keys[j],
    ensures
        in_ranges(n, trimmed_ranges(received_ranges(expected, keys))) ==> n < expected || keys.contains(n),
        n < expected ==> in_ranges(n, trimmed_ranges(received_ranges(expected, keys))),
{
    let s = received_ranges(expected, keys);
    let t = trimmed_ranges(s);
    if in_ranges(n, t) {
        let i = choose|i: int| 0 <= i < t.len() && (#[trigger] t[i]).0 <= n && n <= t[i].1;
        let j = if s.len() > MAX_RANGES && i > 0 {
            s.len() - (MAX_RANGES - 1) + (i - 1)
        } else {
            i
        };
        assert(s[j] == t[i]);
        assert(in_ranges(n, s));
    }
    received_ranges_are_exact(expected, keys, n);
    if n < expected {
        assert(t[0].0 <= n && n <= t[0].1);
    }
}

/// Ranges are written as their number and then their two ends, most significant byte first; none
/// are written as nothing.
pub proof fn ranges_are_written_in_order(r: Seq<(u64, u64)>, i: int)
    requires
        0 < r.len() <= 255,
        0 <= i < r.len(),
    ensures
        ranges_payload(r).len() == 1 + 16 * r.len(),
        ranges_payload(r)[0] == r.len(),
        u64_at(ranges_payload(r), 1 + 16 * i) == r[i].0,
        u64_at(ranges_payload(r), 9 + 16 * i) == r[i].1,
        ranges_payload(Seq::empty()) == Seq::<u8>::empty(),
{
    broadcast use crate::bytes::group_big_endian;

    ack_ranges_round_trip(r);
    lemma_ranges_length(r);
    let p = ranges_payload(r);
    assert(p[0] == r.len());
    let q = parse_ranges(p)->Some_0;
    assert(q[i] == r[i]);
}

proof fn lemma_ranges_length(r: Seq<(u64, u64)>)
    ensures
        ranges_bytes(r).len() == 16 * r.len(),
    decreases r.len(),
{
    broadcast use crate::bytes::group_big_endian;

    if r.len() > 0 {
        lemma_ranges_length(r.drop_last());
    }
}

/// An acknowledgement names at most eight ranges: all of them where there are no more, or else
/// the first and the seven newest.
pub proof fn acknowledgements_are_short(r: Seq<(u64, u64)>, i: int)
    ensures
        trimmed_ranges(r).len() <= 8,
        r.len() <= 8 ==> trimmed_ranges(r) == r,
        r.len() > 8 ==> trimmed_ranges(r)[0] == r[0],
        r.len() > 8 && 1 <= i <= 7 ==> trimmed_ranges(r)[8 - i] == r[r.len() - i],
{
}

} // verus!
