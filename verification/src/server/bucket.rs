//! A token bucket: a steady rate with a burst of one second.

use vstd::prelude::*;

use crate::congestion::{less, smaller};
use crate::time::Instant;

verus! {

/// One token, in billionths.
pub const TOKEN: u64 = 1_000_000_000;

/// The state of a bucket: tokens in billionths, times in nanoseconds.
#[verifier::ext_equal]
pub struct Tokens {
    pub rate: int,
    pub level: int,
    pub last: int,
}

impl Tokens {
    /// A full bucket.
    pub open spec fn full(rate: int, now: int) -> Tokens {
        Tokens { rate, level: rate * TOKEN, last: now }
    }

    /// The bucket at `now`: `rate` tokens come each second, at most `rate` stay.
    pub open spec fn refilled(self, now: int) -> Tokens {
        Tokens { level: smaller(self.level + less(now, self.last) * self.rate, self.rate * TOKEN), last: now, ..self }
    }

    /// A token is asked for at `now`: the bucket after it, and whether there was
    /// one.
    pub open spec fn taken(self, now: int) -> (Tokens, bool) {
        let r = self.refilled(now);
        if r.level >= TOKEN {
            (Tokens { level: r.level - TOKEN, ..r }, true)
        } else {
            (r, false)
        }
    }
}

pub struct Bucket {
    rate: u32,
    level: u64,
    last: Instant,
}

impl View for Bucket {
    type V = Tokens;

    closed spec fn view(&self) -> Tokens {
        Tokens { rate: self.rate as int, level: self.level as int, last: self.last.nanos as int }
    }
}

impl Bucket {
    /// A full bucket.
    pub fn new(rate: u32, now: Instant) -> (r: Self)
        ensures
            r@ == Tokens::full(rate as int, now.nanos as int),
    {
        Bucket { rate, level: rate as u64 * TOKEN, last: now }
    }

    /// Takes a token, where there is one.
    pub fn take(&mut self, now: Instant) -> (r: bool)
        ensures
            (final(self)@, r) == old(self)@.taken(now.nanos as int),
    {
        let elapsed: u64 = now.duration_since(self.last).nanos;
        assert(elapsed * self.rate <= 0xffff_ffff_ffff_ffffu64 * 0xffff_ffffu32) by (nonlinear_arith)
            requires
                elapsed <= 0xffff_ffff_ffff_ffffu64,
                self.rate <= 0xffff_ffffu32,
        ;
        let cap: u64 = self.rate as u64 * TOKEN;
        let sum: u128 = self.level as u128 + elapsed as u128 * self.rate as u128;
        self.level = if sum <= cap as u128 {
            sum as u64
        } else {
            cap
        };
        self.last = now;
        if self.level >= TOKEN {
            self.level = self.level - TOKEN;
            true
        } else {
            false
        }
    }
}

/// A bucket never holds more than its rate, and never gives more than it had and
/// gained since.
pub proof fn buckets_keep_their_rate(b: Tokens, now: int)
    requires
        b.rate >= 0,
        0 <= b.level <= b.rate * TOKEN,
    ensures
        ({
            let (after, granted) = b.taken(now);
            &&& 0 <= after.level <= after.rate * TOKEN
            &&& after.level + (if granted {
                TOKEN as int
            } else {
                0
            }) <= b.level + less(now, b.last) * b.rate
        }),
{
    assert(less(now, b.last) * b.rate >= 0) by (nonlinear_arith)
        requires
            less(now, b.last) >= 0,
            b.rate >= 0,
    ;
}

/// A bucket gives a token where there is a whole one: what it held and what came since, `rate`
/// tokens each second, is one at least. A full bucket has as many tokens as come in a second.
pub proof fn buckets_give_what_they_hold(b: Tokens, now: int)
    requires
        b.last <= now,
        b.rate >= 0,
        0 <= b.level,
    ensures
        ({
            let (after, granted) = b.taken(now);
            let sum = b.level + (now - b.last) * b.rate;
            let held = if sum < b.rate * 1_000_000_000 {
                sum
            } else {
                b.rate * 1_000_000_000
            };
            &&& granted <==> held >= 1_000_000_000
            &&& after.level == if granted {
                held - 1_000_000_000
            } else {
                held
            }
            &&& after.rate == b.rate
            &&& after.last == now
        }),
        Tokens::full(b.rate, now).level == b.rate * 1_000_000_000,
        Tokens::full(b.rate, now).last == now,
        b.rate >= 1 ==> Tokens::full(b.rate, now).taken(now).1,
{
    assert((now - now) * b.rate == 0);
}

} // verus!
