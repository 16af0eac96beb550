//! Patterns in which `*` matches any run of characters.

use vstd::prelude::*;

use crate::text::chars_of;

verus! {

/// Whether the pattern from `i` on matches the text from `j` on.
pub open spec fn glob_at(p: Seq<char>, t: Seq<char>, i: int, j: int) -> bool
    decreases p.len() - i, t.len() - j,
{
    if i >= p.len() {
        j >= t.len()
    } else if p[i] == '*' {
        glob_at(p, t, i + 1, j) || (j < t.len() && glob_at(p, t, i, j + 1))
    } else {
        j < t.len() && p[i] == t[j] && glob_at(p, t, i + 1, j + 1)
    }
}

/// Whether a pattern matches a text.
pub open spec fn matches_glob(p: Seq<char>, t: Seq<char>) -> bool {
    glob_at(p, t, 0, 0)
}

/// A star matches what its rest matches at some later place.
proof fn lemma_star(p: Seq<char>, t: Seq<char>, i: int, j: int)
    requires
        0 <= i < p.len(),
        p[i] == '*',
        0 <= j <= t.len(),
    ensures
        glob_at(p, t, i, j) == exists|k: int| j <= k <= t.len() && #[trigger] glob_at(p, t, i + 1, k),
    decreases t.len() - j,
{
    if glob_at(p, t, i + 1, j) {
    } else if j < t.len() {
        lemma_star(p, t, i, j + 1);
    }
}

/// Between `i` and `i + n` the pattern holds no star, and is what the text is
/// from `j` on.
spec fn literal(p: Seq<char>, t: Seq<char>, i: int, j: int, n: int) -> bool {
    &&& 0 <= i && 0 <= j && 0 <= n && i + n <= p.len() && j + n <= t.len()
    &&& forall|x: int| 0 <= x < n ==> #[trigger] p[i + x] != '*' && p[i + x] == t[j + x]
}

proof fn lemma_literal(p: Seq<char>, t: Seq<char>, i: int, j: int, n: int)
    requires
        literal(p, t, i, j, n),
    ensures
        glob_at(p, t, i, j) == glob_at(p, t, i + n, j + n),
    decreases n,
{
    if n > 0 {
        assert(p[i + 0] != '*' && p[i + 0] == t[j + 0]);
        assert forall|x: int| 0 <= x < n - 1 implies #[trigger] p[i + 1 + x] != '*' && p[i + 1 + x] == t[j + 1 + x] by {
            assert(p[i + (x + 1)] != '*' && p[i + (x + 1)] == t[j + (x + 1)]);
        }
        lemma_literal(p, t, i + 1, j + 1, n - 1);
    }
}

/// A run without stars takes as many characters of the text as it has.
proof fn lemma_run(p: Seq<char>, t: Seq<char>, i: int, k: int, n: int)
    requires
        0 <= i,
        0 <= n,
        i + n <= p.len(),
        0 <= k <= t.len(),
        forall|x: int| 0 <= x < n ==> #[trigger] p[i + x] != '*',
        glob_at(p, t, i, k),
    ensures
        k + n <= t.len(),
        glob_at(p, t, i + n, k + n),
    decreases n,
{
    if n > 0 {
        assert(p[i + 0] != '*');
        assert forall|x: int| 0 <= x < n - 1 implies #[trigger] p[i + 1 + x] != '*' by {
            assert(p[i + (x + 1)] != '*');
        }
        lemma_run(p, t, i + 1, k + 1, n - 1);
    }
}

/// After a star, the first place where the run behind it fits is as good as any
/// later one, where another star follows the run.
proof fn lemma_next_star(p: Seq<char>, t: Seq<char>, s: int, mark: int, n: int)
    requires
        0 <= s < p.len(),
        p[s] == '*',
        literal(p, t, s + 1, mark, n),
        s + 1 + n < p.len(),
        p[s + 1 + n] == '*',
    ensures
        glob_at(p, t, s, mark) == glob_at(p, t, s + 1 + n, mark + n),
{
    let i = s + 1 + n;
    let j = mark + n;
    lemma_star(p, t, s, mark);
    lemma_literal(p, t, s + 1, mark, n);
    if glob_at(p, t, s, mark) {
        let k = choose|k: int| mark <= k <= t.len() && #[trigger] glob_at(p, t, s + 1, k);
        assert forall|x: int| 0 <= x < n implies #[trigger] p[s + 1 + x] != '*' by {}
        lemma_run(p, t, s + 1, k, n);
        lemma_star(p, t, i, k + n);
        let m = choose|m: int| k + n <= m <= t.len() && #[trigger] glob_at(p, t, i + 1, m);
        lemma_star(p, t, i, j);
        assert(glob_at(p, t, i + 1, m));
    }
}

/// After a star, where the text ends with the run behind it, the run fits there
/// only.
proof fn lemma_at_end(p: Seq<char>, t: Seq<char>, s: int, mark: int, n: int)
    requires
        0 <= s < p.len(),
        p[s] == '*',
        literal(p, t, s + 1, mark, n),
        mark + n == t.len(),
    ensures
        glob_at(p, t, s, mark) == glob_at(p, t, s + 1 + n, mark + n),
{
    lemma_star(p, t, s, mark);
    lemma_literal(p, t, s + 1, mark, n);
    if glob_at(p, t, s, mark) {
        let k = choose|k: int| mark <= k <= t.len() && #[trigger] glob_at(p, t, s + 1, k);
        assert forall|x: int| 0 <= x < n implies #[trigger] p[s + 1 + x] != '*' by {}
        lemma_run(p, t, s + 1, k, n);
    }
}

proof fn lemma_only_stars(p: Seq<char>, t: Seq<char>, i: int)
    requires
        0 <= i <= p.len(),
    ensures
        glob_at(p, t, i, t.len() as int) == forall|x: int| i <= x < p.len() ==> #[trigger] p[x] == '*',
    decreases p.len() - i,
{
    if i < p.len() {
        lemma_only_stars(p, t, i + 1);
        if p[i] == '*' {
            assert((forall|x: int| i <= x < p.len() ==> #[trigger] p[x] == '*') == (forall|x: int|
                i + 1 <= x < p.len() ==> #[trigger] p[x] == '*'));
        }
    }
}

/// Whether a pattern matches a text.
pub fn glob(pattern: &str, text: &str) -> (r: bool)
    ensures
        r == matches_glob(pattern@, text@),
{
    glob_chars(&chars_of(pattern), &chars_of(text))
}

/// Whether a pattern matches a text.
pub fn glob_chars(pattern: &[char], text: &[char]) -> (r: bool)
    ensures
        r == matches_glob(pattern@, text@),
{
    let np: usize = pattern.len();
    let nt: usize = text.len();
    let ghost p = pattern@;
    let ghost t = text@;
    let mut pi: usize = 0;
    let mut ti: usize = 0;
    let mut star: Option<usize> = None;
    let mut mark: usize = 0;
    while ti < nt
        invariant
            p == pattern@,
            t == text@,
            np == p.len(),
            nt == t.len(),
            pi <= np,
            mark <= ti <= nt,
            match star {
                Some(s) => {
                    &&& s < pi
                    &&& p[s as int] == '*'
                    &&& ti - mark == pi - s - 1
                    &&& literal(p, t, s + 1, mark as int, pi - s - 1)
                    &&& matches_glob(p, t) == glob_at(p, t, s as int, mark as int)
                },
                None => mark == 0 && matches_glob(p, t) == glob_at(p, t, pi as int, ti as int),
            },
        decreases nt - mark, np - pi,
    {
        if pi < np && pattern[pi] == '*' {
            proof {
                if let Some(s) = star {
                    lemma_next_star(p, t, s as int, mark as int, pi - s - 1);
                }
            }
            star = Some(pi);
            mark = ti;
            pi += 1;
        } else if pi < np && pattern[pi] == text[ti] {
            proof {
                if let Some(s) = star {
                    assert forall|x: int| 0 <= x < pi - s implies #[trigger] p[s + 1 + x] != '*' && p[s + 1 + x] == t[mark
                        + x] by {
                        if x == pi - s - 1 {
                            assert(p[s + 1 + x] == p[pi as int]);
                            assert(t[mark + x] == t[ti as int]);
                        }
                    }
                }
            }
            pi += 1;
            ti += 1;
        } else {
            match star {
                Some(s) => {
                    proof {
                        lemma_literal(p, t, s + 1, mark as int, pi - s - 1);
                        assert(!glob_at(p, t, pi as int, ti as int));
                        assert(!glob_at(p, t, s + 1, mark as int));
                    }
                    pi = s + 1;
                    mark = mark + 1;
                    ti = mark;
                },
                None => {
                    return false;
                },
            }
        }
    }
    proof {
        if let Some(s) = star {
            lemma_at_end(p, t, s as int, mark as int, pi - s - 1);
        }
        lemma_only_stars(p, t, pi as int);
    }
    let ghost from = pi as int;
    while pi < np && pattern[pi] == '*'
        invariant
            p == pattern@,
            np == p.len(),
            from <= pi <= np,
            forall|x: int| from <= x < pi ==> #[trigger] p[x] == '*',
        decreases np - pi,
    {
        pi += 1;
    }
    pi == np
}

proof fn lemma_plain_tail(p: Seq<char>, t: Seq<char>, i: int, j: int)
    requires
        0 <= i <= p.len(),
        0 <= j <= t.len(),
        forall|x: int| i <= x < p.len() ==> #[trigger] p[x] != '*',
    ensures
        glob_at(p, t, i, j) == (p.skip(i) == t.skip(j)),
    decreases p.len() - i,
{
    let a = p.skip(i);
    let b = t.skip(j);
    if i < p.len() {
        if j < t.len() {
            lemma_plain_tail(p, t, i + 1, j + 1);
            assert(a =~= seq![p[i]] + p.skip(i + 1));
            assert(b =~= seq![t[j]] + t.skip(j + 1));
            if a == b {
                assert(a[0] == b[0]);
                assert(a.skip(1) =~= p.skip(i + 1));
                assert(b.skip(1) =~= t.skip(j + 1));
            }
        } else {
            assert(a.len() != b.len());
        }
    } else {
        assert(a.len() == 0);
        if j >= t.len() {
            assert(a =~= b);
        } else {
            assert(b.len() > 0);
        }
    }
}

proof fn lemma_plain_head(p: Seq<char>, t: Seq<char>, i: int, n: int)
    requires
        0 <= i <= n <= p.len(),
        i <= t.len(),
        forall|x: int| i <= x < n ==> #[trigger] p[x] != '*',
    ensures
        glob_at(p, t, i, i) == (t.len() >= n && (forall|x: int| i <= x < n ==> #[trigger] p[x] == t[x]) && glob_at(p, t, n, n)),
    decreases n - i,
{
    if i < n {
        if i < t.len() {
            lemma_plain_head(p, t, i + 1, n);
        }
    }
}

/// A pattern without a star matches itself and nothing else.
pub proof fn plain_patterns_match_themselves(p: Seq<char>, t: Seq<char>)
    requires
        forall|x: int| 0 <= x < p.len() ==> #[trigger] p[x] != '*',
    ensures
        matches_glob(p, t) <==> p == t,
{
    lemma_plain_tail(p, t, 0, 0);
    assert(p.skip(0) =~= p);
    assert(t.skip(0) =~= t);
}

/// A star matches any text, an empty one too: a pattern with one matches what begins and ends
/// as it does.
pub proof fn stars_match_any_text(a: Seq<char>, b: Seq<char>, t: Seq<char>)
    requires
        forall|x: int| 0 <= x < a.len() ==> #[trigger] a[x] != '*',
        forall|x: int| 0 <= x < b.len() ==> #[trigger] b[x] != '*',
    ensures
        matches_glob(a + seq!['*'] + b, t) <==> t.len() >= a.len() + b.len() && t.take(a.len() as int) == a && t.skip(
            t.len() - b.len(),
        ) == b,
{
    let p = a + seq!['*'] + b;
    let n = a.len() as int;
    assert(p[n] == '*');
    assert forall|x: int| 0 <= x < n implies #[trigger] p[x] != '*' by {
        assert(p[x] == a[x]);
    }
    assert forall|x: int| n + 1 <= x < p.len() implies #[trigger] p[x] != '*' by {
        assert(p[x] == b[x - n - 1]);
    }
    assert(p.skip(n + 1) =~= b);
    lemma_plain_head(p, t, 0, n);
    if t.len() >= n {
        lemma_star(p, t, n, n);
        assert forall|k: int| n <= k <= t.len() implies #[trigger] glob_at(p, t, n + 1, k) == (b == t.skip(k)) by {
            lemma_plain_tail(p, t, n + 1, k);
        }
        if matches_glob(p, t) {
            let k = choose|k: int| n <= k <= t.len() && #[trigger] glob_at(p, t, n + 1, k);
            assert(b == t.skip(k));
            assert(k == t.len() - b.len());
            assert forall|x: int| 0 <= x < n implies t.take(n)[x] == a[x] by {
                assert(p[x] == t[x]);
            }
            assert(t.take(n) =~= a);
        }
        if t.len() >= a.len() + b.len() && t.take(n) == a && t.skip(t.len() - b.len()) == b {
            let k = t.len() - b.len();
            assert(glob_at(p, t, n + 1, k));
            assert forall|x: int| 0 <= x < n implies #[trigger] p[x] == t[x] by {
                assert(t.take(n)[x] == t[x]);
                assert(p[x] == a[x]);
            }
        }
    }
}

} // verus!
