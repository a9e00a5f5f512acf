//! Mining a rule's template: the literal segments every one of its messages shares, found by
//! aligning each message's whitespace-separated tokens against the first message's. The result is
//! a proposal; the exact split and the byte-identity check in the fold are what make it correct.
use vstd::prelude::*;

use super::cost::{dead_weight_spec, template_part_is_dead_weight};
use crate::text::{chars_byte_len, chars_ends_with, chars_eq, chars_starts_with, is_prefix, is_suffix, is_whitespace, is_ws, utf8_len};

verus! {

broadcast use vstd::seq_lib::group_seq_properties;

/// Alignment is quadratic in tokens, so a message with more tokens than this folds nothing.
pub const MAX_TOKENS: usize = 1200;

/// `spans` are the maximal runs of non-whitespace characters of `s`, in order.
pub open spec fn is_token_spans(s: Seq<char>, spans: Seq<(usize, usize)>) -> bool {
    &&& forall|k: int|
        0 <= k < spans.len() ==> (#[trigger] spans[k]).0 < spans[k].1 <= s.len() && (spans[k].0 == 0
            || is_ws(s[spans[k].0 - 1])) && (spans[k].1 == s.len() || is_ws(s[spans[k].1 as int]))
    &&& forall|k: int, q: int|
        0 <= k < spans.len() && spans[k].0 <= q < spans[k].1 ==> !is_ws(#[trigger] s[q]) && #[trigger] spans[k].0 >= 0
    &&& forall|a: int, b: int| 0 <= a < b < spans.len() ==> (#[trigger] spans[a]).1 < (#[trigger] spans[b]).0
    &&& forall|q: int|
        0 <= q < s.len() && !is_ws(#[trigger] s[q]) ==> exists|k: int|
            0 <= k < spans.len() && (#[trigger] spans[k]).0 <= q < spans[k].1
}

/// The token spans of each text.
pub open spec fn all_spans_of(ms: Seq<Seq<char>>) -> Seq<Seq<(usize, usize)>> {
    Seq::new(ms.len(), |k: int| spans_of(ms[k]))
}

/// The token spans of `s`: the one list that [`is_token_spans`] admits.
pub open spec fn spans_of(s: Seq<char>) -> Seq<(usize, usize)> {
    choose|sp: Seq<(usize, usize)>| is_token_spans(s, sp)
}

/// A span of one valid list is a span of any other.
proof fn lemma_span_in(s: Seq<char>, x: Seq<(usize, usize)>, y: Seq<(usize, usize)>, k: int)
    requires
        is_token_spans(s, x),
        is_token_spans(s, y),
        0 <= k < x.len(),
    ensures
        y.contains(x[k]),
{
    let a = x[k].0 as int;
    let b = x[k].1 as int;
    assert(!is_ws(s[a]));
    let j = choose|j: int| 0 <= j < y.len() && (#[trigger] y[j]).0 <= a < y[j].1;
    let c = y[j].0 as int;
    let d = y[j].1 as int;
    if c < a {
        assert(!is_ws(s[a - 1]));
    }
    if d < b {
        assert(!is_ws(s[d]));
    }
    if d > b {
        assert(!is_ws(s[b]));
    }
    assert(y[j] == x[k]);
}

/// The maximal runs of a text are one list: two lists that both are its token spans agree.
pub proof fn lemma_token_spans_unique(s: Seq<char>, x: Seq<(usize, usize)>, y: Seq<(usize, usize)>)
    requires
        is_token_spans(s, x),
        is_token_spans(s, y),
    ensures
        x == y,
    decreases x.len(),
{
    assert forall|k: int| 0 <= k < x.len() implies y.contains(x[k]) by {
        lemma_span_in(s, x, y, k);
    }
    assert forall|k: int| 0 <= k < y.len() implies x.contains(y[k]) by {
        lemma_span_in(s, y, x, k);
    }
    lemma_sorted_spans_equal(x, y);
}

proof fn lemma_sorted_spans_equal(x: Seq<(usize, usize)>, y: Seq<(usize, usize)>)
    requires
        forall|a: int, b: int| 0 <= a < b < x.len() ==> (#[trigger] x[a]).1 < (#[trigger] x[b]).0,
        forall|a: int, b: int| 0 <= a < b < y.len() ==> (#[trigger] y[a]).1 < (#[trigger] y[b]).0,
        forall|k: int| 0 <= k < x.len() ==> (#[trigger] x[k]).0 < x[k].1,
        forall|k: int| 0 <= k < y.len() ==> (#[trigger] y[k]).0 < y[k].1,
        forall|k: int| 0 <= k < x.len() ==> y.contains(#[trigger] x[k]),
        forall|k: int| 0 <= k < y.len() ==> x.contains(#[trigger] y[k]),
    ensures
        x == y,
    decreases x.len(),
{
    if x.len() == 0 {
        if y.len() > 0 {
            assert(x.contains(y[0]));
        }
        assert(x =~= y);
    } else {
        assert(y.contains(x[0]));
        let j = choose|j: int| 0 <= j < y.len() && y[j] == x[0];
        assert(x.contains(y[0]));
        let i = choose|i: int| 0 <= i < x.len() && x[i] == y[0];
        if j > 0 && i > 0 {
            assert(y[0].1 < y[j].0);
            assert(x[0].1 < x[i].0);
        }
        assert(x[0] == y[0]);
        let x1 = x.drop_first();
        let y1 = y.drop_first();
        assert forall|k: int| 0 <= k < x1.len() implies y1.contains(#[trigger] x1[k]) by {
            assert(x[0].1 < x[k + 1].0);
            assert(y.contains(x[k + 1]));
            let m = choose|m: int| 0 <= m < y.len() && y[m] == x[k + 1];
            assert(m != 0);
            assert(y1[m - 1] == x1[k]);
        }
        assert forall|k: int| 0 <= k < y1.len() implies x1.contains(#[trigger] y1[k]) by {
            assert(y[0].1 < y[k + 1].0);
            assert(x.contains(y[k + 1]));
            let m = choose|m: int| 0 <= m < x.len() && x[m] == y[k + 1];
            assert(m != 0);
            assert(x1[m - 1] == y1[k]);
        }
        lemma_sorted_spans_equal(x1, y1);
        assert(x =~= y) by {
            assert forall|k: int| 0 <= k < x.len() implies x[k] == y[k] by {
                if k > 0 {
                    assert(x[k] == x1[k - 1]);
                    assert(y[k] == y1[k - 1]);
                }
            }
        }
    }
}

/// The character spans of the whitespace-separated runs of `s`: whitespace is the seam because an
/// interpolated value is a word.
pub fn token_spans(s: &Vec<char>) -> (r: Vec<(usize, usize)>)
    ensures
        is_token_spans(s@, r@),
{
    let mut out: Vec<(usize, usize)> = Vec::new();
    let mut start: Option<usize> = None;
    let mut i: usize = 0;
    while i < s.len()
        invariant
            i <= s@.len(),
            forall|k: int|
                0 <= k < out@.len() ==> (#[trigger] out@[k]).0 < out@[k].1 <= i && (out@[k].0 == 0
                    || is_ws(s@[out@[k].0 - 1])) && (out@[k].1 == s@.len() || is_ws(
                    s@[out@[k].1 as int],
                )),
            forall|k: int, q: int|
                0 <= k < out@.len() && out@[k].0 <= q < out@[k].1 ==> !is_ws(#[trigger] s@[q]) && #[trigger] out@[k].0 >= 0,
            forall|a: int, b: int| 0 <= a < b < out@.len() ==> (#[trigger] out@[a]).1 < (#[trigger] out@[b]).0,
            match start {
                Some(st) => st < i && (st == 0 || is_ws(s@[st - 1])) && (forall|q: int|
                    st <= q < i ==> !is_ws(#[trigger] s@[q])) && (out@.len() > 0 ==> out@.last().1
                    < st),
                None => i == 0 || is_ws(s@[i - 1]),
            },
            forall|q: int|
                0 <= q < i && !is_ws(#[trigger] s@[q]) ==> (exists|k: int|
                    0 <= k < out@.len() && (#[trigger] out@[k]).0 <= q < out@[k].1) || (start matches Some(
                    st,
                ) && st <= q),
        decreases s@.len() - i,
    {
        let c = s[i];
        if is_whitespace(c) {
            if let Some(st) = start {
                let ghost before = out@;
                out.push((st, i));
                proof {
                    assert forall|q: int| 0 <= q < i + 1 && !is_ws(#[trigger] s@[q]) implies exists|k: int|
                        0 <= k < out@.len() && (#[trigger] out@[k]).0 <= q < out@[k].1 by {
                        if st <= q {
                            assert(out@[before.len() as int] == (st, i));
                        } else {
                            let k = choose|k: int| 0 <= k < before.len() && (#[trigger] before[k]).0 <= q < before[k].1;
                            assert(out@[k] == before[k]);
                        }
                    }
                }
                start = None;
            }
        } else if start.is_none() {
            start = Some(i);
        }
        i = i + 1;
    }
    if let Some(st) = start {
        let ghost before = out@;
        out.push((st, s.len()));
        proof {
            assert forall|q: int| 0 <= q < s@.len() && !is_ws(#[trigger] s@[q]) implies exists|k: int|
                0 <= k < out@.len() && (#[trigger] out@[k]).0 <= q < out@[k].1 by {
                if st <= q {
                    assert(out@[before.len() as int] == (st, s@.len() as usize));
                } else {
                    let k = choose|k: int| 0 <= k < before.len() && (#[trigger] before[k]).0 <= q < before[k].1;
                    assert(out@[k] == before[k]);
                }
            }
        }
    }
    out
}

/// The characters of `s` in `[a, b)`.
pub fn slice_chars(s: &Vec<char>, a: usize, b: usize) -> (r: Vec<char>)
    requires
        a <= b <= s@.len(),
    ensures
        r@ == s@.subrange(a as int, b as int),
{
    let mut out: Vec<char> = Vec::new();
    let mut i: usize = a;
    while i < b
        invariant
            a <= i <= b <= s@.len(),
            out@ == s@.subrange(a as int, i as int),
        decreases b - i,
    {
        out.push(s[i]);
        i = i + 1;
    }
    out
}

/// `pairs` is a common subsequence of `a` and `b`: index pairs increasing in both coordinates,
/// each pairing two equal tokens.
pub open spec fn is_common_subsequence(a: Seq<Vec<char>>, b: Seq<Vec<char>>, pairs: Seq<(usize, usize)>) -> bool {
    &&& forall|k: int|
        0 <= k < pairs.len() ==> (#[trigger] pairs[k]).0 < a.len() && pairs[k].1 < b.len() && a[pairs[k].0 as int]@
            == b[pairs[k].1 as int]@
    &&& forall|k: int, l: int|
        0 <= k < l < pairs.len() ==> (#[trigger] pairs[k]).0 < (#[trigger] pairs[l]).0 && pairs[k].1 < pairs[l].1
}

/// The length of a longest common subsequence of the first `i` tokens of `a` and the first `j`
/// of `b`.
pub open spec fn lcs_len(a: Seq<Seq<char>>, b: Seq<Seq<char>>, i: int, j: int) -> int
    decreases i + j,
{
    if i <= 0 || j <= 0 {
        0
    } else if a[i - 1] == b[j - 1] {
        lcs_len(a, b, i - 1, j - 1) + 1
    } else {
        let up = lcs_len(a, b, i - 1, j);
        let left = lcs_len(a, b, i, j - 1);
        if up >= left {
            up
        } else {
            left
        }
    }
}

/// The longest common subsequence of the first `i` tokens of `a` and the first `j` of `b` that
/// the walk back from `(i, j)` picks, in increasing order: a match when it lies on a longest
/// path, else the row above when it loses nothing, else the column to the left.
pub open spec fn lcs_walk(a: Seq<Seq<char>>, b: Seq<Seq<char>>, i: int, j: int) -> Seq<(usize, usize)>
    decreases i + j,
{
    if i <= 0 || j <= 0 {
        Seq::empty()
    } else if a[i - 1] == b[j - 1] && lcs_len(a, b, i - 1, j - 1) + 1 == lcs_len(a, b, i, j) {
        lcs_walk(a, b, i - 1, j - 1).push(((i - 1) as usize, (j - 1) as usize))
    } else if lcs_len(a, b, i - 1, j) >= lcs_len(a, b, i, j - 1) {
        lcs_walk(a, b, i - 1, j)
    } else {
        lcs_walk(a, b, i, j - 1)
    }
}

/// The walk is as long as a longest common subsequence.
pub proof fn lemma_lcs_walk_len(a: Seq<Seq<char>>, b: Seq<Seq<char>>, i: int, j: int)
    ensures
        lcs_walk(a, b, i, j).len() == lcs_len(a, b, i, j),
    decreases i + j,
{
    if i > 0 && j > 0 {
        lemma_lcs_walk_len(a, b, i - 1, j - 1);
        lemma_lcs_walk_len(a, b, i - 1, j);
        lemma_lcs_walk_len(a, b, i, j - 1);
    }
}

/// Longest common subsequence of two token lists, as the index pairs that survive: the standard
/// table, then the walk back from its far corner, preferring a match, then the row above.
pub fn lcs_pairs(a: &Vec<Vec<char>>, b: &Vec<Vec<char>>) -> (r: Vec<(usize, usize)>)
    requires
        a@.len() <= MAX_TOKENS,
        b@.len() <= MAX_TOKENS,
    ensures
        is_common_subsequence(a@, b@, r@),
        r@ == lcs_walk(views(a@), views(b@), a@.len() as int, b@.len() as int),
        r@.len() == lcs_len(views(a@), views(b@), a@.len() as int, b@.len() as int),
{
    let ghost av = views(a@);
    let ghost bv = views(b@);
    let n = a.len();
    let m = b.len();
    let mut dp: Vec<Vec<usize>> = Vec::new();
    let mut first: Vec<usize> = Vec::new();
    let mut j: usize = 0;
    while j <= m
        invariant
            m <= MAX_TOKENS,
            j <= m + 1,
            first@.len() == j,
            forall|c: int| 0 <= c < j ==> first@[c] == 0,
        decreases m + 1 - j,
    {
        first.push(0);
        j = j + 1;
    }
    dp.push(first);
    let mut i: usize = 1;
    while i <= n
        invariant
            n == a@.len(),
            m == b@.len(),
            av == views(a@),
            bv == views(b@),
            n <= MAX_TOKENS,
            m <= MAX_TOKENS,
            1 <= i <= n + 1,
            dp@.len() == i,
            forall|r: int| 0 <= r < i ==> (#[trigger] dp@[r])@.len() == m + 1,
            forall|r: int, c: int| 0 <= r < i && 0 <= c <= m ==> #[trigger] dp@[r]@[c] <= r,
            forall|r: int, c: int| 0 <= r < i && 0 <= c <= m ==> #[trigger] dp@[r]@[c] == lcs_len(av, bv, r, c),
        decreases n + 1 - i,
    {
        let mut row: Vec<usize> = Vec::new();
        row.push(0);
        let mut j: usize = 1;
        while j <= m
            invariant
                n == a@.len(),
                m == b@.len(),
                av == views(a@),
                bv == views(b@),
                m <= MAX_TOKENS,
                1 <= i <= n,
                dp@.len() == i,
                forall|r: int| 0 <= r < i ==> (#[trigger] dp@[r])@.len() == m + 1,
                forall|r: int, c: int| 0 <= r < i && 0 <= c <= m ==> #[trigger] dp@[r]@[c] <= r,
                forall|r: int, c: int| 0 <= r < i && 0 <= c <= m ==> #[trigger] dp@[r]@[c] == lcs_len(av, bv, r, c),
                1 <= j <= m + 1,
                row@.len() == j,
                forall|c: int| 0 <= c < j ==> (#[trigger] row@[c]) <= i,
                forall|c: int| 0 <= c < j ==> (#[trigger] row@[c]) == lcs_len(av, bv, i as int, c),
            decreases m + 1 - j,
        {
            let up = dp[i - 1][j];
            let left = row[j - 1];
            proof {
                assert(av[i - 1] == a@[i - 1]@);
                assert(bv[j - 1] == b@[j - 1]@);
            }
            let v = if chars_eq(&a[i - 1], &b[j - 1]) {
                dp[i - 1][j - 1] + 1
            } else if up >= left {
                up
            } else {
                left
            };
            row.push(v);
            j = j + 1;
        }
        dp.push(row);
        i = i + 1;
    }
    let mut rev: Vec<(usize, usize)> = Vec::new();
    let ghost mut tail: Seq<(usize, usize)> = Seq::empty();
    let mut i: usize = n;
    let mut j: usize = m;
    while i > 0 && j > 0
        invariant
            n == a@.len(),
            m == b@.len(),
            av == views(a@),
            bv == views(b@),
            i <= n,
            j <= m,
            dp@.len() == n + 1,
            forall|r: int| 0 <= r <= n ==> (#[trigger] dp@[r])@.len() == m + 1,
            forall|r: int, c: int| 0 <= r <= n && 0 <= c <= m ==> #[trigger] dp@[r]@[c] <= r,
            forall|r: int, c: int| 0 <= r <= n && 0 <= c <= m ==> #[trigger] dp@[r]@[c] == lcs_len(av, bv, r, c),
            n <= MAX_TOKENS,
            forall|k: int|
                0 <= k < rev@.len() ==> (#[trigger] rev@[k]).0 < n && rev@[k].1 < m && a@[rev@[k].0 as int]@
                    == b@[rev@[k].1 as int]@ && rev@[k].0 >= i && rev@[k].1 >= j,
            forall|k: int, l: int|
                0 <= k < l < rev@.len() ==> (#[trigger] rev@[k]).0 > (#[trigger] rev@[l]).0 && rev@[k].1
                    > rev@[l].1,
            tail.len() == rev@.len(),
            forall|q: int| 0 <= q < rev@.len() ==> #[trigger] rev@[q] == tail[tail.len() - 1 - q],
            lcs_walk(av, bv, n as int, m as int) == lcs_walk(av, bv, i as int, j as int) + tail,
        decreases i + j,
    {
        proof {
            assert(av[i - 1] == a@[i - 1]@);
            assert(bv[j - 1] == b@[j - 1]@);
        }
        if chars_eq(&a[i - 1], &b[j - 1]) && dp[i - 1][j - 1] + 1 == dp[i][j] {
            let ghost p = ((i - 1) as usize, (j - 1) as usize);
            let ghost old_tail = tail;
            rev.push((i - 1, j - 1));
            proof {
                tail = seq![p] + old_tail;
                assert(lcs_walk(av, bv, i as int, j as int) == lcs_walk(av, bv, i - 1, j - 1).push(p));
                assert(lcs_walk(av, bv, i - 1, j - 1).push(p) + old_tail =~= lcs_walk(av, bv, i - 1, j - 1) + tail);
                assert forall|q: int| 0 <= q < rev@.len() implies #[trigger] rev@[q] == tail[tail.len() - 1 - q] by {
                    if q < rev@.len() - 1 {
                        assert(rev@[q] == old_tail[old_tail.len() - 1 - q]);
                    }
                }
            }
            i = i - 1;
            j = j - 1;
        } else if dp[i - 1][j] >= dp[i][j - 1] {
            i = i - 1;
        } else {
            j = j - 1;
        }
    }
    let mut out: Vec<(usize, usize)> = Vec::new();
    let mut k: usize = rev.len();
    while k > 0
        invariant
            k <= rev@.len(),
            out@.len() == rev@.len() - k,
            forall|q: int| 0 <= q < out@.len() ==> (#[trigger] out@[q]) == rev@[rev@.len() - 1 - q],
        decreases k,
    {
        k = k - 1;
        out.push(rev[k]);
    }
    proof {
        assert(lcs_walk(av, bv, i as int, j as int) =~= Seq::<(usize, usize)>::empty());
        assert(out@ =~= tail);
        lemma_lcs_walk_len(av, bv, n as int, m as int);
    }
    out
}

/// The texts of `s` at `spans`.
pub open spec fn tokens_of(s: Seq<char>, spans: Seq<(usize, usize)>) -> Seq<Seq<char>> {
    spans.map_values(|sp: (usize, usize)| s.subrange(sp.0 as int, sp.1 as int))
}

/// The tokens of `s` at `spans`.
fn tokens_at(s: &Vec<char>, spans: &Vec<(usize, usize)>) -> (r: Vec<Vec<char>>)
    requires
        is_token_spans(s@, spans@),
    ensures
        r@.len() == spans@.len(),
        views(r@) == tokens_of(s@, spans@),
{
    let mut out: Vec<Vec<char>> = Vec::new();
    let mut k: usize = 0;
    while k < spans.len()
        invariant
            is_token_spans(s@, spans@),
            k <= spans@.len(),
            out@.len() == k,
            forall|q: int| 0 <= q < k ==> (#[trigger] out@[q])@ == s@.subrange(spans@[q].0 as int, spans@[q].1 as int),
        decreases spans@.len() - k,
    {
        let (a, b) = spans[k];
        out.push(slice_chars(s, a, b));
        k = k + 1;
    }
    proof {
        assert(views(out@) =~= tokens_of(s@, spans@));
    }
    out
}

/// `runs` are ranges of `len` characters, non-empty and strictly increasing.
pub open spec fn is_runs(len: nat, runs: Seq<(usize, usize)>) -> bool {
    &&& forall|k: int| 0 <= k < runs.len() ==> (#[trigger] runs[k]).0 < runs[k].1 <= len
    &&& forall|a: int, b: int| 0 <= a < b < runs.len() ==> (#[trigger] runs[a]).1 < (#[trigger] runs[b]).0
}

/// Aligned pairs `q` and `q + 1` are adjacent tokens on both sides, with identical separators
/// between them: the run continues across them.
pub open spec fn linked(
    a: Seq<char>,
    b: Seq<char>,
    ta: Seq<(usize, usize)>,
    tb: Seq<(usize, usize)>,
    pairs: Seq<(usize, usize)>,
    q: int,
) -> bool {
    &&& 0 <= q && q + 1 < pairs.len()
    &&& pairs[q + 1].0 == pairs[q].0 + 1
    &&& pairs[q + 1].1 == pairs[q].1 + 1
    &&& a.subrange(ta[pairs[q].0 as int].1 as int, ta[pairs[q + 1].0 as int].0 as int) == b.subrange(
        tb[pairs[q].1 as int].1 as int,
        tb[pairs[q + 1].1 as int].0 as int,
    )
}

/// The last aligned pair of the run that starts at pair `p`.
pub open spec fn run_end(
    a: Seq<char>,
    b: Seq<char>,
    ta: Seq<(usize, usize)>,
    tb: Seq<(usize, usize)>,
    pairs: Seq<(usize, usize)>,
    p: int,
) -> int
    decreases pairs.len() - p,
{
    if linked(a, b, ta, tb, pairs, p) {
        run_end(a, b, ta, tb, pairs, p + 1)
    } else {
        p
    }
}

/// A run that starts at pair `p` ends at or after it, at an aligned pair.
pub proof fn lemma_run_end_range(
    a: Seq<char>,
    b: Seq<char>,
    ta: Seq<(usize, usize)>,
    tb: Seq<(usize, usize)>,
    pairs: Seq<(usize, usize)>,
    p: int,
)
    requires
        0 <= p < pairs.len(),
    ensures
        p <= run_end(a, b, ta, tb, pairs, p) < pairs.len(),
    decreases pairs.len() - p,
{
    if linked(a, b, ta, tb, pairs, p) {
        lemma_run_end_range(a, b, ta, tb, pairs, p + 1);
    }
}

/// The character ranges of `a` spanned by the runs from pair `p` on: each run from its first
/// token's start to its last token's end.
pub open spec fn runs_from(
    a: Seq<char>,
    b: Seq<char>,
    ta: Seq<(usize, usize)>,
    tb: Seq<(usize, usize)>,
    pairs: Seq<(usize, usize)>,
    p: int,
) -> Seq<(usize, usize)>
    decreases pairs.len() - p,
{
    if p < 0 || p >= pairs.len() {
        Seq::empty()
    } else {
        let q = run_end(a, b, ta, tb, pairs, p);
        proof {
            lemma_run_end_range(a, b, ta, tb, pairs, p);
        }
        seq![(ta[pairs[p].0 as int].0, ta[pairs[q].0 as int].1)] + runs_from(a, b, ta, tb, pairs, q + 1)
    }
}

/// The character ranges of `a` that appear in `b` contiguously and identically, separators
/// included: runs of the token alignment whose tokens are adjacent on both sides and whose
/// separators match.
pub fn align_runs(a: &Vec<char>, b: &Vec<char>, ta: &Vec<(usize, usize)>, tb: &Vec<(usize, usize)>) -> (r: Vec<
    (usize, usize),
>)
    requires
        is_token_spans(a@, ta@),
        is_token_spans(b@, tb@),
        ta@.len() <= MAX_TOKENS,
        tb@.len() <= MAX_TOKENS,
    ensures
        is_runs(a@.len(), r@),
        r@ == runs_from(
            a@,
            b@,
            ta@,
            tb@,
            lcs_walk(tokens_of(a@, ta@), tokens_of(b@, tb@), ta@.len() as int, tb@.len() as int),
            0,
        ),
{
    let at = tokens_at(a, ta);
    let bt = tokens_at(b, tb);
    let pairs = lcs_pairs(&at, &bt);
    let mut runs: Vec<(usize, usize)> = Vec::new();
    let mut p: usize = 0;
    while p < pairs.len()
        invariant
            is_token_spans(a@, ta@),
            is_token_spans(b@, tb@),
            at@.len() == ta@.len(),
            bt@.len() == tb@.len(),
            is_common_subsequence(at@, bt@, pairs@),
            p <= pairs@.len(),
            is_runs(a@.len(), runs@),
            runs@.len() > 0 && p < pairs@.len() ==> runs@.last().1 < ta@[pairs@[p as int].0 as int].0,
            runs_from(a@, b@, ta@, tb@, pairs@, 0) == runs@ + runs_from(a@, b@, ta@, tb@, pairs@, p as int),
        decreases pairs@.len() - p,
    {
        let mut q: usize = p;
        while q < pairs.len() - 1
            invariant
                is_token_spans(a@, ta@),
                is_token_spans(b@, tb@),
                at@.len() == ta@.len(),
                bt@.len() == tb@.len(),
                is_common_subsequence(at@, bt@, pairs@),
                p <= q < pairs@.len(),
                run_end(a@, b@, ta@, tb@, pairs@, p as int) == run_end(a@, b@, ta@, tb@, pairs@, q as int),
            ensures
                p <= q < pairs@.len(),
                run_end(a@, b@, ta@, tb@, pairs@, p as int) == q,
            decreases pairs@.len() - q,
        {
            let (i, j) = pairs[q];
            let (i2, j2) = pairs[q + 1];
            if i2 != i + 1 || j2 != j + 1 {
                break;
            }
            let sa = slice_chars(a, ta[i].1, ta[i2].0);
            let sb = slice_chars(b, tb[j].1, tb[j2].0);
            if !chars_eq(&sa, &sb) {
                break;
            }
            q = q + 1;
        }
        let start = ta[pairs[p].0].0;
        let end = ta[pairs[q].0].1;
        proof {
            if pairs@[p as int].0 < pairs@[q as int].0 {
                assert(ta@[pairs@[p as int].0 as int].1 < ta@[pairs@[q as int].0 as int].0);
            }
            if q + 1 < pairs@.len() {
                assert(pairs@[q as int].0 < pairs@[q + 1].0);
                assert(ta@[pairs@[q as int].0 as int].1 < ta@[pairs@[q + 1].0 as int].0);
            }
        }
        let ghost before = runs@;
        runs.push((start, end));
        proof {
            let g = runs_from(a@, b@, ta@, tb@, pairs@, p as int);
            assert(g == seq![(start, end)] + runs_from(a@, b@, ta@, tb@, pairs@, q + 1));
            assert(before + g =~= runs@ + runs_from(a@, b@, ta@, tb@, pairs@, q + 1));
        }
        p = q + 1;
    }
    proof {
        assert(runs@ + runs_from(a@, b@, ta@, tb@, pairs@, p as int) =~= runs@);
    }
    runs
}

/// The aligned runs of message `k` over the first message, at the messages' token spans `sp`.
pub open spec fn msg_runs(msgs: Seq<Seq<char>>, sp: Seq<Seq<(usize, usize)>>, k: int) -> Seq<(usize, usize)> {
    runs_from(
        msgs[0],
        msgs[k],
        sp[0],
        sp[k],
        lcs_walk(tokens_of(msgs[0], sp[0]), tokens_of(msgs[k], sp[k]), sp[0].len() as int, sp[k].len() as int),
        0,
    )
}

/// Character `i` lies inside one of `runs`.
pub open spec fn in_run(runs: Seq<(usize, usize)>, i: int) -> bool {
    exists|r: int| 0 <= r < runs.len() && (#[trigger] runs[r]).0 <= i < runs[r].1
}

/// Position `i` is where one of `runs` starts or ends.
pub open spec fn at_edge(runs: Seq<(usize, usize)>, i: int) -> bool {
    exists|r: int| 0 <= r < runs.len() && ((#[trigger] runs[r]).0 == i || runs[r].1 == i)
}

/// Character `i` of the first message lies in an aligned run of every message before `upto`.
pub open spec fn kept(msgs: Seq<Seq<char>>, sp: Seq<Seq<(usize, usize)>>, upto: int, i: int) -> bool {
    forall|k: int| 1 <= k < upto ==> in_run(#[trigger] msg_runs(msgs, sp, k), i)
}

/// Position `i` of the first message is a run boundary for some message before `upto`.
pub open spec fn cut_at(msgs: Seq<Seq<char>>, sp: Seq<Seq<(usize, usize)>>, upto: int, i: int) -> bool {
    exists|k: int| 1 <= k < upto && at_edge(#[trigger] msg_runs(msgs, sp, k), i)
}

/// The end of the kept stretch that continues at `j`: it stops at a dropped character or a cut.
pub open spec fn seg_end(mask: Seq<bool>, cut: Seq<bool>, j: int) -> int
    decreases mask.len() - j,
{
    if 0 <= j < mask.len() && mask[j] && !cut[j] {
        seg_end(mask, cut, j + 1)
    } else {
        j
    }
}

/// A stretch continuing at `j` ends at `j` or later, and within the text.
pub proof fn lemma_seg_end_range(mask: Seq<bool>, cut: Seq<bool>, j: int)
    requires
        0 <= j <= mask.len(),
    ensures
        j <= seg_end(mask, cut, j) <= mask.len(),
    decreases mask.len() - j,
{
    if 0 <= j < mask.len() && mask[j] && !cut[j] {
        lemma_seg_end_range(mask, cut, j + 1);
    }
}

/// The kept stretches of `m0` from position `i` on, left to right.
pub open spec fn segs_from(m0: Seq<char>, mask: Seq<bool>, cut: Seq<bool>, i: int) -> Seq<Seq<char>>
    decreases mask.len() - i,
{
    if i < 0 || i >= mask.len() {
        Seq::empty()
    } else if !mask[i] {
        segs_from(m0, mask, cut, i + 1)
    } else {
        let j = seg_end(mask, cut, i + 1);
        proof {
            lemma_seg_end_range(mask, cut, i + 1);
        }
        seq![m0.subrange(i, j)] + segs_from(m0, mask, cut, j)
    }
}

/// Every message is within the token limit, and the first has a token.
pub open spec fn within_limits(msgs: Seq<Seq<char>>, sp: Seq<Seq<(usize, usize)>>) -> bool {
    &&& 0 < sp[0].len() <= MAX_TOKENS
    &&& forall|k: int| 1 <= k < msgs.len() ==> (#[trigger] sp[k]).len() <= MAX_TOKENS
}

/// The first message's characters every other message keeps.
pub open spec fn mask_of(msgs: Seq<Seq<char>>, sp: Seq<Seq<(usize, usize)>>) -> Seq<bool> {
    Seq::new(msgs[0].len(), |i: int| kept(msgs, sp, msgs.len() as int, i))
}

/// The first message's positions that some other message's runs start or end at.
pub open spec fn cuts_of(msgs: Seq<Seq<char>>, sp: Seq<Seq<(usize, usize)>>) -> Seq<bool> {
    Seq::new((msgs[0].len() + 1) as nat, |i: int| cut_at(msgs, sp, msgs.len() as int, i))
}

/// The parts built from the shared stretches `segs`: an empty first or last part where not
/// every message shares that end; `None` when there is no stretch or fewer than two parts.
pub open spec fn assembled(msgs: Seq<Seq<char>>, segs: Seq<Seq<char>>) -> Option<Seq<Seq<char>>> {
    if segs.len() == 0 {
        None
    } else {
        let lead = forall|q: int| 0 <= q < msgs.len() ==> is_prefix(segs[0], #[trigger] msgs[q]);
        let tail = forall|q: int| 0 <= q < msgs.len() ==> is_suffix(segs.last(), #[trigger] msgs[q]);
        let parts = (if lead {
            Seq::<Seq<char>>::empty()
        } else {
            seq![Seq::<char>::empty()]
        }) + segs + (if tail {
            Seq::<Seq<char>>::empty()
        } else {
            seq![Seq::<char>::empty()]
        });
        if parts.len() >= 2 {
            Some(parts)
        } else {
            None
        }
    }
}

/// The parts the messages share, given their token spans `sp`: the stretches of the first
/// message that every other message aligns a run over, split at run boundaries, with an empty
/// first or last part where not every message shares that end.
pub open spec fn derived(msgs: Seq<Seq<char>>, sp: Seq<Seq<(usize, usize)>>) -> Option<Seq<Seq<char>>> {
    if !within_limits(msgs, sp) {
        None
    } else {
        assembled(msgs, segs_from(msgs[0], mask_of(msgs, sp), cuts_of(msgs, sp), 0))
    }
}

/// The token spans of every message.
fn all_spans(msgs: &Vec<Vec<char>>) -> (r: Vec<Vec<(usize, usize)>>)
    ensures
        r@.len() == msgs@.len(),
        forall|k: int| 0 <= k < msgs@.len() ==> is_token_spans(msgs@[k]@, #[trigger] r@[k]@),
{
    let mut out: Vec<Vec<(usize, usize)>> = Vec::new();
    let mut k: usize = 0;
    while k < msgs.len()
        invariant
            k <= msgs@.len(),
            out@.len() == k,
            forall|q: int| 0 <= q < k ==> is_token_spans(msgs@[q]@, #[trigger] out@[q]@),
        decreases msgs@.len() - k,
    {
        out.push(token_spans(&msgs[k]));
        k = k + 1;
    }
    out
}

/// Narrows `mask` to the characters inside `runs` and marks every run boundary in `cut`.
fn apply_runs(mask: &mut Vec<bool>, cut: &mut Vec<bool>, runs: &Vec<(usize, usize)>)
    requires
        is_runs(old(mask)@.len(), runs@),
        old(cut)@.len() == old(mask)@.len() + 1,
    ensures
        final(mask)@.len() == old(mask)@.len(),
        final(cut)@.len() == old(cut)@.len(),
        forall|i: int| 0 <= i < final(mask)@.len() ==> #[trigger] final(mask)@[i] == (old(mask)@[i] && in_run(runs@, i)),
        forall|i: int| 0 <= i < final(cut)@.len() ==> #[trigger] final(cut)@[i] == (old(cut)@[i] || at_edge(runs@, i)),
{
    let len = mask.len();
    let ghost m0 = mask@;
    let ghost c0 = cut@;
    let mut keep: Vec<bool> = Vec::new();
    let mut q: usize = 0;
    while q < len
        invariant
            q <= len,
            keep@.len() == q,
            forall|x: int| 0 <= x < q ==> !(#[trigger] keep@[x]),
        decreases len - q,
    {
        keep.push(false);
        q = q + 1;
    }
    let mut r: usize = 0;
    while r < runs.len()
        invariant
            len == m0.len(),
            mask@ == m0,
            is_runs(len as nat, runs@),
            r <= runs@.len(),
            keep@.len() == len,
            cut@.len() == len + 1,
            forall|x: int| 0 <= x < len ==> #[trigger] keep@[x] == in_run(runs@.take(r as int), x),
            forall|x: int| 0 <= x <= len ==> #[trigger] cut@[x] == (c0[x] || at_edge(runs@.take(r as int), x)),
        decreases runs@.len() - r,
    {
        let (s, e) = runs[r];
        let ghost k0 = keep@;
        let mut x: usize = s;
        while x < e
            invariant
                s <= x <= e <= len,
                keep@.len() == len,
                forall|y: int| 0 <= y < len ==> #[trigger] keep@[y] == (k0[y] || (s <= y < x)),
            decreases e - x,
        {
            keep.set(x, true);
            x = x + 1;
        }
        let ghost cb = cut@;
        cut.set(s, true);
        cut.set(e, true);
        proof {
            let pre = runs@.take(r as int);
            let nxt = runs@.take(r + 1);
            assert(nxt[r as int] == (s, e));
            assert forall|y: int| 0 <= y < len implies #[trigger] keep@[y] == in_run(nxt, y) by {
                if in_run(nxt, y) {
                    let w = choose|w: int| 0 <= w < nxt.len() && (#[trigger] nxt[w]).0 <= y < nxt[w].1;
                    if w < r {
                        assert(pre[w] == nxt[w]);
                    }
                }
                if in_run(pre, y) {
                    let w = choose|w: int| 0 <= w < pre.len() && (#[trigger] pre[w]).0 <= y < pre[w].1;
                    assert(nxt[w] == pre[w]);
                }
            }
            assert forall|y: int| 0 <= y <= len implies #[trigger] cut@[y] == (c0[y] || at_edge(nxt, y)) by {
                if at_edge(nxt, y) {
                    let w = choose|w: int| 0 <= w < nxt.len() && ((#[trigger] nxt[w]).0 == y || nxt[w].1 == y);
                    if w < r {
                        assert(pre[w] == nxt[w]);
                    }
                }
                if at_edge(pre, y) {
                    let w = choose|w: int| 0 <= w < pre.len() && ((#[trigger] pre[w]).0 == y || pre[w].1 == y);
                    assert(nxt[w] == pre[w]);
                }
            }
        }
        r = r + 1;
    }
    proof {
        assert(runs@.take(runs@.len() as int) =~= runs@);
    }
    let mut q: usize = 0;
    while q < len
        invariant
            q <= len,
            len == m0.len(),
            keep@.len() == len,
            mask@.len() == len,
            forall|x: int| 0 <= x < len ==> #[trigger] keep@[x] == in_run(runs@, x),
            forall|x: int| 0 <= x < q ==> #[trigger] mask@[x] == (m0[x] && in_run(runs@, x)),
            forall|x: int| q <= x < len ==> #[trigger] mask@[x] == m0[x],
        decreases len - q,
    {
        let v = mask[q] && keep[q];
        mask.set(q, v);
        q = q + 1;
    }
}

/// The kept stretches of `m0` under `mask`, split at `cut`.
fn segments(m0: &Vec<char>, mask: &Vec<bool>, cut: &Vec<bool>) -> (r: Vec<Vec<char>>)
    requires
        mask@.len() == m0@.len(),
        cut@.len() == m0@.len() + 1,
    ensures
        views(r@) == segs_from(m0@, mask@, cut@, 0),
{
    let len = m0.len();
    let mut runs: Vec<Vec<char>> = Vec::new();
    let mut i: usize = 0;
    while i < len
        invariant
            len == m0@.len(),
            i <= len,
            mask@.len() == len,
            cut@.len() == len + 1,
            segs_from(m0@, mask@, cut@, 0) == views(runs@) + segs_from(m0@, mask@, cut@, i as int),
        decreases len - i,
    {
        if !mask[i] {
            i = i + 1;
        } else {
            let mut j: usize = i + 1;
            while j < len && mask[j] && !cut[j]
                invariant
                    i < j <= len,
                    mask@.len() == len,
                    cut@.len() == len + 1,
                    seg_end(mask@, cut@, i + 1) == seg_end(mask@, cut@, j as int),
                decreases len - j,
            {
                j = j + 1;
            }
            let ghost before = views(runs@);
            runs.push(slice_chars(m0, i, j));
            proof {
                assert(views(runs@) =~= before.push(m0@.subrange(i as int, j as int)));
                assert(segs_from(m0@, mask@, cut@, i as int) == seq![m0@.subrange(i as int, j as int)] + segs_from(m0@, mask@, cut@, j as int));
                assert(before + segs_from(m0@, mask@, cut@, i as int) =~= views(runs@) + segs_from(m0@, mask@, cut@, j as int));
            }
            i = j;
        }
    }
    proof {
        assert(views(runs@) + segs_from(m0@, mask@, cut@, i as int) =~= views(runs@));
    }
    runs
}

fn copy_chars(v: &Vec<char>) -> (r: Vec<char>)
    ensures
        r@ == v@,
{
    let r = slice_chars(v, 0, v.len());
    proof {
        assert(v@.subrange(0, v@.len() as int) =~= v@);
    }
    r
}

/// Every token position of the first message kept by all others, and every run boundary.
fn mask_and_cuts(msgs: &Vec<Vec<char>>, spans: &Vec<Vec<(usize, usize)>>) -> (r: (Vec<bool>, Vec<bool>))
    requires
        msgs@.len() >= 1,
        spans@.len() == msgs@.len(),
        forall|q: int| 0 <= q < msgs@.len() ==> is_token_spans(msgs@[q]@, #[trigger] spans@[q]@),
        within_limits(views(msgs@), Seq::new(spans@.len(), |q: int| spans@[q]@)),
    ensures
        r.0@ == mask_of(views(msgs@), Seq::new(spans@.len(), |q: int| spans@[q]@)),
        r.1@ == cuts_of(views(msgs@), Seq::new(spans@.len(), |q: int| spans@[q]@)),
{
    let ghost mv = views(msgs@);
    let ghost sp = Seq::new(spans@.len(), |q: int| spans@[q]@);
    let m0 = &msgs[0];
    let len = m0.len();
    proof {
        assert(mv[0] == m0@);
    }
    let mut mask: Vec<bool> = Vec::new();
    let mut cut: Vec<bool> = Vec::new();
    let mut i: usize = 0;
    while i < len
        invariant
            len == m0@.len(),
            i <= len,
            mask@.len() == i,
            cut@.len() == i,
            forall|x: int| 0 <= x < i ==> #[trigger] mask@[x],
            forall|x: int| 0 <= x < i ==> !(#[trigger] cut@[x]),
        decreases len - i,
    {
        mask.push(true);
        cut.push(false);
        i = i + 1;
    }
    cut.push(false);
    proof {
        assert forall|x: int| 0 <= x < len implies #[trigger] mask@[x] == kept(mv, sp, 1, x) by {}
        assert forall|x: int| 0 <= x <= len implies #[trigger] cut@[x] == cut_at(mv, sp, 1, x) by {
            assert(!cut@[x]);
        }
    }
    let mut k: usize = 1;
    while k < msgs.len()
        invariant
            len == m0@.len(),
            m0 == &msgs@[0],
            mv == views(msgs@),
            mv[0] == m0@,
            spans@.len() == msgs@.len(),
            sp == Seq::new(spans@.len(), |q: int| spans@[q]@),
            forall|q: int| 0 <= q < msgs@.len() ==> is_token_spans(msgs@[q]@, #[trigger] spans@[q]@),
            within_limits(mv, sp),
            1 <= k <= msgs@.len(),
            mask@.len() == len,
            cut@.len() == len + 1,
            forall|x: int| 0 <= x < len ==> #[trigger] mask@[x] == kept(mv, sp, k as int, x),
            forall|x: int| 0 <= x <= len ==> #[trigger] cut@[x] == cut_at(mv, sp, k as int, x),
        decreases msgs@.len() - k,
    {
        let m = &msgs[k];
        proof {
            assert(sp[k as int] == spans@[k as int]@);
            assert(sp[0] == spans@[0]@);
            assert(mv[k as int] == m@);
            assert(sp[k as int].len() <= MAX_TOKENS);
        }
        let runs = align_runs(m0, m, &spans[0], &spans[k]);
        proof {
            assert(runs@ == msg_runs(mv, sp, k as int));
        }
        let ghost mk = mask@;
        let ghost ck = cut@;
        apply_runs(&mut mask, &mut cut, &runs);
        proof {
            assert forall|x: int| 0 <= x < len implies #[trigger] mask@[x] == kept(mv, sp, k + 1, x) by {
                assert(mask@[x] == (mk[x] && in_run(runs@, x)));
                if kept(mv, sp, k + 1, x) {
                    assert forall|q: int| 1 <= q < k implies in_run(#[trigger] msg_runs(mv, sp, q), x) by {}
                    assert(in_run(msg_runs(mv, sp, k as int), x));
                }
            }
            assert forall|x: int| 0 <= x <= len implies #[trigger] cut@[x] == cut_at(mv, sp, k + 1, x) by {
                assert(cut@[x] == (ck[x] || at_edge(runs@, x)));
                if cut_at(mv, sp, k + 1, x) {
                    let q = choose|q: int| 1 <= q < k + 1 && at_edge(#[trigger] msg_runs(mv, sp, q), x);
                    if q < k {
                        assert(cut_at(mv, sp, k as int, x));
                    }
                }
                if at_edge(runs@, x) {
                    assert(at_edge(msg_runs(mv, sp, k as int), x));
                }
                if ck[x] {
                    let q = choose|q: int| 1 <= q < k && at_edge(#[trigger] msg_runs(mv, sp, q), x);
                    assert(1 <= q < k + 1);
                }
            }
        }
        k = k + 1;
    }
    proof {
        assert(mask@ =~= mask_of(mv, sp));
        assert(cut@ =~= cuts_of(mv, sp));
    }
    (mask, cut)
}

/// The parts built from the stretches `runs`.
fn assemble(msgs: &Vec<Vec<char>>, runs: &Vec<Vec<char>>) -> (r: Option<Vec<Vec<char>>>)
    ensures
        match r {
            Some(p) => assembled(views(msgs@), views(runs@)) == Some(views(p@)),
            None => assembled(views(msgs@), views(runs@)) is None,
        },
{
    let ghost mv = views(msgs@);
    let ghost segs = views(runs@);
    if runs.len() == 0 {
        return None;
    }
    let first = copy_chars(&runs[0]);
    let last = copy_chars(&runs[runs.len() - 1]);
    let mut lead = true;
    let mut tail = true;
    let mut q: usize = 0;
    while q < msgs.len()
        invariant
            q <= msgs@.len(),
            mv == views(msgs@),
            lead == forall|x: int| 0 <= x < q ==> is_prefix(first@, #[trigger] mv[x]),
            tail == forall|x: int| 0 <= x < q ==> is_suffix(last@, #[trigger] mv[x]),
        decreases msgs@.len() - q,
    {
        proof {
            assert(mv[q as int] == msgs@[q as int]@);
        }
        if !chars_starts_with(&msgs[q], &first) {
            lead = false;
        }
        if !chars_ends_with(&msgs[q], &last) {
            tail = false;
        }
        q = q + 1;
    }
    proof {
        assert(segs[0] == first@);
        assert(segs.last() == last@);
    }
    let mut parts: Vec<Vec<char>> = Vec::new();
    if !lead {
        parts.push(Vec::new());
    }
    let ghost head = views(parts@);
    proof {
        assert(head =~= (if lead { Seq::<Seq<char>>::empty() } else { seq![Seq::<char>::empty()] }));
    }
    let mut q: usize = 0;
    while q < runs.len()
        invariant
            q <= runs@.len(),
            segs == views(runs@),
            views(parts@) == head + segs.take(q as int),
        decreases runs@.len() - q,
    {
        let ghost before = views(parts@);
        parts.push(copy_chars(&runs[q]));
        proof {
            assert(views(parts@) =~= before.push(segs[q as int]));
            assert(segs.take(q + 1) =~= segs.take(q as int).push(segs[q as int]));
            assert(views(parts@) =~= head + segs.take(q + 1));
        }
        q = q + 1;
    }
    proof {
        assert(segs.take(runs@.len() as int) =~= segs);
    }
    let ghost body = views(parts@);
    if !tail {
        parts.push(Vec::new());
    }
    proof {
        assert(views(parts@) =~= body + (if tail { Seq::<Seq<char>>::empty() } else { seq![Seq::<char>::empty()] }));
    }
    if parts.len() >= 2 {
        Some(parts)
    } else {
        None
    }
}

/// The literal parts shared by every message in `msgs`, anchored on the first: a character of it
/// survives only where every other message aligns a run over it, run boundaries are cuts, and an
/// empty first or last part stands for a residue at that edge. `None` when the first message has
/// no token, any message has more than `MAX_TOKENS`, or fewer than two parts result.
pub fn derive_parts(msgs: &Vec<Vec<char>>) -> (r: Option<Vec<Vec<char>>>)
    requires
        msgs@.len() >= 1,
    ensures
        r matches Some(p) ==> p@.len() >= 2,
        derived(views(msgs@), all_spans_of(views(msgs@))) == match r {
            Some(p) => Some(views(p@)),
            None => None::<Seq<Seq<char>>>,
        },
{
    let ghost mv = views(msgs@);
    let spans = all_spans(msgs);
    let ghost sp = Seq::new(spans@.len(), |k: int| spans@[k]@);
    proof {
        assert forall|k: int| 0 <= k < msgs@.len() implies is_token_spans(msgs@[k]@, #[trigger] sp[k]) by {
            assert(sp[k] == spans@[k]@);
        }
        assert forall|k: int| 0 <= k < msgs@.len() implies #[trigger] sp[k] == all_spans_of(mv)[k] by {
            assert(mv[k] == msgs@[k]@);
            assert(is_token_spans(mv[k], sp[k]));
            lemma_token_spans_unique(mv[k], sp[k], spans_of(mv[k]));
        }
        assert(sp =~= all_spans_of(mv));
    }
    let mut ok = spans[0].len() > 0 && spans[0].len() <= MAX_TOKENS;
    let mut k: usize = 1;
    while k < msgs.len()
        invariant
            1 <= k <= msgs@.len(),
            spans@.len() == msgs@.len(),
            sp == Seq::new(spans@.len(), |q: int| spans@[q]@),
            ok == (0 < sp[0].len() <= MAX_TOKENS && forall|q: int| 1 <= q < k ==> (#[trigger] sp[q]).len() <= MAX_TOKENS),
        decreases msgs@.len() - k,
    {
        proof {
            assert(sp[k as int] == spans@[k as int]@);
        }
        if spans[k].len() > MAX_TOKENS {
            ok = false;
        }
        k = k + 1;
    }
    if !ok {
        proof {
            assert(!within_limits(mv, sp));
            assert(derived(views(msgs@), sp) is None);
        }
        return None;
    }
    let (mask, cut) = mask_and_cuts(msgs, &spans);
    proof {
        assert(mv[0] == msgs@[0]@);
    }
    let runs = segments(&msgs[0], &mask, &cut);
    let r = assemble(msgs, &runs);
    proof {
        assert(derived(views(msgs@), sp) == assembled(mv, views(runs@)));
    }
    r
}

/// The characters of each vector.
pub open spec fn views(v: Seq<Vec<char>>) -> Seq<Seq<char>> {
    v.map_values(|x: Vec<char>| x@)
}

/// The first middle part, at position `i` or later, too short to be worth its own slot on a
/// group of `n`; `-1` when there is none.
pub open spec fn first_dead_from(parts: Seq<Seq<char>>, n: int, i: int) -> int
    decreases parts.len() - i,
{
    if i < 1 || i >= parts.len() - 1 {
        -1
    } else if dead_weight_spec(utf8_len(parts[i]) as int, n) {
        i
    } else {
        first_dead_from(parts, n, i + 1)
    }
}

/// Dropping dead-weight middle parts one at a time, leftmost first, until none is left; `None`
/// when fewer than two parts would remain.
pub open spec fn prune_spec(parts: Seq<Seq<char>>, n: int) -> Option<Seq<Seq<char>>>
    decreases parts.len(),
{
    let d = first_dead_from(parts, n, 1);
    if d < 0 {
        Some(parts)
    } else {
        proof {
            lemma_first_dead_range(parts, n, 1);
        }
        if parts.remove(d).len() < 2 {
            None
        } else {
            prune_spec(parts.remove(d), n)
        }
    }
}

pub proof fn lemma_first_dead_range(parts: Seq<Seq<char>>, n: int, i: int)
    ensures
        first_dead_from(parts, n, i) == -1 || (i <= first_dead_from(parts, n, i) < parts.len() - 1
            && first_dead_from(parts, n, i) >= 1),
    decreases parts.len() - i,
{
    if !(i < 1 || i >= parts.len() - 1) && !dead_weight_spec(utf8_len(parts[i]) as int, n) {
        lemma_first_dead_range(parts, n, i + 1);
    }
}

/// Drops middle parts too short to be worth their own slot, folding them back into the residues
/// around them — a shape heuristic the fold's gate re-prices exactly.
pub fn prune(parts: Vec<Vec<char>>, n: usize) -> (r: Option<Vec<Vec<char>>>)
    requires
        n <= crate::output::MAX_LIMIT,
    ensures
        match r {
            Some(p) => prune_spec(views(parts@), n as int) == Some(
                views(p@),
            ),
            None => prune_spec(views(parts@), n as int) is None,
        },
{
    let ghost orig = views(parts@);
    let mut cp = parts;
    loop
        invariant
            n <= crate::output::MAX_LIMIT,
            orig == views(parts@),
            prune_spec(orig, n as int) == prune_spec(views(cp@), n as int),
        decreases cp@.len(),
    {
        let ghost cur = views(cp@);
        let mut dead: Option<usize> = None;
        let mut i: usize = 1;
        while dead.is_none() && cp.len() > 1 && i < cp.len() - 1
            invariant
                n <= crate::output::MAX_LIMIT,
                cur == views(cp@),
                1 <= i,
                match dead {
                    Some(d) => first_dead_from(cur, n as int, 1) == d as int,
                    None => first_dead_from(cur, n as int, 1) == first_dead_from(cur, n as int, i as int),
                },
            decreases cp@.len() - i, (if dead is None { 1int } else { 0int }),
        {
            let w = chars_byte_len(&cp[i]);
            proof {
                assert(cur[i as int] == cp@[i as int]@);
            }
            if template_part_is_dead_weight(w as i128, n as i128) {
                dead = Some(i);
            } else {
                i = i + 1;
            }
        }
        proof {
            lemma_first_dead_range(cur, n as int, 1);
        }
        match dead {
            Some(d) => {
                assert(first_dead_from(cur, n as int, 1) == d);
                cp.remove(d);
                proof {
                    assert(views(cp@) =~= cur.remove(d as int));
                }
                if cp.len() < 2 {
                    return None;
                }
            },
            None => {
                assert(first_dead_from(cur, n as int, i as int) == -1);
                assert(first_dead_from(cur, n as int, 1) == -1);
                assert(prune_spec(cur, n as int) == Some(cur));
                return Some(cp);
            },
        }
    }
}

} // verus!
