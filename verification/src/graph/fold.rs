//! `--fold <n>` — the granularity axis shared by the relation domains (`dep`, `cochange`): a
//! display collapse over paths, applied after `--scope` and before `--top`, that keeps the first
//! `n` path segments of every node and discloses what the collapse cost.
use vstd::prelude::*;

use crate::text::{chars_of, dec, is_prefix, push_char, push_str, push_usize};

verus! {

broadcast use vstd::seq_lib::group_seq_properties;

/// How many times `c` occurs in `s`.
pub open spec fn count_char(s: Seq<char>, c: char) -> nat
    decreases s.len(),
{
    if s.len() == 0 {
        0
    } else {
        count_char(s.drop_last(), c) + if s.last() == c {
            1nat
        } else {
            0nat
        }
    }
}

/// `p` is the position of the `depth`-th `/` of `s` (counting from one).
pub open spec fn is_cut(s: Seq<char>, depth: nat, p: int) -> bool {
    0 <= p < s.len() && s[p] == '/' && count_char(s.take(p), '/') + 1 == depth
}

/// The path `s` is drawn as at `depth` segments: everything before its `depth`-th separator, or
/// the whole path when it has fewer separators than that (it stands for itself).
pub open spec fn fold_path(depth: Option<usize>, s: Seq<char>) -> Seq<char> {
    match depth {
        Some(d) => if d > 0 && count_char(s, '/') >= d {
            s.take(choose|p: int| is_cut(s, d as nat, p))
        } else {
            s
        },
        None => s,
    }
}

proof fn lemma_cut_exists(s: Seq<char>, d: nat, k: int)
    requires
        d > 0,
        0 <= k <= s.len(),
        count_char(s.take(k), '/') < d,
        count_char(s, '/') >= d,
    ensures
        exists|p: int| is_cut(s, d, p),
    decreases s.len() - k,
{
    assert(s.take(s.len() as int) =~= s);
    if k == s.len() {
        assert(false);
    } else {
        lemma_count_take_step(s, '/', k);
        if s[k] == '/' && count_char(s.take(k), '/') + 1 == d {
            assert(is_cut(s, d, k));
        } else {
            lemma_cut_exists(s, d, k + 1);
        }
    }
}

/// A fold keeps a path's leading segments: the folded path is a prefix of the path, and folding
/// it again changes nothing.
pub proof fn law_fold_keeps_leading_segments(depth: Option<usize>, s: Seq<char>)
    ensures
        is_prefix(fold_path(depth, s), s),
        fold_path(depth, fold_path(depth, s)) == fold_path(depth, s),
{
    match depth {
        Some(d) => {
            if d > 0 && count_char(s, '/') >= d {
                assert(s.take(0) =~= Seq::<char>::empty());
                lemma_cut_exists(s, d as nat, 0);
                let p = choose|p: int| is_cut(s, d as nat, p);
                let f = s.take(p);
                assert(s.subrange(0, f.len() as int) == f);
                assert(count_char(f, '/') < d);
            }
        },
        None => {},
    }
}

/// Whether `s` is a single file shallower than the fold: it has fewer separators than the depth.
pub open spec fn unfoldable_path(depth: Option<usize>, s: Seq<char>) -> bool {
    match depth {
        Some(d) => count_char(s, '/') < d,
        None => false,
    }
}

proof fn lemma_count_take_step(s: Seq<char>, c: char, i: int)
    requires
        0 <= i < s.len(),
    ensures
        count_char(s.take(i + 1), c) == count_char(s.take(i), c) + if s[i] == c {
            1nat
        } else {
            0nat
        },
{
    assert(s.take(i + 1).drop_last() =~= s.take(i));
}

proof fn lemma_count_take_monotone(s: Seq<char>, c: char, i: int, j: int)
    requires
        0 <= i <= j <= s.len(),
    ensures
        count_char(s.take(i), c) <= count_char(s.take(j), c),
    decreases j - i,
{
    if i < j {
        lemma_count_take_monotone(s, c, i, j - 1);
        lemma_count_take_step(s, c, j - 1);
    }
}

proof fn lemma_cut_unique(s: Seq<char>, depth: nat, p: int, q: int)
    requires
        is_cut(s, depth, p),
        is_cut(s, depth, q),
    ensures
        p == q,
{
    if p < q {
        lemma_count_take_step(s, '/', p);
        lemma_count_take_monotone(s, '/', p + 1, q);
    } else if q < p {
        lemma_count_take_step(s, '/', q);
        lemma_count_take_monotone(s, '/', q + 1, p);
    }
}

/// The `--fold` setting. `None` is the file-level picture — the absence of the flag.
#[derive(Clone, Copy)]
pub struct Fold(pub Option<usize>);

impl Fold {
    /// A fold names at least one leading segment: a depth of zero never stands as a fold.
    pub open spec fn valid(self) -> bool {
        self.0 matches Some(d) ==> d > 0
    }

    /// `None` (and a depth of zero, which would name one box for the whole tree) is the unfolded
    /// picture.
    pub fn of(depth: Option<usize>) -> (r: Fold)
        ensures
            r.valid(),
            r.0 == match depth {
                Some(d) => if d > 0 {
                    Some(d)
                } else {
                    None
                },
                None => None,
            },
    {
        match depth {
            Some(d) => if d > 0 {
                Fold(Some(d))
            } else {
                Fold(None)
            },
            None => Fold(None),
        }
    }

    /// Whether a fold is active.
    pub fn is_on(self) -> (r: bool)
        ensures
            r == (self.0 is Some),
    {
        self.0.is_some()
    }

    /// The depth, if folding.
    pub fn depth(self) -> (r: Option<usize>)
        ensures
            r == self.0,
    {
        self.0
    }

    /// The path this node is drawn as.
    pub fn rel(self, rel: &str) -> (r: String)
        ensures
            r@ == fold_path(self.0, rel@),
    {
        let chars = chars_of(rel);
        let depth = match self.0 {
            Some(d) => d,
            None => {
                return crate::text::owned(rel);
            },
        };
        let mut out = String::new();
        let mut seen: usize = 0;
        let mut i: usize = 0;
        while i < chars.len()
            invariant
                chars@ == rel@,
                i <= chars@.len(),
                self.0 == Some(depth),
                seen == count_char(chars@.take(i as int), '/'),
                depth == 0 || seen < depth,
                seen <= i,
                out@ == chars@.take(i as int),
            decreases chars@.len() - i,
        {
            let ch = chars[i];
            proof {
                lemma_count_take_step(chars@, '/', i as int);
            }
            if ch == '/' {
                seen = seen + 1;
                if seen == depth {
                    proof {
                        assert(is_cut(rel@, depth as nat, i as int));
                        lemma_count_take_monotone(chars@, '/', i as int + 1, chars@.len() as int);
                        assert(chars@.take(chars@.len() as int) =~= chars@);
                        let p = choose|p: int| is_cut(rel@, depth as nat, p);
                        lemma_cut_unique(rel@, depth as nat, p, i as int);
                    }
                    return out;
                }
            }
            push_char(&mut out, ch);
            proof {
                assert(out@ =~= chars@.take(i as int + 1));
            }
            i = i + 1;
        }
        proof {
            assert(chars@.take(i as int) =~= chars@);
        }
        out
    }

    /// True when `rel` has fewer segments than the fold depth, so it stands for itself.
    pub fn is_unfoldable(self, rel: &str) -> (r: bool)
        ensures
            r == unfoldable_path(self.0, rel@),
    {
        match self.0 {
            None => false,
            Some(depth) => {
                let n = count_slashes(rel);
                n < depth
            },
        }
    }
}

/// The number of `/` in `s`.
pub fn count_slashes(s: &str) -> (r: usize)
    ensures
        r == count_char(s@, '/'),
{
    let chars = chars_of(s);
    let mut n: usize = 0;
    let mut i: usize = 0;
    while i < chars.len()
        invariant
            chars@ == s@,
            i <= chars@.len(),
            n == count_char(chars@.take(i as int), '/'),
            n <= i,
        decreases chars@.len() - i,
    {
        proof {
            lemma_count_take_step(chars@, '/', i as int);
        }
        if chars[i] == '/' {
            n = n + 1;
        }
        i = i + 1;
    }
    proof {
        assert(chars@.take(i as int) =~= chars@);
    }
    n
}

/// The `%%` census lines every folded picture carries; empty when the fold is off.
pub open spec fn census_text(
    fold: Fold,
    files: nat,
    boxes: nat,
    unfoldable: nat,
    file_edges: nat,
    box_edges: nat,
) -> Seq<char> {
    match fold.0 {
        None => Seq::empty(),
        Some(depth) => "%% FOLDED to --fold "@ + dec(depth as nat) + " path segment(s): "@ + dec(
            files,
        ) + " file(s) drawn as "@ + dec(boxes) + " box(es), "@ + dec(file_edges)
            + " file-level edge(s) as "@ + dec(box_edges)
            + ". Each edge label is the NUMBER OF FILE-LEVEL EDGES it collapsed — nothing else.\n"@
            + "%% A fold is a display collapse over PATHS, so the depth is a convention rather than a fact about this tree: a tree that keeps everything under one top directory collapses to one box at the same depth. Compare the two counts above before reading the shape.\n"@
            + if unfoldable > 0 {
            "%% "@ + dec(unfoldable) + " of those box(es) are a SINGLE FILE with fewer than "@ + dec(
                depth as nat,
            )
                + " path segment(s) — nothing coarser exists to name them, so they stand beside boxes that stand for many.\n"@
        } else {
            Seq::empty()
        },
    }
}

/// The `%%` census lines every folded picture carries, in one place so `dep` and `cochange` cannot
/// describe the same collapse differently. `files`/`boxes` are the node counts either side of the
/// collapse, `file_edges`/`box_edges` the same for edges, all before `--top`.
pub fn census(
    fold: Fold,
    files: usize,
    boxes: usize,
    unfoldable: usize,
    file_edges: usize,
    box_edges: usize,
) -> (r: String)
    requires
        fold.valid(),
    ensures
        r@ == census_text(
            fold,
            files as nat,
            boxes as nat,
            unfoldable as nat,
            file_edges as nat,
            box_edges as nat,
        ),
{
    let depth = match fold.depth() {
        Some(d) => d,
        None => {
            return String::new();
        },
    };
    let mut out = String::new();
    push_str(&mut out, "%% FOLDED to --fold ");
    push_usize(&mut out, depth);
    push_str(&mut out, " path segment(s): ");
    push_usize(&mut out, files);
    push_str(&mut out, " file(s) drawn as ");
    push_usize(&mut out, boxes);
    push_str(&mut out, " box(es), ");
    push_usize(&mut out, file_edges);
    push_str(&mut out, " file-level edge(s) as ");
    push_usize(&mut out, box_edges);
    push_str(
        &mut out,
        ". Each edge label is the NUMBER OF FILE-LEVEL EDGES it collapsed — nothing else.\n",
    );
    push_str(
        &mut out,
        "%% A fold is a display collapse over PATHS, so the depth is a convention rather than a fact about this tree: a tree that keeps everything under one top directory collapses to one box at the same depth. Compare the two counts above before reading the shape.\n",
    );
    let ghost before = out@;
    if unfoldable > 0 {
        push_str(&mut out, "%% ");
        push_usize(&mut out, unfoldable);
        push_str(&mut out, " of those box(es) are a SINGLE FILE with fewer than ");
        push_usize(&mut out, depth);
        push_str(
            &mut out,
            " path segment(s) — nothing coarser exists to name them, so they stand beside boxes that stand for many.\n",
        );
    }
    assert(out@ =~= census_text(
        fold,
        files as nat,
        boxes as nat,
        unfoldable as nat,
        file_edges as nat,
        box_edges as nat,
    ));
    out
}

} // verus!
