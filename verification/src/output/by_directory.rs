//! `findings.byDirectory` — where a run's findings sit, folded to the first segment of each
//! finding's path: a distribution with a name, a count and a share per row, and no verdict.
use vstd::prelude::*;

use super::census::{census, is_census, tally, KeyCount};
use super::finding::Finding;
use super::legends::{by_directory_note, by_directory_note_text};
use crate::sort::{sort_ranked, strictly_sorted, Ranked};
use crate::text::{
    chars_of, dec, digit, find_char, find_char_in, is_prefix, lemma_lex_asym, lemma_lex_irreflexive,
    lemma_lex_total, lemma_lex_trans, lex_lt, order_str, owned, push_char, push_str, push_usize,
    string_of, trim_chars, trimmed, Cmp,
};

verus! {

broadcast use vstd::seq_lib::group_seq_properties;

/// How many rows ride the wire: a shortlist, since concentration shows in the first few rows.
pub const MAX_ROWS: usize = 5;

/// The bucket of a finding whose path names no directory — spelled as nothing a reader could paste
/// into a config as a directory.
pub const ROOT_BUCKET: &'static str = "(root)";

/// `s` without one leading `./`.
pub open spec fn strip_dot_slash(s: Seq<char>) -> Seq<char> {
    if is_prefix("./"@, s) {
        s.skip(2)
    } else {
        s
    }
}

/// The first path segment of `file` with its trailing slash, or `(root)` when there is no
/// non-empty directory segment before a separator.
pub open spec fn bucket_of(file: Seq<char>) -> Seq<char> {
    let rel = strip_dot_slash(file);
    let p = find_char(rel, '/');
    if p > 0 {
        rel.take(p) + "/"@
    } else {
        ROOT_BUCKET@
    }
}

/// The trimmed path of a finding the fold can place: one carrying a non-blank file.
pub open spec fn placed_file(f: Finding) -> Option<Seq<char>> {
    match f.file {
        Some(p) => if trimmed(p@).len() > 0 {
            Some(trimmed(p@))
        } else {
            None
        },
        None => None,
    }
}

/// The bucket of every placeable finding, in order.
pub open spec fn dir_keys(fs: Seq<Finding>) -> Seq<Seq<char>>
    decreases fs.len(),
{
    if fs.len() == 0 {
        Seq::empty()
    } else {
        let rest = dir_keys(fs.drop_last());
        match placed_file(fs.last()) {
            Some(p) => rest.push(bucket_of(p)),
            None => rest,
        }
    }
}

/// One directory and how many findings it holds.
#[derive(Clone)]
pub struct DirCount {
    pub dir: String,
    pub findings: usize,
}

impl Ranked for DirCount {
    /// Count descending, then name ascending.
    open spec fn before(self, other: Self) -> bool {
        self.findings > other.findings || (self.findings == other.findings && lex_lt(
            self.dir@,
            other.dir@,
        ))
    }

    open spec fn ties(self, other: Self) -> bool {
        self.findings == other.findings && self.dir@ == other.dir@
    }

    fn is_before(&self, other: &Self) -> (r: bool) {
        self.findings > other.findings || (self.findings == other.findings && order_str(
            self.dir.as_str(),
            other.dir.as_str(),
        ) == Cmp::Less)
    }

    proof fn lemma_order(a: Self, b: Self, c: Self) {
        lemma_lex_irreflexive(a.dir@);
        lemma_lex_total(a.dir@, b.dir@);
        lemma_lex_asym(a.dir@, b.dir@);
        if lex_lt(a.dir@, b.dir@) && lex_lt(b.dir@, c.dir@) {
            lemma_lex_trans(a.dir@, b.dir@, c.dir@);
        }
    }
}

/// `ranked` holds every directory of `keys` once with its count, largest first, ties by name.
pub open spec fn is_dir_ranking(keys: Seq<Seq<char>>, ranked: Seq<DirCount>) -> bool {
    &&& strictly_sorted(ranked)
    &&& forall|i: int| 0 <= i < ranked.len() ==> (#[trigger] ranked[i]).findings == tally(keys, ranked[i].dir@)
        && ranked[i].findings > 0
    &&& forall|j: int| 0 <= j < keys.len() ==> in_rows(ranked, #[trigger] keys[j])
}

/// `count` against `of` in tenths of a percent, rounded half up; zero against nothing.
pub open spec fn share_tenths(count: nat, of: nat) -> nat {
    if of == 0 {
        0
    } else {
        (2 * count * 1000 + of) / (2 * of)
    }
}

/// A share in tenths of a percent, written with one decimal, or none when the tenth is zero.
pub open spec fn pct_text(tenths: nat) -> Seq<char> {
    dec(tenths / 10) + if tenths % 10 == 0 {
        Seq::empty()
    } else {
        seq!['.', digit(tenths % 10)]
    }
}

/// `k` is the directory of one of `rows`.
pub open spec fn in_rows(rows: Seq<DirCount>, k: Seq<char>) -> bool {
    exists|i: int| 0 <= i < rows.len() && (#[trigger] rows[i]).dir@ == k
}

/// How many of `keys` fall in a directory of `rows` — the findings those rows hold.
pub open spec fn count_in(keys: Seq<Seq<char>>, rows: Seq<DirCount>) -> nat
    decreases keys.len(),
{
    if keys.len() == 0 {
        0
    } else {
        count_in(keys.drop_last(), rows) + if in_rows(rows, keys.last()) {
            1nat
        } else {
            0nat
        }
    }
}

/// What the fold could not place, said beside the basis; empty when everything was placed.
pub open spec fn outside_text(unplaced: nat) -> Seq<char> {
    if unplaced == 0 {
        Seq::empty()
    } else {
        "; "@ + dec(unplaced) + " finding(s) carry no file path and are outside this fold"@
    }
}

/// The `basis` sentence: how many findings were placed, across how many directories, and what
/// share the shown rows hold — or that nothing carried a path.
pub open spec fn basis_text(placed: nat, dirs: nat, shown: nat, covered: nat, unplaced: nat) -> Seq<
    char,
> {
    if placed == 0 {
        "no finding carried a file path this run, so this fold had nothing to place — a MEASURED empty, never an unasked question"@
            + outside_text(unplaced)
    } else {
        dec(placed) + " finding(s) folded to their first path segment across "@ + dec(dirs)
            + " top-level director(ies); the "@ + dec(shown)
            + " row(s) below are the largest by count and hold "@ + pct_text(
            share_tenths(covered, placed),
        ) + "% of them"@ + outside_text(unplaced)
    }
}

/// One published row: the directory, its count, and its share of the placed findings in tenths of
/// a percent.
pub struct DirShare {
    pub dir: String,
    pub findings: usize,
    pub share_tenths: usize,
}

/// `findings.byDirectory`.
pub struct ByDirectory {
    pub directories: Vec<DirShare>,
    pub basis: String,
    pub meaning: String,
}

/// `rows` are the first entries of `ranked`, each with its share of `placed`.
pub open spec fn rows_match(rows: Seq<DirShare>, ranked: Seq<DirCount>, placed: nat) -> bool {
    forall|i: int|
        0 <= i < rows.len() ==> (#[trigger] rows[i]).dir@ == ranked[i].dir@ && rows[i].findings
            == ranked[i].findings && rows[i].share_tenths == share_tenths(
            ranked[i].findings as nat,
            placed,
        )
}

/// The bucket of a trimmed, non-empty path.
fn bucket(file: &Vec<char>) -> (r: String)
    ensures
        r@ == bucket_of(file@),
{
    let start: usize = if file.len() >= 2 && file[0] == '.' && file[1] == '/' {
        2
    } else {
        0
    };
    proof {
        reveal_strlit("./");
        if file@.len() >= 2 {
            if is_prefix("./"@, file@) {
                assert(file@.subrange(0, 2)[0] == file@[0]);
                assert(file@.subrange(0, 2)[1] == file@[1]);
            }
            if file@[0] == '.' && file@[1] == '/' {
                assert(file@.subrange(0, 2) =~= "./"@);
            }
        }
    }
    let mut rel: Vec<char> = Vec::new();
    let mut i: usize = start;
    while i < file.len()
        invariant
            start <= i <= file@.len(),
            rel@ == file@.subrange(start as int, i as int),
        decreases file@.len() - i,
    {
        rel.push(file[i]);
        i = i + 1;
    }
    proof {
        assert(rel@ =~= strip_dot_slash(file@));
    }
    match find_char_in(&rel, '/') {
        Some(p) => {
            if p > 0 {
                let mut head: Vec<char> = Vec::new();
                let mut k: usize = 0;
                while k < p
                    invariant
                        k <= p < rel@.len(),
                        head@ == rel@.take(k as int),
                    decreases p - k,
                {
                    head.push(rel[k]);
                    k = k + 1;
                }
                let mut out = string_of(&head);
                push_char(&mut out, '/');
                proof {
                    reveal_strlit("/");
                    assert(out@ =~= rel@.take(p as int) + "/"@);
                }
                out
            } else {
                owned(ROOT_BUCKET)
            }
        },
        None => owned(ROOT_BUCKET),
    }
}


proof fn lemma_share_bound(c: nat, p: nat)
    requires
        c <= p,
        p > 0,
    ensures
        share_tenths(c, p) <= 1000,
{
    let q = (2 * c * 1000 + p) / (2 * p);
    assert(q * (2 * p) <= 2 * c * 1000 + p) by (nonlinear_arith)
        requires
            p > 0,
            q == (2 * c * 1000 + p) / (2 * p),
    ;
    assert(q <= 1000) by (nonlinear_arith)
        requires
            q * (2 * p) <= 2 * c * 1000 + p,
            c <= p,
            p > 0,
    ;
}

/// `count` against `of` in tenths of a percent.
fn share(count: usize, of: usize) -> (r: usize)
    requires
        count <= of,
    ensures
        r == share_tenths(count as nat, of as nat),
        r <= 1000,
{
    if of == 0 {
        0
    } else {
        proof {
            lemma_share_bound(count as nat, of as nat);
        }
        let num: u128 = 2 * (count as u128) * 1000 + (of as u128);
        let den: u128 = 2 * (of as u128);
        (num / den) as usize
    }
}

/// The block `by_directory` returns for a run whose directory ranking is `ranked`.
pub open spec fn by_directory_is(fs: Seq<Finding>, ranked: Seq<DirCount>, r: Option<ByDirectory>) -> bool {
    let keys = dir_keys(fs);
    let unplaced = (fs.len() - keys.len()) as nat;
    let shown = if ranked.len() < MAX_ROWS {
        ranked.len()
    } else {
        MAX_ROWS as nat
    };
    match r {
        None => ranked.len() < 2 && unplaced == 0,
        Some(b) => {
            &&& !(ranked.len() < 2 && unplaced == 0)
            &&& b.directories@.len() == shown
            &&& rows_match(b.directories@, ranked, keys.len())
            &&& b.basis@ == basis_text(
                keys.len(),
                ranked.len(),
                shown,
                count_in(keys, ranked.take(shown as int)),
                unplaced,
            )
            &&& b.meaning@ == by_directory_note_text()
        },
    }
}

proof fn lemma_dir_keys_len(fs: Seq<Finding>)
    ensures
        dir_keys(fs).len() <= fs.len(),
    decreases fs.len(),
{
    if fs.len() > 0 {
        lemma_dir_keys_len(fs.drop_last());
    }
}

/// Whether `k` is the directory of one of the first `shown` rows.
fn in_shown(ranked: &Vec<DirCount>, shown: usize, k: &str) -> (r: bool)
    requires
        shown <= ranked@.len(),
    ensures
        r == in_rows(ranked@.take(shown as int), k@),
{
    let mut i: usize = 0;
    while i < shown
        invariant
            shown <= ranked@.len(),
            i <= shown,
            forall|m: int| 0 <= m < i ==> (#[trigger] ranked@[m]).dir@ != k@,
        decreases shown - i,
    {
        if crate::text::str_eq(ranked[i].dir.as_str(), k) {
            proof {
                assert(ranked@.take(shown as int)[i as int].dir@ == k@);
            }
            return true;
        }
        i = i + 1;
    }
    proof {
        if in_rows(ranked@.take(shown as int), k@) {
            let m = choose|m: int| 0 <= m < shown && (#[trigger] ranked@.take(shown as int)[m]).dir@ == k@;
            assert(ranked@[m].dir@ == k@);
        }
    }
    false
}

/// Builds `findings.byDirectory` over the FULL finding set: every placeable finding folded to its
/// first path segment, the largest `MAX_ROWS` directories by count (ties by name) with their
/// shares, and the `basis` sentence. `None` when there is no distribution to report and nothing
/// else to disclose: fewer than two directories and every finding placed.
#[verifier::rlimit(40)]
pub fn by_directory(findings: &Vec<Finding>) -> (r: Option<ByDirectory>)
    ensures
        exists|ranked: Seq<DirCount>|
            is_dir_ranking(dir_keys(findings@), ranked) && #[trigger] by_directory_is(
                findings@,
                ranked,
                r,
            ),
{
    let ghost fs = findings@;
    let n = findings.len();
    let mut keys: Vec<String> = Vec::new();
    let mut unplaced: usize = 0;
    let mut i: usize = 0;
    while i < n
        invariant
            n == fs.len(),
            fs == findings@,
            i <= n,
            keys@.map_values(|s: String| s@) == dir_keys(fs.take(i as int)),
            unplaced + keys@.len() == i,
        decreases n - i,
    {
        proof {
            assert(fs.take(i + 1).drop_last() =~= fs.take(i as int));
            assert(fs.take(i + 1).last() == fs[i as int]);
        }
        let f = &findings[i];
        let ghost before = keys@;
        match &f.file {
            Some(p) => {
                let t = trim_chars(&chars_of(p.as_str()));
                if t.len() > 0 {
                    let b = bucket(&t);
                    keys.push(b);
                    proof {
                        assert(keys@.map_values(|s: String| s@) =~= before.map_values(|s: String| s@).push(
                            bucket_of(trimmed(p@)),
                        ));
                    }
                } else {
                    unplaced = unplaced + 1;
                }
            },
            None => {
                unplaced = unplaced + 1;
            },
        }
        i = i + 1;
    }
    let ghost views = keys@.map_values(|s: String| s@);
    proof {
        assert(fs.take(n as int) =~= fs);
        lemma_dir_keys_len(fs);
    }
    let placed = keys.len();
    let counts = census(&keys);
    let mut dcs: Vec<DirCount> = Vec::new();
    let mut k: usize = 0;
    while k < counts.len()
        invariant
            k <= counts@.len(),
            dcs@.len() == k,
            forall|m: int|
                0 <= m < k ==> (#[trigger] dcs@[m]).dir@ == counts@[m].key@ && dcs@[m].findings
                    == counts@[m].count,
        decreases counts@.len() - k,
    {
        dcs.push(DirCount { dir: counts[k].key.clone(), findings: counts[k].count });
        k = k + 1;
    }
    proof {
        assert(is_census(views, counts@));
        assert forall|a: int, b: int|
            0 <= a < dcs@.len() && 0 <= b < dcs@.len() && a != b implies !(#[trigger] dcs@[a]).ties(
            #[trigger] dcs@[b],
        ) by {
            lemma_lex_irreflexive(counts@[a].key@);
            lemma_lex_irreflexive(counts@[b].key@);
            if a < b {
                assert(counts@[a].before(counts@[b]));
            } else {
                assert(counts@[b].before(counts@[a]));
            }
        }
    }
    let ghost unsorted = dcs@;
    let ranked = sort_ranked(dcs);
    proof {
        broadcast use vstd::seq_lib::group_to_multiset_ensures;

        assert forall|m: int| 0 <= m < ranked@.len() implies (#[trigger] ranked@[m]).findings == tally(
            views,
            ranked@[m].dir@,
        ) && ranked@[m].findings > 0 by {
            assert(ranked@.to_multiset().count(ranked@[m]) > 0);
            assert(unsorted.contains(ranked@[m]));
            let q = choose|q: int| 0 <= q < unsorted.len() && unsorted[q] == ranked@[m];
            assert(counts@[q].count == tally(views, counts@[q].key@));
        }
        assert forall|j: int| 0 <= j < views.len() implies in_rows(ranked@, #[trigger] views[j]) by {
            let q = choose|q: int| 0 <= q < counts@.len() && (#[trigger] counts@[q]).key@ == views[j];
            assert(unsorted[q].dir@ == views[j]);
            assert(unsorted.to_multiset().count(unsorted[q]) > 0);
            assert(ranked@.contains(unsorted[q]));
            let m = choose|m: int| 0 <= m < ranked@.len() && ranked@[m] == unsorted[q];
            assert(ranked@[m].dir@ == views[j]);
        }
        assert(strictly_sorted(ranked@));
        assert(is_dir_ranking(views, ranked@));
    }
    if ranked.len() < 2 && unplaced == 0 {
        assert(by_directory_is(fs, ranked@, None));
        return None;
    }
    let shown: usize = if ranked.len() < MAX_ROWS {
        ranked.len()
    } else {
        MAX_ROWS
    };
    let mut rows: Vec<DirShare> = Vec::new();
    let mut k: usize = 0;
    while k < shown
        invariant
            shown <= ranked@.len(),
            placed == views.len(),
            is_dir_ranking(views, ranked@),
            k <= shown,
            rows@.len() == k,
            forall|m: int|
                0 <= m < k ==> (#[trigger] rows@[m]).dir@ == ranked@[m].dir@ && rows@[m].findings
                    == ranked@[m].findings && rows@[m].share_tenths == share_tenths(
                    ranked@[m].findings as nat,
                    placed as nat,
                ),
        decreases shown - k,
    {
        let c = ranked[k].findings;
        proof {
            crate::output::census::lemma_tally_le(views, ranked@[k as int].dir@);
        }
        rows.push(DirShare { dir: ranked[k].dir.clone(), findings: c, share_tenths: share(c, placed) });
        k = k + 1;
    }
    let mut covered: usize = 0;
    let mut j: usize = 0;
    while j < keys.len()
        invariant
            shown <= ranked@.len(),
            views == keys@.map_values(|s: String| s@),
            j <= keys@.len(),
            covered == count_in(views.take(j as int), ranked@.take(shown as int)),
            covered <= j,
        decreases keys@.len() - j,
    {
        proof {
            assert(views.take(j + 1).drop_last() =~= views.take(j as int));
        }
        if in_shown(&ranked, shown, keys[j].as_str()) {
            covered = covered + 1;
        }
        j = j + 1;
    }
    proof {
        assert(views.take(keys@.len() as int) =~= views);
    }
    let mut basis = String::new();
    if placed == 0 {
        push_str(
            &mut basis,
            "no finding carried a file path this run, so this fold had nothing to place — a MEASURED empty, never an unasked question",
        );
    } else {
        push_usize(&mut basis, placed);
        push_str(&mut basis, " finding(s) folded to their first path segment across ");
        push_usize(&mut basis, ranked.len());
        push_str(&mut basis, " top-level director(ies); the ");
        push_usize(&mut basis, shown);
        push_str(&mut basis, " row(s) below are the largest by count and hold ");
        let t = share(covered, placed);
        push_usize(&mut basis, t / 10);
        if t % 10 != 0 {
            push_char(&mut basis, '.');
            push_char(&mut basis, crate::text::digit_char((t % 10) as u64));
        }
        push_str(&mut basis, "% of them");
    }
    if unplaced != 0 {
        push_str(&mut basis, "; ");
        push_usize(&mut basis, unplaced);
        push_str(&mut basis, " finding(s) carry no file path and are outside this fold");
    }
    let out = ByDirectory { directories: rows, basis, meaning: by_directory_note() };
    proof {
        assert(out.basis@ =~= basis_text(
            placed as nat,
            ranked@.len(),
            shown as nat,
            count_in(views, ranked@.take(shown as int)),
            unplaced as nat,
        ));
        assert(by_directory_is(fs, ranked@, Some(out)));
    }
    Some(out)
}

/// The order keys of a ranking: each row's directory and count.
pub open spec fn rank_keys(ranked: Seq<DirCount>) -> Seq<(Seq<char>, usize)> {
    ranked.map_values(|d: DirCount| (d.dir@, d.findings))
}

proof fn lemma_dir_order(x: DirCount, y: DirCount)
    ensures
        !x.before(x),
        !(x.before(y) && y.before(x)),
{
    DirCount::lemma_order(x, y, x);
}

proof fn lemma_rank_keys_of(keys: Seq<Seq<char>>, ranked: Seq<DirCount>, k: (Seq<char>, usize))
    requires
        is_dir_ranking(keys, ranked),
    ensures
        rank_keys(ranked).contains(k) <==> (keys.contains(k.0) && k.1 == tally(keys, k.0)),
{
    if rank_keys(ranked).contains(k) {
        let p = choose|p: int| 0 <= p < rank_keys(ranked).len() && rank_keys(ranked)[p] == k;
        assert(ranked[p].findings == tally(keys, ranked[p].dir@) && ranked[p].findings > 0);
        let m = super::census::lemma_tally_witness(keys, k.0);
    }
    if keys.contains(k.0) && k.1 == tally(keys, k.0) {
        let j = choose|j: int| 0 <= j < keys.len() && keys[j] == k.0;
        assert(in_rows(ranked, keys[j]));
        let p = choose|p: int| 0 <= p < ranked.len() && (#[trigger] ranked[p]).dir@ == keys[j];
        assert(rank_keys(ranked)[p] == k);
    }
}

proof fn lemma_sorted_ranks_unique(a: Seq<DirCount>, b: Seq<DirCount>)
    requires
        strictly_sorted(a),
        strictly_sorted(b),
        forall|k: (Seq<char>, usize)| rank_keys(a).contains(k) <==> rank_keys(b).contains(k),
    ensures
        rank_keys(a) == rank_keys(b),
    decreases a.len(),
{
    if a.len() == 0 {
        if b.len() > 0 {
            assert(rank_keys(b).contains(rank_keys(b)[0]));
        }
        assert(rank_keys(a) =~= rank_keys(b));
    } else {
        let x = rank_keys(a)[0];
        assert(rank_keys(b).contains(x));
        let j = choose|j: int| 0 <= j < rank_keys(b).len() && rank_keys(b)[j] == x;
        let y = rank_keys(b)[0];
        assert(rank_keys(a).contains(y));
        let i = choose|i: int| 0 <= i < rank_keys(a).len() && rank_keys(a)[i] == y;
        if j > 0 && i > 0 {
            assert(b[0].before(b[j]));
            assert(a[0].before(a[i]));
            lemma_dir_order(a[0], b[0]);
        }
        assert(x == y);
        let a1 = a.drop_first();
        let b1 = b.drop_first();
        assert(rank_keys(a1) =~= rank_keys(a).drop_first());
        assert(rank_keys(b1) =~= rank_keys(b).drop_first());
        assert forall|z: (Seq<char>, usize)| rank_keys(a1).contains(z) <==> rank_keys(b1).contains(z) by {
            if rank_keys(a1).contains(z) {
                let k = choose|k: int| 0 <= k < rank_keys(a1).len() && rank_keys(a1)[k] == z;
                assert(rank_keys(a)[k + 1] == z);
                assert(a[0].before(a[k + 1]));
                lemma_dir_order(a[0], a[0]);
                assert(rank_keys(a).contains(z));
                let m = choose|m: int| 0 <= m < rank_keys(b).len() && rank_keys(b)[m] == z;
                assert(m != 0);
                assert(rank_keys(b1)[m - 1] == z);
            }
            if rank_keys(b1).contains(z) {
                let k = choose|k: int| 0 <= k < rank_keys(b1).len() && rank_keys(b1)[k] == z;
                assert(rank_keys(b)[k + 1] == z);
                assert(b[0].before(b[k + 1]));
                lemma_dir_order(b[0], b[0]);
                assert(rank_keys(b).contains(z));
                let m = choose|m: int| 0 <= m < rank_keys(a).len() && rank_keys(a)[m] == z;
                assert(m != 0);
                assert(rank_keys(a1)[m - 1] == z);
            }
        }
        lemma_sorted_ranks_unique(a1, b1);
        assert forall|k: int| 0 <= k < rank_keys(a).len() implies rank_keys(a)[k] == rank_keys(b)[k] by {
            if k > 0 {
                assert(rank_keys(a)[k] == rank_keys(a1)[k - 1]);
                assert(rank_keys(b)[k] == rank_keys(b1)[k - 1]);
            }
        }
        assert(rank_keys(a) =~= rank_keys(b));
    }
}

/// Two directory lists that tally every directory alike are ranked alike, row for row.
pub proof fn law_dir_ranking_follows_tallies(ks: Seq<Seq<char>>, ls: Seq<Seq<char>>, a: Seq<DirCount>, b: Seq<DirCount>)
    requires
        forall|k: Seq<char>| tally(ks, k) == tally(ls, k),
        is_dir_ranking(ks, a),
        is_dir_ranking(ls, b),
    ensures
        rank_keys(a) == rank_keys(b),
{
    assert forall|k: (Seq<char>, usize)| rank_keys(a).contains(k) <==> rank_keys(b).contains(k) by {
        lemma_rank_keys_of(ks, a, k);
        lemma_rank_keys_of(ls, b, k);
        assert(tally(ks, k.0) == tally(ls, k.0));
        if ks.contains(k.0) {
            let j = choose|j: int| 0 <= j < ks.len() && ks[j] == k.0;
            super::census::lemma_tally_remove(ks, j, k.0);
            let m = super::census::lemma_tally_witness(ls, k.0);
        }
        if ls.contains(k.0) {
            let j = choose|j: int| 0 <= j < ls.len() && ls[j] == k.0;
            super::census::lemma_tally_remove(ls, j, k.0);
            let m = super::census::lemma_tally_witness(ks, k.0);
        }
    }
    lemma_sorted_ranks_unique(a, b);
}

} // verus!
