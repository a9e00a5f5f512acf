//! The window's ORDER — the five keys that decide which findings a reader meets first: deployment
//! role descending, severity descending, then three diversity keys (site, rule-in-file, rule) that
//! interleave places and rules, with engine order as the final tiebreak. Shaping only: nothing is
//! dropped and no count moves.
use vstd::prelude::*;

use super::filters::FindingFilters;
use super::finding::{
    deployment_role, opt_chars, sev_rank, sev_text, severity_rank, spec_role, text_or_empty, Finding,
};
use crate::sort::{sort_ranked, strictly_sorted, tie_free, Ranked};
use crate::text::chars_eq;

verus! {

broadcast use vstd::seq_lib::group_seq_properties;

/// Does a finding survive the caller's filters?
pub open spec fn passes(f: Finding, min_rank: u8, rule: Option<String>) -> bool {
    sev_rank(f) >= min_rank && match rule {
        Some(r) => f.rule_id matches Some(id) && id@ == r@,
        None => true,
    }
}

/// How many `j < n` satisfy `pred`.
pub open spec fn count_prior(n: int, pred: spec_fn(int) -> bool) -> nat
    decreases n,
{
    if n <= 0 {
        0
    } else {
        count_prior(n - 1, pred) + if pred(n - 1) {
            1nat
        } else {
            0nat
        }
    }
}

/// The line a site is keyed on (`-1` for a finding with a file and no line).
pub open spec fn line_key(f: Finding) -> i64 {
    match f.line {
        Some(l) => l,
        None => -1i64,
    }
}

/// `j` is an earlier member of `i`'s band: it passed the filters and shares `i`'s role and rank.
pub open spec fn same_band(
    fs: Seq<Finding>,
    bsp: Seq<String>,
    min_rank: u8,
    rule: Option<String>,
    i: int,
    j: int,
) -> bool {
    passes(fs[j], min_rank, rule) && spec_role(fs[j], bsp) == spec_role(fs[i], bsp) && sev_rank(fs[j])
        == sev_rank(fs[i])
}

/// The rule round-robin key: same-band findings of the same rule before `i`.
pub open spec fn rule_dup(
    fs: Seq<Finding>,
    bsp: Seq<String>,
    min_rank: u8,
    rule: Option<String>,
    i: int,
) -> nat {
    count_prior(
        i,
        |j: int|
            same_band(fs, bsp, min_rank, rule, i, j) && text_or_empty(fs[j].rule_id) == text_or_empty(
                fs[i].rule_id,
            ),
    )
}

/// The rule-in-file key: same-band findings of the same rule in the same file before `i`.
pub open spec fn rule_file_dup(
    fs: Seq<Finding>,
    bsp: Seq<String>,
    min_rank: u8,
    rule: Option<String>,
    i: int,
) -> nat {
    count_prior(
        i,
        |j: int|
            same_band(fs, bsp, min_rank, rule, i, j) && text_or_empty(fs[j].rule_id) == text_or_empty(
                fs[i].rule_id,
            ) && text_or_empty(fs[j].file) == text_or_empty(fs[i].file),
    )
}

/// The site key: same-band findings, of any rule, at the same file and line before `i`; zero for a
/// finding with no file.
pub open spec fn site_dup(
    fs: Seq<Finding>,
    bsp: Seq<String>,
    min_rank: u8,
    rule: Option<String>,
    i: int,
) -> nat {
    if text_or_empty(fs[i].file).len() == 0 {
        0
    } else {
        count_prior(
            i,
            |j: int|
                same_band(fs, bsp, min_rank, rule, i, j) && text_or_empty(fs[j].file)
                    == text_or_empty(fs[i].file) && line_key(fs[j]) == line_key(fs[i]),
        )
    }
}

/// One finding's position key.
#[derive(PartialEq, Eq, Structural, Clone, Copy)]
pub struct WindowKey {
    pub role: u8,
    pub rank: u8,
    pub site: usize,
    pub rule_file: usize,
    pub rule: usize,
    pub index: usize,
}

/// Role desc, rank desc, site asc, rule-in-file asc, rule asc, engine index asc.
pub open spec fn window_before(a: WindowKey, b: WindowKey) -> bool {
    a.role > b.role || (a.role == b.role && (a.rank > b.rank || (a.rank == b.rank && (a.site
        < b.site || (a.site == b.site && (a.rule_file < b.rule_file || (a.rule_file == b.rule_file
        && (a.rule < b.rule || (a.rule == b.rule && a.index < b.index)))))))))
}

impl Ranked for WindowKey {
    open spec fn before(self, other: Self) -> bool {
        window_before(self, other)
    }

    open spec fn ties(self, other: Self) -> bool {
        self == other
    }

    fn is_before(&self, other: &Self) -> (r: bool) {
        self.role > other.role || (self.role == other.role && (self.rank > other.rank || (self.rank
            == other.rank && (self.site < other.site || (self.site == other.site && (self.rule_file
            < other.rule_file || (self.rule_file == other.rule_file && (self.rule < other.rule || (
        self.rule == other.rule && self.index < other.index)))))))))
    }

    proof fn lemma_order(a: Self, b: Self, c: Self) {
    }
}

/// The key the spec assigns to finding `i`.
pub open spec fn key_of(
    fs: Seq<Finding>,
    bsp: Seq<String>,
    min_rank: u8,
    rule: Option<String>,
    i: int,
) -> WindowKey {
    WindowKey {
        role: spec_role(fs[i], bsp),
        rank: sev_rank(fs[i]),
        site: site_dup(fs, bsp, min_rank, rule, i) as usize,
        rule_file: rule_file_dup(fs, bsp, min_rank, rule, i) as usize,
        rule: rule_dup(fs, bsp, min_rank, rule, i) as usize,
        index: i as usize,
    }
}

/// `r` is the window order of `fs`: exactly the passing findings' indices, strictly increasing in
/// their keys.
pub open spec fn is_window_order(
    fs: Seq<Finding>,
    bsp: Seq<String>,
    min_rank: u8,
    rule: Option<String>,
    r: Seq<usize>,
) -> bool {
    &&& forall|k: int| 0 <= k < r.len() ==> (#[trigger] r[k]) < fs.len() && passes(
        fs[r[k] as int],
        min_rank,
        rule,
    )
    &&& forall|i: int| 0 <= i < fs.len() && passes(fs[i], min_rank, rule) ==> r.contains(i as usize)
    &&& forall|a: int, b: int|
        0 <= a < b < r.len() ==> window_before(
            key_of(fs, bsp, min_rank, rule, r[a] as int),
            key_of(fs, bsp, min_rank, rule, r[b] as int),
        )
}

/// Per-finding facts computed once.
struct Facts {
    pass: Vec<bool>,
    role: Vec<u8>,
    rank: Vec<u8>,
    rule: Vec<Vec<char>>,
    file: Vec<Vec<char>>,
    line: Vec<i64>,
}

pub proof fn lemma_count_prior_step(n: int, p: spec_fn(int) -> bool)
    requires
        n >= 0,
    ensures
        count_prior(n + 1, p) == count_prior(n, p) + if p(n) {
            1nat
        } else {
            0nat
        },
{
}

pub proof fn lemma_count_prior_le(n: int, p: spec_fn(int) -> bool)
    requires
        n >= 0,
    ensures
        count_prior(n, p) <= n,
    decreases n,
{
    if n > 0 {
        lemma_count_prior_le(n - 1, p);
    }
}

/// The filtered findings in window order, as indices into `findings`.
pub fn window_order(
    findings: &Vec<Finding>,
    filters: &FindingFilters,
    min_rank: u8,
    build_script_paths: &Vec<String>,
) -> (r: Vec<usize>)
    ensures
        is_window_order(findings@, build_script_paths@, min_rank, filters.rule, r@),
{
    let ghost fs = findings@;
    let ghost bsp = build_script_paths@;
    let ghost rl = filters.rule;
    let n = findings.len();
    let rule_chars: Option<Vec<char>> = match &filters.rule {
        Some(r) => Some(crate::text::chars_of(r.as_str())),
        None => None,
    };
    // Pass 1 — per-finding facts.
    let mut facts = Facts {
        pass: Vec::new(),
        role: Vec::new(),
        rank: Vec::new(),
        rule: Vec::new(),
        file: Vec::new(),
        line: Vec::new(),
    };
    let mut i: usize = 0;
    while i < n
        invariant
            n == fs.len(),
            fs == findings@,
            bsp == build_script_paths@,
            rl == filters.rule,
            match rl {
                Some(r) => rule_chars matches Some(c) && c@ == r@,
                None => rule_chars is None,
            },
            i <= n,
            facts.pass@.len() == i,
            facts.role@.len() == i,
            facts.rank@.len() == i,
            facts.rule@.len() == i,
            facts.file@.len() == i,
            facts.line@.len() == i,
            forall|k: int|
                0 <= k < i ==> {
                    &&& facts.pass@[k] == passes(#[trigger] fs[k], min_rank, rl)
                    &&& facts.role@[k] == spec_role(fs[k], bsp)
                    &&& facts.rank@[k] == sev_rank(fs[k])
                    &&& facts.rule@[k]@ == text_or_empty(fs[k].rule_id)
                    &&& facts.file@[k]@ == text_or_empty(fs[k].file)
                    &&& facts.line@[k] == line_key(fs[k])
                },
        decreases n - i,
    {
        let f = &findings[i];
        let sev = opt_chars(&f.severity);
        let rank = match &f.severity {
            Some(s) => severity_rank(s.as_str()),
            None => severity_rank(""),
        };
        let rule_id = opt_chars(&f.rule_id);
        let rule_ok = match &rule_chars {
            Some(c) => f.rule_id.is_some() && chars_eq(&rule_id, c),
            None => true,
        };
        let pass = rank >= min_rank && rule_ok;
        proof {
            reveal_strlit("");
            if f.severity is None {
                assert(sev_text(*f) =~= ""@);
            }
        }
        facts.pass.push(pass);
        facts.role.push(deployment_role(f, build_script_paths));
        facts.rank.push(rank);
        facts.rule.push(rule_id);
        facts.file.push(opt_chars(&f.file));
        facts.line.push(
            match f.line {
                Some(l) => l,
                None => -1,
            },
        );
        i = i + 1;
    }
    // Pass 2 — the three diversity keys, counted over the earlier members of each band.
    let mut keys: Vec<WindowKey> = Vec::new();
    let mut i: usize = 0;
    while i < n
        invariant
            n == fs.len(),
            fs == findings@,
            bsp == build_script_paths@,
            rl == filters.rule,
            facts.pass@.len() == n,
            facts.role@.len() == n,
            facts.rank@.len() == n,
            facts.rule@.len() == n,
            facts.file@.len() == n,
            facts.line@.len() == n,
            forall|k: int|
                0 <= k < n ==> {
                    &&& facts.pass@[k] == passes(#[trigger] fs[k], min_rank, rl)
                    &&& facts.role@[k] == spec_role(fs[k], bsp)
                    &&& facts.rank@[k] == sev_rank(fs[k])
                    &&& facts.rule@[k]@ == text_or_empty(fs[k].rule_id)
                    &&& facts.file@[k]@ == text_or_empty(fs[k].file)
                    &&& facts.line@[k] == line_key(fs[k])
                },
            i <= n,
            forall|k: int|
                0 <= k < keys@.len() ==> (#[trigger] keys@[k]) == key_of(
                    fs,
                    bsp,
                    min_rank,
                    rl,
                    keys@[k].index as int,
                ) && keys@[k].index < i && passes(fs[keys@[k].index as int], min_rank, rl),
            forall|m: int|
                0 <= m < i && passes(fs[m], min_rank, rl) ==> exists|k: int|
                    0 <= k < keys@.len() && (#[trigger] keys@[k]).index == m,
            forall|a: int, b: int|
                0 <= a < b < keys@.len() ==> (#[trigger] keys@[a]).index < (#[trigger] keys@[b]).index,
        decreases n - i,
    {
        if facts.pass[i] {
            let mut site: usize = 0;
            let mut rule_file: usize = 0;
            let mut rule: usize = 0;
            let mut j: usize = 0;
            let ghost ii = i as int;
            while j < i
                invariant
                    n == fs.len(),
                    i < n,
                    ii == i,
                    j <= i,
                    facts.pass@.len() == n,
                    facts.role@.len() == n,
                    facts.rank@.len() == n,
                    facts.rule@.len() == n,
                    facts.file@.len() == n,
                    facts.line@.len() == n,
                    forall|k: int|
                        0 <= k < n ==> {
                            &&& facts.pass@[k] == passes(#[trigger] fs[k], min_rank, rl)
                            &&& facts.role@[k] == spec_role(fs[k], bsp)
                            &&& facts.rank@[k] == sev_rank(fs[k])
                            &&& facts.rule@[k]@ == text_or_empty(fs[k].rule_id)
                            &&& facts.file@[k]@ == text_or_empty(fs[k].file)
                            &&& facts.line@[k] == line_key(fs[k])
                        },
                    rule == count_prior(
                        j as int,
                        |m: int|
                            same_band(fs, bsp, min_rank, rl, ii, m) && text_or_empty(fs[m].rule_id)
                                == text_or_empty(fs[ii].rule_id),
                    ),
                    rule_file == count_prior(
                        j as int,
                        |m: int|
                            same_band(fs, bsp, min_rank, rl, ii, m) && text_or_empty(fs[m].rule_id)
                                == text_or_empty(fs[ii].rule_id) && text_or_empty(fs[m].file)
                                == text_or_empty(fs[ii].file),
                    ),
                    site == count_prior(
                        j as int,
                        |m: int|
                            same_band(fs, bsp, min_rank, rl, ii, m) && text_or_empty(fs[m].file)
                                == text_or_empty(fs[ii].file) && line_key(fs[m]) == line_key(fs[ii]),
                    ),
                    rule <= j,
                    rule_file <= j,
                    site <= j,
                decreases i - j,
            {
                let band = facts.pass[j] && facts.role[j] == facts.role[i] && facts.rank[j]
                    == facts.rank[i];
                let same_rule = chars_eq(&facts.rule[j], &facts.rule[i]);
                let same_file = chars_eq(&facts.file[j], &facts.file[i]);
                let same_line = facts.line[j] == facts.line[i];
                proof {
                    lemma_count_prior_step(
                        j as int,
                        |m: int|
                            same_band(fs, bsp, min_rank, rl, ii, m) && text_or_empty(fs[m].rule_id)
                                == text_or_empty(fs[ii].rule_id),
                    );
                    lemma_count_prior_step(
                        j as int,
                        |m: int|
                            same_band(fs, bsp, min_rank, rl, ii, m) && text_or_empty(fs[m].rule_id)
                                == text_or_empty(fs[ii].rule_id) && text_or_empty(fs[m].file)
                                == text_or_empty(fs[ii].file),
                    );
                    lemma_count_prior_step(
                        j as int,
                        |m: int|
                            same_band(fs, bsp, min_rank, rl, ii, m) && text_or_empty(fs[m].file)
                                == text_or_empty(fs[ii].file) && line_key(fs[m]) == line_key(fs[ii]),
                    );
                }
                if band && same_rule {
                    rule = rule + 1;
                    if same_file {
                        rule_file = rule_file + 1;
                    }
                }
                if band && same_file && same_line {
                    site = site + 1;
                }
                j = j + 1;
            }
            let site = if facts.file[i].len() == 0 {
                0
            } else {
                site
            };
            let key = WindowKey {
                role: facts.role[i],
                rank: facts.rank[i],
                site,
                rule_file,
                rule,
                index: i,
            };
            proof {
                assert(key == key_of(fs, bsp, min_rank, rl, i as int));
            }
            let ghost old_keys = keys@;
            keys.push(key);
            proof {
                assert forall|m: int|
                    0 <= m < i + 1 && passes(fs[m], min_rank, rl) implies exists|k: int|
                    0 <= k < keys@.len() && (#[trigger] keys@[k]).index == m by {
                    if m == i {
                        assert(keys@[keys@.len() - 1].index == m);
                    } else {
                        let k0 = choose|k0: int|
                            0 <= k0 < old_keys.len() && (#[trigger] old_keys[k0]).index == m;
                        assert(keys@[k0] == old_keys[k0]);
                    }
                }
            }
        }
        i = i + 1;
    }
    let ghost unsorted = keys@;
    proof {
        assert(tie_free(keys@)) by {
            assert forall|a: int, b: int|
                0 <= a < keys@.len() && 0 <= b < keys@.len() && a != b implies !(
                #[trigger] keys@[a]).ties(#[trigger] keys@[b]) by {
                if a < b {
                    assert(keys@[a].index < keys@[b].index);
                } else {
                    assert(keys@[b].index < keys@[a].index);
                }
            }
        }
    }
    let sorted = sort_ranked(keys);
    let mut out: Vec<usize> = Vec::new();
    let mut k: usize = 0;
    while k < sorted.len()
        invariant
            k <= sorted@.len(),
            out@.len() == k,
            forall|m: int| 0 <= m < k ==> out@[m] == (#[trigger] sorted@[m]).index,
        decreases sorted@.len() - k,
    {
        out.push(sorted[k].index);
        k = k + 1;
    }
    proof {
        broadcast use vstd::seq_lib::group_to_multiset_ensures;

        assert forall|m: int| 0 <= m < sorted@.len() implies (#[trigger] sorted@[m]) == key_of(
            fs,
            bsp,
            min_rank,
            rl,
            sorted@[m].index as int,
        ) && sorted@[m].index < n && passes(fs[sorted@[m].index as int], min_rank, rl) by {
            assert(sorted@.to_multiset().count(sorted@[m]) > 0);
            assert(unsorted.contains(sorted@[m]));
        }
        assert forall|m: int| 0 <= m < out@.len() implies (#[trigger] out@[m]) < fs.len() && passes(
            fs[out@[m] as int],
            min_rank,
            rl,
        ) by {
            assert(out@[m] == sorted@[m].index);
        }
        assert forall|m: int| 0 <= m < n && passes(fs[m], min_rank, rl) implies out@.contains(
            m as usize,
        ) by {
            let k0 = choose|k0: int| 0 <= k0 < unsorted.len() && (#[trigger] unsorted[k0]).index == m;
            assert(unsorted.to_multiset().count(unsorted[k0]) > 0);
            assert(sorted@.contains(unsorted[k0]));
            let p = choose|p: int| 0 <= p < sorted@.len() && sorted@[p] == unsorted[k0];
            assert(out@[p] == m);
        }
        assert forall|a: int, b: int| 0 <= a < b < out@.len() implies window_before(
            key_of(fs, bsp, min_rank, rl, out@[a] as int),
            key_of(fs, bsp, min_rank, rl, out@[b] as int),
        ) by {
            assert(sorted@[a].before(sorted@[b]));
        }
    }
    out
}


/// `r` is strictly increasing in the findings' window keys.
pub open spec fn keyed_ascending(fs: Seq<Finding>, bsp: Seq<String>, min_rank: u8, rule: Option<String>, r: Seq<usize>) -> bool {
    forall|a: int, b: int|
        0 <= a < b < r.len() ==> window_before(
            key_of(fs, bsp, min_rank, rule, #[trigger] r[a] as int),
            key_of(fs, bsp, min_rank, rule, #[trigger] r[b] as int),
        )
}

proof fn lemma_ascending_same_members(
    fs: Seq<Finding>,
    bsp: Seq<String>,
    min_rank: u8,
    rule: Option<String>,
    a: Seq<usize>,
    b: Seq<usize>,
)
    requires
        keyed_ascending(fs, bsp, min_rank, rule, a),
        keyed_ascending(fs, bsp, min_rank, rule, b),
        forall|x: usize| a.contains(x) <==> b.contains(x),
    ensures
        a == b,
    decreases a.len(),
{
    if a.len() == 0 {
        if b.len() > 0 {
            assert(b.contains(b[0]));
        }
        assert(a =~= b);
    } else {
        assert(a.contains(a[0]));
        assert(b.contains(a[0]));
        let j = choose|j: int| 0 <= j < b.len() && b[j] == a[0];
        assert(a.contains(b[0]));
        let i = choose|i: int| 0 <= i < a.len() && a[i] == b[0];
        if i > 0 && j > 0 {
            assert(window_before(key_of(fs, bsp, min_rank, rule, a[0] as int), key_of(fs, bsp, min_rank, rule, a[i] as int)));
            assert(window_before(key_of(fs, bsp, min_rank, rule, b[0] as int), key_of(fs, bsp, min_rank, rule, b[j] as int)));
        }
        assert(a[0] == b[0]);
        let a1 = a.drop_first();
        let b1 = b.drop_first();
        assert forall|z: usize| a1.contains(z) <==> b1.contains(z) by {
            if a1.contains(z) {
                let k = choose|k: int| 0 <= k < a1.len() && a1[k] == z;
                assert(a[k + 1] == z);
                assert(window_before(key_of(fs, bsp, min_rank, rule, a[0] as int), key_of(fs, bsp, min_rank, rule, a[k + 1] as int)));
                assert(a.contains(z));
                let m = choose|m: int| 0 <= m < b.len() && b[m] == z;
                assert(m != 0);
                assert(b1[m - 1] == z);
            }
            if b1.contains(z) {
                let k = choose|k: int| 0 <= k < b1.len() && b1[k] == z;
                assert(b[k + 1] == z);
                assert(window_before(key_of(fs, bsp, min_rank, rule, b[0] as int), key_of(fs, bsp, min_rank, rule, b[k + 1] as int)));
                assert(b.contains(z));
                let m = choose|m: int| 0 <= m < a.len() && a[m] == z;
                assert(m != 0);
                assert(a1[m - 1] == z);
            }
        }
        assert(keyed_ascending(fs, bsp, min_rank, rule, a1)) by {
            assert forall|x: int, y: int| 0 <= x < y < a1.len() implies window_before(
                key_of(fs, bsp, min_rank, rule, #[trigger] a1[x] as int),
                key_of(fs, bsp, min_rank, rule, #[trigger] a1[y] as int),
            ) by {
                assert(a1[x] == a[x + 1] && a1[y] == a[y + 1]);
            }
        }
        assert(keyed_ascending(fs, bsp, min_rank, rule, b1)) by {
            assert forall|x: int, y: int| 0 <= x < y < b1.len() implies window_before(
                key_of(fs, bsp, min_rank, rule, #[trigger] b1[x] as int),
                key_of(fs, bsp, min_rank, rule, #[trigger] b1[y] as int),
            ) by {
                assert(b1[x] == b[x + 1] && b1[y] == b[y + 1]);
            }
        }
        lemma_ascending_same_members(fs, bsp, min_rank, rule, a1, b1);
        assert(a =~= b) by {
            assert forall|k: int| 0 <= k < a.len() implies a[k] == b[k] by {
                if k > 0 {
                    assert(a[k] == a1[k - 1]);
                    assert(b[k] == b1[k - 1]);
                }
            }
        }
    }
}

/// The window order is unique: the findings, the build-surface paths and the filters fix it.
pub proof fn law_window_order_is_unique(
    fs: Seq<Finding>,
    bsp: Seq<String>,
    min_rank: u8,
    rule: Option<String>,
    a: Seq<usize>,
    b: Seq<usize>,
)
    requires
        is_window_order(fs, bsp, min_rank, rule, a),
        is_window_order(fs, bsp, min_rank, rule, b),
    ensures
        a == b,
{
    assert forall|x: usize| a.contains(x) <==> b.contains(x) by {
        if a.contains(x) {
            let k = choose|k: int| 0 <= k < a.len() && a[k] == x;
            assert(passes(fs[a[k] as int], min_rank, rule));
            assert(b.contains((x as int) as usize));
        }
        if b.contains(x) {
            let k = choose|k: int| 0 <= k < b.len() && b[k] == x;
            assert(passes(fs[b[k] as int], min_rank, rule));
            assert(a.contains((x as int) as usize));
        }
    }
    lemma_ascending_same_members(fs, bsp, min_rank, rule, a, b);
}

} // verus!
