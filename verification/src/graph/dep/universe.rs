//! Everything a run's trees say about the file graph, before any scope or cap: every file once
//! (the last reading of it wins), every import edge once, the files the engine reported in a
//! cycle, how many cycles it reported, and which git windows the history axes cover.
use vstd::prelude::*;

use super::{CycleFinding, DepEntry, DepNode, DepTree, GitAxes, GitRow, LocEntry};
use crate::graph::distinct::{sorted_texts, texts, Text};
use crate::output::finding::text_or_empty;
use crate::output::rule_prose::template::strs;
use crate::sort::{sort_ranked, strictly_sorted, Ranked};
use crate::text::{
    lemma_lex_asym, lemma_lex_irreflexive, lemma_lex_total, lemma_lex_trans, lex_lt, order_str, owned, push_str,
    str_eq, Cmp,
};

verus! {

broadcast use vstd::seq_lib::group_seq_properties;

/// A file's git axes as the contracts read them.
pub type GitV = (u32, u32, u32, Option<Seq<char>>);

/// A file as the contracts read it: (tree, path, lines, git axes).
pub type NodeV = (Seq<char>, Seq<char>, Option<u32>, Option<GitV>);

/// The view of a file's git axes.
pub open spec fn gv(g: GitAxes) -> GitV {
    (g.change_count, g.churn, g.author_count, match g.last_modified {
        Some(s) => Some(s@),
        None => None,
    })
}

/// The view of a file.
pub open spec fn nodev(n: DepNode) -> NodeV {
    (n.source@, n.rel@, n.loc, match n.git {
        Some(g) => Some(gv(g)),
        None => None,
    })
}

/// A tree's source id, empty when it has none.
pub open spec fn src(t: DepTree) -> Seq<char> {
    text_or_empty(t.source_id)
}

/// A file's id: `source::rel` when the run has several trees, else `rel`.
pub open spec fn file_id(multi: bool, s: Seq<char>, rel: Seq<char>) -> Seq<char> {
    if multi {
        s + "::"@ + rel
    } else {
        rel
    }
}

/// A count the engine did not give reads as zero.
pub open spec fn or_zero(n: Option<u64>) -> u64 {
    match n {
        Some(v) => v,
        None => 0,
    }
}

/// The measured lines of `rel` among `entries` (the last entry naming it), truncated to 32 bits.
pub open spec fn loc_of(entries: Seq<LocEntry>, rel: Seq<char>) -> Option<u32>
    decreases entries.len(),
{
    if entries.len() == 0 {
        None
    } else if entries.last().rel@ == rel {
        match entries.last().lines {
            Some(n) => Some(n as u32),
            None => None,
        }
    } else {
        loc_of(entries.drop_last(), rel)
    }
}

/// The git axes of `rel` among `rows` (the last row naming it), each count truncated to 32 bits.
pub open spec fn git_row_of(rows: Seq<GitRow>, rel: Seq<char>) -> Option<GitV>
    decreases rows.len(),
{
    if rows.len() == 0 {
        None
    } else {
        let g = rows.last();
        match g.path {
            Some(p) => if p@ == rel {
                Some(
                    (or_zero(g.change_count) as u32, or_zero(g.churn) as u32, or_zero(g.author_count) as u32, match g.last_modified {
                        Some(s) => Some(s@),
                        None => None,
                    }),
                )
            } else {
                git_row_of(rows.drop_last(), rel)
            },
            None => git_row_of(rows.drop_last(), rel),
        }
    }
}

/// File `rel` of tree `t`: no git axes when git collection did not run for the tree.
pub open spec fn node_of(t: DepTree, rel: Seq<char>) -> NodeV {
    (src(t), rel, loc_of(t.loc@, rel), if t.git_window is Some {
        git_row_of(t.git_rows@, rel)
    } else {
        None
    })
}

/// The files the first `n` targets of entry `e` of tree `t` name, with their readings.
pub open spec fn target_files(multi: bool, t: DepTree, tos: Seq<Option<String>>, n: int) -> Seq<(Seq<char>, NodeV)>
    decreases n,
{
    if n <= 0 {
        Seq::empty()
    } else {
        let r = target_files(multi, t, tos, n - 1);
        match tos[n - 1] {
            Some(to) => r.push((file_id(multi, src(t), to@), node_of(t, to@))),
            None => r,
        }
    }
}

/// The import edges of the first `n` targets of an entry from `from`.
pub open spec fn target_edges(multi: bool, t: DepTree, from: Seq<char>, tos: Seq<Option<String>>, n: int) -> Seq<(Seq<char>, Seq<char>)>
    decreases n,
{
    if n <= 0 {
        Seq::empty()
    } else {
        let r = target_edges(multi, t, from, tos, n - 1);
        match tos[n - 1] {
            Some(to) => r.push((file_id(multi, src(t), from), file_id(multi, src(t), to@))),
            None => r,
        }
    }
}

/// The file readings of the first `n` entries of tree `t`, in order: each entry's file, then
/// its targets.
pub open spec fn tree_files(multi: bool, t: DepTree, n: int) -> Seq<(Seq<char>, NodeV)>
    decreases n,
{
    if n <= 0 {
        Seq::empty()
    } else {
        let e = t.dep@[n - 1];
        tree_files(multi, t, n - 1).push((file_id(multi, src(t), e.from@), node_of(t, e.from@))) + target_files(
            multi,
            t,
            e.to@,
            e.to@.len() as int,
        )
    }
}

/// The import edges of the first `n` entries of tree `t`.
pub open spec fn tree_edges(multi: bool, t: DepTree, n: int) -> Seq<(Seq<char>, Seq<char>)>
    decreases n,
{
    if n <= 0 {
        Seq::empty()
    } else {
        let e = t.dep@[n - 1];
        tree_edges(multi, t, n - 1) + target_edges(multi, t, e.from@, e.to@, e.to@.len() as int)
    }
}

/// The finding is a `circular` one.
pub open spec fn is_circular(f: CycleFinding) -> bool {
    match f.rule_id {
        Some(r) => r@ == "circular"@,
        None => false,
    }
}

/// The cycle files a finding names: its file and its members, when it is a `circular` one.
pub open spec fn finding_files(multi: bool, t: DepTree, f: CycleFinding) -> Seq<Seq<char>> {
    if is_circular(f) {
        (match f.file {
            Some(x) => seq![file_id(multi, src(t), x@)],
            None => Seq::empty(),
        }) + member_files(multi, t, f.members@, f.members@.len() as int)
    } else {
        Seq::empty()
    }
}

/// The files the first `n` members name.
pub open spec fn member_files(multi: bool, t: DepTree, ms: Seq<Option<String>>, n: int) -> Seq<Seq<char>>
    decreases n,
{
    if n <= 0 {
        Seq::empty()
    } else {
        let r = member_files(multi, t, ms, n - 1);
        match ms[n - 1] {
            Some(m) => r.push(file_id(multi, src(t), m@)),
            None => r,
        }
    }
}

/// The cycle files of the first `n` findings of tree `t`.
pub open spec fn tree_cycle_files(multi: bool, t: DepTree, n: int) -> Seq<Seq<char>>
    decreases n,
{
    if n <= 0 {
        Seq::empty()
    } else {
        tree_cycle_files(multi, t, n - 1) + finding_files(multi, t, t.findings@[n - 1])
    }
}

/// How many of the first `n` findings of tree `t` are `circular`.
pub open spec fn tree_cycles(t: DepTree, n: int) -> nat
    decreases n,
{
    if n <= 0 {
        0
    } else {
        tree_cycles(t, n - 1) + if is_circular(t.findings@[n - 1]) {
            1nat
        } else {
            0nat
        }
    }
}

/// Every file reading of the first `k` trees, in order.
pub open spec fn all_files(trees: Seq<DepTree>, k: int) -> Seq<(Seq<char>, NodeV)>
    decreases k,
{
    if k <= 0 {
        Seq::empty()
    } else {
        let t = trees[k - 1];
        all_files(trees, k - 1) + tree_files(trees.len() > 1, t, t.dep@.len() as int)
    }
}

/// Every import edge of the first `k` trees, in order.
pub open spec fn all_edges(trees: Seq<DepTree>, k: int) -> Seq<(Seq<char>, Seq<char>)>
    decreases k,
{
    if k <= 0 {
        Seq::empty()
    } else {
        let t = trees[k - 1];
        all_edges(trees, k - 1) + tree_edges(trees.len() > 1, t, t.dep@.len() as int)
    }
}

/// Every cycle file of the first `k` trees, in order.
pub open spec fn all_cycle_files(trees: Seq<DepTree>, k: int) -> Seq<Seq<char>>
    decreases k,
{
    if k <= 0 {
        Seq::empty()
    } else {
        let t = trees[k - 1];
        all_cycle_files(trees, k - 1) + tree_cycle_files(trees.len() > 1, t, t.findings@.len() as int)
    }
}

/// How many `circular` findings the first `k` trees carry.
pub open spec fn all_cycles(trees: Seq<DepTree>, k: int) -> nat
    decreases k,
{
    if k <= 0 {
        0
    } else {
        all_cycles(trees, k - 1) + tree_cycles(trees[k - 1], trees[k - 1].findings@.len() as int)
    }
}

/// The git windows of the first `k` trees that collected git, in order.
pub open spec fn all_windows(trees: Seq<DepTree>, k: int) -> Seq<Option<Seq<char>>>
    decreases k,
{
    if k <= 0 {
        Seq::empty()
    } else {
        let r = all_windows(trees, k - 1);
        match trees[k - 1].git_window {
            Some(w) => r.push(
                match w {
                    Some(s) => Some(s@),
                    None => None,
                },
            ),
            None => r,
        }
    }
}

/// The reading of file `id` that counts: the last one among `fs`.
pub open spec fn last_reading(fs: Seq<(Seq<char>, NodeV)>, id: Seq<char>) -> NodeV
    decreases fs.len(),
{
    if fs.len() == 0 {
        arbitrary()
    } else if fs.last().0 == id {
        fs.last().1
    } else {
        last_reading(fs.drop_last(), id)
    }
}

/// A file of the graph under its id.
pub struct Keyed {
    pub id: String,
    pub node: DepNode,
}

impl Ranked for Keyed {
    open spec fn before(self, other: Self) -> bool {
        lex_lt(self.id@, other.id@)
    }

    open spec fn ties(self, other: Self) -> bool {
        self.id@ == other.id@
    }

    fn is_before(&self, other: &Self) -> (r: bool) {
        order_str(self.id.as_str(), other.id.as_str()) == Cmp::Less
    }

    proof fn lemma_order(a: Self, b: Self, c: Self) {
        lemma_lex_irreflexive(a.id@);
        lemma_lex_total(a.id@, b.id@);
        if lex_lt(a.id@, b.id@) && lex_lt(b.id@, c.id@) {
            lemma_lex_trans(a.id@, b.id@, c.id@);
        }
    }
}

/// Some reading of `fs` is of file `id`.
pub open spec fn read_in(fs: Seq<(Seq<char>, NodeV)>, id: Seq<char>) -> bool {
    exists|j: int| 0 <= j < fs.len() && (#[trigger] fs[j]).0 == id
}

/// Some file of `m` has id `id`.
pub open spec fn keyed_in(m: Seq<Keyed>, id: Seq<char>) -> bool {
    exists|i: int| 0 <= i < m.len() && (#[trigger] m[i]).id@ == id
}

/// `m` holds each file read in `fs` once, with its last reading.
pub open spec fn files_of(fs: Seq<(Seq<char>, NodeV)>, m: Seq<Keyed>) -> bool {
    &&& forall|a: int, b: int| 0 <= a < m.len() && 0 <= b < m.len() && a != b ==> (#[trigger] m[a]).id@ != (#[trigger] m[b]).id@
    &&& forall|i: int| 0 <= i < m.len() ==> read_in(fs, (#[trigger] m[i]).id@) && nodev(m[i].node) == last_reading(fs, m[i].id@)
    &&& forall|j: int| 0 <= j < fs.len() ==> keyed_in(m, (#[trigger] fs[j]).0)
}

fn or_zero_exec(n: Option<u64>) -> (r: u64)
    ensures
        r == or_zero(n),
{
    match n {
        Some(v) => v,
        None => 0,
    }
}

fn loc_exec(entries: &Vec<LocEntry>, rel: &str) -> (r: Option<u32>)
    ensures
        r == loc_of(entries@, rel@),
{
    let mut r: Option<u32> = None;
    let mut i: usize = 0;
    while i < entries.len()
        invariant
            i <= entries@.len(),
            r == loc_of(entries@.take(i as int), rel@),
        decreases entries@.len() - i,
    {
        proof {
            assert(entries@.take(i + 1).drop_last() =~= entries@.take(i as int));
        }
        let e = &entries[i];
        if str_eq(e.rel.as_str(), rel) {
            r = match e.lines {
                Some(n) => Some(n as u32),
                None => None,
            };
        }
        i = i + 1;
    }
    proof {
        assert(entries@.take(entries@.len() as int) =~= entries@);
    }
    r
}

/// The view of optional git axes.
pub open spec fn ogv(g: Option<GitAxes>) -> Option<GitV> {
    match g {
        Some(x) => Some(gv(x)),
        None => None,
    }
}

fn git_exec(rows: &Vec<GitRow>, rel: &str) -> (r: Option<GitAxes>)
    ensures
        ogv(r) == git_row_of(rows@, rel@),
{
    let mut r: Option<GitAxes> = None;
    let mut i: usize = 0;
    while i < rows.len()
        invariant
            i <= rows@.len(),
            ogv(r) == git_row_of(rows@.take(i as int), rel@),
        decreases rows@.len() - i,
    {
        proof {
            assert(rows@.take(i + 1).drop_last() =~= rows@.take(i as int));
        }
        let g = &rows[i];
        match &g.path {
            Some(p) => if str_eq(p.as_str(), rel) {
                r = Some(
                    GitAxes {
                        change_count: or_zero_exec(g.change_count) as u32,
                        churn: or_zero_exec(g.churn) as u32,
                        author_count: or_zero_exec(g.author_count) as u32,
                        last_modified: match &g.last_modified {
                            Some(s) => Some(owned(s.as_str())),
                            None => None,
                        },
                    },
                );
            },
            None => {},
        }
        i = i + 1;
    }
    proof {
        assert(rows@.take(rows@.len() as int) =~= rows@);
    }
    r
}

/// File `rel` of tree `t`, with the axes the run measured for it.
fn node_exec(t: &DepTree, source: &str, rel: &str) -> (r: DepNode)
    requires
        source@ == src(*t),
    ensures
        nodev(r) == node_of(*t, rel@),
{
    let git = if t.git_window.is_some() {
        git_exec(&t.git_rows, rel)
    } else {
        None
    };
    DepNode { source: owned(source), rel: owned(rel), loc: loc_exec(&t.loc, rel), git }
}

fn id_exec(multi: bool, source: &str, rel: &str) -> (r: String)
    ensures
        r@ == file_id(multi, source@, rel@),
{
    if multi {
        let mut s = owned(source);
        push_str(&mut s, "::");
        push_str(&mut s, rel);
        s
    } else {
        owned(rel)
    }
}

proof fn lemma_last_other(fs: Seq<(Seq<char>, NodeV)>, x: (Seq<char>, NodeV), id: Seq<char>)
    requires
        x.0 != id,
    ensures
        last_reading(fs.push(x), id) == last_reading(fs, id),
{
    assert(fs.push(x).drop_last() =~= fs);
}

proof fn lemma_read_push(fs: Seq<(Seq<char>, NodeV)>, x: (Seq<char>, NodeV), id: Seq<char>)
    requires
        read_in(fs, id),
    ensures
        read_in(fs.push(x), id),
{
    let j = choose|j: int| 0 <= j < fs.len() && (#[trigger] fs[j]).0 == id;
    assert(fs.push(x)[j] == fs[j]);
}

fn find_keyed(m: &Vec<Keyed>, id: &str) -> (r: Option<usize>)
    ensures
        match r {
            Some(i) => i < m@.len() && m@[i as int].id@ == id@,
            None => forall|t: int| 0 <= t < m@.len() ==> (#[trigger] m@[t]).id@ != id@,
        },
{
    let mut i: usize = 0;
    while i < m.len()
        invariant
            i <= m@.len(),
            forall|t: int| 0 <= t < i ==> (#[trigger] m@[t]).id@ != id@,
        decreases m@.len() - i,
    {
        if str_eq(m[i].id.as_str(), id) {
            return Some(i);
        }
        i = i + 1;
    }
    None
}

/// Records one file reading: a later reading of a file replaces the earlier one.
fn add_file(m: &mut Vec<Keyed>, id: String, node: DepNode, Ghost(fs): Ghost<Seq<(Seq<char>, NodeV)>>)
    requires
        files_of(fs, old(m)@),
    ensures
        files_of(fs.push((id@, nodev(node))), final(m)@),
{
    let ghost x = (id@, nodev(node));
    let ghost f2 = fs.push(x);
    let ghost m0 = m@;
    proof {
        assert(f2[fs.len() as int] == x);
        assert(f2.drop_last() =~= fs);
        assert(last_reading(f2, id@) == nodev(node));
    }
    let found = find_keyed(m, id.as_str());
    if let Some(i) = found {
        {
            let k = Keyed { id, node };
            m.set(i, k);
            proof {
                let m1 = m@;
                assert forall|t: int| 0 <= t < m1.len() implies read_in(f2, (#[trigger] m1[t]).id@) && nodev(m1[t].node) == last_reading(f2, m1[t].id@) by {
                    if t == i {
                        assert(f2[fs.len() as int].0 == m1[t].id@);
                    } else {
                        assert(m1[t] == m0[t]);
                        assert(m0[t].id@ != m0[i as int].id@);
                        lemma_last_other(fs, x, m0[t].id@);
                        lemma_read_push(fs, x, m0[t].id@);
                    }
                }
                assert forall|j: int| 0 <= j < f2.len() implies keyed_in(m1, (#[trigger] f2[j]).0) by {
                    if j < fs.len() {
                        assert(f2[j] == fs[j]);
                        assert(keyed_in(m0, fs[j].0));
                        let t = choose|t: int| 0 <= t < m0.len() && (#[trigger] m0[t]).id@ == fs[j].0;
                        if t == i {
                            assert(m1[t].id@ == fs[j].0);
                        } else {
                            assert(m1[t] == m0[t]);
                        }
                    } else {
                        assert(m1[i as int].id@ == f2[j].0);
                    }
                }
                assert forall|a: int, b: int| 0 <= a < m1.len() && 0 <= b < m1.len() && a != b implies (#[trigger] m1[a]).id@ != (#[trigger] m1[b]).id@ by {
                    assert(m1[a].id@ == m0[a].id@);
                    assert(m1[b].id@ == m0[b].id@);
                }
            }
            return;
        }
    }
    m.push(Keyed { id, node });
    proof {
        let m1 = m@;
        let n = m0.len() as int;
        assert forall|t: int| 0 <= t < m1.len() implies read_in(f2, (#[trigger] m1[t]).id@) && nodev(m1[t].node) == last_reading(f2, m1[t].id@) by {
            if t == n {
                assert(f2[fs.len() as int].0 == m1[t].id@);
            } else {
                assert(m1[t] == m0[t]);
                lemma_last_other(fs, x, m0[t].id@);
                lemma_read_push(fs, x, m0[t].id@);
            }
        }
        assert forall|j: int| 0 <= j < f2.len() implies keyed_in(m1, (#[trigger] f2[j]).0) by {
            if j < fs.len() {
                assert(f2[j] == fs[j]);
                assert(keyed_in(m0, fs[j].0));
                let t = choose|t: int| 0 <= t < m0.len() && (#[trigger] m0[t]).id@ == fs[j].0;
                assert(m1[t] == m0[t]);
            } else {
                assert(m1[n].id@ == f2[j].0);
            }
        }
        assert forall|a: int, b: int| 0 <= a < m1.len() && 0 <= b < m1.len() && a != b implies (#[trigger] m1[a]).id@ != (#[trigger] m1[b]).id@ by {
            if a < n && b < n {
                assert(m1[a] == m0[a] && m1[b] == m0[b]);
            } else if a < n {
                assert(m1[a] == m0[a]);
            } else {
                assert(m1[b] == m0[b]);
            }
        }
    }
}

/// An import edge: importer, imported.
pub struct EdgeRow {
    pub from: String,
    pub to: String,
}

/// The view of an edge.
pub open spec fn erv(e: EdgeRow) -> (Seq<char>, Seq<char>) {
    (e.from@, e.to@)
}

/// The views of a list of edges.
pub open spec fn ervs(v: Seq<EdgeRow>) -> Seq<(Seq<char>, Seq<char>)> {
    v.map_values(|e: EdgeRow| erv(e))
}

impl Ranked for EdgeRow {
    open spec fn before(self, other: Self) -> bool {
        lex_lt(self.from@, other.from@) || (self.from@ == other.from@ && lex_lt(self.to@, other.to@))
    }

    open spec fn ties(self, other: Self) -> bool {
        erv(self) == erv(other)
    }

    fn is_before(&self, other: &Self) -> (r: bool) {
        let f = order_str(self.from.as_str(), other.from.as_str());
        if f != Cmp::Equal {
            return f == Cmp::Less;
        }
        order_str(self.to.as_str(), other.to.as_str()) == Cmp::Less
    }

    proof fn lemma_order(a: Self, b: Self, c: Self) {
        lemma_lex_irreflexive(a.from@);
        lemma_lex_irreflexive(a.to@);
        lemma_lex_total(a.from@, b.from@);
        lemma_lex_total(a.to@, b.to@);
        lemma_lex_asym(a.from@, b.from@);
        if lex_lt(a.from@, b.from@) && lex_lt(b.from@, c.from@) {
            lemma_lex_trans(a.from@, b.from@, c.from@);
        }
        if lex_lt(a.to@, b.to@) && lex_lt(b.to@, c.to@) {
            lemma_lex_trans(a.to@, b.to@, c.to@);
        }
    }
}

/// A git window: the `since` bound, `None` for full history.
pub struct WindowRow {
    pub since: Option<String>,
}

/// The view of a git window.
pub open spec fn wv(w: WindowRow) -> Option<Seq<char>> {
    match w.since {
        Some(s) => Some(s@),
        None => None,
    }
}

/// The views of a list of git windows.
pub open spec fn wvs(v: Seq<WindowRow>) -> Seq<Option<Seq<char>>> {
    v.map_values(|w: WindowRow| wv(w))
}

impl Ranked for WindowRow {
    open spec fn before(self, other: Self) -> bool {
        match (self.since, other.since) {
            (None, Some(_)) => true,
            (Some(x), Some(y)) => lex_lt(x@, y@),
            _ => false,
        }
    }

    open spec fn ties(self, other: Self) -> bool {
        wv(self) == wv(other)
    }

    fn is_before(&self, other: &Self) -> (r: bool) {
        match (&self.since, &other.since) {
            (None, Some(_)) => true,
            (Some(x), Some(y)) => order_str(x.as_str(), y.as_str()) == Cmp::Less,
            _ => false,
        }
    }

    proof fn lemma_order(a: Self, b: Self, c: Self) {
        match (a.since, b.since, c.since) {
            (Some(x), Some(y), Some(z)) => {
                lemma_lex_irreflexive(x@);
                lemma_lex_total(x@, y@);
                if lex_lt(x@, y@) && lex_lt(y@, z@) {
                    lemma_lex_trans(x@, y@, z@);
                }
            },
            (Some(x), Some(y), None) => {
                lemma_lex_irreflexive(x@);
                lemma_lex_total(x@, y@);
            },
            (Some(x), None, _) => {
                lemma_lex_irreflexive(x@);
            },
            _ => {},
        }
    }
}

pub proof fn lemma_sorted_same<T: Ranked, V>(m: Seq<T>, s: Seq<T>, f: spec_fn(T) -> V)
    requires
        m.to_multiset() == s.to_multiset(),
    ensures
        forall|x: V| s.map_values(f).contains(x) <==> m.map_values(f).contains(x),
{
    assert forall|x: V| s.map_values(f).contains(x) <==> m.map_values(f).contains(x) by {
        if s.map_values(f).contains(x) {
            let i = choose|i: int| 0 <= i < s.map_values(f).len() && s.map_values(f)[i] == x;
            assert(s.contains(s[i]));
            vstd::seq_lib::to_multiset_contains(s, s[i]);
            vstd::seq_lib::to_multiset_contains(m, s[i]);
            let k = choose|k: int| 0 <= k < m.len() && m[k] == s[i];
            assert(m.map_values(f)[k] == x);
        }
        if m.map_values(f).contains(x) {
            let k = choose|k: int| 0 <= k < m.map_values(f).len() && m.map_values(f)[k] == x;
            assert(m.contains(m[k]));
            vstd::seq_lib::to_multiset_contains(s, m[k]);
            vstd::seq_lib::to_multiset_contains(m, m[k]);
            let i = choose|i: int| 0 <= i < s.len() && s[i] == m[k];
            assert(s.map_values(f)[i] == x);
        }
    }
}

/// The distinct edges of `v`, sorted.
fn sorted_edges(v: Vec<EdgeRow>) -> (r: Vec<EdgeRow>)
    ensures
        strictly_sorted(r@),
        forall|x: (Seq<char>, Seq<char>)| ervs(r@).contains(x) <==> ervs(v@).contains(x),
{
    let ghost v0 = v@;
    let mut d: Vec<EdgeRow> = Vec::new();
    let mut rest = v;
    let n = rest.len();
    let mut i: usize = 0;
    while i < n
        invariant
            n == v0.len(),
            i <= n,
            rest@ == v0.skip(i as int),
            forall|x: (Seq<char>, Seq<char>)| ervs(d@).contains(x) <==> ervs(v0.take(i as int)).contains(x),
            forall|a: int, b: int| 0 <= a < d@.len() && 0 <= b < d@.len() && a != b ==> erv(#[trigger] d@[a]) != erv(#[trigger] d@[b]),
        decreases n - i,
    {
        let e = rest.remove(0);
        proof {
            assert(e == v0[i as int]);
            assert(rest@ =~= v0.skip(i + 1));
            assert(ervs(v0.take(i + 1)) =~= ervs(v0.take(i as int)).push(erv(e)));
        }
        let mut j: usize = 0;
        let mut seen = false;
        while j < d.len()
            invariant
                j <= d@.len(),
                seen == exists|q: int| 0 <= q < j && erv(#[trigger] d@[q]) == erv(e),
            decreases d@.len() - j,
        {
            if str_eq(d[j].from.as_str(), e.from.as_str()) && str_eq(d[j].to.as_str(), e.to.as_str()) {
                seen = true;
            }
            j = j + 1;
        }
        let ghost d0 = d@;
        proof {
            if seen {
                let q = choose|q: int| 0 <= q < j && erv(#[trigger] d0[q]) == erv(e);
                assert(ervs(d0)[q] == erv(e));
            } else {
                assert forall|q: int| 0 <= q < ervs(d0).len() implies ervs(d0)[q] != erv(e) by {
                    assert(ervs(d0)[q] == erv(d0[q]));
                }
            }
        }
        if !seen {
            let ghost ev = erv(e);
            d.push(e);
            proof {
                assert(ervs(d@) =~= ervs(d0).push(ev));
                assert forall|a: int, b: int| 0 <= a < d@.len() && 0 <= b < d@.len() && a != b implies erv(#[trigger] d@[a]) != erv(#[trigger] d@[b]) by {
                    if a < d0.len() && b < d0.len() {
                        assert(d@[a] == d0[a] && d@[b] == d0[b]);
                    } else if a < d0.len() {
                        assert(d@[a] == d0[a]);
                        assert(ervs(d0)[a] == erv(d0[a]));
                    } else {
                        assert(d@[b] == d0[b]);
                        assert(ervs(d0)[b] == erv(d0[b]));
                    }
                }
            }
        }
        i = i + 1;
    }
    proof {
        assert(v0.take(n as int) =~= v0);
    }
    let ghost m = d@;
    let sorted = sort_ranked(d);
    proof {
        lemma_sorted_same(m, sorted@, |e: EdgeRow| erv(e));
        assert(ervs(sorted@) == sorted@.map_values(|e: EdgeRow| erv(e)));
        assert(ervs(m) == m.map_values(|e: EdgeRow| erv(e)));
    }
    sorted
}

/// The distinct git windows of `v`, sorted (full history first).
fn sorted_windows(v: Vec<WindowRow>) -> (r: Vec<WindowRow>)
    ensures
        strictly_sorted(r@),
        forall|x: Option<Seq<char>>| wvs(r@).contains(x) <==> wvs(v@).contains(x),
{
    let ghost v0 = v@;
    let mut d: Vec<WindowRow> = Vec::new();
    let mut rest = v;
    let n = rest.len();
    let mut i: usize = 0;
    while i < n
        invariant
            n == v0.len(),
            i <= n,
            rest@ == v0.skip(i as int),
            forall|x: Option<Seq<char>>| wvs(d@).contains(x) <==> wvs(v0.take(i as int)).contains(x),
            forall|a: int, b: int| 0 <= a < d@.len() && 0 <= b < d@.len() && a != b ==> wv(#[trigger] d@[a]) != wv(#[trigger] d@[b]),
        decreases n - i,
    {
        let w = rest.remove(0);
        proof {
            assert(w == v0[i as int]);
            assert(rest@ =~= v0.skip(i + 1));
            assert(wvs(v0.take(i + 1)) =~= wvs(v0.take(i as int)).push(wv(w)));
        }
        let mut j: usize = 0;
        let mut seen = false;
        while j < d.len()
            invariant
                j <= d@.len(),
                seen == exists|q: int| 0 <= q < j && wv(#[trigger] d@[q]) == wv(w),
            decreases d@.len() - j,
        {
            let same = match (&d[j].since, &w.since) {
                (None, None) => true,
                (Some(x), Some(y)) => str_eq(x.as_str(), y.as_str()),
                _ => false,
            };
            if same {
                seen = true;
            }
            j = j + 1;
        }
        let ghost d0 = d@;
        proof {
            if seen {
                let q = choose|q: int| 0 <= q < j && wv(#[trigger] d0[q]) == wv(w);
                assert(wvs(d0)[q] == wv(w));
            } else {
                assert forall|q: int| 0 <= q < wvs(d0).len() implies wvs(d0)[q] != wv(w) by {
                    assert(wvs(d0)[q] == wv(d0[q]));
                }
            }
        }
        if !seen {
            let ghost x = wv(w);
            d.push(w);
            proof {
                assert(wvs(d@) =~= wvs(d0).push(x));
                assert forall|a: int, b: int| 0 <= a < d@.len() && 0 <= b < d@.len() && a != b implies wv(#[trigger] d@[a]) != wv(#[trigger] d@[b]) by {
                    if a < d0.len() && b < d0.len() {
                        assert(d@[a] == d0[a] && d@[b] == d0[b]);
                    } else if a < d0.len() {
                        assert(d@[a] == d0[a]);
                        assert(wvs(d0)[a] == wv(d0[a]));
                    } else {
                        assert(d@[b] == d0[b]);
                        assert(wvs(d0)[b] == wv(d0[b]));
                    }
                }
            }
        }
        i = i + 1;
    }
    proof {
        assert(v0.take(n as int) =~= v0);
    }
    let ghost m = d@;
    let sorted = sort_ranked(d);
    proof {
        lemma_sorted_same(m, sorted@, |w: WindowRow| wv(w));
        assert(wvs(sorted@) == sorted@.map_values(|w: WindowRow| wv(w)));
        assert(wvs(m) == m.map_values(|w: WindowRow| wv(w)));
    }
    sorted
}

/// How many of the first `n` edges of `es` have a reverse edge, point "up" (so each two-way pair
/// counts once), and have an end in no reported cycle.
pub open spec fn mutual_count(es: Seq<(Seq<char>, Seq<char>)>, cyc: Seq<Seq<char>>, n: int) -> nat
    decreases n,
{
    if n <= 0 {
        0
    } else {
        let e = es[n - 1];
        mutual_count(es, cyc, n - 1) + if lex_lt(e.0, e.1) && es.contains((e.1, e.0)) && !(cyc.contains(e.0) && cyc.contains(
            e.1,
        )) {
            1nat
        } else {
            0nat
        }
    }
}

/// Everything a run says about its file graph, each list in its sorted order.
pub struct DepUniverse {
    pub nodes: Vec<Keyed>,
    pub edges: Vec<EdgeRow>,
    pub cycle_files: Vec<Text>,
    pub cycles: u128,
    pub mutual_outside_cycles: usize,
    pub git_windows: Vec<WindowRow>,
}

/// Both ends of every edge in `es` are files read in `fs`.
pub open spec fn ends_read(es: Seq<(Seq<char>, Seq<char>)>, fs: Seq<(Seq<char>, NodeV)>) -> bool {
    forall|j: int| 0 <= j < es.len() ==> read_in(fs, (#[trigger] es[j]).0) && read_in(fs, es[j].1)
}

proof fn lemma_read_in_grows(fs: Seq<(Seq<char>, NodeV)>, gs: Seq<(Seq<char>, NodeV)>, id: Seq<char>, front: bool)
    requires
        read_in(fs, id),
    ensures
        read_in(if front { fs + gs } else { gs + fs }, id),
{
    let j = choose|j: int| 0 <= j < fs.len() && (#[trigger] fs[j]).0 == id;
    if front {
        assert((fs + gs)[j] == fs[j]);
    } else {
        assert((gs + fs)[gs.len() + j] == fs[j]);
    }
}

proof fn lemma_target_ends(multi: bool, t: DepTree, from: Seq<char>, tos: Seq<Option<String>>, n: int)
    requires
        n <= tos.len(),
    ensures
        forall|j: int|
            0 <= j < target_edges(multi, t, from, tos, n).len() ==> (#[trigger] target_edges(multi, t, from, tos, n)[j]).0
                == file_id(multi, src(t), from) && read_in(target_files(multi, t, tos, n), target_edges(multi, t, from, tos, n)[j].1),
    decreases n,
{
    if n > 0 {
        lemma_target_ends(multi, t, from, tos, n - 1);
        let es = target_edges(multi, t, from, tos, n - 1);
        let fs = target_files(multi, t, tos, n - 1);
        match tos[n - 1] {
            Some(to) => {
                let f2 = fs.push((file_id(multi, src(t), to@), node_of(t, to@)));
                assert forall|j: int| 0 <= j < target_edges(multi, t, from, tos, n).len() implies (#[trigger] target_edges(
                    multi,
                    t,
                    from,
                    tos,
                    n,
                )[j]).0 == file_id(multi, src(t), from) && read_in(f2, target_edges(multi, t, from, tos, n)[j].1) by {
                    if j < es.len() {
                        let k = choose|k: int| 0 <= k < fs.len() && (#[trigger] fs[k]).0 == es[j].1;
                        assert(f2[k] == fs[k]);
                    } else {
                        assert(f2[fs.len() as int].0 == file_id(multi, src(t), to@));
                    }
                }
            },
            None => {},
        }
    }
}

proof fn lemma_tree_ends(multi: bool, t: DepTree, n: int)
    requires
        n <= t.dep@.len(),
    ensures
        ends_read(tree_edges(multi, t, n), tree_files(multi, t, n)),
    decreases n,
{
    if n > 0 {
        lemma_tree_ends(multi, t, n - 1);
        let e = t.dep@[n - 1];
        let es0 = tree_edges(multi, t, n - 1);
        let fs0 = tree_files(multi, t, n - 1);
        let head = fs0.push((file_id(multi, src(t), e.from@), node_of(t, e.from@)));
        let tf = target_files(multi, t, e.to@, e.to@.len() as int);
        let te = target_edges(multi, t, e.from@, e.to@, e.to@.len() as int);
        lemma_target_ends(multi, t, e.from@, e.to@, e.to@.len() as int);
        let fs = head + tf;
        assert(fs == tree_files(multi, t, n));
        assert(es0 + te == tree_edges(multi, t, n));
        assert(read_in(fs, file_id(multi, src(t), e.from@))) by {
            assert(fs[fs0.len() as int].0 == file_id(multi, src(t), e.from@));
        }
        assert forall|j: int| 0 <= j < (es0 + te).len() implies read_in(fs, (#[trigger] (es0 + te)[j]).0) && read_in(fs, (es0 + te)[j].1) by {
            if j < es0.len() {
                assert((es0 + te)[j] == es0[j]);
                assert(read_in(fs0, es0[j].0) && read_in(fs0, es0[j].1));
                let a = choose|a: int| 0 <= a < fs0.len() && (#[trigger] fs0[a]).0 == es0[j].0;
                assert(fs[a] == fs0[a]);
                let b = choose|b: int| 0 <= b < fs0.len() && (#[trigger] fs0[b]).0 == es0[j].1;
                assert(fs[b] == fs0[b]);
            } else {
                let k = j - es0.len();
                assert((es0 + te)[j] == te[k]);
                assert(read_in(tf, te[k].1));
                lemma_read_in_grows(tf, head, te[k].1, false);
            }
        }
    }
}

/// Both ends of every import edge of a run are files of the run.
pub proof fn lemma_all_ends(trees: Seq<DepTree>, k: int)
    requires
        k <= trees.len(),
    ensures
        ends_read(all_edges(trees, k), all_files(trees, k)),
    decreases k,
{
    if k > 0 {
        lemma_all_ends(trees, k - 1);
        let t = trees[k - 1];
        let multi = trees.len() > 1;
        lemma_tree_ends(multi, t, t.dep@.len() as int);
        let fs0 = all_files(trees, k - 1);
        let es0 = all_edges(trees, k - 1);
        let tf = tree_files(multi, t, t.dep@.len() as int);
        let te = tree_edges(multi, t, t.dep@.len() as int);
        assert forall|j: int| 0 <= j < (es0 + te).len() implies read_in(fs0 + tf, (#[trigger] (es0 + te)[j]).0) && read_in(
            fs0 + tf,
            (es0 + te)[j].1,
        ) by {
            if j < es0.len() {
                assert((es0 + te)[j] == es0[j]);
                lemma_read_in_grows(fs0, tf, es0[j].0, true);
                lemma_read_in_grows(fs0, tf, es0[j].1, true);
            } else {
                let q = j - es0.len();
                assert((es0 + te)[j] == te[q]);
                lemma_read_in_grows(tf, fs0, te[q].0, false);
                lemma_read_in_grows(tf, fs0, te[q].1, false);
            }
        }
    }
}


/// `u` is the universe of the run `trees`.
pub open spec fn universe_of(trees: Seq<DepTree>, u: DepUniverse) -> bool {
    let n = trees.len() as int;
    &&& files_of(all_files(trees, n), u.nodes@) && strictly_sorted(u.nodes@)
    &&& strictly_sorted(u.edges@) && forall|x: (Seq<char>, Seq<char>)| ervs(u.edges@).contains(x) <==> all_edges(trees, n).contains(x)
    &&& strictly_sorted(u.cycle_files@) && forall|x: Seq<char>| texts(u.cycle_files@).contains(x) <==> all_cycle_files(trees, n).contains(x)
    &&& u.cycles == all_cycles(trees, n)
    &&& strictly_sorted(u.git_windows@) && forall|x: Option<Seq<char>>| wvs(u.git_windows@).contains(x) <==> all_windows(trees, n).contains(x)
    &&& u.mutual_outside_cycles == mutual_count(ervs(u.edges@), texts(u.cycle_files@), u.edges@.len() as int)
}

proof fn lemma_sorted_files(fs: Seq<(Seq<char>, NodeV)>, m: Seq<Keyed>, s: Seq<Keyed>)
    requires
        files_of(fs, m),
        m.to_multiset() == s.to_multiset(),
        strictly_sorted(s),
    ensures
        files_of(fs, s),
{
    assert forall|a: int, b: int| 0 <= a < s.len() && 0 <= b < s.len() && a != b implies (#[trigger] s[a]).id@ != (#[trigger] s[b]).id@ by {
        lemma_lex_irreflexive(s[a].id@);
        if a < b {
            assert(s[a].before(s[b]));
        } else {
            assert(s[b].before(s[a]));
        }
    }
    assert forall|i: int| 0 <= i < s.len() implies read_in(fs, (#[trigger] s[i]).id@) && nodev(s[i].node) == last_reading(fs, s[i].id@) by {
        assert(s.contains(s[i]));
        vstd::seq_lib::to_multiset_contains(s, s[i]);
        vstd::seq_lib::to_multiset_contains(m, s[i]);
        let k = choose|k: int| 0 <= k < m.len() && m[k] == s[i];
        assert(read_in(fs, m[k].id@));
    }
    assert forall|j: int| 0 <= j < fs.len() implies keyed_in(s, (#[trigger] fs[j]).0) by {
        assert(keyed_in(m, fs[j].0));
        let k = choose|k: int| 0 <= k < m.len() && (#[trigger] m[k]).id@ == fs[j].0;
        assert(m.contains(m[k]));
        vstd::seq_lib::to_multiset_contains(s, m[k]);
        vstd::seq_lib::to_multiset_contains(m, m[k]);
        let i = choose|i: int| 0 <= i < s.len() && s[i] == m[k];
        assert(s[i].id@ == fs[j].0);
    }
}

/// The file readings and edges of one tree.
fn read_tree(
    multi: bool,
    t: &DepTree,
    nodes: &mut Vec<Keyed>,
    edges: &mut Vec<EdgeRow>,
    Ghost(fs): Ghost<Seq<(Seq<char>, NodeV)>>,
)
    requires
        files_of(fs, old(nodes)@),
    ensures
        files_of(fs + tree_files(multi, *t, t.dep@.len() as int), final(nodes)@),
        ervs(final(edges)@) == ervs(old(edges)@) + tree_edges(multi, *t, t.dep@.len() as int),
{
    let source = match &t.source_id {
        Some(x) => owned(x.as_str()),
        None => String::new(),
    };
    let ghost e0 = ervs(edges@);
    let mut k: usize = 0;
    proof {
        assert(fs + tree_files(multi, *t, 0) =~= fs);
        assert(e0 + tree_edges(multi, *t, 0) =~= e0);
    }
    while k < t.dep.len()
        invariant
            k <= t.dep@.len(),
            source@ == src(*t),
            files_of(fs + tree_files(multi, *t, k as int), nodes@),
            ervs(edges@) == e0 + tree_edges(multi, *t, k as int),
        decreases t.dep@.len() - k,
    {
        let e = &t.dep[k];
        let from = id_exec(multi, source.as_str(), e.from.as_str());
        let ghost c0 = fs + tree_files(multi, *t, k as int);
        let ghost x = (from@, node_of(*t, e.from@));
        let nf = node_exec(t, source.as_str(), e.from.as_str());
        add_file(nodes, owned(from.as_str()), nf, Ghost(c0));
        let ghost c1 = c0.push(x);
        let ghost a0 = ervs(edges@);
        proof {
            assert(c1 + target_files(multi, *t, e.to@, 0) =~= c1);
            assert(a0 + target_edges(multi, *t, e.from@, e.to@, 0) =~= a0);
        }
        let mut j: usize = 0;
        while j < e.to.len()
            invariant
                j <= e.to@.len(),
                source@ == src(*t),
                from@ == file_id(multi, src(*t), e.from@),
                files_of(c1 + target_files(multi, *t, e.to@, j as int), nodes@),
                ervs(edges@) == a0 + target_edges(multi, *t, e.from@, e.to@, j as int),
            decreases e.to@.len() - j,
        {
            match &e.to[j] {
                Some(to) => {
                    let tid = id_exec(multi, source.as_str(), to.as_str());
                    let nt = node_exec(t, source.as_str(), to.as_str());
                    let ghost cc = c1 + target_files(multi, *t, e.to@, j as int);
                    add_file(nodes, owned(tid.as_str()), nt, Ghost(cc));
                    let ghost eb = edges@;
                    edges.push(EdgeRow { from: owned(from.as_str()), to: tid });
                    proof {
                        assert(cc.push((file_id(multi, src(*t), to@), node_of(*t, to@))) =~= c1 + target_files(multi, *t, e.to@, j + 1));
                        assert(ervs(edges@) =~= ervs(eb).push((file_id(multi, src(*t), e.from@), file_id(multi, src(*t), to@))));
                        assert(ervs(edges@) =~= a0 + target_edges(multi, *t, e.from@, e.to@, j + 1));
                    }
                },
                None => {},
            }
            j = j + 1;
        }
        proof {
            assert(c1 + target_files(multi, *t, e.to@, e.to@.len() as int) =~= fs + tree_files(multi, *t, k + 1));
            assert(ervs(edges@) =~= e0 + tree_edges(multi, *t, k + 1));
        }
        k = k + 1;
    }
}

/// The cycle files of one tree, and how many `circular` findings it carries.
fn read_cycles(multi: bool, t: &DepTree, cyc: &mut Vec<String>) -> (n: usize)
    ensures
        strs(final(cyc)@) == strs(old(cyc)@) + tree_cycle_files(multi, *t, t.findings@.len() as int),
        n == tree_cycles(*t, t.findings@.len() as int),
{
    let source = match &t.source_id {
        Some(x) => owned(x.as_str()),
        None => String::new(),
    };
    let ghost s0 = strs(cyc@);
    let mut n: usize = 0;
    let mut k: usize = 0;
    proof {
        assert(s0 + tree_cycle_files(multi, *t, 0) =~= s0);
    }
    while k < t.findings.len()
        invariant
            k <= t.findings@.len(),
            source@ == src(*t),
            strs(cyc@) == s0 + tree_cycle_files(multi, *t, k as int),
            n == tree_cycles(*t, k as int),
            n <= k,
        decreases t.findings@.len() - k,
    {
        let f = &t.findings[k];
        let ghost b0 = strs(cyc@);
        let circular = match &f.rule_id {
            Some(r) => str_eq(r.as_str(), "circular"),
            None => false,
        };
        if circular {
            n = n + 1;
            match &f.file {
                Some(x) => cyc.push(id_exec(multi, source.as_str(), x.as_str())),
                None => {},
            }
            let ghost b1 = strs(cyc@);
            proof {
                assert(b1 =~= b0 + match f.file {
                    Some(x) => seq![file_id(multi, src(*t), x@)],
                    None => Seq::<Seq<char>>::empty(),
                });
                assert(b1 + member_files(multi, *t, f.members@, 0) =~= b1);
            }
            let mut j: usize = 0;
            while j < f.members.len()
                invariant
                    j <= f.members@.len(),
                    source@ == src(*t),
                    strs(cyc@) == b1 + member_files(multi, *t, f.members@, j as int),
                decreases f.members@.len() - j,
            {
                match &f.members[j] {
                    Some(m) => {
                        let ghost before = strs(cyc@);
                        cyc.push(id_exec(multi, source.as_str(), m.as_str()));
                        proof {
                            assert(strs(cyc@) =~= before.push(file_id(multi, src(*t), m@)));
                        }
                    },
                    None => {},
                }
                proof {
                    assert(strs(cyc@) =~= b1 + member_files(multi, *t, f.members@, j + 1));
                }
                j = j + 1;
            }
        }
        proof {
            assert(strs(cyc@) =~= s0 + tree_cycle_files(multi, *t, k + 1));
        }
        k = k + 1;
    }
    n
}

/// The run's file graph before any scope, fold or cap.
pub fn collect(trees: &Vec<DepTree>) -> (u: DepUniverse)
    ensures
        universe_of(trees@, u),
{
    let multi = trees.len() > 1;
    let mut nodes: Vec<Keyed> = Vec::new();
    let mut edges: Vec<EdgeRow> = Vec::new();
    let mut cyc: Vec<String> = Vec::new();
    let mut wins: Vec<WindowRow> = Vec::new();
    let mut cycles: u128 = 0;
    let mut k: usize = 0;
    while k < trees.len()
        invariant
            k <= trees@.len(),
            multi == (trees@.len() > 1),
            files_of(all_files(trees@, k as int), nodes@),
            ervs(edges@) == all_edges(trees@, k as int),
            strs(cyc@) == all_cycle_files(trees@, k as int),
            wvs(wins@) == all_windows(trees@, k as int),
            cycles == all_cycles(trees@, k as int),
            cycles <= k * (usize::MAX as int),
        decreases trees@.len() - k,
    {
        let t = &trees[k];
        read_tree(multi, t, &mut nodes, &mut edges, Ghost(all_files(trees@, k as int)));
        let n = read_cycles(multi, t, &mut cyc);
        proof {
            assert((k + 1) * (usize::MAX as int) == k * (usize::MAX as int) + usize::MAX) by (nonlinear_arith);
            assert((k + 1) * (usize::MAX as int) < 0x1_0000_0000_0000_0000_0000_0000_0000_0000) by (nonlinear_arith)
                requires
                    k < usize::MAX,
                    usize::MAX < 0x1_0000_0000_0000_0000,
            ;
        }
        cycles = cycles + n as u128;
        match &t.git_window {
            Some(w) => {
                let ghost before = wvs(wins@);
                let since = match w {
                    Some(x) => Some(owned(x.as_str())),
                    None => None,
                };
                let row = WindowRow { since };
                let ghost rv = wv(row);
                wins.push(row);
                proof {
                    assert(wvs(wins@) =~= before.push(rv));
                }
            },
            None => {},
        }
        k = k + 1;
    }
    let ghost mn = nodes@;
    proof {
        assert forall|a: int, b: int| 0 <= a < mn.len() && 0 <= b < mn.len() && a != b implies !(#[trigger] mn[a]).ties(#[trigger] mn[b]) by {}
    }
    let nodes = sort_ranked(nodes);
    proof {
        lemma_sorted_files(all_files(trees@, trees@.len() as int), mn, nodes@);
    }
    let edges = sorted_edges(edges);
    let cycle_files = sorted_texts(&cyc);
    let git_windows = sorted_windows(wins);
    let ghost es = ervs(edges@);
    let ghost cs = texts(cycle_files@);
    let mut mutual: usize = 0;
    let mut i: usize = 0;
    while i < edges.len()
        invariant
            i <= edges@.len(),
            es == ervs(edges@),
            cs == texts(cycle_files@),
            mutual == mutual_count(es, cs, i as int),
            mutual <= i,
        decreases edges@.len() - i,
    {
        let e = &edges[i];
        proof {
            assert(es[i as int] == erv(*e));
        }
        if order_str(e.from.as_str(), e.to.as_str()) == Cmp::Less {
            let mut back = false;
            let mut j: usize = 0;
            while j < edges.len()
                invariant
                    j <= edges@.len(),
                    es == ervs(edges@),
                    back == exists|q: int| 0 <= q < j && es[q] == (e.to@, e.from@),
                decreases edges@.len() - j,
            {
                proof {
                    assert(es[j as int] == erv(edges@[j as int]));
                }
                if str_eq(edges[j].from.as_str(), e.to.as_str()) && str_eq(edges[j].to.as_str(), e.from.as_str()) {
                    back = true;
                }
                j = j + 1;
            }
            let mut in_a = false;
            let mut in_b = false;
            let mut c: usize = 0;
            while c < cycle_files.len()
                invariant
                    c <= cycle_files@.len(),
                    cs == texts(cycle_files@),
                    in_a == exists|q: int| 0 <= q < c && cs[q] == e.from@,
                    in_b == exists|q: int| 0 <= q < c && cs[q] == e.to@,
                decreases cycle_files@.len() - c,
            {
                proof {
                    assert(cs[c as int] == cycle_files@[c as int].text@);
                }
                if str_eq(cycle_files[c].text.as_str(), e.from.as_str()) {
                    in_a = true;
                }
                if str_eq(cycle_files[c].text.as_str(), e.to.as_str()) {
                    in_b = true;
                }
                c = c + 1;
            }
            proof {
                assert(back == es.contains((e.to@, e.from@)));
                assert(in_a == cs.contains(e.from@));
                assert(in_b == cs.contains(e.to@));
            }
            if back && !(in_a && in_b) {
                mutual = mutual + 1;
            }
        }
        i = i + 1;
    }
    DepUniverse { nodes, edges, cycle_files, cycles, mutual_outside_cycles: mutual, git_windows }
}

} // verus!
