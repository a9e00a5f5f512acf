//! The dependency domain as two NDJSON tables for an interactive viewer: a points table (one row
//! per in-scope file, every axis the run measured and none it did not) and a links table (every
//! import whose two ends are in scope). Uncapped: a viewer with zoom does what `--top` does for a
//! drawn picture. What a reader is told about the tables goes to a separate census line.
use vstd::prelude::*;

use super::dep::universe::{collect, ervs, gv, keyed_in, lemma_all_ends, nodev, read_in, universe_of, wv, wvs, DepUniverse, GitV, Keyed, WindowRow};
use super::dep::view::{kv, node_in_scope};
use super::dep::DepTree;
use super::distinct::texts;
use crate::output::ordering::count_prior;
use crate::json::{json_quoted, json_string};
use crate::text::{chars_of, dec, owned, push_dec, push_dec_wide, push_str, push_usize, starts_with, str_eq, string_of};

verus! {

broadcast use vstd::seq_lib::group_seq_properties;

/// The history columns a window note is about.
pub const HISTORY_COLUMNS: &'static str = "changeCount/churn/authorCount/lastModified";

/// `text` with every window of `ws` described, joined by `", "`.
pub open spec fn describe(ws: Seq<Option<Seq<char>>>) -> Seq<char>
    decreases ws.len(),
{
    if ws.len() == 0 {
        Seq::empty()
    } else {
        let one = match ws.last() {
            None => "full history"@,
            Some(s) => "since "@ + s,
        };
        if ws.len() == 1 {
            one
        } else {
            describe(ws.drop_last()) + ", "@ + one
        }
    }
}

/// What the history columns were summed over, given the run's distinct windows in order.
pub open spec fn window_note(ws: Seq<Option<Seq<char>>>) -> Seq<char> {
    if ws.len() == 0 {
        "Git history ("@ + HISTORY_COLUMNS@ + ") was NOT COLLECTED on this run, so no row carries those columns."@
    } else if ws.len() == 1 {
        match ws[0] {
            None => "Git history ("@ + HISTORY_COLUMNS@ + ") covers FULL history — no git.since bound."@,
            Some(since) => "Git history ("@ + HISTORY_COLUMNS@ + ") covers ONLY commits since "@ + since
                + " (config git.since) — windowed numbers, not lifetime totals."@,
        }
    } else {
        "Git history ("@ + HISTORY_COLUMNS@ + ") was collected over DIFFERENT windows per tree ("@ + describe(ws)
            + ") — those numbers are not comparable across trees."@
    }
}

/// The census sentence about the run's git windows (given sorted, each once).
pub fn window_text(ws: &Vec<WindowRow>) -> (r: String)
    ensures
        r@ == window_note(wvs(ws@)),
{
    let ghost v = wvs(ws@);
    let mut out = owned("Git history (");
    push_str(&mut out, HISTORY_COLUMNS);
    if ws.len() == 0 {
        push_str(&mut out, ") was NOT COLLECTED on this run, so no row carries those columns.");
    } else if ws.len() == 1 {
        proof {
            assert(v[0] == wv(ws@[0]));
        }
        match &ws[0].since {
            None => push_str(&mut out, ") covers FULL history — no git.since bound."),
            Some(since) => {
                push_str(&mut out, ") covers ONLY commits since ");
                push_str(&mut out, since.as_str());
                push_str(&mut out, " (config git.since) — windowed numbers, not lifetime totals.");
            },
        }
    } else {
        push_str(&mut out, ") was collected over DIFFERENT windows per tree (");
        let mut d = String::new();
        let mut i: usize = 0;
        while i < ws.len()
            invariant
                i <= ws@.len(),
                v == wvs(ws@),
                d@ == describe(v.take(i as int)),
            decreases ws@.len() - i,
        {
            proof {
                assert(v.take(i + 1).drop_last() =~= v.take(i as int));
                assert(v.take(i + 1).last() == wv(ws@[i as int]));
            }
            if i > 0 {
                push_str(&mut d, ", ");
            }
            match &ws[i].since {
                None => push_str(&mut d, "full history"),
                Some(s) => {
                    push_str(&mut d, "since ");
                    push_str(&mut d, s.as_str());
                },
            }
            proof {
                assert(d@ =~= describe(v.take(i + 1)));
            }
            i = i + 1;
        }
        proof {
            assert(v.take(ws@.len() as int) =~= v);
        }
        push_str(&mut out, d.as_str());
        push_str(&mut out, ") — those numbers are not comparable across trees.");
    }
    proof {
        assert(out@ =~= window_note(v));
    }
    out
}

/// How many import edges of `es` end at `id`.
pub open spec fn fan_in(es: Seq<(Seq<char>, Seq<char>)>, id: Seq<char>) -> nat
    decreases es.len(),
{
    if es.len() == 0 {
        0
    } else {
        fan_in(es.drop_last(), id) + if es.last().1 == id {
            1nat
        } else {
            0nat
        }
    }
}

/// How many import edges of `es` start at `id`.
pub open spec fn fan_out(es: Seq<(Seq<char>, Seq<char>)>, id: Seq<char>) -> nat
    decreases es.len(),
{
    if es.len() == 0 {
        0
    } else {
        fan_out(es.drop_last(), id) + if es.last().0 == id {
            1nat
        } else {
            0nat
        }
    }
}

/// The position of the last `/` in `s`, or -1.
pub open spec fn last_slash(s: Seq<char>) -> int
    decreases s.len(),
{
    if s.len() == 0 {
        -1
    } else if s.last() == '/' {
        s.len() - 1
    } else {
        last_slash(s.drop_last())
    }
}

/// The folder part of a path: everything before its last `/`, or nothing.
pub open spec fn folder_of(s: Seq<char>) -> Seq<char> {
    let k = last_slash(s);
    if k < 0 {
        Seq::empty()
    } else {
        s.take(k)
    }
}

/// The basename of a path: everything after its last `/`.
pub open spec fn base_of(s: Seq<char>) -> Seq<char> {
    let k = last_slash(s);
    if k < 0 {
        s
    } else {
        s.skip(k + 1)
    }
}

/// A JSON boolean.
pub open spec fn json_bool(b: bool) -> Seq<char> {
    if b {
        "true"@
    } else {
        "false"@
    }
}

/// One points-table row: the file's columns, in the key order a JSON object is written in, and
/// its measured axes only where they were measured.
pub open spec fn node_row(id: Seq<char>, source: Seq<char>, rel: Seq<char>, loc: Option<u32>, git: Option<GitV>, fi: nat, fo: nat, in_cycle: bool) -> Seq<char> {
    "{"@ + (match git {
        Some(g) => "\"authorCount\":"@ + dec(g.2 as nat) + ",\"changeCount\":"@ + dec(g.0 as nat) + ",\"churn\":"@ + dec(
            g.1 as nat,
        ) + ","@,
        None => Seq::empty(),
    }) + "\"degree\":"@ + dec(fi + fo) + ",\"fanIn\":"@ + dec(fi) + ",\"fanOut\":"@ + dec(fo) + ",\"folder\":"@ + json_quoted(
        folder_of(rel),
    ) + ",\"id\":"@ + json_quoted(id) + ",\"inCycle\":"@ + json_bool(in_cycle) + ",\"label\":"@ + json_quoted(base_of(rel))
        + (match git {
        Some(g) => match g.3 {
            Some(d) => ",\"lastModified\":"@ + json_quoted(d),
            None => Seq::empty(),
        },
        None => Seq::empty(),
    }) + (match loc {
        Some(n) => ",\"loc\":"@ + dec(n as nat),
        None => Seq::empty(),
    }) + ",\"path\":"@ + json_quoted(rel) + ",\"source\":"@ + json_quoted(source) + "}\n"@
}

/// The universe file `k` is in scope.
pub open spec fn kept_file(k: Keyed, scope: Option<&str>) -> bool {
    node_in_scope(scope, kv(k).0, kv(k).1, kv(k).2)
}

/// The points table rows of the first `n` universe files.
pub open spec fn node_rows(u: DepUniverse, scope: Option<&str>, n: int) -> Seq<char>
    decreases n,
{
    if n <= 0 {
        Seq::empty()
    } else {
        let k = u.nodes@[n - 1];
        let v = nodev(k.node);
        let es = ervs(u.edges@);
        node_rows(u, scope, n - 1) + if kept_file(k, scope) {
            node_row(k.id@, v.0, v.1, v.2, v.3, fan_in(es, k.id@), fan_out(es, k.id@), texts(u.cycle_files@).contains(k.id@))
        } else {
            Seq::empty()
        }
    }
}

/// How many of the first `n` universe files are in scope, and of those how many carry a measured
/// line count and how many git history.
pub open spec fn kept_count(u: DepUniverse, scope: Option<&str>, n: int) -> nat
    decreases n,
{
    if n <= 0 {
        0
    } else {
        kept_count(u, scope, n - 1) + if kept_file(u.nodes@[n - 1], scope) {
            1nat
        } else {
            0nat
        }
    }
}

/// How many in-scope files among the first `n` carry a line count.
pub open spec fn loc_count(u: DepUniverse, scope: Option<&str>, n: int) -> nat
    decreases n,
{
    if n <= 0 {
        0
    } else {
        loc_count(u, scope, n - 1) + if kept_file(u.nodes@[n - 1], scope) && u.nodes@[n - 1].node.loc is Some {
            1nat
        } else {
            0nat
        }
    }
}

/// How many in-scope files among the first `n` carry git history.
pub open spec fn git_count(u: DepUniverse, scope: Option<&str>, n: int) -> nat
    decreases n,
{
    if n <= 0 {
        0
    } else {
        git_count(u, scope, n - 1) + if kept_file(u.nodes@[n - 1], scope) && u.nodes@[n - 1].node.git is Some {
            1nat
        } else {
            0nat
        }
    }
}

/// A file id is one of the in-scope files.
pub open spec fn id_kept(u: DepUniverse, scope: Option<&str>, id: Seq<char>) -> bool {
    exists|i: int| 0 <= i < u.nodes@.len() && (#[trigger] u.nodes@[i]).id@ == id && kept_file(u.nodes@[i], scope)
}

/// The links table rows of the first `n` edges: those with both ends in scope.
pub open spec fn link_rows(u: DepUniverse, scope: Option<&str>, n: int) -> Seq<char>
    decreases n,
{
    if n <= 0 {
        Seq::empty()
    } else {
        let e = ervs(u.edges@)[n - 1];
        let cyc = texts(u.cycle_files@);
        link_rows(u, scope, n - 1) + if id_kept(u, scope, e.0) && id_kept(u, scope, e.1) {
            "{\"endpointsInCycle\":"@ + json_bool(cyc.contains(e.0) && cyc.contains(e.1)) + ",\"inCycle\":"@ + json_bool(
                cyc.contains(e.0) && cyc.contains(e.1),
            ) + ",\"source\":"@ + json_quoted(e.0)
                + ",\"target\":"@ + json_quoted(e.1) + "}\n"@
        } else {
            Seq::empty()
        }
    }
}

/// How many of the first `n` edges have both ends in scope.
pub open spec fn link_count(u: DepUniverse, scope: Option<&str>, n: int) -> nat
    decreases n,
{
    if n <= 0 {
        0
    } else {
        let e = ervs(u.edges@)[n - 1];
        link_count(u, scope, n - 1) + if id_kept(u, scope, e.0) && id_kept(u, scope, e.1) {
            1nat
        } else {
            0nat
        }
    }
}

fn fans(es: &Vec<super::dep::universe::EdgeRow>, id: &str) -> (r: (u128, u128))
    ensures
        r.0 as nat == fan_in(ervs(es@), id@),
        r.1 as nat == fan_out(ervs(es@), id@),
        r.0 <= es@.len(),
        r.1 <= es@.len(),
{
    let ghost ev = ervs(es@);
    let mut fi: u128 = 0;
    let mut fo: u128 = 0;
    let mut i: usize = 0;
    while i < es.len()
        invariant
            i <= es@.len(),
            ev == ervs(es@),
            fi as nat == fan_in(ev.take(i as int), id@),
            fo as nat == fan_out(ev.take(i as int), id@),
            fi <= i,
            fo <= i,
        decreases es@.len() - i,
    {
        proof {
            assert(ev.take(i + 1).drop_last() =~= ev.take(i as int));
            assert(ev.take(i + 1).last() == (es@[i as int].from@, es@[i as int].to@));
        }
        if str_eq(es[i].to.as_str(), id) {
            fi = fi + 1;
        }
        if str_eq(es[i].from.as_str(), id) {
            fo = fo + 1;
        }
        i = i + 1;
    }
    proof {
        assert(ev.take(es@.len() as int) =~= ev);
    }
    (fi, fo)
}

fn kept_exec(k: &Keyed, scope: Option<&str>) -> (r: bool)
    ensures
        r == kept_file(*k, scope),
{
    match scope {
        None => true,
        Some(p) => starts_with(k.id.as_str(), p) || starts_with(k.node.source.as_str(), p) || starts_with(k.node.rel.as_str(), p),
    }
}

fn slash_at(cs: &Vec<char>) -> (r: Option<usize>)
    ensures
        match r {
            Some(k) => k < cs@.len() && k as int == last_slash(cs@),
            None => last_slash(cs@) == -1,
        },
{
    let mut r: Option<usize> = None;
    let mut i: usize = 0;
    while i < cs.len()
        invariant
            i <= cs@.len(),
            match r {
                Some(k) => k < i && k as int == last_slash(cs@.take(i as int)),
                None => last_slash(cs@.take(i as int)) == -1,
            },
        decreases cs@.len() - i,
    {
        proof {
            assert(cs@.take(i + 1).drop_last() =~= cs@.take(i as int));
            assert(cs@.take(i + 1).last() == cs@[i as int]);
        }
        if cs[i] == '/' {
            r = Some(i);
        }
        i = i + 1;
    }
    proof {
        assert(cs@.take(cs@.len() as int) =~= cs@);
    }
    r
}

fn split_path(rel: &str) -> (r: (String, String))
    ensures
        r.0@ == folder_of(rel@),
        r.1@ == base_of(rel@),
{
    let cs = chars_of(rel);
    match slash_at(&cs) {
        None => (String::new(), owned(rel)),
        Some(k) => {
            let mut folder: Vec<char> = Vec::new();
            let mut base: Vec<char> = Vec::new();
            let mut i: usize = 0;
            while i < cs.len()
                invariant
                    i <= cs@.len(),
                    k < cs@.len(),
                    folder@ == cs@.take(if i <= k { i as int } else { k as int }),
                    base@ == if i <= k + 1 { Seq::<char>::empty() } else { cs@.subrange(k + 1, i as int) },
                decreases cs@.len() - i,
            {
                if i < k {
                    folder.push(cs[i]);
                    proof {
                        assert(folder@ =~= cs@.take(i + 1));
                    }
                } else if i > k {
                    base.push(cs[i]);
                    proof {
                        assert(base@ =~= cs@.subrange(k + 1, i + 1));
                    }
                }
                i = i + 1;
            }
            proof {
                assert(base@ =~= rel@.skip(k + 1));
            }
            (string_of(&folder), string_of(&base))
        },
    }
}

fn push_json(out: &mut String, s: &str)
    ensures
        final(out)@ == old(out)@ + json_quoted(s@),
{
    let q = json_string(s);
    push_str(out, q.as_str());
}

pub(crate) fn push_bool(out: &mut String, b: bool)
    ensures
        final(out)@ == old(out)@ + json_bool(b),
{
    if b {
        push_str(out, "true");
    } else {
        push_str(out, "false");
    }
}

fn push_node_row(out: &mut String, k: &Keyed, fi: u128, fo: u128, in_cycle: bool)
    requires
        fi <= usize::MAX,
        fo <= usize::MAX,
    ensures
        final(out)@ == old(out)@ + node_row(k.id@, nodev(k.node).0, nodev(k.node).1, nodev(k.node).2, nodev(k.node).3, fi as nat, fo as nat, in_cycle),
{
    let n = &k.node;
    let (folder, label) = split_path(n.rel.as_str());
    let mut row = owned("{");
    let mut g1 = String::new();
    match &n.git {
        Some(g) => {
            push_str(&mut g1, "\"authorCount\":");
            push_dec(&mut g1, g.author_count as u64);
            push_str(&mut g1, ",\"changeCount\":");
            push_dec(&mut g1, g.change_count as u64);
            push_str(&mut g1, ",\"churn\":");
            push_dec(&mut g1, g.churn as u64);
            push_str(&mut g1, ",");
        },
        None => {},
    }
    push_str(&mut row, g1.as_str());
    push_str(&mut row, "\"degree\":");
    push_dec_wide(&mut row, fi + fo);
    push_str(&mut row, ",\"fanIn\":");
    push_dec_wide(&mut row, fi);
    push_str(&mut row, ",\"fanOut\":");
    push_dec_wide(&mut row, fo);
    push_str(&mut row, ",\"folder\":");
    push_json(&mut row, folder.as_str());
    push_str(&mut row, ",\"id\":");
    push_json(&mut row, k.id.as_str());
    push_str(&mut row, ",\"inCycle\":");
    push_bool(&mut row, in_cycle);
    push_str(&mut row, ",\"label\":");
    push_json(&mut row, label.as_str());
    let mut g2 = String::new();
    match &n.git {
        Some(g) => match &g.last_modified {
            Some(d) => {
                push_str(&mut g2, ",\"lastModified\":");
                push_json(&mut g2, d.as_str());
            },
            None => {},
        },
        None => {},
    }
    push_str(&mut row, g2.as_str());
    let mut l = String::new();
    match n.loc {
        Some(v) => {
            push_str(&mut l, ",\"loc\":");
            push_dec(&mut l, v as u64);
        },
        None => {},
    }
    push_str(&mut row, l.as_str());
    push_str(&mut row, ",\"path\":");
    push_json(&mut row, n.rel.as_str());
    push_str(&mut row, ",\"source\":");
    push_json(&mut row, n.source.as_str());
    push_str(&mut row, "}\n");
    proof {
        assert(row@ =~= node_row(k.id@, nodev(k.node).0, nodev(k.node).1, nodev(k.node).2, nodev(k.node).3, fi as nat, fo as nat, in_cycle));
    }
    push_str(out, row.as_str());
}

fn cycle_member(u: &DepUniverse, id: &str) -> (r: bool)
    ensures
        r == texts(u.cycle_files@).contains(id@),
{
    let ghost cv = texts(u.cycle_files@);
    let mut found = false;
    let mut i: usize = 0;
    while i < u.cycle_files.len()
        invariant
            i <= u.cycle_files@.len(),
            cv == texts(u.cycle_files@),
            found == cv.take(i as int).contains(id@),
        decreases u.cycle_files@.len() - i,
    {
        proof {
            assert(cv.take(i + 1) =~= cv.take(i as int).push(u.cycle_files@[i as int].text@));
        }
        if str_eq(u.cycle_files[i].text.as_str(), id) {
            found = true;
        }
        i = i + 1;
    }
    proof {
        assert(cv.take(u.cycle_files@.len() as int) =~= cv);
    }
    found
}

fn id_kept_exec(u: &DepUniverse, scope: Option<&str>, id: &str) -> (r: bool)
    ensures
        r == id_kept(*u, scope, id@),
{
    let mut found = false;
    let mut i: usize = 0;
    while i < u.nodes.len()
        invariant
            i <= u.nodes@.len(),
            found == exists|q: int| 0 <= q < i && (#[trigger] u.nodes@[q]).id@ == id@ && kept_file(u.nodes@[q], scope),
        decreases u.nodes@.len() - i,
    {
        if str_eq(u.nodes[i].id.as_str(), id) && kept_exec(&u.nodes[i], scope) {
            found = true;
        }
        i = i + 1;
    }
    found
}

/// What a points or links table's reader is told: how much of the graph it holds, what the scope
/// dropped, which measured axes rode (points only) and over which git windows (points only), and
/// how many two-way imports lie outside every reported cycle.
pub struct MeasuredAxes {
    pub loc: usize,
    pub git: usize,
}

/// The census of one table.
pub struct CosmographCensus {
    pub nodes_emitted: usize,
    pub total_nodes: usize,
    pub links_emitted: usize,
    pub total_edges: usize,
    pub cycles: u128,
    pub mutual_outside_cycles: usize,
    pub scoped: bool,
    pub measured: Option<MeasuredAxes>,
    pub window: Option<Vec<WindowRow>>,
}

/// The census line of `c`, closing with the engine's sentence on which graph the degree columns
/// describe (`resolved`) and quoting its sentence on erased imports (`erased`) when it applies.
pub open spec fn census_text(c: CosmographCensus, resolved: Seq<char>, erased: Seq<char>) -> Seq<char> {
    let ne = c.nodes_emitted as nat;
    "zzop graph --domain dep --format cosmograph: "@ + dec(ne) + " of "@ + dec(c.total_nodes as nat) + " files, "@ + dec(
        c.links_emitted as nat,
    ) + " of "@ + dec(c.total_edges as nat) + " import edges, "@ + dec(c.cycles as nat) + " circular finding(s)"@ + (if c.scoped {
        " (--scope dropped "@ + dec(if c.total_nodes >= c.nodes_emitted { (c.total_nodes - c.nodes_emitted) as nat } else { 0 })
            + " node(s) and every edge with an endpoint outside it)"@
    } else {
        Seq::empty()
    }) + ". UNCAPPED — --top does not apply to this format."@ + (match c.measured {
        Some(m) => " Measured axes: loc on "@ + dec(m.loc as nat) + " of "@ + dec(ne) + " row(s), git history on "@ + dec(
            m.git as nat,
        ) + " of "@ + dec(ne) + " — an axis this run did not measure is an ABSENT column, never a zero."@,
        None => Seq::empty(),
    }) + (match c.window {
        Some(w) => " "@ + window_note(wvs(w@)),
        None => Seq::empty(),
    }) + (if c.mutual_outside_cycles == 0 {
        Seq::empty()
    } else {
        " NOTE — "@ + dec(c.mutual_outside_cycles as nat)
            + " file pair(s) in this graph import EACH OTHER while at least one end is in no reported cycle: "@ + erased
    }) + " "@ + resolved
}

impl CosmographCensus {
    /// The census as one line for the terminal.
    pub fn render(&self, resolved: &str, erased: &str) -> (r: String)
        ensures
            r@ == census_text(*self, resolved@, erased@),
    {
        let mut out = owned("zzop graph --domain dep --format cosmograph: ");
        push_usize(&mut out, self.nodes_emitted);
        push_str(&mut out, " of ");
        push_usize(&mut out, self.total_nodes);
        push_str(&mut out, " files, ");
        push_usize(&mut out, self.links_emitted);
        push_str(&mut out, " of ");
        push_usize(&mut out, self.total_edges);
        push_str(&mut out, " import edges, ");
        push_dec_wide(&mut out, self.cycles);
        push_str(&mut out, " circular finding(s)");
        let mut a = String::new();
        if self.scoped {
            push_str(&mut a, " (--scope dropped ");
            push_usize(
                &mut a,
                if self.total_nodes >= self.nodes_emitted {
                    self.total_nodes - self.nodes_emitted
                } else {
                    0
                },
            );
            push_str(&mut a, " node(s) and every edge with an endpoint outside it)");
        }
        push_str(&mut out, a.as_str());
        push_str(&mut out, ". UNCAPPED — --top does not apply to this format.");
        let mut b = String::new();
        match &self.measured {
            Some(m) => {
                push_str(&mut b, " Measured axes: loc on ");
                push_usize(&mut b, m.loc);
                push_str(&mut b, " of ");
                push_usize(&mut b, self.nodes_emitted);
                push_str(&mut b, " row(s), git history on ");
                push_usize(&mut b, m.git);
                push_str(&mut b, " of ");
                push_usize(&mut b, self.nodes_emitted);
                push_str(&mut b, " — an axis this run did not measure is an ABSENT column, never a zero.");
            },
            None => {},
        }
        push_str(&mut out, b.as_str());
        let mut c = String::new();
        match &self.window {
            Some(w) => {
                push_str(&mut c, " ");
                let t = window_text(w);
                push_str(&mut c, t.as_str());
            },
            None => {},
        }
        push_str(&mut out, c.as_str());
        let mut d = String::new();
        if self.mutual_outside_cycles != 0 {
            push_str(&mut d, " NOTE — ");
            push_usize(&mut d, self.mutual_outside_cycles);
            push_str(&mut d, " file pair(s) in this graph import EACH OTHER while at least one end is in no reported cycle: ");
            push_str(&mut d, erased);
        }
        push_str(&mut out, d.as_str());
        push_str(&mut out, " ");
        push_str(&mut out, resolved);
        proof {
            assert(out@ =~= census_text(*self, resolved@, erased@));
        }
        out
    }
}

/// A copy of the universe's git windows.
fn windows_copy(ws: &Vec<WindowRow>) -> (r: Vec<WindowRow>)
    ensures
        wvs(r@) == wvs(ws@),
{
    let mut out: Vec<WindowRow> = Vec::new();
    let mut i: usize = 0;
    while i < ws.len()
        invariant
            i <= ws@.len(),
            wvs(out@) == wvs(ws@).take(i as int),
        decreases ws@.len() - i,
    {
        let since = match &ws[i].since {
            Some(s) => Some(owned(s.as_str())),
            None => None,
        };
        let ghost before = out@;
        let w = WindowRow { since };
        let ghost v = wv(w);
        out.push(w);
        proof {
            assert(v == wv(ws@[i as int]));
            assert(wvs(out@) =~= wvs(before).push(v));
            assert(wvs(ws@).take(i + 1) =~= wvs(ws@).take(i as int).push(wv(ws@[i as int])));
        }
        i = i + 1;
    }
    proof {
        assert(wvs(ws@).take(ws@.len() as int) =~= wvs(ws@));
    }
    out
}

fn count_links(u: &DepUniverse, scope: Option<&str>) -> (r: usize)
    ensures
        r == link_count(*u, scope, u.edges@.len() as int),
{
    let ghost ev = ervs(u.edges@);
    let mut n: usize = 0;
    let mut i: usize = 0;
    while i < u.edges.len()
        invariant
            i <= u.edges@.len(),
            ev == ervs(u.edges@),
            n == link_count(*u, scope, i as int),
            n <= i,
        decreases u.edges@.len() - i,
    {
        proof {
            assert(ev[i as int] == (u.edges@[i as int].from@, u.edges@[i as int].to@));
        }
        if id_kept_exec(u, scope, u.edges[i].from.as_str()) && id_kept_exec(u, scope, u.edges[i].to.as_str()) {
            n = n + 1;
        }
        i = i + 1;
    }
    n
}

/// The points table: one row per in-scope file, in id order, and its census.
pub fn nodes_ndjson(u: &DepUniverse, scope: Option<&str>) -> (r: (String, CosmographCensus))
    ensures
        r.0@ == node_rows(*u, scope, u.nodes@.len() as int),
        r.1.nodes_emitted == kept_count(*u, scope, u.nodes@.len() as int),
        r.1.total_nodes == u.nodes@.len(),
        r.1.links_emitted == link_count(*u, scope, u.edges@.len() as int),
        r.1.total_edges == u.edges@.len(),
        r.1.cycles == u.cycles,
        r.1.mutual_outside_cycles == u.mutual_outside_cycles,
        r.1.scoped == scope is Some,
        r.1.measured matches Some(m) && m.loc == loc_count(*u, scope, u.nodes@.len() as int) && m.git == git_count(
            *u,
            scope,
            u.nodes@.len() as int,
        ),
        r.1.window matches Some(w) && wvs(w@) == wvs(u.git_windows@),
{
    let mut out = String::new();
    let mut kept: usize = 0;
    let mut with_loc: usize = 0;
    let mut with_git: usize = 0;
    let mut i: usize = 0;
    let ne = u.edges.len();
    while i < u.nodes.len()
        invariant
            i <= u.nodes@.len(),
            ne == u.edges@.len(),
            out@ == node_rows(*u, scope, i as int),
            kept == kept_count(*u, scope, i as int),
            with_loc == loc_count(*u, scope, i as int),
            with_git == git_count(*u, scope, i as int),
            kept <= i,
            with_loc <= i,
            with_git <= i,
        decreases u.nodes@.len() - i,
    {
        let k = &u.nodes[i];
        if kept_exec(k, scope) {
            let (fi, fo) = fans(&u.edges, k.id.as_str());
            let cyc = cycle_member(u, k.id.as_str());
            push_node_row(&mut out, k, fi, fo, cyc);
            kept = kept + 1;
            if k.node.loc.is_some() {
                with_loc = with_loc + 1;
            }
            if k.node.git.is_some() {
                with_git = with_git + 1;
            }
        }
        i = i + 1;
    }
    let links = count_links(u, scope);
    let census = CosmographCensus {
        nodes_emitted: kept,
        total_nodes: u.nodes.len(),
        links_emitted: links,
        total_edges: u.edges.len(),
        cycles: u.cycles,
        mutual_outside_cycles: u.mutual_outside_cycles,
        scoped: scope.is_some(),
        measured: Some(MeasuredAxes { loc: with_loc, git: with_git }),
        window: Some(windows_copy(&u.git_windows)),
    };
    (out, census)
}

/// The links table: one row per import with both ends in scope, in edge order, and its census.
pub fn links_ndjson(u: &DepUniverse, scope: Option<&str>) -> (r: (String, CosmographCensus))
    ensures
        r.0@ == link_rows(*u, scope, u.edges@.len() as int),
        r.1.nodes_emitted == kept_count(*u, scope, u.nodes@.len() as int),
        r.1.total_nodes == u.nodes@.len(),
        r.1.links_emitted == link_count(*u, scope, u.edges@.len() as int),
        r.1.total_edges == u.edges@.len(),
        r.1.cycles == u.cycles,
        r.1.mutual_outside_cycles == u.mutual_outside_cycles,
        r.1.scoped == scope is Some,
        r.1.measured is None,
        r.1.window is None,
{
    let ghost ev = ervs(u.edges@);
    let ghost cv = texts(u.cycle_files@);
    let mut out = String::new();
    let mut emitted: usize = 0;
    let mut i: usize = 0;
    while i < u.edges.len()
        invariant
            i <= u.edges@.len(),
            ev == ervs(u.edges@),
            cv == texts(u.cycle_files@),
            out@ == link_rows(*u, scope, i as int),
            emitted == link_count(*u, scope, i as int),
            emitted <= i,
        decreases u.edges@.len() - i,
    {
        let e = &u.edges[i];
        proof {
            assert(ev[i as int] == (e.from@, e.to@));
        }
        if id_kept_exec(u, scope, e.from.as_str()) && id_kept_exec(u, scope, e.to.as_str()) {
            let mut row = owned("{\"endpointsInCycle\":");
            let both = cycle_member(u, e.from.as_str()) && cycle_member(u, e.to.as_str());
            push_bool(&mut row, both);
            push_str(&mut row, ",\"inCycle\":");
            push_bool(&mut row, both);
            push_str(&mut row, ",\"source\":");
            push_json(&mut row, e.from.as_str());
            push_str(&mut row, ",\"target\":");
            push_json(&mut row, e.to.as_str());
            push_str(&mut row, "}\n");
            push_str(&mut out, row.as_str());
            emitted = emitted + 1;
        }
        i = i + 1;
    }
    let mut kept: usize = 0;
    let mut k: usize = 0;
    while k < u.nodes.len()
        invariant
            k <= u.nodes@.len(),
            kept == kept_count(*u, scope, k as int),
            kept <= k,
        decreases u.nodes@.len() - k,
    {
        if kept_exec(&u.nodes[k], scope) {
            kept = kept + 1;
        }
        k = k + 1;
    }
    let census = CosmographCensus {
        nodes_emitted: kept,
        total_nodes: u.nodes.len(),
        links_emitted: emitted,
        total_edges: u.edges.len(),
        cycles: u.cycles,
        mutual_outside_cycles: u.mutual_outside_cycles,
        scoped: scope.is_some(),
        measured: None,
        window: None,
    };
    (out, census)
}

proof fn lemma_unscoped_kept(u: DepUniverse, n: int)
    requires
        0 <= n <= u.nodes@.len(),
    ensures
        kept_count(u, None, n) == n,
    decreases n,
{
    if n > 0 {
        lemma_unscoped_kept(u, n - 1);
    }
}

proof fn lemma_unscoped_links(u: DepUniverse, n: int)
    requires
        0 <= n <= u.edges@.len(),
        forall|j: int| 0 <= j < u.edges@.len() ==> id_kept(u, None, (#[trigger] ervs(u.edges@)[j]).0) && id_kept(
            u,
            None,
            ervs(u.edges@)[j].1,
        ),
    ensures
        link_count(u, None, n) == n,
    decreases n,
{
    if n > 0 {
        lemma_unscoped_links(u, n - 1);
        assert(id_kept(u, None, ervs(u.edges@)[n - 1].0));
    }
}

/// The cosmograph lane is uncapped: with no scope, the points table has a row for every file of
/// the run and the links table one for every import, since both ends of every import are files.
pub proof fn law_unscoped_tables_are_complete(trees: Seq<DepTree>, u: DepUniverse)
    requires
        universe_of(trees, u),
    ensures
        kept_count(u, None, u.nodes@.len() as int) == u.nodes@.len(),
        link_count(u, None, u.edges@.len() as int) == u.edges@.len(),
{
    let n = trees.len() as int;
    lemma_all_ends(trees, n);
    lemma_unscoped_kept(u, u.nodes@.len() as int);
    assert forall|j: int| 0 <= j < u.edges@.len() implies id_kept(u, None, (#[trigger] ervs(u.edges@)[j]).0) && id_kept(
        u,
        None,
        ervs(u.edges@)[j].1,
    ) by {
        let e = ervs(u.edges@)[j];
        assert(ervs(u.edges@).contains(e));
        let es = super::dep::universe::all_edges(trees, n);
        let fs = super::dep::universe::all_files(trees, n);
        assert(es.contains(e));
        let p = choose|p: int| 0 <= p < es.len() && es[p] == e;
        assert(read_in(fs, es[p].0) && read_in(fs, es[p].1));
        let a = choose|a: int| 0 <= a < fs.len() && (#[trigger] fs[a]).0 == e.0;
        let b = choose|b: int| 0 <= b < fs.len() && (#[trigger] fs[b]).0 == e.1;
        assert(keyed_in(u.nodes@, fs[a].0));
        assert(keyed_in(u.nodes@, fs[b].0));
    }
    lemma_unscoped_links(u, u.edges@.len() as int);
}


/// How many of the edges `es` end at `id`.
pub open spec fn edges_into(es: Seq<super::dep::universe::EdgeRow>, id: Seq<char>) -> nat {
    count_prior(es.len() as int, ends_at(es, id))
}

/// Edge `j` of `es` ends at `id`.
pub open spec fn ends_at(es: Seq<super::dep::universe::EdgeRow>, id: Seq<char>) -> spec_fn(int) -> bool {
    |j: int| es[j].to@ == id
}

/// Edge `j` of `es` starts at `id`.
pub open spec fn starts_at(es: Seq<super::dep::universe::EdgeRow>, id: Seq<char>) -> spec_fn(int) -> bool {
    |j: int| es[j].from@ == id
}

/// How many of the edges `es` start at `id`.
pub open spec fn edges_from(es: Seq<super::dep::universe::EdgeRow>, id: Seq<char>) -> nat {
    count_prior(es.len() as int, starts_at(es, id))
}

/// The edge ends among the first `k` edges of `es`: fan counts over a prefix.
proof fn lemma_fans_over_prefix(es: Seq<super::dep::universe::EdgeRow>, id: Seq<char>, k: int)
    requires
        0 <= k <= es.len(),
    ensures
        fan_in(ervs(es).take(k), id) == count_prior(k, ends_at(es, id)),
        fan_out(ervs(es).take(k), id) == count_prior(k, starts_at(es, id)),
    decreases k,
{
    if k > 0 {
        lemma_fans_over_prefix(es, id, k - 1);
        assert(ervs(es).take(k).drop_last() =~= ervs(es).take(k - 1));
        assert(ervs(es).take(k).last() == (es[k - 1].from@, es[k - 1].to@));
    }
}

/// A file's `fanIn` is the number of import edges whose target is that file, and its `fanOut` the
/// number whose source is that file: an edge `from -> to` counts once toward `fanOut(from)` and
/// once toward `fanIn(to)`, and toward nothing else.
pub proof fn law_fans_count_edge_ends(es: Seq<super::dep::universe::EdgeRow>, id: Seq<char>)
    ensures
        fan_in(ervs(es), id) == edges_into(es, id),
        fan_out(ervs(es), id) == edges_from(es, id),
{
    lemma_fans_over_prefix(es, id, es.len() as int);
    assert(ervs(es).take(es.len() as int) =~= ervs(es));
}


/// Each in-scope file's points row carries, as `fanIn`, the number of the run's import edges that
/// end at it and, as `fanOut`, the number that start at it (`degree` their sum); an out-of-scope
/// file adds no row.
pub proof fn law_point_rows_carry_edge_ends(u: DepUniverse, scope: Option<&str>, n: int)
    requires
        1 <= n <= u.nodes@.len(),
    ensures
        ({
            let k = u.nodes@[n - 1];
            let v = nodev(k.node);
            let es = u.edges@;
            node_rows(u, scope, n) == node_rows(u, scope, n - 1) + if kept_file(k, scope) {
                node_row(
                    k.id@,
                    v.0,
                    v.1,
                    v.2,
                    v.3,
                    edges_into(es, k.id@),
                    edges_from(es, k.id@),
                    texts(u.cycle_files@).contains(k.id@),
                )
            } else {
                Seq::empty()
            }
        }),
{
    law_fans_count_edge_ends(u.edges@, u.nodes@[n - 1].id@);
}

} // verus!
