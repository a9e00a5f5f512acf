//! The posture domain: each tree's mutating http routes (POST, PUT, PATCH, DELETE), grouped by
//! tree, drawn as a flag when this run's `mutating-route-no-auth` rule reported the route and as a
//! box otherwise; `--top` caps routes per tree.
use vstd::prelude::*;

use super::join::picture::SourceRow;
use super::label::{push_swapped, swap_quotes};
use crate::output::finding::text_or_empty;
use crate::sort::{sort_ranked, strictly_sorted, Ranked};
use crate::text::{chars_of, dec, find_char, find_char_in, is_prefix, owned, push_char, push_str, push_usize, starts_with, str_eq};

verus! {

broadcast use vstd::seq_lib::group_seq_properties;

/// One provided io row of a tree.
pub struct ProvideRow {
    pub kind: Option<String>,
    pub key: Option<String>,
    pub file: Option<String>,
    pub line: Option<u64>,
}

/// One finding of a tree, as far as this domain reads it.
pub struct FlagRow {
    pub rule_id: Option<String>,
    pub file: Option<String>,
    pub line: Option<u64>,
}

/// What the posture domain reads of one analyzed tree.
pub struct PostureTree {
    pub source_id: Option<String>,
    pub findings: Vec<FlagRow>,
    pub provides: Vec<ProvideRow>,
}

/// Whether `c` is alphabetic or numeric in Unicode's sense.
pub uninterp spec fn unicode_alphanumeric(c: char) -> bool;

/// `char::is_alphanumeric`: whether `c` has Unicode's Alphabetic or Numeric property. Its value is
/// named, not stated: the tables it reads are Unicode's.
#[verifier::external_body]
fn is_alphanumeric(c: char) -> (r: bool)
    ensures
        r == unicode_alphanumeric(c),
{
    c.is_alphanumeric()
}

/// `c` upper-cased in the ASCII range only.
pub open spec fn ascii_upper(c: char) -> char {
    if 'a' <= c && c <= 'z' {
        ((c as int) - 32) as char
    } else {
        c
    }
}

/// A route key's method: the text before its first space.
pub open spec fn method_of(key: Seq<char>) -> Option<Seq<char>> {
    let i = find_char(key, ' ');
    if i < 0 {
        None
    } else {
        Some(key.take(i))
    }
}

/// The method names a write: POST, PUT, PATCH or DELETE, in any ASCII case.
pub open spec fn is_write(m: Seq<char>) -> bool {
    let u = m.map_values(|c: char| ascii_upper(c));
    u == "POST"@ || u == "PUT"@ || u == "PATCH"@ || u == "DELETE"@
}

/// The kind is `http`.
pub open spec fn is_http_kind(kind: Option<String>) -> bool {
    match kind {
        Some(k) => k@ == "http"@,
        None => false,
    }
}

/// The key's method is a write.
pub open spec fn writes_key(key: Seq<char>) -> bool {
    match method_of(key) {
        Some(m) => is_write(m),
        None => false,
    }
}

/// A provided row is a mutating http route.
pub open spec fn mutating(p: ProvideRow) -> bool {
    is_http_kind(p.kind) && p.key is Some && p.file is Some && writes_key(p.key->0@)
}

/// Finding `f` reports the route at `file`, `line` as unguarded.
pub open spec fn flags(f: FlagRow, file: Seq<char>, line: u64) -> bool {
    match (f.rule_id, f.file) {
        (Some(r), Some(x)) => r@ == "mutating-route-no-auth"@ && x@ == file && line_or_zero(f.line) == line,
        _ => false,
    }
}

/// One of the first `n` findings reports the route at `file`, `line` as unguarded.
pub open spec fn flagged(fs: Seq<FlagRow>, file: Seq<char>, line: u64, n: int) -> bool
    decreases n,
{
    if n <= 0 {
        false
    } else {
        flagged(fs, file, line, n - 1) || flags(fs[n - 1], file, line)
    }
}

/// A line the engine did not give reads as zero.
pub open spec fn line_or_zero(l: Option<u64>) -> u64 {
    match l {
        Some(v) => v,
        None => 0,
    }
}

/// A route survives `--scope` when its tree or its file starts with the prefix.
pub open spec fn keeps(scope: Option<&str>, source: Seq<char>, file: Seq<char>) -> bool {
    match scope {
        None => true,
        Some(p) => is_prefix(p@, source) || is_prefix(p@, file),
    }
}

/// A drawn route: (tree, key, file, reported unguarded).
pub type RouteV = (Seq<char>, Seq<char>, Seq<char>, bool);

/// How many of the first `n` rows of tree `t` are mutating routes.
pub open spec fn mutating_count(t: PostureTree, n: int) -> nat
    decreases n,
{
    if n <= 0 {
        0
    } else {
        mutating_count(t, n - 1) + if mutating(t.provides@[n - 1]) {
            1nat
        } else {
            0nat
        }
    }
}

/// The routes of the first `n` rows of tree `t` that are drawn: mutating, in scope, at most `top`.
pub open spec fn tree_routes(t: PostureTree, scope: Option<&str>, top: usize, n: int) -> Seq<RouteV>
    decreases n,
{
    if n <= 0 {
        Seq::empty()
    } else {
        let r = tree_routes(t, scope, top, n - 1);
        let p = t.provides@[n - 1];
        let src = text_or_empty(t.source_id);
        if mutating(p) && keeps(scope, src, p.file->0@) && r.len() < top {
            r.push((src, p.key->0@, p.file->0@, flagged(t.findings@, p.file->0@, line_or_zero(p.line), t.findings@.len() as int)))
        } else {
            r
        }
    }
}

/// The drawn routes of the first `k` trees, tree by tree.
pub open spec fn all_routes(trees: Seq<PostureTree>, scope: Option<&str>, top: usize, k: int) -> Seq<RouteV>
    decreases k,
{
    if k <= 0 {
        Seq::empty()
    } else {
        let t = trees[k - 1];
        all_routes(trees, scope, top, k - 1) + tree_routes(t, scope, top, t.provides@.len() as int)
    }
}

/// How many mutating routes the first `k` trees extracted, before scope and cap.
pub open spec fn total_routes(trees: Seq<PostureTree>, k: int) -> nat
    decreases k,
{
    if k <= 0 {
        0
    } else {
        total_routes(trees, k - 1) + mutating_count(trees[k - 1], trees[k - 1].provides@.len() as int)
    }
}

/// How many of the first `n` routes were reported unguarded.
pub open spec fn unguarded_count(routes: Seq<RouteV>, n: int) -> nat
    decreases n,
{
    if n <= 0 {
        0
    } else {
        unguarded_count(routes, n - 1) + if routes[n - 1].3 {
            1nat
        } else {
            0nat
        }
    }
}

/// A tree name as a mermaid identifier: every non-alphanumeric character becomes `_`, and an empty
/// name becomes `tree`.
pub open spec fn sanitize(s: Seq<char>) -> Seq<char> {
    if s.len() == 0 {
        "tree"@
    } else {
        s.map_values(|c: char| if unicode_alphanumeric(c) { c } else { '_' })
    }
}

/// The statement for route `i`: a flag when reported unguarded, else a box.
pub open spec fn route_line(i: nat, r: RouteV) -> Seq<char> {
    let label = swap_quotes(r.1 + "<br/>"@ + r.2);
    if r.3 {
        "    r"@ + dec(i) + ">\""@ + label + "\"]\n"@
    } else {
        "    r"@ + dec(i) + "[\""@ + label + "\"]\n"@
    }
}

/// The statements for the routes of tree `name` among the first `n` routes.
pub open spec fn group_lines(routes: Seq<RouteV>, name: Seq<char>, n: int) -> Seq<char>
    decreases n,
{
    if n <= 0 {
        Seq::empty()
    } else {
        group_lines(routes, name, n - 1) + if routes[n - 1].0 == name {
            route_line((n - 1) as nat, routes[n - 1])
        } else {
            Seq::empty()
        }
    }
}

/// The subgraphs of the first `n` tree names.
pub open spec fn groups_text(routes: Seq<RouteV>, names: Seq<SourceRow>, n: int) -> Seq<char>
    decreases n,
{
    if n <= 0 {
        Seq::empty()
    } else {
        groups_text(routes, names, n - 1) + "  subgraph "@ + sanitize(names[n - 1].source@) + "\n"@ + group_lines(
            routes,
            names[n - 1].source@,
            routes.len() as int,
        ) + "  end\n"@
    }
}

/// `names` are the distinct trees of `routes`, sorted.
pub open spec fn route_trees(routes: Seq<RouteV>, names: Seq<SourceRow>) -> bool {
    &&& strictly_sorted(names)
    &&& forall|i: int| 0 <= i < names.len() ==> held(routes, (#[trigger] names[i]).source@, routes.len() as int)
    &&& forall|k: int| 0 <= k < routes.len() ==> listed(names, (#[trigger] routes[k]).0)
}

/// One of the first `n` routes is in tree `s`.
pub open spec fn held(routes: Seq<RouteV>, s: Seq<char>, n: int) -> bool {
    exists|k: int| 0 <= k < n && (#[trigger] routes[k]).0 == s
}

/// Some entry of `names` is `s`.
pub open spec fn listed(names: Seq<SourceRow>, s: Seq<char>) -> bool {
    exists|i: int| 0 <= i < names.len() && (#[trigger] names[i]).source@ == s
}

/// The document's fixed lead line.
pub const POSTURE_LEAD: &'static str = "%% zzop graph --domain posture — mutating attack surface and its guard status\n";

/// What the picture leaves out, and where guard status comes from.
pub const NOT_DRAWN: &'static str = "%% NOT drawn: read routes (a GET is not unguarded, it is a read) and non-http io. Guard status is this run's `mutating-route-no-auth` verdict, never re-derived here.\n";

/// The legend's text after the unguarded count.
pub const LEGEND_TAIL: &'static str = "). box = GUARDED-OR-EXEMPT, not proven guarded: the rule also stays silent on routes it cannot judge (uncovered language, unresolved handler, test file, auth-acquisition path). Absence of a finding is not proof of a guard.\"]\n";

/// The visible note of a run that extracted no mutating route.
pub const NO_ROUTES: &'static str = "  zzopEmpty[\"No mutating http routes extracted. That is NOT the same as a repo with no write surface — check the run's own warnings for an extraction gap first.\"]\n";

/// The posture picture of a run, given the sorted tree names of its drawn routes.
pub open spec fn posture_document(trees: Seq<PostureTree>, scope: Option<&str>, top: usize, names: Seq<SourceRow>) -> Seq<char> {
    let routes = all_routes(trees, scope, top, trees.len() as int);
    let total = total_routes(trees, trees.len() as int);
    let unguarded = unguarded_count(routes, routes.len() as int);
    POSTURE_LEAD@ + "%% mutating routes: drawn "@ + dec(routes.len()) + " / total "@ + dec(total) + " | reported unguarded: "@
        + dec(unguarded) + " | per-tree cap --top "@ + dec(top as nat) + (match scope {
        Some(p) => " | --scope "@ + p@,
        None => Seq::empty(),
    }) + "\n"@ + NOT_DRAWN@ + "flowchart LR\n"@ + groups_text(routes, names, names.len() as int)
        + "  zzopLegend[\"flag shape = reported unguarded ("@ + dec(unguarded) + LEGEND_TAIL@ + (if routes.len() < total {
        "  zzopNote[\"PARTIAL VIEW: "@ + dec(routes.len()) + " of "@ + dec(total) + " mutating routes drawn.\"]\n"@
    } else {
        Seq::empty()
    }) + (if total == 0 {
        NO_ROUTES@
    } else {
        Seq::empty()
    })
}

/// A drawn route.
pub struct Route {
    pub source: String,
    pub key: String,
    pub file: String,
    pub unguarded: bool,
}

/// The view of a route.
pub open spec fn rv(r: Route) -> RouteV {
    (r.source@, r.key@, r.file@, r.unguarded)
}

/// The views of a list of routes.
pub open spec fn rvs(rs: Seq<Route>) -> Seq<RouteV> {
    rs.map_values(|r: Route| rv(r))
}

fn upper(c: char) -> (r: char)
    ensures
        r == ascii_upper(c),
{
    if 'a' <= c && c <= 'z' {
        let cu = c as u32;
        let v: u8 = (cu - 32) as u8;
        v as char
    } else {
        c
    }
}

/// Whether `key` names a write method.
fn writes(key: &str) -> (r: bool)
    ensures
        r == writes_key(key@),
{
    let cs = chars_of(key);
    match find_char_in(&cs, ' ') {
        None => false,
        Some(p) => {
            let mut up: Vec<char> = Vec::new();
            let mut i: usize = 0;
            while i < p
                invariant
                    i <= p,
                    p < cs@.len(),
                    up@ == cs@.take(i as int).map_values(|c: char| ascii_upper(c)),
                decreases p - i,
            {
                up.push(upper(cs[i]));
                proof {
                    assert(cs@.take(i + 1) =~= cs@.take(i as int).push(cs@[i as int]));
                    assert(up@ =~= cs@.take(i + 1).map_values(|c: char| ascii_upper(c)));
                }
                i = i + 1;
            }
            let u = crate::text::string_of(&up);
            str_eq(u.as_str(), "POST") || str_eq(u.as_str(), "PUT") || str_eq(u.as_str(), "PATCH") || str_eq(u.as_str(), "DELETE")
        },
    }
}

fn is_http(kind: &Option<String>) -> (r: bool)
    ensures
        r == is_http_kind(*kind),
{
    match kind {
        Some(k) => str_eq(k.as_str(), "http"),
        None => false,
    }
}

fn is_flagged(fs: &Vec<FlagRow>, file: &str, line: u64) -> (r: bool)
    ensures
        r == flagged(fs@, file@, line, fs@.len() as int),
{
    let mut found = false;
    let mut i: usize = 0;
    while i < fs.len()
        invariant
            i <= fs@.len(),
            found == flagged(fs@, file@, line, i as int),
        decreases fs@.len() - i,
    {
        let f = &fs[i];
        let rule_ok = match &f.rule_id {
            Some(r) => str_eq(r.as_str(), "mutating-route-no-auth"),
            None => false,
        };
        let file_ok = match &f.file {
            Some(x) => str_eq(x.as_str(), file),
            None => false,
        };
        let at = match f.line {
            Some(l) => l,
            None => 0,
        };
        if rule_ok && file_ok && at == line {
            found = true;
        }
        i = i + 1;
    }
    found
}

/// The drawn routes of one tree, and how many mutating routes it has.
fn tree_draw(t: &PostureTree, scope: Option<&str>, top: usize, out: &mut Vec<Route>) -> (total: usize)
    ensures
        rvs(final(out)@) == rvs(old(out)@) + tree_routes(*t, scope, top, t.provides@.len() as int),
        total == mutating_count(*t, t.provides@.len() as int),
{
    let src = match &t.source_id {
        Some(s) => owned(s.as_str()),
        None => String::new(),
    };
    let ghost o0 = rvs(out@);
    let mut total: usize = 0;
    let mut drawn: usize = 0;
    let mut j: usize = 0;
    while j < t.provides.len()
        invariant
            j <= t.provides@.len(),
            src@ == text_or_empty(t.source_id),
            rvs(out@) == o0 + tree_routes(*t, scope, top, j as int),
            drawn == tree_routes(*t, scope, top, j as int).len(),
            total == mutating_count(*t, j as int),
            total <= j,
        decreases t.provides@.len() - j,
    {
        let p = &t.provides[j];
        match (&p.key, &p.file) {
            (Some(key), Some(file)) => {
                if is_http(&p.kind) && writes(key.as_str()) {
                    total = total + 1;
                    let inside = match scope {
                        None => true,
                        Some(pre) => starts_with(src.as_str(), pre) || starts_with(file.as_str(), pre),
                    };
                    if inside && drawn < top {
                        let line = match p.line {
                            Some(l) => l,
                            None => 0,
                        };
                        let ghost before = out@;
                        let r = Route { source: owned(src.as_str()), key: owned(key.as_str()), file: owned(file.as_str()), unguarded: is_flagged(&t.findings, file.as_str(), line) };
                        let ghost v = rv(r);
                        out.push(r);
                        drawn = drawn + 1;
                        proof {
                            assert(rvs(out@) =~= rvs(before).push(v));
                        }
                    }
                }
            },
            _ => {},
        }
        proof {
            assert(rvs(out@) =~= o0 + tree_routes(*t, scope, top, j + 1));
        }
        j = j + 1;
    }
    total
}

/// The sorted distinct trees of `routes`.
fn tree_names(routes: &Vec<Route>) -> (r: Vec<SourceRow>)
    ensures
        route_trees(rvs(routes@), r@),
{
    let ghost rs = rvs(routes@);
    let mut names: Vec<SourceRow> = Vec::new();
    let mut k: usize = 0;
    while k < routes.len()
        invariant
            k <= routes@.len(),
            rs == rvs(routes@),
            forall|a: int, b: int| 0 <= a < names@.len() && 0 <= b < names@.len() && a != b ==> (#[trigger] names@[a]).source@ != (#[trigger] names@[b]).source@,
            forall|i: int| 0 <= i < names@.len() ==> held(rs, (#[trigger] names@[i]).source@, k as int),
            forall|q: int| 0 <= q < k ==> listed(names@, (#[trigger] rs[q]).0),
        decreases routes@.len() - k,
    {
        let name = routes[k].source.as_str();
        let mut seen = false;
        let mut i: usize = 0;
        while i < names.len()
            invariant
                i <= names@.len(),
                seen ==> listed(names@, name@),
                !seen ==> forall|u: int| 0 <= u < i ==> (#[trigger] names@[u]).source@ != name@,
            decreases names@.len() - i,
        {
            if str_eq(names[i].source.as_str(), name) {
                seen = true;
            }
            i = i + 1;
        }
        proof {
            assert(rs[k as int].0 == name@);
        }
        if !seen {
            let ghost n0 = names@;
            names.push(SourceRow { source: owned(name), zero: false });
            proof {
                let n1 = names@;
                assert(n1[n0.len() as int].source@ == name@);
                assert forall|q: int| 0 <= q < k + 1 implies listed(n1, (#[trigger] rs[q]).0) by {
                    if q < k {
                        let u = choose|u: int| 0 <= u < n0.len() && (#[trigger] n0[u]).source@ == rs[q].0;
                        assert(n1[u] == n0[u]);
                    } else {
                        assert(n1[n0.len() as int].source@ == rs[q].0);
                    }
                }
                assert forall|i: int| 0 <= i < n1.len() implies held(rs, (#[trigger] n1[i]).source@, k + 1) by {
                    if i < n0.len() {
                        assert(n1[i] == n0[i]);
                        assert(held(rs, n0[i].source@, k as int));
                        let q = choose|q: int| 0 <= q < k && (#[trigger] rs[q]).0 == n0[i].source@;
                        assert(rs[q].0 == n1[i].source@);
                    } else {
                        assert(rs[k as int].0 == n1[i].source@);
                    }
                }
                assert forall|a: int, b: int| 0 <= a < n1.len() && 0 <= b < n1.len() && a != b implies (#[trigger] n1[a]).source@ != (#[trigger] n1[b]).source@ by {
                    if a < n0.len() && b < n0.len() {
                        assert(n1[a] == n0[a] && n1[b] == n0[b]);
                    } else if a < n0.len() {
                        assert(n1[a] == n0[a]);
                    } else {
                        assert(n1[b] == n0[b]);
                    }
                }
            }
        } else {
            proof {
                assert forall|i: int| 0 <= i < names@.len() implies held(rs, (#[trigger] names@[i]).source@, k + 1) by {
                    assert(held(rs, names@[i].source@, k as int));
                    let q = choose|q: int| 0 <= q < k && (#[trigger] rs[q]).0 == names@[i].source@;
                    assert(rs[q].0 == names@[i].source@);
                }
            }
        }
        k = k + 1;
    }
    let ghost m = names@;
    let sorted = sort_ranked(names);
    proof {
        let s = sorted@;
        assert forall|i: int| 0 <= i < s.len() implies held(rs, (#[trigger] s[i]).source@, rs.len() as int) by {
            vstd::seq_lib::to_multiset_contains(s, s[i]);
            vstd::seq_lib::to_multiset_contains(m, s[i]);
            assert(s.contains(s[i]));
            let u = choose|u: int| 0 <= u < m.len() && m[u] == s[i];
            assert(held(rs, m[u].source@, rs.len() as int));
        }
        assert forall|q: int| 0 <= q < rs.len() implies listed(s, (#[trigger] rs[q]).0) by {
            let u = choose|u: int| 0 <= u < m.len() && (#[trigger] m[u]).source@ == rs[q].0;
            vstd::seq_lib::to_multiset_contains(s, m[u]);
            vstd::seq_lib::to_multiset_contains(m, m[u]);
            assert(m.contains(m[u]));
            let i = choose|i: int| 0 <= i < s.len() && s[i] == m[u];
        }
    }
    sorted
}

fn push_sanitized(out: &mut String, s: &str)
    ensures
        final(out)@ == old(out)@ + sanitize(s@),
{
    let cs = chars_of(s);
    if cs.len() == 0 {
        push_str(out, "tree");
        return;
    }
    let ghost start = out@;
    let mut i: usize = 0;
    while i < cs.len()
        invariant
            i <= cs@.len(),
            cs@ == s@,
            out@ == start + s@.take(i as int).map_values(|c: char| if unicode_alphanumeric(c) { c } else { '_' }),
        decreases cs@.len() - i,
    {
        let c = cs[i];
        push_char(out, if is_alphanumeric(c) { c } else { '_' });
        proof {
            assert(s@.take(i + 1) =~= s@.take(i as int).push(c));
            assert(out@ =~= start + s@.take(i + 1).map_values(|c: char| if unicode_alphanumeric(c) { c } else { '_' }));
        }
        i = i + 1;
    }
    proof {
        assert(s@.take(cs@.len() as int) =~= s@);
    }
}

fn push_groups(out: &mut String, routes: &Vec<Route>, names: &Vec<SourceRow>)
    ensures
        final(out)@ == old(out)@ + groups_text(rvs(routes@), names@, names@.len() as int),
{
    let ghost start = out@;
    let ghost rs = rvs(routes@);
    let mut n: usize = 0;
    while n < names.len()
        invariant
            n <= names@.len(),
            rs == rvs(routes@),
            out@ == start + groups_text(rs, names@, n as int),
        decreases names@.len() - n,
    {
        let name = names[n].source.as_str();
        let mut g = owned("  subgraph ");
        push_sanitized(&mut g, name);
        push_str(&mut g, "\n");
        let ghost lead = g@;
        let mut k: usize = 0;
        while k < routes.len()
            invariant
                k <= routes@.len(),
                rs == rvs(routes@),
                g@ == lead + group_lines(rs, name@, k as int),
            decreases routes@.len() - k,
        {
            let r = &routes[k];
            proof {
                assert(rs[k as int] == rv(*r));
            }
            if str_eq(r.source.as_str(), name) {
                let mut line = owned("    r");
                push_usize(&mut line, k);
                if r.unguarded {
                    push_str(&mut line, ">\"");
                } else {
                    push_str(&mut line, "[\"");
                }
                let mut raw = owned(r.key.as_str());
                push_str(&mut raw, "<br/>");
                push_str(&mut raw, r.file.as_str());
                push_swapped(&mut line, raw.as_str());
                push_str(&mut line, "\"]\n");
                proof {
                    assert(raw@ =~= r.key@ + "<br/>"@ + r.file@);
                    assert(line@ =~= route_line(k as nat, rv(*r)));
                }
                push_str(&mut g, line.as_str());
            }
            proof {
                assert(g@ =~= lead + group_lines(rs, name@, k + 1));
            }
            k = k + 1;
        }
        push_str(&mut g, "  end\n");
        push_str(out, g.as_str());
        proof {
            assert(out@ =~= start + groups_text(rs, names@, n + 1));
        }
        n = n + 1;
    }
}

/// The posture domain: a run's mutating routes as a mermaid flowchart, grouped by tree.
pub fn project(trees: &Vec<PostureTree>, scope: Option<&str>, top: usize) -> (r: String)
    ensures
        exists|names: Seq<SourceRow>| route_trees(all_routes(trees@, scope, top, trees@.len() as int), names) && r@
            == #[trigger] posture_document(trees@, scope, top, names),
{
    let mut routes: Vec<Route> = Vec::new();
    let mut total: u128 = 0;
    let mut k: usize = 0;
    while k < trees.len()
        invariant
            k <= trees@.len(),
            rvs(routes@) == all_routes(trees@, scope, top, k as int),
            total == total_routes(trees@, k as int),
            total <= k * (usize::MAX as int),
        decreases trees@.len() - k,
    {
        let ghost before = rvs(routes@);
        let n = tree_draw(&trees[k], scope, top, &mut routes);
        proof {
            assert((k + 1) * (usize::MAX as int) == k * (usize::MAX as int) + usize::MAX) by (nonlinear_arith);
            assert((k + 1) * (usize::MAX as int) < 0x1_0000_0000_0000_0000_0000_0000_0000_0000) by (nonlinear_arith)
                requires
                    k < usize::MAX,
                    usize::MAX < 0x1_0000_0000_0000_0000,
            ;
        }
        total = total + n as u128;
        k = k + 1;
    }
    let ghost rs = rvs(routes@);
    let mut unguarded: usize = 0;
    let mut i: usize = 0;
    while i < routes.len()
        invariant
            i <= routes@.len(),
            rs == rvs(routes@),
            unguarded == unguarded_count(rs, i as int),
            unguarded <= i,
        decreases routes@.len() - i,
    {
        proof {
            assert(rs[i as int] == rv(routes@[i as int]));
        }
        if routes[i].unguarded {
            unguarded = unguarded + 1;
        }
        i = i + 1;
    }
    let names = tree_names(&routes);
    let mut out = owned(POSTURE_LEAD);
    push_str(&mut out, "%% mutating routes: drawn ");
    push_usize(&mut out, routes.len());
    push_str(&mut out, " / total ");
    crate::text::push_dec_wide(&mut out, total);
    push_str(&mut out, " | reported unguarded: ");
    push_usize(&mut out, unguarded);
    push_str(&mut out, " | per-tree cap --top ");
    push_usize(&mut out, top);
    let mut suffix = String::new();
    match scope {
        Some(p) => {
            push_str(&mut suffix, " | --scope ");
            push_str(&mut suffix, p);
        },
        None => {},
    }
    push_str(&mut out, suffix.as_str());
    push_str(&mut out, "\n");
    push_str(&mut out, NOT_DRAWN);
    push_str(&mut out, "flowchart LR\n");
    push_groups(&mut out, &routes, &names);
    push_str(&mut out, "  zzopLegend[\"flag shape = reported unguarded (");
    push_usize(&mut out, unguarded);
    push_str(&mut out, LEGEND_TAIL);
    let mut tail = String::new();
    if (routes.len() as u128) < total {
        push_str(&mut tail, "  zzopNote[\"PARTIAL VIEW: ");
        push_usize(&mut tail, routes.len());
        push_str(&mut tail, " of ");
        crate::text::push_dec_wide(&mut tail, total);
        push_str(&mut tail, " mutating routes drawn.\"]\n");
    }
    push_str(&mut out, tail.as_str());
    if total == 0 {
        push_str(&mut out, NO_ROUTES);
    }
    proof {
        assert(rs.len() == routes@.len());
        assert(out@ =~= posture_document(trees@, scope, top, names@));
    }
    out
}

/// The tree names of a name list.
pub open spec fn name_texts(names: Seq<SourceRow>) -> Seq<Seq<char>> {
    names.map_values(|r: SourceRow| r.source@)
}

proof fn lemma_sorted_names_unique(a: Seq<SourceRow>, b: Seq<SourceRow>)
    requires
        strictly_sorted(a),
        strictly_sorted(b),
        forall|k: Seq<char>| name_texts(a).contains(k) <==> name_texts(b).contains(k),
    ensures
        name_texts(a) == name_texts(b),
    decreases a.len(),
{
    if a.len() == 0 {
        if b.len() > 0 {
            assert(name_texts(b).contains(name_texts(b)[0]));
        }
        assert(name_texts(a) =~= name_texts(b));
    } else {
        let x = name_texts(a)[0];
        assert(name_texts(b).contains(x));
        let j = choose|j: int| 0 <= j < name_texts(b).len() && name_texts(b)[j] == x;
        let y = name_texts(b)[0];
        assert(name_texts(a).contains(y));
        let i = choose|i: int| 0 <= i < name_texts(a).len() && name_texts(a)[i] == y;
        if j > 0 && i > 0 {
            assert(b[0].before(b[j]));
            assert(a[0].before(a[i]));
            SourceRow::lemma_order(a[0], b[0], a[0]);
        }
        assert(x == y);
        let a1 = a.drop_first();
        let b1 = b.drop_first();
        assert(name_texts(a1) =~= name_texts(a).drop_first());
        assert(name_texts(b1) =~= name_texts(b).drop_first());
        assert forall|z: Seq<char>| name_texts(a1).contains(z) <==> name_texts(b1).contains(z) by {
            if name_texts(a1).contains(z) {
                let k = choose|k: int| 0 <= k < name_texts(a1).len() && name_texts(a1)[k] == z;
                assert(name_texts(a)[k + 1] == z);
                assert(a[0].before(a[k + 1]));
                SourceRow::lemma_order(a[0], a[0], a[0]);
                assert(name_texts(a).contains(z));
                let m = choose|m: int| 0 <= m < name_texts(b).len() && name_texts(b)[m] == z;
                assert(m != 0);
                assert(name_texts(b1)[m - 1] == z);
            }
            if name_texts(b1).contains(z) {
                let k = choose|k: int| 0 <= k < name_texts(b1).len() && name_texts(b1)[k] == z;
                assert(name_texts(b)[k + 1] == z);
                assert(b[0].before(b[k + 1]));
                SourceRow::lemma_order(b[0], b[0], b[0]);
                assert(name_texts(b).contains(z));
                let m = choose|m: int| 0 <= m < name_texts(a).len() && name_texts(a)[m] == z;
                assert(m != 0);
                assert(name_texts(a1)[m - 1] == z);
            }
        }
        lemma_sorted_names_unique(a1, b1);
        assert forall|k: int| 0 <= k < name_texts(a).len() implies name_texts(a)[k] == name_texts(b)[k] by {
            if k > 0 {
                assert(name_texts(a)[k] == name_texts(a1)[k - 1]);
                assert(name_texts(b)[k] == name_texts(b1)[k - 1]);
            }
        }
        assert(name_texts(a) =~= name_texts(b));
    }
}

/// The sorted tree names of the drawn routes are unique.
pub proof fn lemma_route_trees_unique(routes: Seq<RouteV>, n1: Seq<SourceRow>, n2: Seq<SourceRow>)
    requires
        route_trees(routes, n1),
        route_trees(routes, n2),
    ensures
        name_texts(n1) == name_texts(n2),
{
    assert forall|k: Seq<char>| name_texts(n1).contains(k) <==> name_texts(n2).contains(k) by {
        if name_texts(n1).contains(k) {
            let i = choose|i: int| 0 <= i < name_texts(n1).len() && name_texts(n1)[i] == k;
            assert(held(routes, n1[i].source@, routes.len() as int));
            let q = choose|q: int| 0 <= q < routes.len() && (#[trigger] routes[q]).0 == k;
            assert(listed(n2, routes[q].0));
            let p = choose|p: int| 0 <= p < n2.len() && (#[trigger] n2[p]).source@ == k;
            assert(name_texts(n2)[p] == k);
        }
        if name_texts(n2).contains(k) {
            let i = choose|i: int| 0 <= i < name_texts(n2).len() && name_texts(n2)[i] == k;
            assert(held(routes, n2[i].source@, routes.len() as int));
            let q = choose|q: int| 0 <= q < routes.len() && (#[trigger] routes[q]).0 == k;
            assert(listed(n1, routes[q].0));
            let p = choose|p: int| 0 <= p < n1.len() && (#[trigger] n1[p]).source@ == k;
            assert(name_texts(n1)[p] == k);
        }
    }
    lemma_sorted_names_unique(n1, n2);
}

/// The posture picture reads its tree names only by their text.
pub proof fn lemma_groups_text_by_names(routes: Seq<RouteV>, n1: Seq<SourceRow>, n2: Seq<SourceRow>, n: int)
    requires
        name_texts(n1) == name_texts(n2),
        n <= n1.len(),
    ensures
        groups_text(routes, n1, n) == groups_text(routes, n2, n),
    decreases n,
{
    if n > 0 {
        lemma_groups_text_by_names(routes, n1, n2, n - 1);
        assert(name_texts(n1).len() == n1.len() && name_texts(n2).len() == n2.len());
        assert(name_texts(n1)[n - 1] == n1[n - 1].source@);
        assert(name_texts(n2)[n - 1] == n2[n - 1].source@);
        assert(n1[n - 1].source@ == n2[n - 1].source@);
    }
}


/// Row `i` of tree `t` is a mutating route whose tree id or file path starts with `p`.
pub open spec fn route_touches(t: PostureTree, p: Seq<char>, i: int) -> bool {
    is_prefix(p, text_or_empty(t.source_id)) || is_prefix(p, t.provides@[i].file->0@)
}

/// `--scope p` keeps a mutating route whenever its tree id or its file path starts with `p`: when
/// every mutating route of a tree does, the scoped view draws exactly what the unscoped view draws.
pub proof fn law_scope_keeps_routes_by_tree_or_file(t: PostureTree, p: &str, top: usize, n: int)
    requires
        n <= t.provides@.len(),
        forall|i: int| 0 <= i < n && mutating(t.provides@[i]) ==> #[trigger] route_touches(t, p@, i),
    ensures
        tree_routes(t, Some(p), top, n) == tree_routes(t, None, top, n),
    decreases n,
{
    if n > 0 {
        law_scope_keeps_routes_by_tree_or_file(t, p, top, n - 1);
        if mutating(t.provides@[n - 1]) {
            assert(route_touches(t, p@, n - 1));
        }
    }
}

/// Under `--scope p` every drawn route's tree id or file path starts with `p`.
pub proof fn law_drawn_routes_are_in_scope(t: PostureTree, p: &str, top: usize, n: int)
    requires
        n <= t.provides@.len(),
    ensures
        forall|q: int|
            0 <= q < tree_routes(t, Some(p), top, n).len() ==> is_prefix(p@, (#[trigger] tree_routes(t, Some(p), top, n)[q]).0)
                || is_prefix(p@, tree_routes(t, Some(p), top, n)[q].2),
    decreases n,
{
    if n > 0 {
        law_drawn_routes_are_in_scope(t, p, top, n - 1);
        let r = tree_routes(t, Some(p), top, n - 1);
        assert forall|q: int| 0 <= q < tree_routes(t, Some(p), top, n).len() implies is_prefix(p@, (#[trigger] tree_routes(t, Some(p), top, n)[q]).0)
            || is_prefix(p@, tree_routes(t, Some(p), top, n)[q].2) by {
            if q < r.len() {
                assert(tree_routes(t, Some(p), top, n)[q] == r[q]);
            }
        }
    }
}

} // verus!
