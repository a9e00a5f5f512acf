//! `zzop graph` — the analysis run serialized as a picture (mermaid) or as tables (cosmograph), per
//! domain, with every cap and filter disclosed in the document itself.
pub mod cochange;
pub mod cosmograph;
pub mod dep;
pub mod distinct;
pub mod escape;
pub mod fold;
pub mod join;
pub mod label;
pub mod posture;
pub mod risk;
pub mod vocabulary;

use vstd::prelude::*;

use cochange::{CoChangeTree};
use dep::DepTree;
use fold::Fold;
use join::model::JoinAnalysis;
use posture::PostureTree;
use risk::RiskTree;
use vocabulary::{spec_accepts_fold, spec_default_top, GraphDomain};

verus! {

/// Default per-bucket relation cap of the join domain.
pub const DEFAULT_GRAPH_TOP: usize = 25;

/// Default node cap of the dependency domain.
pub const DEFAULT_DEP_TOP: usize = 40;

/// Default per-kind cap of the risk domain.
pub const DEFAULT_RISK_TOP: usize = 12;

/// Default per-tree route cap of the posture domain.
pub const DEFAULT_POSTURE_TOP: usize = 20;

/// Default edge cap of the co-change domain.
pub const DEFAULT_COCHANGE_TOP: usize = 30;

/// What each domain reads of one analysis run.
pub struct GraphRun {
    pub join: JoinAnalysis,
    pub dep: Vec<DepTree>,
    pub risk: Vec<RiskTree>,
    pub posture: Vec<PostureTree>,
    pub cochange: Vec<CoChangeTree>,
}

/// The engine's own wording a picture quotes: the tool's version line, how many structural health
/// scores it computes, which graph the degree columns describe, and which imports cycle detection
/// leaves out.
pub struct EngineText {
    pub tool: String,
    pub score_count: usize,
    pub resolved_only: String,
    pub erased_imports: String,
}

/// The fold a domain is drawn with: the requested depth where the domain takes one, else none.
pub open spec fn fold_for(domain: GraphDomain, fold: Option<usize>) -> Fold {
    if spec_accepts_fold(domain) {
        match fold {
            Some(d) => if d > 0 {
                Fold(Some(d))
            } else {
                Fold(None)
            },
            None => Fold(None),
        }
    } else {
        Fold(None)
    }
}

/// `r` is the picture of `domain` for run `run`: the domain's own projection with the cap given
/// or the domain's default, and the fold only where the domain accepts one.
pub open spec fn mermaid_of(run: GraphRun, scope: Option<&str>, top: usize, domain: GraphDomain, fold: Fold, text: EngineText, r: Seq<char>) -> bool {
    match domain {
        GraphDomain::Join => exists|g: join::picture::JoinGraph|
            join::picture::graph_of(run.join, scope, top, g) && r == #[trigger] join::mermaid::document(g, scope, top, text.tool@),
        GraphDomain::Dep => exists|u: dep::universe::DepUniverse|
            dep::universe::universe_of(run.dep@, u) && #[trigger] dep::picture::dep_picture(u, scope, top, fold, text.erased_imports@, r),
        GraphDomain::Risk => r == risk::risk_document(run.risk@, scope, top, text.score_count),
        GraphDomain::Posture => exists|names: Seq<join::picture::SourceRow>|
            posture::route_trees(posture::all_routes(run.posture@, scope, top, run.posture@.len() as int), names) && r
                == #[trigger] posture::posture_document(run.posture@, scope, top, names),
        GraphDomain::CoChange => {
            let sc = cochange::scoped(cochange::all_pairs(run.cochange@, run.cochange@.len() as int), scope);
            if fold.0 is None {
                r == cochange::cochange_document(run.cochange@, scope, top, fold, sc)
            } else {
                exists|out: Seq<cochange::Pair>|
                    cochange::folded::ordered_as(cochange::folded::boxed(fold, sc), out) && r
                        == #[trigger] cochange::cochange_document(run.cochange@, scope, top, fold, cochange::pvs(out))
            }
        },
    }
}

/// `zzop graph`: one domain of an analysis run as a mermaid flowchart. `top` defaults to the
/// domain's own cap; `fold` reaches only a domain that accepts one.
pub fn graph_mermaid(
    run: &GraphRun,
    scope: Option<&str>,
    top: Option<usize>,
    domain: GraphDomain,
    fold: Option<usize>,
    text: &EngineText,
) -> (r: String)
    ensures
        mermaid_of(
            *run,
            scope,
            match top {
                Some(t) => t,
                None => spec_default_top(domain),
            },
            domain,
            fold_for(domain, fold),
            *text,
            r@,
        ),
{
    let top = match top {
        Some(t) => t,
        None => domain.default_top(),
    };
    let f = if domain.accepts_fold() {
        Fold::of(fold)
    } else {
        Fold::of(None)
    };
    match domain {
        GraphDomain::Join => join::project(&run.join, scope, top, text.tool.as_str()),
        GraphDomain::Dep => dep::picture::project(&run.dep, scope, top, f, text.erased_imports.as_str()),
        GraphDomain::Risk => risk::project(&run.risk, scope, top, text.score_count),
        GraphDomain::Posture => posture::project(&run.posture, scope, top),
        GraphDomain::CoChange => cochange::project(&run.cochange, scope, top, f),
    }
}

/// A cosmograph table and the census line that goes beside it (to a different stream: a prose
/// line in the table would be a corrupt row).
pub struct CosmographOutput {
    pub data: String,
    pub census: String,
}

/// `zzop graph --format cosmograph-nodes|cosmograph-links`: the dependency domain of a run as one
/// NDJSON table, uncapped, with its census.
pub fn graph_cosmograph(trees: &Vec<DepTree>, scope: Option<&str>, links: bool, text: &EngineText) -> (r: CosmographOutput)
    ensures
        exists|u: dep::universe::DepUniverse|
            dep::universe::universe_of(trees@, u) && #[trigger] cosmograph_of(u, scope, links, *text, r),
{
    let u = dep::universe::collect(trees);
    let (data, census) = if links {
        cosmograph::links_ndjson(&u, scope)
    } else {
        cosmograph::nodes_ndjson(&u, scope)
    };
    let line = census.render(text.resolved_only.as_str(), text.erased_imports.as_str());
    let ghost c = census;
    let out = CosmographOutput { data, census: line };
    proof {
        assert(census_fits(u, scope, links, c));
        assert(cosmograph_of(u, scope, links, *text, out));
    }
    out
}

/// `r` is the cosmograph output of universe `u`: the chosen table, and its census line.
pub open spec fn cosmograph_of(u: dep::universe::DepUniverse, scope: Option<&str>, links: bool, text: EngineText, r: CosmographOutput) -> bool {
    let n = u.nodes@.len() as int;
    let e = u.edges@.len() as int;
    &&& r.data@ == if links {
        cosmograph::link_rows(u, scope, e)
    } else {
        cosmograph::node_rows(u, scope, n)
    }
    &&& exists|c: cosmograph::CosmographCensus|
        #[trigger] census_fits(u, scope, links, c) && r.census@ == cosmograph::census_text(c, text.resolved_only@, text.erased_imports@)
}

/// `c` is the census of the chosen table of universe `u`.
pub open spec fn census_fits(u: dep::universe::DepUniverse, scope: Option<&str>, links: bool, c: cosmograph::CosmographCensus) -> bool {
    let n = u.nodes@.len() as int;
    let e = u.edges@.len() as int;
    &&& c.nodes_emitted == cosmograph::kept_count(u, scope, n)
    &&& c.total_nodes == u.nodes@.len()
    &&& c.links_emitted == cosmograph::link_count(u, scope, e)
    &&& c.total_edges == u.edges@.len()
    &&& c.cycles == u.cycles
    &&& c.mutual_outside_cycles == u.mutual_outside_cycles
    &&& c.scoped == scope is Some
    &&& if links {
        c.measured is None && c.window is None
    } else {
        &&& c.measured matches Some(m) && m.loc == cosmograph::loc_count(u, scope, n) && m.git == cosmograph::git_count(u, scope, n)
        &&& c.window matches Some(w) && dep::universe::wvs(w@) == dep::universe::wvs(u.git_windows@)
    }
}

/// The cap a call draws with: the one given, or the domain's default.
pub open spec fn resolved_top(domain: GraphDomain, top: Option<usize>) -> usize {
    match top {
        Some(t) => t,
        None => spec_default_top(domain),
    }
}

/// A fold of zero is no fold, and a domain that takes no fold draws the same whatever fold is
/// asked for; leaving the cap out draws with the domain's default cap.
pub proof fn law_picture_defaults(domain: GraphDomain, n: usize)
    ensures
        fold_for(domain, Some(0)) == fold_for(domain, None),
        !spec_accepts_fold(domain) ==> fold_for(domain, Some(n)) == fold_for(domain, None),
        resolved_top(domain, None) == resolved_top(domain, Some(spec_default_top(domain))),
{
}

/// The picture relation fixes one text in every domain: two calls that resolve to the same cap and
/// the same fold draw the same picture. So a call without a cap draws what a call with the
/// domain's default cap draws, and a fold of zero, or a fold asked of a domain that takes none,
/// draws what no fold draws.
pub proof fn law_same_request_same_picture(
    run: GraphRun,
    scope: Option<&str>,
    domain: GraphDomain,
    text: EngineText,
    top1: Option<usize>,
    top2: Option<usize>,
    fold1: Option<usize>,
    fold2: Option<usize>,
    r1: Seq<char>,
    r2: Seq<char>,
)
    requires
        resolved_top(domain, top1) == resolved_top(domain, top2),
        fold_for(domain, fold1) == fold_for(domain, fold2),
        mermaid_of(run, scope, resolved_top(domain, top1), domain, fold_for(domain, fold1), text, r1),
        mermaid_of(run, scope, resolved_top(domain, top2), domain, fold_for(domain, fold2), text, r2),
    ensures
        r1 == r2,
{
    let top = resolved_top(domain, top1);
    let fold = fold_for(domain, fold1);
    match domain {
        GraphDomain::Join => {
            let g1 = choose|g: join::picture::JoinGraph|
                join::picture::graph_of(run.join, scope, top, g) && r1 == #[trigger] join::mermaid::document(g, scope, top, text.tool@);
            let g2 = choose|g: join::picture::JoinGraph|
                join::picture::graph_of(run.join, scope, top, g) && r2 == #[trigger] join::mermaid::document(g, scope, top, text.tool@);
            join::determined::law_join_document_is_determined(run.join, scope, top, text.tool@, g1, g2);
        },
        GraphDomain::Dep => {
            let u1 = choose|u: dep::universe::DepUniverse|
                dep::universe::universe_of(run.dep@, u) && #[trigger] dep::picture::dep_picture(u, scope, top, fold, text.erased_imports@, r1);
            let u2 = choose|u: dep::universe::DepUniverse|
                dep::universe::universe_of(run.dep@, u) && #[trigger] dep::picture::dep_picture(u, scope, top, fold, text.erased_imports@, r2);
            dep::determined::law_dep_document_is_determined(run.dep@, u1, u2, scope, top, fold, text.erased_imports@, r1, r2);
        },
        GraphDomain::Posture => {
            let routes = posture::all_routes(run.posture@, scope, top, run.posture@.len() as int);
            let n1 = choose|names: Seq<join::picture::SourceRow>|
                posture::route_trees(routes, names) && r1 == #[trigger] posture::posture_document(run.posture@, scope, top, names);
            let n2 = choose|names: Seq<join::picture::SourceRow>|
                posture::route_trees(routes, names) && r2 == #[trigger] posture::posture_document(run.posture@, scope, top, names);
            posture::lemma_route_trees_unique(routes, n1, n2);
            assert(posture::name_texts(n1).len() == n1.len() && posture::name_texts(n2).len() == n2.len());
            posture::lemma_groups_text_by_names(routes, n1, n2, n1.len() as int);
        },
        GraphDomain::CoChange => {
            if fold.0 is Some {
                let sc = cochange::scoped(cochange::all_pairs(run.cochange@, run.cochange@.len() as int), scope);
                let b = cochange::folded::boxed(fold, sc);
                let o1 = choose|out: Seq<cochange::Pair>|
                    cochange::folded::ordered_as(b, out) && r1 == #[trigger] cochange::cochange_document(run.cochange@, scope, top, fold, cochange::pvs(out));
                let o2 = choose|out: Seq<cochange::Pair>|
                    cochange::folded::ordered_as(b, out) && r2 == #[trigger] cochange::cochange_document(run.cochange@, scope, top, fold, cochange::pvs(out));
                cochange::folded::lemma_ordered_as_unique(b, o1, o2);
            }
        },
        _ => {},
    }
}

} // verus!
