//! The vocabulary `zzop graph` accepts: which picture (`GraphDomain`) and how it is serialized
//! (`GraphFormat`), plus the per-domain defaults and capability answers every surface derives from.
use vstd::prelude::*;

use super::{
    DEFAULT_COCHANGE_TOP, DEFAULT_DEP_TOP, DEFAULT_GRAPH_TOP, DEFAULT_POSTURE_TOP,
    DEFAULT_RISK_TOP,
};
use crate::text::str_eq;

verus! {

/// How `zzop graph` serializes.
#[derive(Clone, Copy, PartialEq, Eq, Structural, Debug)]
pub enum GraphFormat {
    /// The default, and the only format every domain supports.
    Mermaid,
    /// The dep domain's points table.
    CosmographNodes,
    /// The dep domain's links table.
    CosmographLinks,
}

/// The format a wire spelling names, if any.
pub open spec fn format_of_wire(s: Seq<char>) -> Option<GraphFormat> {
    if s == "mermaid"@ {
        Some(GraphFormat::Mermaid)
    } else if s == "cosmograph-nodes"@ {
        Some(GraphFormat::CosmographNodes)
    } else if s == "cosmograph-links"@ {
        Some(GraphFormat::CosmographLinks)
    } else {
        None
    }
}

/// The wire spelling of a format.
pub open spec fn format_wire_name(f: GraphFormat) -> Seq<char> {
    match f {
        GraphFormat::Mermaid => "mermaid"@,
        GraphFormat::CosmographNodes => "cosmograph-nodes"@,
        GraphFormat::CosmographLinks => "cosmograph-links"@,
    }
}

impl GraphFormat {
    /// The format `s` spells; `None` for anything else.
    pub fn from_wire(s: &str) -> (r: Option<GraphFormat>)
        ensures
            r == format_of_wire(s@),
    {
        if str_eq(s, "mermaid") {
            Some(GraphFormat::Mermaid)
        } else if str_eq(s, "cosmograph-nodes") {
            Some(GraphFormat::CosmographNodes)
        } else if str_eq(s, "cosmograph-links") {
            Some(GraphFormat::CosmographLinks)
        } else {
            None
        }
    }

    /// Every accepted spelling, in the order the usage line lists them.
    pub fn wire_names() -> (r: Vec<&'static str>)
        ensures
            r@.len() == 3,
            r@[0]@ == "mermaid"@,
            r@[1]@ == "cosmograph-nodes"@,
            r@[2]@ == "cosmograph-links"@,
    {
        vec!["mermaid", "cosmograph-nodes", "cosmograph-links"]
    }

    /// Is this a cosmograph table?
    pub fn is_cosmograph(self) -> (r: bool)
        ensures
            r == (self == GraphFormat::CosmographNodes || self == GraphFormat::CosmographLinks),
    {
        match self {
            GraphFormat::CosmographNodes | GraphFormat::CosmographLinks => true,
            GraphFormat::Mermaid => false,
        }
    }
}

/// Which picture `zzop graph` draws.
#[derive(Clone, Copy, PartialEq, Eq, Structural, Debug)]
pub enum GraphDomain {
    /// The cross-layer join — nodes are io keys.
    Join,
    /// The file import graph — nodes are files, cycles drawn distinctly.
    Dep,
    /// Blast-radius hubs and extraction seams.
    Risk,
    /// The mutating attack surface and its guard status.
    Posture,
    /// Git co-change over the same nodes `Dep` draws.
    CoChange,
}

/// The domain a wire spelling names, if any.
pub open spec fn domain_of_wire(s: Seq<char>) -> Option<GraphDomain> {
    if s == "join"@ {
        Some(GraphDomain::Join)
    } else if s == "dep"@ {
        Some(GraphDomain::Dep)
    } else if s == "risk"@ {
        Some(GraphDomain::Risk)
    } else if s == "posture"@ {
        Some(GraphDomain::Posture)
    } else if s == "cochange"@ {
        Some(GraphDomain::CoChange)
    } else {
        None
    }
}

/// The wire spelling of a domain.
pub open spec fn domain_wire_name(d: GraphDomain) -> Seq<char> {
    match d {
        GraphDomain::Join => "join"@,
        GraphDomain::Dep => "dep"@,
        GraphDomain::Risk => "risk"@,
        GraphDomain::Posture => "posture"@,
        GraphDomain::CoChange => "cochange"@,
    }
}

/// The domains in wire order.
pub open spec fn domain_at(i: int) -> GraphDomain {
    if i == 0 {
        GraphDomain::Join
    } else if i == 1 {
        GraphDomain::Dep
    } else if i == 2 {
        GraphDomain::Risk
    } else if i == 3 {
        GraphDomain::Posture
    } else {
        GraphDomain::CoChange
    }
}

/// Each domain's default `--top`.
pub open spec fn spec_default_top(d: GraphDomain) -> usize {
    match d {
        GraphDomain::Join => DEFAULT_GRAPH_TOP,
        GraphDomain::Dep => DEFAULT_DEP_TOP,
        GraphDomain::Risk => DEFAULT_RISK_TOP,
        GraphDomain::Posture => DEFAULT_POSTURE_TOP,
        GraphDomain::CoChange => DEFAULT_COCHANGE_TOP,
    }
}

/// Whether `--fold` means anything for a domain: only the relation domains over paths.
pub open spec fn spec_accepts_fold(d: GraphDomain) -> bool {
    d == GraphDomain::Dep || d == GraphDomain::CoChange
}

impl GraphDomain {
    /// The domain `s` spells; `None` for anything else.
    pub fn from_wire(s: &str) -> (r: Option<GraphDomain>)
        ensures
            r == domain_of_wire(s@),
    {
        if str_eq(s, "join") {
            Some(GraphDomain::Join)
        } else if str_eq(s, "dep") {
            Some(GraphDomain::Dep)
        } else if str_eq(s, "risk") {
            Some(GraphDomain::Risk)
        } else if str_eq(s, "posture") {
            Some(GraphDomain::Posture)
        } else if str_eq(s, "cochange") {
            Some(GraphDomain::CoChange)
        } else {
            None
        }
    }

    /// Every accepted spelling, in the order the usage line lists them.
    pub fn wire_names() -> (r: Vec<&'static str>)
        ensures
            r@.len() == 5,
            forall|i: int| 0 <= i < 5 ==> (#[trigger] r@[i])@ == domain_wire_name(domain_at(i)),
    {
        let r = vec!["join", "dep", "risk", "posture", "cochange"];
        assert(r@[0]@ == domain_wire_name(domain_at(0)));
        r
    }

    /// This domain's `--top` default.
    pub fn default_top(self) -> (r: usize)
        ensures
            r == spec_default_top(self),
    {
        match self {
            GraphDomain::Join => DEFAULT_GRAPH_TOP,
            GraphDomain::Dep => DEFAULT_DEP_TOP,
            GraphDomain::Risk => DEFAULT_RISK_TOP,
            GraphDomain::Posture => DEFAULT_POSTURE_TOP,
            GraphDomain::CoChange => DEFAULT_COCHANGE_TOP,
        }
    }

    /// Whether `--fold <n>` means anything for this domain.
    pub fn accepts_fold(self) -> (r: bool)
        ensures
            r == spec_accepts_fold(self),
    {
        match self {
            GraphDomain::Dep | GraphDomain::CoChange => true,
            GraphDomain::Join | GraphDomain::Risk | GraphDomain::Posture => false,
        }
    }
}

/// Every domain's wire spelling reads back as that domain: the usage line, the rejection message
/// and the dispatch share one vocabulary.
pub proof fn lemma_domain_wire_round_trip(d: GraphDomain)
    ensures
        domain_of_wire(domain_wire_name(d)) == Some(d),
{
    reveal_strlit("join");
    reveal_strlit("dep");
    reveal_strlit("risk");
    reveal_strlit("posture");
    reveal_strlit("cochange");
    assert("risk"@[0] != "join"@[0]);
    assert("dep"@.len() != "join"@.len());
    assert("posture"@.len() != "join"@.len() && "posture"@.len() != "dep"@.len()
        && "posture"@.len() != "risk"@.len());
    assert("cochange"@.len() != "join"@.len() && "cochange"@.len() != "dep"@.len()
        && "cochange"@.len() != "risk"@.len() && "cochange"@.len() != "posture"@.len());
}

/// Every format's wire spelling reads back as that format.
pub proof fn lemma_format_wire_round_trip(f: GraphFormat)
    ensures
        format_of_wire(format_wire_name(f)) == Some(f),
{
    reveal_strlit("mermaid");
    reveal_strlit("cosmograph-nodes");
    reveal_strlit("cosmograph-links");
    assert("cosmograph-nodes"@.len() != "mermaid"@.len());
    assert("cosmograph-links"@.len() != "mermaid"@.len());
    assert("cosmograph-links"@[11] != "cosmograph-nodes"@[11]);
}

impl GraphDomain {
    /// The domains that accept `--fold`, in wire order — what a refusal message names as the
    /// alternatives.
    pub fn fold_capable_names() -> (r: Vec<&'static str>)
        ensures
            r@.len() == 2,
            r@[0]@ == domain_wire_name(GraphDomain::Dep),
            r@[1]@ == domain_wire_name(GraphDomain::CoChange),
    {
        let names = GraphDomain::wire_names();
        let mut out: Vec<&'static str> = Vec::new();
        let mut i: usize = 0;
        while i < names.len()
            invariant
                names@.len() == 5,
                forall|k: int| 0 <= k < 5 ==> (#[trigger] names@[k])@ == domain_wire_name(domain_at(k)),
                i <= 5,
                out@.len() == if i <= 1 { 0int } else if i <= 4 { 1int } else { 2int },
                i > 1 ==> out@[0]@ == domain_wire_name(GraphDomain::Dep),
                i > 4 ==> out@[1]@ == domain_wire_name(GraphDomain::CoChange),
            decreases 5 - i,
        {
            let n = names[i];
            proof {
                lemma_domain_wire_round_trip(domain_at(i as int));
            }
            let d = GraphDomain::from_wire(n);
            if let Some(d) = d {
                if d.accepts_fold() {
                    out.push(n);
                }
            }
            i = i + 1;
        }
        out
    }

    /// `(wire name, default cap)` for every domain, in wire order.
    pub fn wire_defaults() -> (r: Vec<(&'static str, usize)>)
        ensures
            r@.len() == 5,
            forall|k: int|
                0 <= k < 5 ==> (#[trigger] r@[k]).0@ == domain_wire_name(domain_at(k)) && r@[k].1
                    == spec_default_top(domain_at(k)),
    {
        let names = GraphDomain::wire_names();
        let mut out: Vec<(&'static str, usize)> = Vec::new();
        let mut i: usize = 0;
        while i < names.len()
            invariant
                names@.len() == 5,
                forall|k: int| 0 <= k < 5 ==> (#[trigger] names@[k])@ == domain_wire_name(domain_at(k)),
                i <= 5,
                out@.len() == i,
                forall|k: int|
                    0 <= k < i ==> (#[trigger] out@[k]).0@ == domain_wire_name(domain_at(k))
                        && out@[k].1 == spec_default_top(domain_at(k)),
            decreases 5 - i,
        {
            let n = names[i];
            proof {
                lemma_domain_wire_round_trip(domain_at(i as int));
            }
            let top = match GraphDomain::from_wire(n) {
                Some(d) => d.default_top(),
                None => 0,
            };
            out.push((n, top));
            i = i + 1;
        }
        out
    }
}

} // verus!
