//! The module map: the import graph of a run collapsed so that one module is the first `fold`
//! segments of a file path, as data rather than as a picture. Every module and every edge at that
//! depth is present; nothing is capped.
use vstd::prelude::*;

use crate::graph::cosmograph::{json_bool, push_bool};
use crate::json::{comma_joined, json_quoted, json_string, push_joined};
use crate::output::legends::{module_map_note, module_map_note_text};
use crate::output::rule_prose::template::strs;
use crate::text::{dec, owned, push_dec, push_str, push_usize};

verus! {

/// One module: its path prefix, how many files it holds, the summed lines with how many of its
/// files that sum covers (absent when none was measured), and whether one of its files sits in an
/// import cycle.
pub struct ModuleRow {
    pub id: String,
    pub files: usize,
    pub loc: Option<(u64, usize)>,
    pub in_cycle: bool,
}

/// An edge between two modules and how many file-level imports it collapsed.
pub struct ModuleEdge {
    pub from: String,
    pub to: String,
    pub file_edges: usize,
}

/// The counts the map reports beside its rows.
pub struct ModuleCensus {
    pub files: usize,
    pub file_imports: usize,
    pub unfoldable: usize,
    pub file_cycles: usize,
}

/// A module's row. `lines` and `linesMeasuredOver` appear together, and only when something in
/// the module was measured.
pub open spec fn module_json(m: ModuleRow) -> Seq<char> {
    "{\"files\":"@ + dec(m.files as nat) + ",\"id\":"@ + json_quoted(m.id@) + ",\"inCycle\":"@ + json_bool(m.in_cycle)
        + match m.loc {
        Some((lines, measured)) => ",\"lines\":"@ + dec(lines as nat) + ",\"linesMeasuredOver\":"@ + dec(measured as nat),
        None => Seq::empty(),
    } + "}"@
}

/// An edge's row.
pub open spec fn edge_json(e: ModuleEdge) -> Seq<char> {
    "{\"fileEdges\":"@ + dec(e.file_edges as nat) + ",\"from\":"@ + json_quoted(e.from@) + ",\"to\":"@ + json_quoted(e.to@)
        + "}"@
}

/// The module map as one compact JSON object: the census, the edges, the fold depth, the folded
/// legend and the modules, keys in order.
pub open spec fn module_map_text(fold: usize, modules: Seq<ModuleRow>, edges: Seq<ModuleEdge>, census: ModuleCensus) -> Seq<char> {
    "{\"census\":{\"fileCycles\":"@ + dec(census.file_cycles as nat) + ",\"fileImports\":"@ + dec(census.file_imports as nat)
        + ",\"files\":"@ + dec(census.files as nat) + ",\"moduleEdges\":"@ + dec(edges.len()) + ",\"modules\":"@ + dec(
        modules.len(),
    ) + ",\"unfoldableModules\":"@ + dec(census.unfoldable as nat) + "},\"edges\":["@ + comma_joined(
        edges.map_values(|e: ModuleEdge| edge_json(e)),
    ) + "],\"fold\":"@ + dec(fold as nat) + ",\"meaning\":"@ + json_quoted(module_map_note_text()) + ",\"modules\":["@
        + comma_joined(modules.map_values(|m: ModuleRow| module_json(m))) + "]}"@
}

fn module_row_text(m: &ModuleRow) -> (r: String)
    ensures
        r@ == module_json(*m),
{
    let mut t = owned("{\"files\":");
    push_usize(&mut t, m.files);
    push_str(&mut t, ",\"id\":");
    let q = json_string(m.id.as_str());
    push_str(&mut t, q.as_str());
    push_str(&mut t, ",\"inCycle\":");
    push_bool(&mut t, m.in_cycle);
    match m.loc {
        Some((lines, measured)) => {
            push_str(&mut t, ",\"lines\":");
            push_dec(&mut t, lines);
            push_str(&mut t, ",\"linesMeasuredOver\":");
            push_usize(&mut t, measured);
        },
        None => {},
    }
    push_str(&mut t, "}");
    t
}

fn edge_row_text(e: &ModuleEdge) -> (r: String)
    ensures
        r@ == edge_json(*e),
{
    let mut t = owned("{\"fileEdges\":");
    push_usize(&mut t, e.file_edges);
    push_str(&mut t, ",\"from\":");
    let q = json_string(e.from.as_str());
    push_str(&mut t, q.as_str());
    push_str(&mut t, ",\"to\":");
    let q = json_string(e.to.as_str());
    push_str(&mut t, q.as_str());
    push_str(&mut t, "}");
    t
}

/// The module map at `fold` path segments, as JSON text: every module and every edge, uncapped,
/// the census beside them and the folded legend.
pub fn module_map_document(fold: usize, modules: &Vec<ModuleRow>, edges: &Vec<ModuleEdge>, census: &ModuleCensus) -> (r: String)
    ensures
        r@ == module_map_text(fold, modules@, edges@, *census),
{
    let mut mrows: Vec<String> = Vec::new();
    let mut i: usize = 0;
    while i < modules.len()
        invariant
            i <= modules@.len(),
            strs(mrows@) == modules@.take(i as int).map_values(|m: ModuleRow| module_json(m)),
        decreases modules@.len() - i,
    {
        let ghost before = mrows@;
        mrows.push(module_row_text(&modules[i]));
        proof {
            assert(strs(mrows@) =~= strs(before).push(module_json(modules@[i as int])));
            assert(modules@.take(i + 1).map_values(|m: ModuleRow| module_json(m)) =~= modules@.take(i as int).map_values(
                |m: ModuleRow| module_json(m),
            ).push(module_json(modules@[i as int])));
        }
        i = i + 1;
    }
    proof {
        assert(modules@.take(i as int) =~= modules@);
    }
    let mut erows: Vec<String> = Vec::new();
    let mut j: usize = 0;
    while j < edges.len()
        invariant
            j <= edges@.len(),
            strs(erows@) == edges@.take(j as int).map_values(|e: ModuleEdge| edge_json(e)),
        decreases edges@.len() - j,
    {
        let ghost before = erows@;
        erows.push(edge_row_text(&edges[j]));
        proof {
            assert(strs(erows@) =~= strs(before).push(edge_json(edges@[j as int])));
            assert(edges@.take(j + 1).map_values(|e: ModuleEdge| edge_json(e)) =~= edges@.take(j as int).map_values(
                |e: ModuleEdge| edge_json(e),
            ).push(edge_json(edges@[j as int])));
        }
        j = j + 1;
    }
    proof {
        assert(edges@.take(j as int) =~= edges@);
    }
    let mut out = owned("{\"census\":{\"fileCycles\":");
    push_usize(&mut out, census.file_cycles);
    push_str(&mut out, ",\"fileImports\":");
    push_usize(&mut out, census.file_imports);
    push_str(&mut out, ",\"files\":");
    push_usize(&mut out, census.files);
    push_str(&mut out, ",\"moduleEdges\":");
    push_usize(&mut out, edges.len());
    push_str(&mut out, ",\"modules\":");
    push_usize(&mut out, modules.len());
    push_str(&mut out, ",\"unfoldableModules\":");
    push_usize(&mut out, census.unfoldable);
    push_str(&mut out, "},\"edges\":[");
    push_joined(&mut out, &erows);
    push_str(&mut out, "],\"fold\":");
    push_usize(&mut out, fold);
    push_str(&mut out, ",\"meaning\":");
    let note = module_map_note();
    let q = json_string(note.as_str());
    push_str(&mut out, q.as_str());
    push_str(&mut out, ",\"modules\":[");
    push_joined(&mut out, &mrows);
    push_str(&mut out, "]}");
    out
}

} // verus!
