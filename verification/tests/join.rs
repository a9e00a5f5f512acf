use zzop_summary::graph::join::bucket_role;
use zzop_summary::graph::join::model::{BucketItem, Endpoint, JoinAnalysis, JoinEdge, TreeSource};
use zzop_summary::graph::join::project;
use zzop_summary::graph::DEFAULT_GRAPH_TOP;

const TOOL: &str = "zzop 0.0.0";

fn s(x: &str) -> Option<String> {
    Some(x.to_string())
}

fn tree(id: &str, zero: bool) -> TreeSource {
    TreeSource { source_id: s(id), join_contribution_zero: zero }
}

fn item(source: &str, key: Option<&str>, file: &str) -> BucketItem {
    BucketItem {
        key: key.map(str::to_string),
        raw: None,
        source: s(source),
        kind: s("http"),
        file: s(file),
        line: Some(1),
        candidate_sources: Vec::new(),
    }
}

/// One tree that serves a route and one that calls it (a joined edge), plus one member of every
/// other bucket.
fn engine_output() -> JoinAnalysis {
    let mut unresolved = item("web", None, "src/client.ts");
    unresolved.raw = s("`${BASE}\n/users`");
    let mut ambiguous = item("web", Some("GET /health"), "src/health.ts");
    ambiguous.candidate_sources = vec![s("api"), s("docs")];
    JoinAnalysis {
        trees: vec![tree("api", false), tree("web", false), tree("docs", true)],
        edges: vec![JoinEdge {
            kind: s("http"),
            key: s("GET /api/users"),
            from: Endpoint { source: s("web"), file: s("src/client.ts") },
            to: Endpoint { source: s("api"), file: s("src/routes.ts") },
            low_confidence: None,
        }],
        unconsumed_provides: vec![item("api", Some("DELETE /api/users/{}"), "src/routes.ts")],
        unprovided_consumes: vec![item("web", Some("GET /api/orders"), "src/orders.ts")],
        unresolved_consumes: vec![unresolved],
        external_consumes: vec![item("web", Some("GET https://vendor.com/v1/ping"), "src/vendor.ts")],
        ambiguous_consumes: vec![ambiguous],
    }
}

fn rendered() -> String {
    project(&engine_output(), None, DEFAULT_GRAPH_TOP, TOOL)
}

#[test]
fn the_document_is_a_mermaid_flowchart_with_one_subgraph_per_analyzed_source() {
    let out = rendered();
    assert!(out.starts_with("flowchart LR\n"), "{out}");
    for source in ["api", "web", "docs"] {
        assert!(out.contains(&format!("[\"{source}\"]")), "missing {source}: {out}");
    }
}

#[test]
fn every_join_bucket_has_an_explicit_graph_role() {
    let buckets = [
        "unconsumedProvides",
        "unprovidedConsumes",
        "unresolvedConsumes",
        "externalConsumes",
        "ambiguousConsumes",
    ];
    let unmapped: Vec<&str> = buckets.iter().copied().filter(|b| bucket_role(b).is_none()).collect();
    assert!(unmapped.is_empty(), "{unmapped:?}");
    assert!(bucket_role("edges").is_none());
}

#[test]
fn every_join_bucket_is_represented_by_a_labelled_node() {
    let out = rendered();
    for role in ["unconsumed", "unprovided", "unresolved", "external", "ambiguous", "linked", "candidate"] {
        assert!(out.contains(&format!("{role} · http")), "role {role} has no node: {out}");
    }
}

#[test]
fn a_joined_edge_is_drawn_from_the_consumer_node_to_the_provider_node() {
    let out = rendered();
    assert!(out.contains("([\"linked · http GET /api/users\"])"), "{out}");
    assert!(out.contains("[\"linked · http GET /api/users\"]:::linked"), "{out}");
    assert_eq!(out.lines().filter(|l| l.contains(" --> ")).count(), 1, "{out}");
    assert_eq!(out.lines().filter(|l| l.contains(" -. \"ambiguous\" .-> ")).count(), 2, "{out}");
}

#[test]
fn a_source_that_contributed_nothing_to_the_join_still_appears_and_says_why() {
    let mut engine = engine_output();
    engine.ambiguous_consumes = Vec::new();
    let out = project(&engine, None, DEFAULT_GRAPH_TOP, TOOL);
    assert!(out.contains("extracted no joinable io"), "{out}");
}

#[test]
fn truncation_is_disclosed_in_the_header_census_and_as_a_visible_node() {
    let mut engine = engine_output();
    engine.unprovided_consumes = vec![
        item("web", Some("GET /a"), "src/a.ts"),
        item("web", Some("GET /b"), "src/b.ts"),
        item("web", Some("GET /c"), "src/c.ts"),
    ];
    let out = project(&engine, None, 1, TOOL);
    assert!(out.contains("%%   unprovidedConsumes: 1/3/3 from 3 site(s)"), "{out}");
    let note = out
        .lines()
        .find(|l| l.contains("TRUNCATED"))
        .unwrap_or_else(|| panic!("no visible truncation node: {out}"));
    assert!(note.contains(":::note") && note.contains("unprovidedConsumes 1/3"), "{note}");
    assert!(out.contains("GET /a") && !out.contains("GET /b"), "{out}");
}

#[test]
fn scoping_is_disclosed_in_the_header_and_as_a_visible_node() {
    let out = project(&engine_output(), Some("api"), DEFAULT_GRAPH_TOP, TOOL);
    assert!(out.contains("%% scope: api"), "{out}");
    let note = out
        .lines()
        .find(|l| l.contains("SCOPED to 'api'"))
        .unwrap_or_else(|| panic!("no visible scope node: {out}"));
    assert!(note.contains("relation(s) outside the scope are not drawn"), "{note}");
    assert!(!out.contains("GET /api/orders"), "{out}");
    assert!(out.contains("linked · http GET /api/users"), "{out}");
}

#[test]
fn an_unlabelable_item_is_counted_in_the_header_instead_of_being_silently_dropped() {
    let mut engine = engine_output();
    engine.unresolved_consumes = vec![item("web", None, "src/x.ts")];
    let out = project(&engine, None, DEFAULT_GRAPH_TOP, TOOL);
    assert!(
        out.contains("%%   unresolvedConsumes: 0/0/0 from 1 site(s) (+1 with neither key nor raw"),
        "{out}"
    );
}

#[test]
fn the_header_names_what_the_format_cannot_render() {
    let out = rendered();
    for absent in ["crossLayerFindings", "hostRekeyCounts", "CALL SITES ARE AGGREGATED"] {
        assert!(out.contains(absent), "{absent}: {out}");
    }
}

#[test]
fn labels_are_sanitized_so_raw_source_text_cannot_break_the_document() {
    let mut engine = engine_output();
    let mut odd = item("web", None, "src/v.ts");
    odd.raw = s("fetch(\"#<a>\"\n  + x)");
    engine.external_consumes = vec![odd];
    let out = project(&engine, None, DEFAULT_GRAPH_TOP, TOOL);
    let line = out
        .lines()
        .find(|l| l.contains("external ·"))
        .unwrap_or_else(|| panic!("the external node vanished: {out}"));
    assert!(line.contains("fetch(#quot;#35;#lt;a#gt;#quot; + x)"), "{line}");
}

#[test]
fn the_document_is_byte_stable_for_the_same_input() {
    assert_eq!(rendered(), rendered());
    let mut reordered = engine_output();
    reordered.trees.reverse();
    assert_eq!(rendered(), project(&reordered, None, DEFAULT_GRAPH_TOP, TOOL));
}

#[test]
fn an_empty_join_still_renders_a_valid_document_with_a_full_census() {
    let empty = JoinAnalysis {
        trees: vec![tree("solo", false)],
        edges: Vec::new(),
        unconsumed_provides: Vec::new(),
        unprovided_consumes: Vec::new(),
        unresolved_consumes: Vec::new(),
        external_consumes: Vec::new(),
        ambiguous_consumes: Vec::new(),
    };
    let out = project(&empty, None, DEFAULT_GRAPH_TOP, TOOL);
    assert!(out.starts_with("flowchart LR\n"), "{out}");
    for bucket in [
        "edges",
        "unconsumedProvides",
        "unprovidedConsumes",
        "unresolvedConsumes",
        "externalConsumes",
        "ambiguousConsumes",
    ] {
        assert!(out.contains(&format!("%%   {bucket}: 0/0/0 from 0 site(s)")), "{out}");
    }
    assert!(out.contains("no rows in this view"), "{out}");
}

#[test]
fn repeated_call_sites_collapse_into_one_relation_and_the_census_publishes_both_scales() {
    let mut engine = engine_output();
    engine.unprovided_consumes = vec![
        item("web", Some("GET /api/orders"), "src/a.ts"),
        item("web", Some("GET /api/orders"), "src/b.ts"),
        item("web", Some("GET /api/orders"), "src/c.ts"),
    ];
    let out = project(&engine, None, DEFAULT_GRAPH_TOP, TOOL);
    assert!(out.contains("%%   unprovidedConsumes: 1/1/1 from 3 site(s)"), "{out}");
    assert_eq!(
        out.lines().filter(|l| l.contains("unprovided · http GET /api/orders")).count(),
        1,
        "{out}"
    );
    let capped = project(&engine, None, 1, TOOL);
    assert!(!capped.contains("TRUNCATED"), "{capped}");
}

#[test]
fn the_whole_document_for_the_fixture_is_exact() {
    let mut engine = engine_output();
    engine.unresolved_consumes = Vec::new();
    engine.external_consumes = Vec::new();
    engine.unconsumed_provides = Vec::new();
    engine.unprovided_consumes = Vec::new();
    let out = project(&engine, Some("web"), 1, TOOL);
    let expected_lines = [
        "flowchart LR",
        "%% zzop graph — the cross-layer join as a mermaid flowchart (paste into any mermaid viewer).",
        "%% tool: zzop 0.0.0",
        "%% scope: web",
        "%% top: 1 drawn relations per bucket",
        "%% relations drawn/inScope/total (and the call sites they aggregate):",
        "%%   edges: 1/1/1 from 1 site(s)",
        "%%   unconsumedProvides: 0/0/0 from 0 site(s)",
        "%%   unprovidedConsumes: 0/0/0 from 0 site(s)",
        "%%   unresolvedConsumes: 0/0/0 from 0 site(s)",
        "%%   externalConsumes: 0/0/0 from 0 site(s)",
        "%%   ambiguousConsumes: 1/1/1 from 1 site(s)",
        "%% a node is (source, side, kind, key): CALL SITES ARE AGGREGATED and no file/line appears here — use `zzop facts` or `zzop cross` for per-site detail.",
        "%% NOT rendered by this surface: crossLayerFindings (the drift/near-miss VERDICTS — findings about the join, not members of it), hostRekeyCounts, warnings/configWarnings/disclosure.",
        "  subgraph s0[\"api\"]",
        "    n0[\"linked · http GET /api/users\"]:::linked",
        "    n1[\"candidate · http GET /health\"]:::candidate",
        "  end",
        "  subgraph s1[\"docs\"]",
        "    n2[\"candidate · http GET /health\"]:::candidate",
        "  end",
        "  subgraph s2[\"web\"]",
        "    n3([\"linked · http GET /api/users\"]):::linked",
        "    n4([\"ambiguous · http GET /health\"]):::ambiguous",
        "  end",
        "  n3 --> n0",
        "  n4 -. \"ambiguous\" .-> n1",
        "  n4 -. \"ambiguous\" .-> n2",
        "  disclosure0[\"SCOPED to 'web' — 0 relation(s) outside the scope are not drawn.\"]:::note",
        "  classDef linked fill:#e6f4ea,stroke:#1e7d32,color:#111",
        "  classDef candidate fill:#f1f8e9,stroke:#558b2f,color:#111",
        "  classDef unconsumed fill:#fff4e5,stroke:#b26a00,color:#111",
        "  classDef unprovided fill:#fdecea,stroke:#c62828,color:#111",
        "  classDef ambiguous fill:#f3e5f5,stroke:#7b1fa2,color:#111",
        "  classDef unresolved fill:#eceff1,stroke:#546e7a,color:#111",
        "  classDef external fill:#e8eaf6,stroke:#3949ab,color:#111",
        "  classDef note fill:#ffffff,stroke:#111,color:#111,stroke-dasharray:4 3",
    ];
    let expected = format!("{}\n", expected_lines.join("\n"));
    assert_eq!(out, expected);
}

#[test]
fn a_low_confidence_join_is_dotted_and_labelled_with_its_reason() {
    let mut engine = engine_output();
    engine.edges[0].low_confidence = s("generic key");
    let out = project(&engine, None, DEFAULT_GRAPH_TOP, TOOL);
    assert!(out.contains(" -. \"low confidence: generic key\" .-> "), "{out}");
    assert_eq!(out.lines().filter(|l| l.contains(" --> ")).count(), 0, "{out}");
}

#[test]
fn a_node_reached_twice_keeps_the_stronger_role() {
    let mut engine = engine_output();
    engine.unconsumed_provides = vec![item("api", Some("GET /health"), "src/h.ts")];
    let out = project(&engine, None, DEFAULT_GRAPH_TOP, TOOL);
    assert!(out.contains("[\"candidate · http GET /health\"]:::candidate"), "{out}");
    assert!(!out.contains("unconsumed · http GET /health"), "{out}");
}
