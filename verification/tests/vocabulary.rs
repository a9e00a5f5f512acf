use zzop_summary::graph::vocabulary::{GraphDomain, GraphFormat};
use zzop_summary::graph::{
    DEFAULT_COCHANGE_TOP, DEFAULT_DEP_TOP, DEFAULT_GRAPH_TOP, DEFAULT_POSTURE_TOP, DEFAULT_RISK_TOP,
};

#[test]
fn every_domain_spelling_reads_back_as_its_domain() {
    for (name, _) in GraphDomain::wire_defaults() {
        let d = GraphDomain::from_wire(name).expect("a listed spelling parses");
        let again = GraphDomain::wire_defaults()
            .into_iter()
            .find(|(n, _)| GraphDomain::from_wire(n) == Some(d))
            .unwrap();
        assert_eq!(again.0, name);
    }
    assert_eq!(GraphDomain::from_wire("Dep"), None);
    assert_eq!(GraphDomain::from_wire(""), None);
}

#[test]
fn every_format_spelling_reads_back_as_its_format() {
    assert_eq!(GraphFormat::from_wire("mermaid"), Some(GraphFormat::Mermaid));
    assert_eq!(GraphFormat::from_wire("cosmograph-nodes"), Some(GraphFormat::CosmographNodes));
    assert_eq!(GraphFormat::from_wire("cosmograph-links"), Some(GraphFormat::CosmographLinks));
    assert_eq!(GraphFormat::from_wire("cosmograph"), None);
    assert!(!GraphFormat::Mermaid.is_cosmograph());
    assert!(GraphFormat::CosmographNodes.is_cosmograph());
    assert!(GraphFormat::CosmographLinks.is_cosmograph());
}

#[test]
fn each_domain_owns_its_default_cap_and_the_defaults_table_agrees() {
    assert_eq!(GraphDomain::Join.default_top(), DEFAULT_GRAPH_TOP);
    assert_eq!(GraphDomain::Dep.default_top(), DEFAULT_DEP_TOP);
    assert_eq!(GraphDomain::Risk.default_top(), DEFAULT_RISK_TOP);
    assert_eq!(GraphDomain::Posture.default_top(), DEFAULT_POSTURE_TOP);
    assert_eq!(GraphDomain::CoChange.default_top(), DEFAULT_COCHANGE_TOP);
    assert_eq!(
        GraphDomain::wire_defaults(),
        vec![("join", 25), ("dep", 40), ("risk", 12), ("posture", 20), ("cochange", 30)]
    );
}

#[test]
fn only_the_path_relation_domains_accept_a_fold() {
    assert_eq!(GraphDomain::fold_capable_names(), vec!["dep", "cochange"]);
    assert!(GraphDomain::Dep.accepts_fold());
    assert!(GraphDomain::CoChange.accepts_fold());
    assert!(!GraphDomain::Join.accepts_fold());
    assert!(!GraphDomain::Risk.accepts_fold());
    assert!(!GraphDomain::Posture.accepts_fold());
}
