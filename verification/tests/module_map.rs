use serde_json::Value;
use zzop_summary::module_map::{module_map_document, ModuleCensus, ModuleEdge, ModuleRow};

fn module(id: &str, files: usize, loc: Option<(u64, usize)>, in_cycle: bool) -> ModuleRow {
    ModuleRow { id: id.to_string(), files, loc, in_cycle }
}

fn map() -> Value {
    let modules = vec![module("crates", 5, Some((420, 3)), true), module("docs", 2, None, false)];
    let edges = vec![ModuleEdge { from: "crates".to_string(), to: "docs".to_string(), file_edges: 4 }];
    let census = ModuleCensus { files: 7, file_imports: 9, unfoldable: 1, file_cycles: 2 };
    serde_json::from_str(&module_map_document(1, &modules, &edges, &census)).expect("the map is JSON")
}

#[test]
fn lines_ship_only_with_the_count_they_were_measured_over() {
    let m = map();
    assert_eq!(m["modules"][0]["lines"], 420);
    assert_eq!(m["modules"][0]["linesMeasuredOver"], 3);
    assert!(m["modules"][1].get("lines").is_none(), "an unmeasured module carries no lines");
    assert!(m["modules"][1].get("linesMeasuredOver").is_none());
}

#[test]
fn the_census_counts_the_rows_it_carries() {
    let m = map();
    assert_eq!(m["census"]["modules"], 2);
    assert_eq!(m["census"]["moduleEdges"], 1);
    assert_eq!(m["census"]["fileImports"], 9);
    assert_eq!(m["census"]["unfoldableModules"], 1);
    assert_eq!(m["census"]["fileCycles"], 2);
    assert_eq!(m["fold"], 1);
    assert_eq!(m["edges"][0]["fileEdges"], 4);
    assert!(m["meaning"].as_str().unwrap().starts_with("A TOPOLOGY, never a verdict"));
}

#[test]
fn an_empty_map_is_still_a_whole_object() {
    let census = ModuleCensus { files: 0, file_imports: 0, unfoldable: 0, file_cycles: 0 };
    let text = module_map_document(2, &Vec::new(), &Vec::new(), &census);
    let m: Value = serde_json::from_str(&text).expect("JSON");
    assert_eq!(m["modules"], Value::Array(Vec::new()));
    assert_eq!(m["edges"], Value::Array(Vec::new()));
}
