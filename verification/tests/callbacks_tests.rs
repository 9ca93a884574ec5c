use mir_public::callbacks::MirPublicCallbacks;
use mir_public::collect::MirLineRecord;
use mir_public::settings::AnalysisConfig;

#[test]
fn new_callbacks_know_no_input_yet() {
    let c = MirPublicCallbacks::new(AnalysisConfig { output_path: "g.json".to_string(), depth_k: 2 });
    assert_eq!(c.file_name(), "");
    assert_eq!(c.output_path(), "g.json");
    assert_eq!(c.depth_k(), 2);
}

#[test]
fn no_records_no_graph() {
    let c = MirPublicCallbacks::new(AnalysisConfig { output_path: "g.json".to_string(), depth_k: 0 });
    assert!(c.analyze(vec![], "rustc".to_string()).is_none());
}

#[test]
fn graph_for_the_input() {
    let mut c = MirPublicCallbacks::new(AnalysisConfig { output_path: "g.json".to_string(), depth_k: 5 });
    c.set_file_name("src/main.rs".to_string());
    assert_eq!(c.file_name(), "src/main.rs");
    let rec = MirLineRecord {
        function: "main".to_string(),
        file: "src/main.rs".to_string(),
        line: 1,
        snippet: "fn main() {}".to_string(),
        mir_items: vec!["return".to_string()],
        defs: vec![],
        uses: vec![],
        succ_blocks: vec![],
    };
    let g = c.analyze(vec![rec], "rustc 1.80".to_string()).unwrap();
    assert_eq!(g.target.entry_file, "src/main.rs");
    assert_eq!(g.target.entry_function, "crate_entry");
    assert_eq!(g.target.depth_k, 5);
    assert_eq!(g.nodes.len(), 1);
    assert!(g.edges.is_empty());
}
