use mir_public::settings::{parse_u32, AnalysisConfig};

#[test]
fn defaults_when_unset() {
    let c = AnalysisConfig::from_values(None, None);
    assert_eq!(c.output_path, "mir_public_graph.json");
    assert_eq!(c.depth_k, 0);
}

#[test]
fn values_when_set() {
    let c = AnalysisConfig::from_values(Some("./out/graph.json".to_string()), Some("3".to_string()));
    assert_eq!(c.output_path, "./out/graph.json");
    assert_eq!(c.depth_k, 3);
}

#[test]
fn depth_that_is_not_a_number_is_zero() {
    let c = AnalysisConfig::from_values(None, Some("three".to_string()));
    assert_eq!(c.depth_k, 0);
    let c = AnalysisConfig::from_values(None, Some("4294967296".to_string()));
    assert_eq!(c.depth_k, 0);
}

#[test]
fn parsing_matches_std() {
    for s in ["0", "7", "+7", "007", "4294967295", "4294967296", "99999999999999999999", "", "+", "-1", "-0", " 1", "1 ", "1a", "++1", "٣"] {
        assert_eq!(parse_u32(s), s.parse::<u32>().ok(), "{s:?}");
    }
}
