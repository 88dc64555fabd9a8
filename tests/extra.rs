use deeptracking::chunking::chunk_spans;
use deeptracking::dependency::{Dependency, DependencyType, TrackerError};
use deeptracking::fingerprint::calculate_file_hash;
use deeptracking::graph::DependencyGraph;
use deeptracking::store::find_candidates;
use deeptracking::tracker::CodeTracker;

fn s(x: &str) -> String {
    x.to_string()
}

fn dep(a: &str, b: &str, k: DependencyType) -> Dependency {
    Dependency::new(s(a), s(b), k)
}

#[test]
fn candidates_need_more_than_a_third_of_dimensions() {
    let neighbors = vec![vec![0, 1], vec![1, 2], vec![1], vec![0, 2], vec![2], vec![]];
    assert_eq!(find_candidates(&neighbors, 6, 3), vec![1, 2]);
    assert_eq!(find_candidates(&neighbors, 3, 3), vec![0, 1, 2]);
    assert!(find_candidates(&vec![], 3, 4).is_empty());
    assert_eq!(find_candidates(&vec![vec![5, 0]], 1, 2), vec![0]);
}

#[test]
fn chunk_spans_overlap() {
    assert_eq!(chunk_spans(10, 4, 1), vec![(0, 4), (3, 7), (6, 10), (9, 10)]);
    assert_eq!(chunk_spans(3, 4, 1), vec![(0, 3)]);
    assert_eq!(chunk_spans(0, 4, 0), vec![(0, 0)]);
    assert_eq!(chunk_spans(8, 4, 0), vec![(0, 4), (4, 8)]);
}

#[test]
fn function_dependencies_match_file_names() {
    let mut g = DependencyGraph::new();
    g.add_dependencies(vec![
        dep("src/parse.rs", "lib/util.rs", DependencyType::Import),
        dep("src/main.rs", "function:parse_args", DependencyType::FunctionCall),
    ])
    .unwrap();
    let got = g.get_function_dependencies(&s("parse")).unwrap();
    assert_eq!(got.len(), 2);
    assert!(g.get_function_dependencies(&s("src")).unwrap().is_empty());
    let util = g.get_function_dependencies(&s("util")).unwrap();
    assert_eq!(util.len(), 1);
    assert_eq!(util[0].source, "src/parse.rs");
}

#[test]
fn tracker_records_results_and_errors() {
    let mut t = CodeTracker::new(s("/proj")).unwrap();
    assert_eq!(t.root_path(), "/proj");
    t.record_analysis(Ok(vec![dep("a", "b", DependencyType::Import)])).unwrap();
    match t.record_analysis(Err(s("bad file"))) {
        Err(TrackerError::Analysis(m)) => assert_eq!(m, "bad file"),
        other => panic!("unexpected {:?}", other),
    }
    assert_eq!(t.get_dependencies(&s("a")).unwrap(), vec![s("b")]);
}

#[test]
fn content_hash_is_md5_hex() {
    assert_eq!(calculate_file_hash(&vec![]), "d41d8cd98f00b204e9800998ecf8427e");
    assert_eq!(calculate_file_hash(&b"abc".to_vec()), "900150983cd24fb0d6963f7d28e17f72");
    assert_eq!(calculate_file_hash(&b"abc".to_vec()), calculate_file_hash(&b"abc".to_vec()));
}

#[test]
fn node_metadata_update_and_summary() {
    let mut g = DependencyGraph::new();
    g.add_dependencies(vec![dep("a", "b", DependencyType::Import), dep("c", "a", DependencyType::FunctionCall)])
        .unwrap();
    assert!(g.update_node_metadata(&s("zzz"), vec![(s("k"), s("1"))]).is_err());
    g.update_node_metadata(&s("a"), vec![(s("k"), s("1"))]).unwrap();
    g.update_node_metadata(&s("a"), vec![(s("k"), s("2"))]).unwrap();
    assert_eq!(g.get_node_metadata(&s("a")).unwrap(), &vec![(s("k"), s("1")), (s("k"), s("2"))]);
    assert!(g.get_node_metadata(&s("q")).is_none());
    let sum = g.get_llamaindex_metadata(&s("a")).unwrap();
    assert_eq!(sum.dependencies, vec![s("b")]);
    assert_eq!(sum.callers, vec![s("c")]);
    assert_eq!(sum.metrics.node_count, 3);
    assert_eq!(sum.indirect.len(), 1);
    assert!(sum.node_metadata.is_some());
}
