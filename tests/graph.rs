use deeptracking::dependency::{Dependency, DependencyType};
use deeptracking::graph::{DependencyGraph, GraphError};

fn dep(s: &str, t: &str, k: DependencyType) -> Dependency {
    Dependency::new(s.to_string(), t.to_string(), k)
}

fn s(x: &str) -> String {
    x.to_string()
}

#[test]
fn dependencies_round_trip_order_insensitive() {
    let mut g = DependencyGraph::new();
    g.add_dependencies(vec![
        dep("a.rs", "b", DependencyType::Import),
        dep("x.rs", "y", DependencyType::Usage),
        dep("a.rs", "c", DependencyType::FunctionCall),
        dep("a.rs", "d", DependencyType::TypeUsage),
    ])
    .unwrap();
    let mut got = g.get_dependencies(&s("a.rs")).unwrap();
    got.sort();
    assert_eq!(got, vec![s("b"), s("c"), s("d")]);
    assert_eq!(g.get_dependencies(&s("x.rs")).unwrap(), vec![s("y")]);
}

#[test]
fn unknown_node_has_empty_results() {
    let g = DependencyGraph::new();
    assert!(g.get_dependencies(&s("nothing")).unwrap().is_empty());
    assert!(g.get_callers(&s("nothing")).unwrap().is_empty());
    assert!(g.get_direct_relationships(&s("nothing")).unwrap().is_empty());
    assert!(g.get_indirect_relationships(&s("nothing")).unwrap().is_empty());
    assert_eq!(g.calculate_inheritance_depth(&s("nothing")), Ok(0));
}

#[test]
fn callers_are_call_edges_only() {
    let mut g = DependencyGraph::new();
    g.add_dependencies(vec![
        dep("c.rs", "foo", DependencyType::FunctionCall),
        dep("b.rs", "foo", DependencyType::FunctionDefinition),
        dep("d.rs", "foo", DependencyType::FunctionCall),
    ])
    .unwrap();
    assert_eq!(g.get_callers(&s("foo")).unwrap(), vec![s("c.rs"), s("d.rs")]);
}

#[test]
fn parallel_edges_of_different_kinds_are_kept() {
    let mut g = DependencyGraph::new();
    g.add_dependencies(vec![
        dep("a", "b", DependencyType::Import),
        dep("a", "b", DependencyType::Usage),
    ])
    .unwrap();
    assert_eq!(g.get_dependencies(&s("a")).unwrap(), vec![s("b"), s("b")]);
}

#[test]
fn direct_relationships_grouped_by_relation_name() {
    let mut g = DependencyGraph::new();
    g.add_dependencies(vec![
        dep("a", "f", DependencyType::FunctionCall),
        dep("a", "m", DependencyType::Import),
        dep("a", "g", DependencyType::FunctionCall),
        dep("a", "T", DependencyType::TypeUsage),
    ])
    .unwrap();
    let rel = g.get_direct_relationships(&s("a")).unwrap();
    assert_eq!(
        rel,
        vec![
            (s("imports"), vec![s("m")]),
            (s("calls"), vec![s("f"), s("g")]),
            (s("uses_type"), vec![s("T")]),
        ]
    );
}

#[test]
fn relation_names() {
    assert_eq!(DependencyType::FunctionCall.relation_name(), "calls");
    assert_eq!(DependencyType::Import.relation_name(), "imports");
    assert_eq!(DependencyType::Inheritance.relation_name(), "inherits");
    assert_eq!(DependencyType::Usage.relation_name(), "uses");
    assert_eq!(DependencyType::FunctionDefinition.relation_name(), "defines");
    assert_eq!(DependencyType::TypeUsage.relation_name(), "uses_type");
}

#[test]
fn inheritance_cycle_is_reported() {
    let mut g = DependencyGraph::new();
    g.add_dependencies(vec![
        dep("A", "B", DependencyType::Inheritance),
        dep("B", "A", DependencyType::Inheritance),
    ])
    .unwrap();
    assert_eq!(g.calculate_inheritance_depth(&s("A")), Err(GraphError::CyclicInheritance));
    let m = g.calculate_metrics(&s("A")).unwrap();
    assert_eq!(m.depth_of_inheritance, Err(GraphError::CyclicInheritance));
}

#[test]
fn self_inheritance_is_a_cycle() {
    let mut g = DependencyGraph::new();
    g.add_dependencies(vec![dep("A", "A", DependencyType::Inheritance)]).unwrap();
    assert_eq!(g.calculate_inheritance_depth(&s("A")), Err(GraphError::CyclicInheritance));
}

#[test]
fn inheritance_chain_depth() {
    let mut g = DependencyGraph::new();
    g.add_dependencies(vec![
        dep("C", "B", DependencyType::Inheritance),
        dep("B", "A", DependencyType::Inheritance),
        dep("C", "x", DependencyType::Usage),
    ])
    .unwrap();
    assert_eq!(g.calculate_inheritance_depth(&s("C")), Ok(2));
    assert_eq!(g.calculate_inheritance_depth(&s("A")), Ok(0));
    assert_eq!(g.find_parent(&s("C")).unwrap(), Some(s("B")));
    assert_eq!(g.find_parent(&s("A")).unwrap(), None);
}

#[test]
fn metrics_of_a_node() {
    let mut g = DependencyGraph::new();
    g.add_dependencies(vec![
        dep("a.rs", "foo", DependencyType::FunctionCall),
        dep("b.rs", "a.rs", DependencyType::FunctionCall),
        dep("a.rs", "m", DependencyType::Import),
    ])
    .unwrap();
    let m = g.calculate_metrics(&s("a.rs")).unwrap();
    assert_eq!(m.incoming_dependencies, 1);
    assert_eq!(m.outgoing_dependencies, 2);
    assert_eq!(m.node_count, 4);
    assert_eq!(m.depth_of_inheritance, Ok(0));
}

#[test]
fn indirect_relationships_bounded_bfs() {
    let mut g = DependencyGraph::new();
    g.add_dependencies(vec![
        dep("n0", "n1", DependencyType::Import),
        dep("n1", "n2", DependencyType::FunctionCall),
        dep("n2", "n3", DependencyType::Usage),
        dep("n3", "n4", DependencyType::Usage),
        dep("n0", "n2", DependencyType::Usage),
    ])
    .unwrap();
    let rel = g.get_indirect_relationships(&s("n0")).unwrap();
    let mut got: Vec<(String, usize)> = rel.iter().map(|r| (r.path.clone(), r.depth)).collect();
    got.sort();
    assert_eq!(got, vec![(s("n1"), 1), (s("n2"), 1), (s("n3"), 2), (s("n4"), 3)]);
    let n3 = rel.iter().find(|r| r.path == "n3").unwrap();
    assert_eq!(n3.intermediate_nodes, vec![s("n0"), s("n2"), s("n3")]);
    assert_eq!(n3.relationship_type, DependencyType::Usage);
    let two = g.get_indirect_relationships_within(&s("n0"), 2).unwrap();
    assert_eq!(two.len(), 3);
    assert!(two.iter().all(|r| r.path != "n4"));
}

#[test]
fn indirect_relationships_tolerate_cycles() {
    let mut g = DependencyGraph::new();
    g.add_dependencies(vec![
        dep("a", "b", DependencyType::Import),
        dep("b", "a", DependencyType::Import),
    ])
    .unwrap();
    let rel = g.get_indirect_relationships(&s("a")).unwrap();
    assert_eq!(rel.len(), 1);
    assert_eq!(rel[0].path, "b");
}

#[test]
fn path_between_nodes() {
    let mut g = DependencyGraph::new();
    g.add_dependencies(vec![
        dep("a", "b", DependencyType::Import),
        dep("b", "c", DependencyType::Import),
        dep("a", "c", DependencyType::Usage),
        dep("c", "d", DependencyType::Usage),
    ])
    .unwrap();
    assert_eq!(g.get_path_between(&s("a"), &s("d")).unwrap(), vec![s("a"), s("c"), s("d")]);
    assert_eq!(g.get_path_between(&s("a"), &s("a")).unwrap(), vec![s("a")]);
    assert!(g.get_path_between(&s("d"), &s("a")).unwrap().is_empty());
}

#[test]
fn end_to_end_three_files() {
    let mut g = DependencyGraph::new();
    g.add_dependencies(vec![
        dep("a.rs", "b", DependencyType::Import),
        dep("b.rs", "foo", DependencyType::FunctionDefinition),
        dep("c.rs", "foo", DependencyType::FunctionCall),
    ])
    .unwrap();
    assert!(g.get_dependencies(&s("a.rs")).unwrap().contains(&s("b")));
    assert!(g.get_callers(&s("foo")).unwrap().contains(&s("c.rs")));
}
