use unreal_mcp_wasm::{DependencyMap, DependencyResolver, ResolveError, DEFAULT_MAX_DEPTH};

fn map_of(entries: &[(&str, &[&str])]) -> DependencyMap {
    let mut m = DependencyMap::new();
    for (k, deps) in entries {
        m.insert(k.to_string(), deps.iter().map(|d| d.to_string()).collect());
    }
    m
}

fn chain() -> DependencyMap {
    map_of(&[("A", &["B", "C"]), ("B", &["C"]), ("C", &[])])
}

fn diamond() -> DependencyMap {
    map_of(&[("A", &["B", "C"]), ("B", &["D"]), ("C", &["D"]), ("D", &[])])
}

fn two_cycle() -> DependencyMap {
    map_of(&[("A", &["B"]), ("B", &["A"])])
}

fn pos(v: &[String], id: &str) -> usize {
    v.iter().position(|x| x == id).unwrap()
}

#[test]
fn default_resolver_limit() {
    assert_eq!(DependencyResolver::default().max_depth, 100);
    assert_eq!(DEFAULT_MAX_DEPTH, 100);
    assert_eq!(DependencyResolver::new(7).max_depth, 7);
}

#[test]
fn insert_replaces_existing_key() {
    let mut m = map_of(&[("A", &["B"])]);
    m.insert("A".to_string(), vec!["C".to_string()]);
    assert_eq!(m.len(), 1);
    assert_eq!(m.entries[0].dependencies, vec!["C".to_string()]);
    m.insert("B".to_string(), vec![]);
    assert_eq!(m.len(), 2);
    assert_eq!(m.entries[1].path, "B");
}

#[test]
fn topo_sort_chain_scenario() {
    let r = DependencyResolver::default();
    let order = r.topological_sort(&chain()).unwrap();
    assert_eq!(order.len(), 3);
    assert!(pos(&order, "C") < pos(&order, "B"));
    assert!(pos(&order, "C") < pos(&order, "A"));
    assert!(pos(&order, "B") < pos(&order, "A"));
}

#[test]
fn topo_sort_diamond_respects_edges() {
    let r = DependencyResolver::default();
    let m = diamond();
    let order = r.topological_sort(&m).unwrap();
    assert_eq!(order.len(), 4);
    for e in &m.entries {
        for d in &e.dependencies {
            assert!(pos(&order, d) < pos(&order, &e.path));
        }
    }
}

#[test]
fn topo_sort_includes_ids_without_entry() {
    let r = DependencyResolver::default();
    let order = r.topological_sort(&map_of(&[("A", &["X", "Y"])])).unwrap();
    assert_eq!(order.len(), 3);
    assert!(pos(&order, "X") < pos(&order, "A"));
    assert!(pos(&order, "Y") < pos(&order, "A"));
}

#[test]
fn topo_sort_counts_repeated_dependency() {
    let r = DependencyResolver::default();
    let order = r.topological_sort(&map_of(&[("A", &["B", "B"]), ("B", &[])])).unwrap();
    assert_eq!(order, vec!["B".to_string(), "A".to_string()]);
}

#[test]
fn topo_sort_empty_map() {
    let r = DependencyResolver::default();
    assert_eq!(r.topological_sort(&DependencyMap::new()).unwrap(), Vec::<String>::new());
}

#[test]
fn two_cycle_scenario() {
    let r = DependencyResolver::default();
    let m = two_cycle();
    let cycles = r.find_circular_dependencies(&m, None);
    assert!(!cycles.is_empty());
    assert!(cycles[0].contains(&"A".to_string()));
    assert!(cycles[0].contains(&"B".to_string()));
    assert_eq!(cycles, vec![vec!["A".to_string(), "B".to_string()]]);
    assert_eq!(r.topological_sort(&m), Err(ResolveError::CyclicGraph));
}

#[test]
fn self_loop_is_a_cycle() {
    let r = DependencyResolver::default();
    let m = map_of(&[("A", &["A"])]);
    assert_eq!(r.find_circular_dependencies(&m, None), vec![vec!["A".to_string()]]);
    assert_eq!(r.topological_sort(&m), Err(ResolveError::CyclicGraph));
}

#[test]
fn cycle_behind_acyclic_prefix_fails_sort() {
    let r = DependencyResolver::default();
    let m = map_of(&[("R", &["A"]), ("A", &["B"]), ("B", &["C"]), ("C", &["A"])]);
    assert_eq!(r.topological_sort(&m), Err(ResolveError::CyclicGraph));
    let cycles = r.find_circular_dependencies(&m, None);
    assert_eq!(cycles, vec![vec!["A".to_string(), "B".to_string(), "C".to_string()]]);
}

#[test]
fn cycles_beyond_depth_limit_are_not_reported() {
    let r = DependencyResolver::default();
    let m = map_of(&[("A", &["B"]), ("B", &["C"]), ("C", &["A"])]);
    assert!(r.find_circular_dependencies(&m, Some(1)).is_empty());
    assert_eq!(
        r.find_circular_dependencies(&m, Some(2)),
        vec![vec!["A".to_string(), "B".to_string(), "C".to_string()]]
    );
}

#[test]
fn acyclic_map_reports_no_cycles() {
    let r = DependencyResolver::default();
    assert!(r.find_circular_dependencies(&diamond(), None).is_empty());
    assert!(r.find_circular_dependencies(&chain(), None).is_empty());
}

#[test]
fn diamond_depth_scenario() {
    let r = DependencyResolver::default();
    assert_eq!(r.calculate_depth("A", &diamond(), None), 2);
    assert_eq!(r.calculate_depth("B", &diamond(), None), 1);
}

#[test]
fn leaf_depth_is_zero() {
    let r = DependencyResolver::default();
    assert_eq!(r.calculate_depth("D", &diamond(), None), 0);
    assert_eq!(r.calculate_depth("missing", &diamond(), None), 0);
}

#[test]
fn depth_is_bounded_by_limit() {
    let r = DependencyResolver::default();
    let m = map_of(&[("A", &["B"]), ("B", &["C"]), ("C", &["D"]), ("D", &[])]);
    assert_eq!(r.calculate_depth("A", &m, None), 3);
    assert_eq!(r.calculate_depth("A", &m, Some(2)), 2);
    assert_eq!(r.calculate_depth("A", &m, Some(0)), 0);
    assert_eq!(DependencyResolver::new(1).calculate_depth("A", &m, None), 1);
}

#[test]
fn depth_breaks_cycles_on_the_active_path() {
    let r = DependencyResolver::default();
    assert_eq!(r.calculate_depth("A", &two_cycle(), None), 2);
}

#[test]
fn dependents_are_direct_only() {
    let r = DependencyResolver::default();
    let m = diamond();
    assert_eq!(r.find_dependents("D", &m), vec!["B".to_string(), "C".to_string()]);
    assert_eq!(r.find_dependents("B", &m), vec!["A".to_string()]);
    assert!(r.find_dependents("A", &m).is_empty());
    assert!(r.find_dependents("nowhere", &m).is_empty());
}

#[test]
fn analyze_missing_root_is_not_found() {
    let r = DependencyResolver::default();
    let res = r.analyze_dependencies("Z", &chain(), None);
    assert!(matches!(res, Err(ResolveError::NotFound)));
}

#[test]
fn analyze_depth_zero_scenario() {
    let r = DependencyResolver::default();
    let a = r.analyze_dependencies("A", &chain(), Some(0)).unwrap();
    assert_eq!(a.asset, "A");
    assert_eq!(a.total_dependency_count, 1);
    assert_eq!(a.dependencies.len(), 1);
    assert_eq!(a.dependencies[0].path, "A");
    assert_eq!(a.dependencies[0].depth, 0);
    assert_eq!(a.dependencies[0].dependencies, vec!["B".to_string(), "C".to_string()]);
    assert!(a.dependencies[0].dependents.is_empty());
    assert_eq!(a.max_depth, 0);
    assert!(a.circular_dependencies.is_empty());
}

#[test]
fn analyze_diamond_rows_and_revisit_marker() {
    let r = DependencyResolver::default();
    let a = r.analyze_dependencies("A", &diamond(), None).unwrap();
    let rows: Vec<(String, usize)> = a.dependencies.iter().map(|d| (d.path.clone(), d.depth)).collect();
    assert_eq!(
        rows,
        vec![("A".to_string(), 0), ("B".to_string(), 1), ("C".to_string(), 1), ("D".to_string(), 2)]
    );
    assert_eq!(a.total_dependency_count, 4);
    assert_eq!(a.max_depth, 100);
    assert_eq!(a.dependencies[3].dependents, vec!["B".to_string(), "C".to_string()]);
    assert_eq!(a.circular_dependencies, vec![vec!["D".to_string()]]);
}

#[test]
fn analyze_chain_scenario() {
    let r = DependencyResolver::default();
    let a = r.analyze_dependencies("A", &chain(), None).unwrap();
    let rows: Vec<(String, usize)> = a.dependencies.iter().map(|d| (d.path.clone(), d.depth)).collect();
    assert_eq!(rows, vec![("A".to_string(), 0), ("B".to_string(), 1), ("C".to_string(), 1)]);
    assert_eq!(a.circular_dependencies, vec![vec!["C".to_string()]]);
}

#[test]
fn analyze_skips_ids_without_entry() {
    let r = DependencyResolver::default();
    let a = r.analyze_dependencies("A", &map_of(&[("A", &["X"])]), None).unwrap();
    assert_eq!(a.total_dependency_count, 1);
    assert!(a.circular_dependencies.is_empty());
}

#[test]
fn analyze_limit_one_stops_after_direct_dependencies() {
    let r = DependencyResolver::default();
    let a = r.analyze_dependencies("A", &diamond(), Some(1)).unwrap();
    let paths: Vec<String> = a.dependencies.iter().map(|d| d.path.clone()).collect();
    assert_eq!(paths, vec!["A".to_string(), "B".to_string(), "C".to_string()]);
    assert!(a.circular_dependencies.is_empty());
}

#[test]
fn analyze_back_edge_to_root_gives_marker() {
    let r = DependencyResolver::default();
    let a = r.analyze_dependencies("A", &two_cycle(), None).unwrap();
    let rows: Vec<(String, usize)> = a.dependencies.iter().map(|d| (d.path.clone(), d.depth)).collect();
    assert_eq!(rows, vec![("A".to_string(), 0), ("B".to_string(), 1)]);
    assert_eq!(a.total_dependency_count, 2);
    assert_eq!(a.circular_dependencies, vec![vec!["A".to_string()]]);
}

#[test]
fn analyze_cross_edge_gives_marker() {
    let r = DependencyResolver::default();
    let m = map_of(&[("A", &["B", "C"]), ("C", &["B"])]);
    let a = r.analyze_dependencies("A", &m, None).unwrap();
    let rows: Vec<(String, usize)> = a.dependencies.iter().map(|d| (d.path.clone(), d.depth)).collect();
    assert_eq!(rows, vec![("A".to_string(), 0), ("C".to_string(), 1)]);
    assert_eq!(a.circular_dependencies, vec![vec!["B".to_string()]]);
}

#[test]
fn analyze_marker_count_on_dense_map() {
    let r = DependencyResolver::default();
    let m = map_of(&[("A", &["B", "C", "A"]), ("B", &["C"]), ("C", &["A"])]);
    let a = r.analyze_dependencies("A", &m, None).unwrap();
    let paths: Vec<String> = a.dependencies.iter().map(|d| d.path.clone()).collect();
    assert_eq!(paths, vec!["A".to_string(), "B".to_string(), "C".to_string()]);
    // Dependencies enqueued from rows below the limit: 3 + 1 + 1; first dequeues other than the root: 2.
    assert_eq!(a.circular_dependencies.len(), 3);
    assert_eq!(
        a.circular_dependencies,
        vec![vec!["A".to_string()], vec!["C".to_string()], vec!["A".to_string()]]
    );
}

#[test]
fn insert_keeps_key_order() {
    let mut m = map_of(&[("A", &[]), ("B", &[]), ("C", &[])]);
    m.insert("B".to_string(), vec!["X".to_string()]);
    let keys: Vec<String> = m.entries.iter().map(|e| e.path.clone()).collect();
    assert_eq!(keys, vec!["A".to_string(), "B".to_string(), "C".to_string()]);
    m.insert("D".to_string(), vec![]);
    assert_eq!(m.entries[3].path, "D");
}
