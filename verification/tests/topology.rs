use probing::topology::TopologyView;

fn create_test_workers_map() -> Vec<(String, Vec<String>)> {
    vec![
        (
            "node1".to_string(),
            vec!["worker1".to_string(), "worker2".to_string()],
        ),
        ("node2".to_string(), vec!["worker3".to_string()]),
        (
            "node3".to_string(),
            vec![
                "worker4".to_string(),
                "worker5".to_string(),
                "worker6".to_string(),
            ],
        ),
    ]
}

#[test]
fn test_topology_view_creation() {
    let workers_per_node = create_test_workers_map();
    let topology = TopologyView::new(workers_per_node.clone(), 5);

    assert_eq!(topology.workers_per_node, workers_per_node);
    assert_eq!(topology.estimated_total_nodes, 5);
    assert!(topology.version > 0);
    assert!(topology.timestamp > 0);
}

#[test]
fn test_empty_topology_view() {
    let topology = TopologyView::empty();

    assert_eq!(topology.version, 0);
    assert_eq!(topology.timestamp, 0);
    assert!(topology.workers_per_node.is_empty());
    assert_eq!(topology.estimated_total_nodes, 0);
}

#[test]
fn test_topology_with_version() {
    let workers_per_node = create_test_workers_map();
    let version = 12345;
    let topology = TopologyView::with_version(workers_per_node.clone(), 3, version);

    assert_eq!(topology.version, version);
    assert_eq!(topology.workers_per_node, workers_per_node);
    assert_eq!(topology.estimated_total_nodes, 3);
}

#[test]
fn test_is_fresh() {
    let workers_per_node = create_test_workers_map();
    let topology = TopologyView::new(workers_per_node, 3);

    assert!(topology.is_fresh(60));
    assert!(topology.is_fresh(1));

    let mut old_topology = topology.clone();
    old_topology.timestamp = 0;
    assert!(!old_topology.is_fresh(1));
}

#[test]
fn test_get_node_ids() {
    let workers_per_node = create_test_workers_map();
    let topology = TopologyView::new(workers_per_node, 3);

    let node_ids = topology.get_node_ids();
    assert_eq!(node_ids.len(), 3);
    assert!(node_ids.contains(&"node1".to_string()));
    assert!(node_ids.contains(&"node2".to_string()));
    assert!(node_ids.contains(&"node3".to_string()));
}

#[test]
fn test_get_workers() {
    let workers_per_node = create_test_workers_map();
    let topology = TopologyView::new(workers_per_node, 3);

    let workers = topology.get_workers(&"node1".to_string());
    assert!(workers.is_some());
    assert_eq!(workers.unwrap().len(), 2);
    assert!(workers.unwrap().contains(&"worker1".to_string()));
    assert!(workers.unwrap().contains(&"worker2".to_string()));

    let no_workers = topology.get_workers(&"nonexistent".to_string());
    assert!(no_workers.is_none());
}

#[test]
fn test_counts() {
    let workers_per_node = create_test_workers_map();
    let topology = TopologyView::new(workers_per_node, 5);

    assert_eq!(topology.known_nodes_count(), 3);
    assert_eq!(topology.total_workers_count(), 6);
    assert_eq!(topology.estimated_total_nodes, 5);
}

#[test]
fn test_contains_node() {
    let workers_per_node = create_test_workers_map();
    let topology = TopologyView::new(workers_per_node, 3);

    assert!(topology.contains_node(&"node1".to_string()));
    assert!(topology.contains_node(&"node2".to_string()));
    assert!(topology.contains_node(&"node3".to_string()));
    assert!(!topology.contains_node(&"node4".to_string()));
}

#[test]
fn test_refresh_timestamp() {
    let workers_per_node = create_test_workers_map();
    let mut topology = TopologyView::new(workers_per_node, 3);

    let original_timestamp = topology.timestamp;

    let started = std::time::Instant::now();
    while started.elapsed() < std::time::Duration::from_millis(10) {}

    topology.refresh_timestamp();
    assert!(topology.timestamp >= original_timestamp);
}

#[test]
fn test_merge() {
    let workers1 = vec![
        ("node1".to_string(), vec!["worker1".to_string()]),
        ("node2".to_string(), vec!["worker2".to_string()]),
    ];
    let workers2 = vec![
        ("node2".to_string(), vec!["worker2_updated".to_string()]),
        ("node3".to_string(), vec!["worker3".to_string()]),
    ];

    let mut topology1 = TopologyView::with_version(workers1, 3, 100);
    let topology2 = TopologyView::with_version(workers2, 5, 200);

    topology1.merge(&topology2);

    assert_eq!(topology1.version, 200);

    assert_eq!(topology1.known_nodes_count(), 3);
    assert!(topology1.contains_node(&"node1".to_string()));
    assert!(topology1.contains_node(&"node2".to_string()));
    assert!(topology1.contains_node(&"node3".to_string()));

    assert_eq!(topology1.estimated_total_nodes, 5);

    assert_eq!(
        topology1.get_workers(&"node2".to_string()).unwrap(),
        &vec!["worker2_updated".to_string()]
    );
}

#[test]
fn a_node_listed_twice_keeps_its_last_workers() {
    let t = TopologyView::new_at(
        vec![
            ("n".to_string(), vec!["a".to_string()]),
            ("n".to_string(), vec!["b".to_string()]),
        ],
        1,
        42,
    );
    assert_eq!(t.known_nodes_count(), 1);
    assert_eq!(t.get_workers(&"n".to_string()).unwrap(), &vec!["b".to_string()]);
    assert_eq!(t.version, 42);
    assert_eq!(t.timestamp, 42);
}

#[test]
fn freshness_against_a_given_clock() {
    let t = TopologyView::new_at(create_test_workers_map(), 3, 100);
    assert!(t.is_fresh_at(160, 60));
    assert!(!t.is_fresh_at(161, 60));
    // A clock behind the view's stamp wraps around and reads the view as old.
    assert!(!t.is_fresh_at(99, 60));
}

#[test]
fn merge_keeps_the_newer_stamp_and_larger_estimate() {
    let mut a = TopologyView::with_version_at(create_test_workers_map(), 7, 3, 50);
    let b = TopologyView::with_version_at(vec![("x".to_string(), vec![])], 2, 9, 40);
    a.merge(&b);
    assert_eq!(a.version, 9);
    assert_eq!(a.timestamp, 50);
    assert_eq!(a.estimated_total_nodes, 7);
    assert_eq!(a.known_nodes_count(), 4);
    assert_eq!(a.total_workers_count(), 6);
}
