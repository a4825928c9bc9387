use probing::addressing::{Address, AddressAllocator, AddressError};
use probing::topology::TopologyView;

fn create_basic_topology(num_nodes: usize, workers_per_node_count: usize) -> TopologyView {
    let mut workers_map: Vec<(String, Vec<String>)> = Vec::new();
    for i in 0..num_nodes {
        let node_id = format!("node{}", i + 1);
        let mut worker_ids = Vec::new();
        for j in 0..workers_per_node_count {
            worker_ids.push(format!("worker{}", (i * workers_per_node_count) + j + 1));
        }
        workers_map.push((node_id, worker_ids));
    }
    TopologyView::new(workers_map, 1)
}

fn find_node_for_worker(topology: &TopologyView, worker_id: &str) -> Option<String> {
    topology
        .workers_per_node
        .iter()
        .find(|(_, workers)| workers.iter().any(|w| w == worker_id))
        .map(|(node, _)| node.clone())
}

#[test]
fn test_address_creation_and_to_string() {
    let addr_full = Address::new("worker1", "obj123".to_string());
    let addr_string = addr_full.to_string();
    assert_eq!(addr_string, "probing://worker1/objects/obj123");
}

#[test]
fn test_to_uri_and_from_uri() {
    let addr = Address::new("worker1", "task_123".to_string());

    let probing_uri = addr.to_uri("probing");
    assert_eq!(probing_uri, "probing://worker1/objects/task_123");
    let parsed_probing = Address::from_uri(&probing_uri).unwrap();
    assert_eq!(addr, parsed_probing);

    let http_uri = addr.to_uri("http");
    assert_eq!(http_uri, "http://worker1/objects/task_123");
    let parsed_http = Address::from_uri(&http_uri).unwrap();
    assert_eq!(addr.worker, parsed_http.worker);
    assert_eq!(addr.object, parsed_http.object);
    assert_eq!(parsed_http.to_uri("http"), http_uri);

    let https_uri = addr.to_uri("https");
    assert_eq!(https_uri, "https://worker1/objects/task_123");
    let parsed_https = Address::from_uri(&https_uri).unwrap();
    assert_eq!(addr.worker, parsed_https.worker);
    assert_eq!(addr.object, parsed_https.object);
    assert_eq!(parsed_https.to_uri("https"), https_uri);

    let addr_nested = Address::new("worker1", "data/user/profile_456".to_string());
    let nested_uri = addr_nested.to_uri("probing");
    assert_eq!(nested_uri, "probing://worker1/objects/data/user/profile_456");
    let parsed_nested = Address::from_uri(&nested_uri).unwrap();
    assert_eq!(addr_nested, parsed_nested);

    let uri_with_port = "probing://worker-port:8080/objects/obj_with_port";
    let parsed_with_port = Address::from_uri(uri_with_port).unwrap();
    assert_eq!(parsed_with_port.worker, Some("worker-port".to_string()));
    assert_eq!(parsed_with_port.object, "obj_with_port");
    assert_eq!(
        parsed_with_port.to_uri("probing"),
        "probing://worker-port/objects/obj_with_port"
    );
}

#[test]
fn test_uri_scheme_validation() {
    let result = Address::from_uri("ftp://worker1/objects/test");
    assert!(result.is_err());
    assert!(matches!(
        result.err().unwrap(),
        AddressError::UnsupportedScheme { scheme } if scheme == "ftp"
    ));

    let result_invalid_uri = Address::from_uri("invalid-uri-format");
    assert!(result_invalid_uri.is_err());
    assert!(matches!(result_invalid_uri.err().unwrap(), AddressError::InvalidUri(_)));

    let result_missing_host = Address::from_uri("probing:///objects/test");
    assert!(result_missing_host.is_err());
    assert!(
        matches!(result_missing_host.err().unwrap(), AddressError::InvalidUri(msg) if msg.contains("Missing worker ID"))
    );

    let result_missing_objects_prefix = Address::from_uri("probing://worker1/test");
    assert!(result_missing_objects_prefix.is_err());
    assert!(
        matches!(result_missing_objects_prefix.err().unwrap(), AddressError::InvalidUri(msg) if msg.contains("Unsupported URI path pattern"))
    );

    let result_empty_object = Address::from_uri("probing://worker1/objects/");
    assert!(result_empty_object.is_err());
    assert!(matches!(result_empty_object.err().unwrap(), AddressError::EmptyObject));
}

#[test]
fn test_fromstr_with_uri() {
    let uri_addr: Address = "probing://worker1/objects/test_obj".into();
    assert_eq!(uri_addr.worker, Some("worker1".to_string()));
    assert_eq!(uri_addr.object, "test_obj");

    let display_str = uri_addr.to_string();
    assert_eq!(display_str, "probing://worker1/objects/test_obj");
}

#[test]
fn test_shard_key() {
    let addr_full = Address::new("worker1", "obj123".to_string());
    assert_eq!(addr_full.shard_key(), Some("worker1".to_string()));
}

#[test]
fn test_primary_address_allocation() {
    let topology_empty_obj_test = create_basic_topology(1, 1);
    let allocator_empty_obj_test = AddressAllocator::new(topology_empty_obj_test, 0);
    let addr_with_empty_object = Address {
        worker: None,
        object: "".to_string(),
    };
    let result_empty_obj = allocator_empty_obj_test.allocate_primary_address(addr_with_empty_object, true);
    assert!(matches!(result_empty_obj, Err(AddressError::EmptyObject)));

    let topology_empty_str_test = create_basic_topology(1, 1);
    let allocator_empty_str_test = AddressAllocator::new(topology_empty_str_test, 0);
    let result_empty_str = allocator_empty_str_test.allocate_primary_address(Address::from_text(""), true);
    assert!(matches!(result_empty_str, Err(AddressError::EmptyObject)));

    let topology = create_basic_topology(1, 1);
    let allocator = AddressAllocator::new(topology, 0);
    let pre_assigned_addr = Address {
        worker: Some("worker1".to_string()),
        object: "my_object".to_string(),
    };
    let result = allocator.allocate_primary_address(pre_assigned_addr.clone(), true);
    assert!(result.is_ok());
    assert_eq!(result.unwrap(), pre_assigned_addr);
}

#[test]
fn test_allocate_addresses_no_replicas() {
    let topology = create_basic_topology(3, 1);
    let allocator = AddressAllocator::new(topology, 0);
    let addresses = allocator
        .allocate_addresses(Address::from_text("obj_no_replica"), true)
        .unwrap();

    assert_eq!(addresses.len(), 1);
    assert_eq!(addresses[0].object, "obj_no_replica");
}

#[test]
fn test_allocate_addresses_with_replicas() {
    let topology = create_basic_topology(3, 1);
    let replica_count = 2;
    let allocator = AddressAllocator::new(topology, replica_count);
    let all_addrs = allocator
        .allocate_addresses(Address::from_text("obj_with_replicas"), true)
        .unwrap();

    assert_eq!(all_addrs.len(), 1 + replica_count);
    let primary = &all_addrs[0];
    assert_eq!(primary.object, "obj_with_replicas");

    let mut distinct_workers = std::collections::HashSet::new();
    distinct_workers.insert(primary.worker.as_ref().unwrap().clone());

    let mut distinct_nodes_from_topology = std::collections::HashSet::new();
    let primary_worker_node =
        find_node_for_worker(allocator.topology(), primary.worker.as_ref().unwrap()).unwrap();
    distinct_nodes_from_topology.insert(primary_worker_node.clone());

    for i in 1..=replica_count {
        let replica = &all_addrs[i];
        assert_eq!(replica.object, "obj_with_replicas");

        let replica_worker_node =
            find_node_for_worker(allocator.topology(), replica.worker.as_ref().unwrap()).unwrap();
        assert_ne!(
            replica_worker_node, primary_worker_node,
            "Replica should be on a different node than primary"
        );
        assert!(
            distinct_workers.insert(replica.worker.as_ref().unwrap().clone()),
            "Replica workers should be distinct (or on distinct nodes)"
        );
        assert!(
            distinct_nodes_from_topology.insert(replica_worker_node),
            "Replica nodes should be distinct based on topology lookup"
        );
    }
}

#[test]
fn test_replica_generation_sufficient_nodes() {
    let topology = create_basic_topology(3, 1);
    let allocator = AddressAllocator::new(topology, 2);

    let all_addresses = allocator.allocate_addresses(Address::from_text("obj123"), true).unwrap();

    assert_eq!(all_addresses.len(), 3);
    let primary = &all_addresses[0];
    let replica1 = &all_addresses[1];
    let replica2 = &all_addresses[2];

    let primary_node = find_node_for_worker(allocator.topology(), primary.worker.as_ref().unwrap()).unwrap();
    let replica1_node = find_node_for_worker(allocator.topology(), replica1.worker.as_ref().unwrap()).unwrap();
    let replica2_node = find_node_for_worker(allocator.topology(), replica2.worker.as_ref().unwrap()).unwrap();

    assert_ne!(primary_node, replica1_node);
    assert_ne!(primary_node, replica2_node);
    assert_ne!(replica1_node, replica2_node);

    for addr in &all_addresses {
        assert!(addr.worker.is_some());
        assert_eq!(addr.object, "obj123");
    }
}

#[test]
fn test_replica_generation_insufficient_nodes() {
    let topology = create_basic_topology(2, 1);
    let allocator = AddressAllocator::new(topology, 2);

    let all_addresses = allocator
        .allocate_addresses(Address::from_text("obj_few_nodes"), true)
        .unwrap();

    assert_eq!(all_addresses.len(), 2);
    let primary = &all_addresses[0];
    let replica1 = &all_addresses[1];

    let primary_node = find_node_for_worker(allocator.topology(), primary.worker.as_ref().unwrap()).unwrap();
    let replica1_node = find_node_for_worker(allocator.topology(), replica1.worker.as_ref().unwrap()).unwrap();

    assert_ne!(primary_node, replica1_node);
}

#[test]
fn test_replica_generation_single_node_no_replicas_possible() {
    let topology = create_basic_topology(1, 1);
    let allocator = AddressAllocator::new(topology, 1);

    let all_addresses = allocator
        .allocate_addresses(Address::from_text("obj_single_node"), true)
        .unwrap();

    assert_eq!(all_addresses.len(), 1);
}

#[test]
fn test_empty_topology_allocation_fails() {
    let empty_topology = TopologyView::new(Vec::new(), 0);
    let allocator = AddressAllocator::new(empty_topology, 2);

    // An empty view knows no node, so it is never sufficient.
    let result = allocator.allocate_addresses(Address::from_text("test_empty"), false);
    assert!(result.is_err());
    assert_eq!(result.err(), Some(AddressError::InsufficientTopology));
}

#[test]
fn test_is_local() {
    let addr = Address::new("worker1", "obj1".into());
    assert!(addr.is_local("worker1"));
    assert!(!addr.is_local("worker2"));
}

#[test]
fn test_invalid_uri_patterns() {
    let invalid_uri = "probing://worker1/unsupported/pattern";
    let result = Address::from_uri(invalid_uri);
    assert!(result.is_err());
    assert!(
        matches!(result.err().unwrap(), AddressError::InvalidUri(msg) if msg.contains("Unsupported URI path pattern"))
    );

    let invalid_uri_empty_host = "probing:///objects/some_object";
    let result_empty_host = Address::from_uri(invalid_uri_empty_host);
    assert!(result_empty_host.is_err());
    assert!(
        matches!(result_empty_host.err().unwrap(), AddressError::InvalidUri(msg) if msg.contains("Missing worker ID"))
    );
}

#[test]
fn test_display_trait() {
    let addr = Address::new("worker1", "obj1".into());
    let display_str = addr.to_string();
    assert_eq!(display_str, "probing://worker1/objects/obj1");
}

#[test]
fn uri_round_trip_keeps_worker_and_object() {
    let addr = Address::new("w-9", "a/b/c".to_string());
    let back = Address::from_uri(&addr.to_uri("probing")).unwrap();
    assert_eq!(back, addr);
}

#[test]
fn text_that_is_no_uri_becomes_object_id() {
    let a = Address::from_text("plain-object");
    assert_eq!(a.worker, None);
    assert_eq!(a.object, "plain-object");
}

#[test]
fn primary_without_worker_needs_sufficient_topology() {
    let allocator = AddressAllocator::new(create_basic_topology(2, 2), 0);
    let r = allocator.allocate_primary_address(Address::from_text("obj"), false);
    assert_eq!(r.err(), Some(AddressError::InsufficientTopology));
}

#[test]
fn primary_is_the_best_scored_worker() {
    let allocator = AddressAllocator::new(create_basic_topology(3, 2), 0);
    let primary = allocator.allocate_primary_address(Address::from_text("objX"), true).unwrap();
    let chosen = primary.worker.clone().unwrap();
    let chosen_score = allocator.calculate_assignment_score("objX", &chosen);
    for (_, workers) in &allocator.topology().workers_per_node {
        for w in workers {
            assert!(allocator.calculate_assignment_score("objX", w) <= chosen_score);
        }
    }
}

#[test]
fn replicas_avoid_the_primary_node_when_worker_is_given() {
    let allocator = AddressAllocator::new(create_basic_topology(3, 1), 5);
    let primary = Address::new("worker2", "o".to_string());
    let replicas = allocator.allocate_replica_addresses(&primary, 5).unwrap();
    assert_eq!(replicas.len(), 2);
    for r in &replicas {
        assert_ne!(r.worker.as_deref(), Some("worker2"));
        assert_eq!(r.object, "o");
    }
}

#[test]
fn score_depends_on_object_and_worker() {
    let allocator = AddressAllocator::new(create_basic_topology(1, 1), 0);
    let a = allocator.calculate_assignment_score("obj", "worker1");
    let b = allocator.calculate_assignment_score("obj", "worker1");
    assert_eq!(a, b);
    let c = allocator.calculate_assignment_score("worker1", "obj");
    assert_ne!(a, c);
}

#[test]
fn test_address_allocator_functional() {
    let workers_per_node = vec![
        ("node-1".to_string(), vec!["worker-1".to_string(), "worker-2".to_string()]),
        ("node-2".to_string(), vec!["worker-3".to_string()]),
        ("node-3".to_string(), vec!["worker-4".to_string(), "worker-5".to_string()]),
    ];
    let topology = TopologyView::new(workers_per_node.clone(), 1);
    let replica_count = 2;
    let allocator = AddressAllocator::new(topology, replica_count);

    let all_addresses = allocator
        .allocate_addresses(Address::from_text("test-object-functional"), true)
        .unwrap();
    assert_eq!(all_addresses.len(), 1 + replica_count);

    let primary = &all_addresses[0];
    assert_eq!(primary.object, "test-object-functional");
    assert!(primary.worker.is_some());

    let primary_worker_id_str = primary.worker.as_deref().unwrap();
    let primary_node_id = workers_per_node
        .iter()
        .find_map(|(node, workers)| {
            if workers.contains(&primary_worker_id_str.to_string()) {
                Some(node.as_str())
            } else {
                None
            }
        })
        .unwrap_or("UNKNOWN");
    assert!(["node-1", "node-2", "node-3"].contains(&primary_node_id));

    let topology = allocator.topology();
    let node_of = |worker: &String| -> Option<String> {
        topology
            .get_node_ids()
            .into_iter()
            .find(|n| topology.get_workers(n).map_or(false, |ws| ws.contains(worker)))
    };
    let mut distinct_nodes_from_topology = std::collections::HashSet::new();
    let primary_worker_node_found = node_of(primary.worker.as_ref().unwrap()).expect("Primary worker must be in topology");
    distinct_nodes_from_topology.insert(primary_worker_node_found.clone());

    for i in 0..replica_count {
        let replica = &all_addresses[i + 1];
        assert_eq!(replica.object, "test-object-functional");
        let replica_worker_node = node_of(replica.worker.as_ref().unwrap()).expect("Replica worker must be in topology");
        assert_ne!(replica_worker_node, primary_worker_node_found, "Replica node should differ from primary");
        assert!(
            distinct_nodes_from_topology.insert(replica_worker_node.clone()),
            "Replica nodes should be distinct among themselves and from primary"
        );
    }
}

#[test]
fn replicas_of_a_primary_without_node_are_an_internal_error() {
    let allocator = AddressAllocator::new(create_basic_topology(3, 1), 2);
    let no_worker = Address::from_text("o");
    assert!(matches!(allocator.allocate_replica_addresses(&no_worker, 2), Err(AddressError::InternalError(_))));
    let stranger = Address::new("nowhere", "o".to_string());
    assert!(matches!(allocator.allocate_replica_addresses(&stranger, 1), Err(AddressError::InternalError(_))));
    assert_eq!(allocator.allocate_replica_addresses(&stranger, 0).unwrap().len(), 0);
    assert!(matches!(allocator.allocate_addresses(stranger, true), Err(AddressError::InternalError(_))));
}

#[test]
fn uris_with_dots_and_tildes_read_back() {
    let a = Address::new("worker1", "data/file.v2~old".to_string());
    assert_eq!(Address::from_uri(&a.to_uri("probing")).unwrap(), a);
}

#[test]
fn replicas_take_the_best_worker_of_each_node_best_first() {
    let topology = create_basic_topology(4, 3);
    let allocator = AddressAllocator::new(topology, 3);
    let object = "obj_best_first";
    let primary = Address::new("worker1", object.to_string());
    let replicas = allocator.allocate_replica_addresses(&primary, 3).unwrap();
    assert_eq!(replicas.len(), 3);
    let mut last_score = u64::MAX;
    for r in &replicas {
        let w = r.worker.as_ref().unwrap();
        let node = find_node_for_worker(allocator.topology(), w).unwrap();
        assert_ne!(node, "node1");
        let s = allocator.calculate_assignment_score(object, w);
        for (n, ws) in &allocator.topology().workers_per_node {
            if *n == node {
                for other in ws {
                    assert!(allocator.calculate_assignment_score(object, other) <= s);
                }
            }
        }
        assert!(s <= last_score);
        last_score = s;
    }
}

#[test]
fn replica_count_is_bounded_by_the_other_nodes() {
    for (nodes, asked, expected) in [(3usize, 0usize, 0usize), (3, 2, 2), (2, 2, 1), (1, 1, 0), (5, 3, 3)] {
        let allocator = AddressAllocator::new(create_basic_topology(nodes, 1), asked);
        let primary = Address::new("worker1", "obj".to_string());
        let replicas = allocator.allocate_replica_addresses(&primary, asked).unwrap();
        assert_eq!(replicas.len(), expected);
    }
}
