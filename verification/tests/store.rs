use probing::addressing::{Address, AddressError};
use probing::dpp::{Cluster, Node, OutputFormat, Query, QueryFlags, QueryMessage, QueryResult};
use probing::storage::{
    entity_key, plan_save, route_location, select_write_locations, ConsistencyLevel, DistributedEntityStore,
    DistributedStoreCoordinator, EntityId, MemoryRemoteClient, MemoryStore, RemoteStoreClient, Route, SaveError,
    StoreError,
};
use probing::topology::TopologyView;
use probing::tcpstore::{length_from_le, QueryType, TCPStore, TCPStoreError};

#[test]
fn store_requests_are_framed() {
    assert_eq!(TCPStore::handshake(), vec![0, 0xCE, 0xF7, 0x85, 0x3C, 13, 0, 0, 0, 0]);
    let store = TCPStore::new("127.0.0.1:29500".to_string());
    assert_eq!(store.endpoint(), "127.0.0.1:29500");
    assert_eq!(store.timeout(), Some(std::time::Duration::from_secs(5)));
    assert_eq!(
        store.set_request("k", "vv"),
        vec![1, 2, 0, 0, 0, 0, 0, 0, 0, b'/', b'k', 2, 0, 0, 0, 0, 0, 0, 0, b'v', b'v']
    );
    assert_eq!(store.get_request("ab"), vec![3, 3, 0, 0, 0, 0, 0, 0, 0, b'/', b'a', b'b']);
    let store = store.with_timeout(std::time::Duration::from_millis(250));
    assert_eq!(store.timeout(), Some(std::time::Duration::from_millis(250)));
    let store = store.with_no_timeout();
    assert_eq!(store.timeout(), None);
    assert_eq!(QueryType::PING.code(), 13);
    assert_eq!(QueryType::CANCEL_WAIT.code(), 12);
}

#[test]
fn replies_decode_as_text() {
    match TCPStore::decode_value(3, b"abc", 3) {
        Ok(v) => assert_eq!(v, "abc"),
        Err(e) => panic!("{:?}", e),
    }
    assert!(matches!(TCPStore::decode_value(4, b"abc", 3), Err(TCPStoreError::HandlerError(_))));
    match TCPStore::decode_value(2, &[0xff, b'a'], 2) {
        Ok(v) => assert_eq!(v, "\u{fffd}a"),
        Err(e) => panic!("{:?}", e),
    }
}

#[test]
fn memory_store_reads_what_was_written() {
    let mut s = MemoryStore::new();
    s.raw_entities_save("k".to_string(), vec![1, 2]);
    assert_eq!(s.raw_entities_get("k"), Some(vec![1, 2]));
    s.raw_entities_save("k".to_string(), vec![3]);
    assert_eq!(s.raw_entities_get("k"), Some(vec![3]));
    assert!(s.raw_entities_contains("k"));
    s.raw_entities_delete("k");
    assert_eq!(s.raw_entities_get("k"), None);
    assert!(!s.raw_entities_contains("k"));
}

#[test]
fn entities_are_listed_by_type_and_paged() {
    let mut s = MemoryStore::new();
    s.put("job", "1", vec![1]);
    s.put("node", "1", vec![9]);
    s.put("job", "2", vec![2]);
    s.put("job", "3", vec![3]);
    assert_eq!(s.get("job", "2"), Some(vec![2]));
    assert_eq!(s.list_all("job"), vec![vec![1], vec![2], vec![3]]);
    assert_eq!(s.list_paginated("job", 0, 2), (vec![vec![1], vec![2]], true));
    assert_eq!(s.list_paginated("job", 2, 2), (vec![vec![3]], false));
    assert_eq!(s.list_paginated("job", 5, 2), (vec![], false));
    s.del("job", "1");
    assert_eq!(s.get("job", "1"), None);
    assert_eq!(entity_key("job", "7"), "job::7");
}

#[test]
fn test_memory_remote_client() {
    let mut client = MemoryRemoteClient::new(MemoryStore::new());
    client.put("test_key", b"test_data").unwrap();
    assert_eq!(client.get("test_key").unwrap(), Some(b"test_data".to_vec()));
    client.del("test_key").unwrap();
    assert_eq!(client.get("test_key").unwrap(), None);
    assert!(client.is_healthy());
}

#[test]
fn write_locations_follow_consistency() {
    let locs: Vec<Address> = (0..5).map(|i| Address::new(&format!("w{}", i), "o".to_string())).collect();
    assert_eq!(select_write_locations(&locs, ConsistencyLevel::Primary).len(), 1);
    assert_eq!(select_write_locations(&locs, ConsistencyLevel::Quorum).len(), 3);
    assert_eq!(select_write_locations(&locs, ConsistencyLevel::All).len(), 5);
    assert_eq!(select_write_locations(&locs[..2].to_vec(), ConsistencyLevel::Quorum).len(), 2);
    assert_eq!(plan_save(&vec![], ConsistencyLevel::All).err(), Some(SaveError::NoAddresses));
    assert_eq!(plan_save(&locs, ConsistencyLevel::Quorum).unwrap()[0], locs[0]);
    assert_eq!(String::from_string("id".to_string()).as_str(), "id");
}

#[test]
fn cluster_table_keeps_one_member_per_address() {
    let mut c = Cluster::new();
    let n1 = Node { host: "h1".to_string(), addr: "a:1".to_string(), rank: Some(0), ..Default::default() };
    let n2 = Node { host: "h2".to_string(), addr: "a:2".to_string(), rank: Some(1), ..Default::default() };
    c.put(n1);
    c.put(n2);
    c.put(Node { host: "h1b".to_string(), addr: "a:1".to_string(), rank: Some(5), ..Default::default() });
    assert_eq!(c.list().len(), 2);
    assert_eq!(c.get("a:1").unwrap().host, "h1b");
    assert_eq!(c.get("a:1").unwrap().rank, Some(5));
    let removed = c.remove("a:2").unwrap();
    assert_eq!(removed.host, "h2");
    assert!(c.get("a:2").is_none());
    assert!(c.remove("a:2").is_none());
}

#[test]
fn query_messages_default_to_arrow() {
    let q = Query { expr: "select 1".to_string(), flags: Some(QueryFlags::default()) };
    assert_eq!(q.flags.unwrap().format, OutputFormat::ARROW);
    let m = QueryMessage::Result(QueryResult { result: vec![1], format: OutputFormat::JSON });
    assert!(matches!(m, QueryMessage::Result(_)));
}

#[test]
fn cluster_nodes_put_in_bulk_keep_the_last_per_address() {
    let mut c = Cluster::new();
    c.put_all(vec![
        Node { host: "a".to_string(), addr: "x:1".to_string(), ..Default::default() },
        Node { host: "b".to_string(), addr: "x:2".to_string(), ..Default::default() },
        Node { host: "c".to_string(), addr: "x:1".to_string(), ..Default::default() },
    ]);
    assert_eq!(c.list().len(), 2);
    assert_eq!(c.get("x:1").unwrap().host, "c");
}

#[test]
fn replicas_are_reached_locally_or_by_worker() {
    assert!(matches!(route_location(&Address::new("w1", "o".to_string()), "w1"), Route::Local));
    match route_location(&Address::new("w2", "o".to_string()), "w1") {
        Route::Remote(k) => assert_eq!(k, "w2"),
        _ => panic!("expected a remote route"),
    }
    let unassigned = Address { worker: None, object: "o".to_string() };
    assert!(matches!(route_location(&unassigned, "w1"), Route::NoWorker));
}

#[test]
fn coordinator_places_the_primary_on_its_own_worker() {
    let topology = TopologyView::new(
        vec![
            ("n1".to_string(), vec!["w1".to_string()]),
            ("n2".to_string(), vec!["w2".to_string()]),
        ],
        2,
    );
    let mut c: DistributedStoreCoordinator<MemoryRemoteClient> =
        DistributedStoreCoordinator::new("n1".to_string(), "w1".to_string(), topology, MemoryStore::new(), 1);
    assert_eq!(c.node_id(), "n1");
    assert_eq!(c.worker_id(), "w1");
    let addrs = c.allocate_addresses("job-1").unwrap();
    assert_eq!(addrs.len(), 2);
    assert_eq!(addrs[0], Address::new("w1", "job-1".to_string()));
    assert_eq!(addrs[1], Address::new("w2", "job-1".to_string()));
    assert!(c.allocate_addresses("").is_err());
    c.update_topology(TopologyView::new(vec![("n9".to_string(), vec!["w9".to_string()])], 1));
    // This worker is not in the new view, so its replicas cannot be placed.
    assert!(matches!(c.allocate_addresses("job-1"), Err(AddressError::InternalError(_))));
}

fn setup_coordinator(
    node_id: &str,
    worker_id: &str,
    workers_on_node: Vec<String>,
    replica_count: usize,
) -> DistributedStoreCoordinator<MemoryRemoteClient> {
    let topology = TopologyView::new(vec![(node_id.to_string(), workers_on_node)], replica_count);
    DistributedStoreCoordinator::new(node_id.to_string(), worker_id.to_string(), topology, MemoryStore::new(), replica_count)
}

#[test]
fn test_save_and_get_entity_locally() {
    let coordinator = setup_coordinator("node1", "worker1", vec!["worker1".to_string()], 1);
    let mut store = DistributedEntityStore::new(coordinator);
    let job = b"job123:Test Job:5:Pending".to_vec();
    store.save("cluster_job", "job123", &job).expect("Failed to save job");
    let retrieved = store.get("cluster_job", "job123").expect("Failed to get job");
    assert_eq!(retrieved, Some(job));
}

#[test]
fn test_entity_not_found() {
    let coordinator = setup_coordinator("node1", "worker1", vec!["worker1".to_string()], 1);
    let store = DistributedEntityStore::new(coordinator);
    let retrieved = store.get("cluster_job", "nonexistentjob").expect("Get failed");
    assert!(retrieved.is_none());
}

#[test]
fn test_save_and_delete_entity() {
    let coordinator = setup_coordinator("node1", "worker1", vec!["worker1".to_string()], 1);
    let mut store = DistributedEntityStore::new(coordinator);
    let job = b"job456:Job to Delete:3:Running".to_vec();
    store.save("cluster_job", "job456", &job).expect("Failed to save job for deletion test");
    let retrieved = store.get("cluster_job", "job456").expect("Failed to get job before delete");
    assert!(retrieved.is_some(), "Job should exist before deletion");
    store.delete("cluster_job", "job456").expect("Failed to delete job");
    let after = store.get("cluster_job", "job456").expect("Failed to get job after delete");
    assert!(after.is_none(), "Job should not exist after deletion");
}

#[test]
fn saving_an_entity_without_id_fails() {
    let coordinator = setup_coordinator("node1", "worker1", vec!["worker1".to_string()], 1);
    let mut store = DistributedEntityStore::new(coordinator);
    assert!(matches!(store.save("cluster_job", "", b"x"), Err(StoreError::Address(_))));
    assert_eq!(store.list_all("cluster_job"), Vec::<Vec<u8>>::new());
}

#[test]
fn saves_reach_the_remote_replicas() {
    // Two nodes: the primary is this worker, the replica the other one.
    let topology = TopologyView::new(
        vec![("n1".to_string(), vec!["w1".to_string()]), ("n2".to_string(), vec!["w2".to_string()])],
        1,
    );
    let coordinator: DistributedStoreCoordinator<MemoryRemoteClient> =
        DistributedStoreCoordinator::new("n1".to_string(), "w1".to_string(), topology, MemoryStore::new(), 1);
    let mut store = DistributedEntityStore::new(coordinator);
    store.add_remote_client("w2".to_string(), MemoryRemoteClient::new(MemoryStore::new()));
    store.save("job", "a", b"payload").unwrap();
    // Two addresses, so a quorum is both of them.
    assert_eq!(store.coordinator().local_store().get("job", "a"), Some(b"payload".to_vec()));
    assert_eq!(store.get("job", "a").unwrap(), Some(b"payload".to_vec()));
    assert_eq!(store.list_all("job"), vec![b"payload".to_vec()]);
    assert_eq!(store.list_paginated("job", 0, 5), (vec![b"payload".to_vec()], false));
    store.delete("job", "a").unwrap();
    assert_eq!(store.get("job", "a").unwrap(), None);
}

#[test]
fn a_worker_without_remote_store_is_skipped_on_read() {
    let topology = TopologyView::new(
        vec![("n1".to_string(), vec!["w1".to_string()]), ("n2".to_string(), vec!["w2".to_string()])],
        1,
    );
    let coordinator: DistributedStoreCoordinator<MemoryRemoteClient> =
        DistributedStoreCoordinator::new("n1".to_string(), "w1".to_string(), topology, MemoryStore::new(), 1);
    let mut store = DistributedEntityStore::new(coordinator);
    // Writing to w2 fails for want of a client, yet the save succeeds.
    store.save("job", "b", b"v").unwrap();
    assert_eq!(store.get("job", "b").unwrap(), Some(b"v".to_vec()));
}

#[test]
fn reply_lengths_read_least_significant_byte_first() {
    assert_eq!(length_from_le(&[0x10, 0x27, 0, 0, 0, 0, 0, 0]), 10000);
    assert_eq!(length_from_le(&1234567890123u64.to_le_bytes()), 1234567890123);
    assert_eq!(length_from_le(&[0xff; 8]), u64::MAX);
}

fn three_node_topology() -> TopologyView {
    TopologyView::new(
        vec![
            ("node1".to_string(), vec!["worker1".to_string()]),
            ("node2".to_string(), vec!["worker2".to_string()]),
            ("node3".to_string(), vec!["worker3".to_string()]),
        ],
        3,
    )
}

#[test]
fn a_copy_held_only_by_a_remote_replica_is_read_and_deleted_there() {
    let mut remote = MemoryStore::new();
    remote.put("test_entity", "test-entity-1", b"distributed storage test".to_vec());
    let coordinator = DistributedStoreCoordinator::new(
        "node1".to_string(),
        "worker1".to_string(),
        three_node_topology(),
        MemoryStore::new(),
        3,
    );
    let mut store = DistributedEntityStore::new(coordinator);
    store.add_remote_client("worker2".to_string(), MemoryRemoteClient::new(remote));
    store.add_remote_client("worker3".to_string(), MemoryRemoteClient::new(MemoryStore::new()));

    let retrieved = store.get("test_entity", "test-entity-1").unwrap();
    assert_eq!(retrieved, Some(b"distributed storage test".to_vec()));
    assert_eq!(store.get("test_entity", "missing").unwrap(), None);

    store.delete("test_entity", "test-entity-1").unwrap();
    assert_eq!(store.get("test_entity", "test-entity-1").unwrap(), None);
}

#[test]
fn an_entity_saved_through_one_store_is_read_through_another() {
    // The store of worker2 reaches worker1's copy through its remote client.
    let mut saver: DistributedEntityStore<MemoryRemoteClient> = DistributedEntityStore::new(DistributedStoreCoordinator::new(
        "node1".to_string(),
        "worker1".to_string(),
        three_node_topology(),
        MemoryStore::new(),
        0,
    ));
    saver.save("test_entity", "e1", b"payload").unwrap();
    let mut worker1_local = MemoryStore::new();
    let saved = saver.coordinator().local_store().raw_entities_get("test_entity::e1").unwrap();
    worker1_local.raw_entities_save("test_entity::e1".to_string(), saved);
    let mut reader = DistributedEntityStore::new(DistributedStoreCoordinator::new(
        "node2".to_string(),
        "worker2".to_string(),
        three_node_topology(),
        MemoryStore::new(),
        0,
    ));
    reader.add_remote_client("worker1".to_string(), MemoryRemoteClient::new(worker1_local));
    reader.add_remote_client("worker3".to_string(), MemoryRemoteClient::new(MemoryStore::new()));
    assert_eq!(reader.get("test_entity", "e1").unwrap(), Some(b"payload".to_vec()));
}
