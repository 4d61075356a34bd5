use std::collections::HashMap;

use executor_core::bootstrap::establish_assignment;
use executor_core::error::ProtocolError;
use executor_core::graph::ReadGraph;
use executor_core::registry::Registry;

fn lists_of(pairs: &[(u32, Vec<u32>)]) -> HashMap<u32, Vec<u32>> {
    pairs.iter().cloned().collect()
}

#[test]
fn agreed_assignment_is_published() {
    let mut registry: Registry<dyn ReadGraph> = Registry::new();
    registry.replace_read_version(4);
    let broadcast = vec![(1, vec![0, 1, 2, 3]), (0, vec![0, 1, 2, 3])];
    let assignment = establish_assignment(&mut registry, Some(1), &broadcast).unwrap();
    let lists = lists_of(&[(0, vec![0, 1]), (1, vec![2, 3])]);
    assert_eq!(assignment.server_index, 1);
    assert_eq!(assignment.local_partitions, vec![2, 3]);
    assert_eq!(assignment.process_partition_lists, lists);
    let table: HashMap<u32, u32> = [(0, 0), (1, 0), (2, 1), (3, 1)].into_iter().collect();
    assert_eq!(assignment.partition_servers, table);
    assert_eq!(registry.get_process_partition_lists(), lists);
    assert_eq!(registry.get_server_index(), 1);
    assert_eq!(registry.get_read_version(), 4);
    assert!(registry.get_graph().is_none());
}

#[test]
fn process_without_a_report_serves_no_partition() {
    let mut registry: Registry<dyn ReadGraph> = Registry::new();
    let broadcast = vec![(0, vec![5]), (1, vec![6])];
    let assignment = establish_assignment(&mut registry, Some(2), &broadcast).unwrap();
    assert_eq!(assignment.server_index, 2);
    assert!(assignment.local_partitions.is_empty());
    assert_eq!(registry.get_server_index(), 2);
}

#[test]
fn failed_protocol_publishes_nothing() {
    let mut registry: Registry<dyn ReadGraph> = Registry::new();
    let before = lists_of(&[(0, vec![9])]);
    registry.publish_assignment(before.clone(), 7);

    let uneven = vec![(0, vec![0, 1, 2]), (1, vec![0, 1, 2])];
    let r = establish_assignment(&mut registry, Some(0), &uneven);
    assert_eq!(r.err(), Some(ProtocolError::UnevenSplit));
    assert_eq!(registry.get_process_partition_lists(), before);
    assert_eq!(registry.get_server_index(), 7);

    let r = establish_assignment(&mut registry, None, &uneven);
    assert_eq!(r.err(), Some(ProtocolError::NoResult));

    let overlapping = vec![(0, vec![0, 1]), (1, vec![1, 2])];
    let r = establish_assignment(&mut registry, Some(0), &overlapping);
    assert_eq!(r.err(), Some(ProtocolError::DuplicateOwnership));
    assert_eq!(registry.get_process_partition_lists(), before);
    assert_eq!(registry.get_server_index(), 7);
}
