use std::collections::HashMap;

use executor_core::error::ProtocolError;
use executor_core::protocol::{
    compute_partition_server_mapping, computed_process_partition_list, discover_self_index,
    resolve_partition_lists, sync_global_process_partition_lists,
};

fn lists_of(pairs: &[(u32, Vec<u32>)]) -> HashMap<u32, Vec<u32>> {
    let mut m = HashMap::new();
    for (s, l) in pairs {
        m.insert(*s, l.clone());
    }
    m
}

fn table_of(pairs: &[(u32, u32)]) -> HashMap<u32, u32> {
    let mut m = HashMap::new();
    for (p, s) in pairs {
        m.insert(*p, *s);
    }
    m
}

fn all_partitions(m: &HashMap<u32, Vec<u32>>) -> Vec<u32> {
    let mut all: Vec<u32> = m.values().flat_map(|l| l.iter().copied()).collect();
    all.sort();
    all
}

#[test]
fn identical_lists_of_two_processes_are_split() {
    let broadcast = vec![(0, vec![0, 1, 2, 3]), (1, vec![0, 1, 2, 3])];
    let lists = resolve_partition_lists(&broadcast).unwrap();
    assert_eq!(lists, lists_of(&[(0, vec![0, 1]), (1, vec![2, 3])]));
    let table = compute_partition_server_mapping(lists).unwrap();
    assert_eq!(table, table_of(&[(0, 0), (1, 0), (2, 1), (3, 1)]));
}

#[test]
fn distinct_lists_stay_unchanged() {
    let broadcast = vec![(0, vec![5]), (1, vec![6]), (2, vec![7])];
    let lists = resolve_partition_lists(&broadcast).unwrap();
    assert_eq!(lists, lists_of(&[(0, vec![5]), (1, vec![6]), (2, vec![7])]));
    let table = compute_partition_server_mapping(lists).unwrap();
    assert_eq!(table, table_of(&[(5, 0), (6, 1), (7, 2)]));
}

#[test]
fn uneven_split_is_an_error() {
    let broadcast = vec![(0, vec![0, 1, 2]), (1, vec![0, 1, 2])];
    assert_eq!(resolve_partition_lists(&broadcast), Err(ProtocolError::UnevenSplit));
}

#[test]
fn uneven_split_in_one_group_fails_the_whole_resolution() {
    let broadcast =
        vec![(0, vec![10, 11]), (1, vec![0, 1, 2]), (2, vec![0, 1, 2]), (3, vec![20])];
    assert_eq!(resolve_partition_lists(&broadcast), Err(ProtocolError::UnevenSplit));
}

#[test]
fn chunks_follow_ascending_server_index_not_arrival_order() {
    let shared = vec![7, 8, 9, 10, 11, 12];
    let broadcast = vec![(9, shared.clone()), (2, shared.clone()), (4, shared.clone())];
    let lists = resolve_partition_lists(&broadcast).unwrap();
    assert_eq!(lists, lists_of(&[(2, vec![7, 8]), (4, vec![9, 10]), (9, vec![11, 12])]));
}

#[test]
fn arrival_order_does_not_change_the_outcome() {
    let a = vec![(0, vec![0, 1, 2, 3]), (1, vec![0, 1, 2, 3]), (2, vec![8, 9])];
    let b = vec![(2, vec![8, 9]), (1, vec![0, 1, 2, 3]), (0, vec![0, 1, 2, 3])];
    let lists_a = resolve_partition_lists(&a).unwrap();
    let lists_b = resolve_partition_lists(&b).unwrap();
    assert_eq!(lists_a, lists_b);
    assert_eq!(
        compute_partition_server_mapping(lists_a),
        compute_partition_server_mapping(lists_b)
    );
}

#[test]
fn several_groups_are_split_independently() {
    let broadcast = vec![
        (0, vec![0, 1, 2, 3]),
        (1, vec![4, 5, 6]),
        (2, vec![0, 1, 2, 3]),
        (3, vec![4, 5, 6]),
        (4, vec![4, 5, 6]),
        (5, vec![30, 31]),
    ];
    let lists = resolve_partition_lists(&broadcast).unwrap();
    assert_eq!(
        lists,
        lists_of(&[
            (0, vec![0, 1]),
            (2, vec![2, 3]),
            (1, vec![4]),
            (3, vec![5]),
            (4, vec![6]),
            (5, vec![30, 31]),
        ])
    );
}

#[test]
fn resolution_conserves_the_partitions() {
    let broadcast = vec![
        (3, vec![0, 1, 2, 3, 4, 5]),
        (1, vec![0, 1, 2, 3, 4, 5]),
        (2, vec![0, 1, 2, 3, 4, 5]),
        (7, vec![40, 41]),
    ];
    let lists = resolve_partition_lists(&broadcast).unwrap();
    assert_eq!(all_partitions(&lists), vec![0, 1, 2, 3, 4, 5, 40, 41]);
    assert_eq!(lists[&1].len(), 2);
    assert_eq!(lists[&2].len(), 2);
    assert_eq!(lists[&3].len(), 2);
    let mut joined = lists[&1].clone();
    joined.extend(lists[&2].iter());
    joined.extend(lists[&3].iter());
    assert_eq!(joined, vec![0, 1, 2, 3, 4, 5]);
}

#[test]
fn resolved_lists_of_clean_reports_are_pairwise_disjoint() {
    let shared = vec![10, 11, 12, 13, 14, 15, 16, 17];
    let broadcast = vec![
        (6, shared.clone()),
        (0, vec![1, 2, 3]),
        (4, shared.clone()),
        (2, shared.clone()),
        (8, shared.clone()),
        (3, vec![20]),
    ];
    let lists = resolve_partition_lists(&broadcast).unwrap();
    let servers: Vec<u32> = lists.keys().copied().collect();
    for a in servers.iter() {
        for b in servers.iter() {
            if a != b {
                assert!(lists[a].iter().all(|p| !lists[b].contains(p)));
            }
        }
    }
    assert_eq!(lists[&2], vec![10, 11]);
    assert_eq!(lists[&4], vec![12, 13]);
    assert_eq!(lists[&6], vec![14, 15]);
    assert_eq!(lists[&8], vec![16, 17]);
    assert!(compute_partition_server_mapping(lists).is_ok());
}

#[test]
fn later_report_of_the_same_origin_replaces_the_earlier() {
    let broadcast = vec![(0, vec![1, 2]), (1, vec![3]), (0, vec![9])];
    let lists = resolve_partition_lists(&broadcast).unwrap();
    assert_eq!(lists, lists_of(&[(0, vec![9]), (1, vec![3])]));
}

#[test]
fn empty_broadcast_gives_an_empty_assignment() {
    let lists = resolve_partition_lists(&Vec::new()).unwrap();
    assert!(lists.is_empty());
    assert!(compute_partition_server_mapping(lists).unwrap().is_empty());
}

#[test]
fn shared_empty_list_gives_empty_chunks() {
    let broadcast = vec![(0, vec![]), (1, vec![])];
    let lists = resolve_partition_lists(&broadcast).unwrap();
    assert_eq!(lists, lists_of(&[(0, vec![]), (1, vec![])]));
}

#[test]
fn partially_overlapping_lists_are_duplicate_ownership() {
    let broadcast = vec![(0, vec![0, 1]), (1, vec![1, 2])];
    let lists = resolve_partition_lists(&broadcast).unwrap();
    assert_eq!(lists, lists_of(&[(0, vec![0, 1]), (1, vec![1, 2])]));
    assert_eq!(compute_partition_server_mapping(lists), Err(ProtocolError::DuplicateOwnership));
}

#[test]
fn repeated_partition_across_chunks_is_duplicate_ownership() {
    let broadcast = vec![(0, vec![4, 4]), (1, vec![4, 4])];
    let lists = resolve_partition_lists(&broadcast).unwrap();
    assert_eq!(compute_partition_server_mapping(lists), Err(ProtocolError::DuplicateOwnership));
}

#[test]
fn repeated_partition_under_one_server_is_routed_to_it() {
    let table = compute_partition_server_mapping(lists_of(&[(3, vec![5, 5, 6])])).unwrap();
    assert_eq!(table, table_of(&[(5, 3), (6, 3)]));
}

#[test]
fn routing_table_is_the_inverse_of_the_assignment() {
    let lists = lists_of(&[(0, vec![0, 1]), (1, vec![2, 3]), (2, vec![])]);
    let table = compute_partition_server_mapping(lists.clone()).unwrap();
    for (server, partitions) in lists.iter() {
        for p in partitions {
            assert_eq!(table.get(p), Some(server));
        }
    }
    for (p, server) in table.iter() {
        assert!(lists[server].contains(p));
    }
    assert_eq!(table.len(), 4);
}

#[test]
fn self_index_is_the_first_value_or_no_result() {
    assert_eq!(discover_self_index(Some(3)), Ok(3));
    assert_eq!(discover_self_index(Some(0)), Ok(0));
    assert_eq!(discover_self_index(None), Err(ProtocolError::NoResult));
}

#[test]
fn sync_returns_index_and_assignment() {
    let broadcast = vec![(0, vec![0, 1, 2, 3]), (1, vec![0, 1, 2, 3])];
    let (index, lists) = sync_global_process_partition_lists(Some(1), &broadcast).unwrap();
    assert_eq!(index, 1);
    assert_eq!(lists, lists_of(&[(0, vec![0, 1]), (1, vec![2, 3])]));
    assert_eq!(computed_process_partition_list(&lists, index), vec![2, 3]);
}

#[test]
fn sync_without_index_is_no_result() {
    let broadcast = vec![(0, vec![0, 1, 2]), (1, vec![0, 1, 2])];
    assert_eq!(
        sync_global_process_partition_lists(None, &broadcast),
        Err(ProtocolError::NoResult)
    );
    assert_eq!(
        sync_global_process_partition_lists(Some(0), &broadcast),
        Err(ProtocolError::UnevenSplit)
    );
}

#[test]
fn unknown_server_has_no_partitions() {
    let lists = lists_of(&[(0, vec![0, 1]), (1, vec![2, 3])]);
    assert_eq!(computed_process_partition_list(&lists, 0), vec![0, 1]);
    assert_eq!(computed_process_partition_list(&lists, 7), Vec::<u32>::new());
}
