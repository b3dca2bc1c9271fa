use kv_store::config::{
    accept_nodes, database_path, initial_cluster_config, initial_replicas, initial_storage_path,
    nodes_from_var, pid_from_var, replica_list, statefulset_replicas, storage_path, ConfigError,
};

#[test]
fn a_pid_is_a_positive_number() {
    assert_eq!(pid_from_var(Some("1")), Ok(1));
    assert_eq!(pid_from_var(Some("18446744073709551615")), Ok(u64::MAX));
    assert_eq!(pid_from_var(Some("0")), Err(ConfigError::PidZero));
    assert_eq!(pid_from_var(Some("one")), Err(ConfigError::PidNotANumber));
    assert_eq!(pid_from_var(Some("")), Err(ConfigError::PidNotANumber));
    assert_eq!(pid_from_var(None), Err(ConfigError::PidMissing));
}

#[test]
fn nodes_are_a_json_list() {
    assert_eq!(nodes_from_var(Some("[1, 2, 3]")), Ok(vec![1, 2, 3]));
    assert_eq!(nodes_from_var(Some(" [] ")), Ok(vec![]));
    assert_eq!(nodes_from_var(None), Ok(vec![]));
    for text in ["", "1,2,3", "[1, -2]", "[1, 2.5]", "[\"1\"]", "[1] x", "{}"] {
        assert_eq!(nodes_from_var(Some(text)), Err(ConfigError::WrongNodes), "{text}");
    }
}

#[test]
fn nodes_that_were_read() {
    assert_eq!(accept_nodes(None), Ok(vec![]));
    assert_eq!(accept_nodes(Some(Some(vec![4, 2]))), Ok(vec![4, 2]));
    assert_eq!(accept_nodes(Some(None)), Err(ConfigError::WrongNodes));
}

#[test]
fn reasons_not_to_start() {
    assert_eq!(ConfigError::WrongNodes.message(), "wrong config format");
    assert_eq!(ConfigError::PidNotANumber.message(), "PIDs must be u64");
    assert_eq!(ConfigError::PidZero.message(), "PIDs cannot be 0");
    assert_eq!(ConfigError::PidMissing.message(), "missing PID");
}

#[test]
fn replicas_of_a_stateful_set() {
    assert_eq!(statefulset_replicas(Some(4)), 4);
    assert_eq!(statefulset_replicas(Some(0)), 0);
    assert_eq!(statefulset_replicas(None), 0);
    assert_eq!(statefulset_replicas(Some(-1)), u64::MAX);
    assert_eq!(statefulset_replicas(Some(i32::MIN)), i32::MIN as u64);
}

#[test]
fn a_cluster_starts_with_three_nodes_or_more() {
    assert_eq!(initial_replicas(None), 3);
    assert_eq!(initial_replicas(Some(1)), 3);
    assert_eq!(initial_replicas(Some(3)), 3);
    assert_eq!(initial_replicas(Some(5)), 5);
    assert!(replica_list(0).is_empty());
    assert_eq!(replica_list(4), vec![1, 2, 3, 4]);
    let c = initial_cluster_config(3);
    assert_eq!(c.configuration_id, 1);
    assert_eq!(c.nodes, vec![1, 2, 3]);
}

#[test]
fn directories() {
    assert_eq!(database_path(2), "/data/db_2");
    assert_eq!(initial_storage_path(2), "/data/omnipaxos_2/config_1");
    assert_eq!(storage_path(2, 2), "/data/omnipaxos_2/config2");
    assert_ne!(storage_path(2, 1), initial_storage_path(2));
    assert_ne!(storage_path(2, 11), storage_path(2, 1));
}
