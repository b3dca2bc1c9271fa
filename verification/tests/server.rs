use std::collections::BTreeMap;

use kv_store::config::ClusterConfig;
use kv_store::database::Database;
use kv_store::kv::{KVCommand, KVSnapshot, KeyValue};
use kv_store::network::{Message, CLIENT};
use kv_store::server::{APIResponse, Applied, LogEntry, Server, Startup, Step, Task};
use kv_store::store::Write;
use kv_store::transfer::Row;

type Bytes = BTreeMap<Vec<u8>, Vec<u8>>;

fn server(pid: u64) -> Server {
    Server::new(pid, vec![1, 2, 3], Database::new("/data/db"), 3)
}

fn put(key: &str, value: &str) -> KVCommand {
    KVCommand::Put(KeyValue { key: key.to_string(), value: value.to_string() })
}

fn delete(key: &str) -> KVCommand {
    KVCommand::Delete(key.to_string())
}

fn config(id: u32, nodes: &[u64]) -> ClusterConfig {
    ClusterConfig { configuration_id: id, nodes: nodes.to_vec() }
}

fn write(store: &mut Bytes, w: Write) {
    match w {
        Write::Put { key, value } => {
            store.insert(key, value);
        }
        Write::Delete { key } => {
            store.remove(&key);
        }
    }
}

fn run(store: &mut Bytes, steps: Vec<Step>) {
    for step in steps {
        if let Step::Write(w) = step {
            write(store, w);
        }
    }
}

fn scan(store: &Bytes) -> Vec<Row> {
    store.iter().map(|(k, v)| Some((k.clone(), v.clone()))).collect()
}

fn answer(s: &Server, store: &Bytes, key: &str) -> Option<String> {
    let (to, msg) = s.answer_get::<u8>(key.to_string(), store.get(key.as_bytes()).cloned());
    assert_eq!(to, CLIENT);
    match msg {
        Message::APIResponse(APIResponse::Get(k, value)) => {
            assert_eq!(k, key);
            value
        }
        other => panic!("unexpected {:?}", other),
    }
}

#[test]
fn a_new_server() {
    let s = server(2);
    assert_eq!((s.pid, s.last_decided_idx, s.current_num_replicas), (2, 0, 3));
    assert_eq!((s.current_config_id, s.stop_sign_timeot), (1, 0));
    assert_eq!(s.nodes, vec![1, 2, 3]);
}

#[test]
fn a_restart_is_a_recovery() {
    assert_eq!(server(1).startup(true, 7), Startup::Recover(7));
    assert_eq!(server(1).startup(false, 7), Startup::MarkStarted);
}

#[test]
fn what_a_message_asks_for() {
    let s = server(1);
    let get = Message::<u8>::APIRequest(KVCommand::Get("a".to_string()));
    assert_eq!(s.process_incoming_msg(get), Task::LookUp("a".to_string()));
    assert_eq!(
        s.process_incoming_msg(Message::<u8>::APIRequest(put("a", "1"))),
        Task::Append(put("a", "1"))
    );
    assert_eq!(
        s.process_incoming_msg(Message::<u8>::APIRequest(delete("a"))),
        Task::Append(delete("a"))
    );
    assert_eq!(s.process_incoming_msg(Message::OmniPaxosMsg(5u8)), Task::HandleIncoming(5u8));
    let list = vec![("a".to_string(), "1".to_string())];
    assert_eq!(
        s.process_incoming_msg(Message::<u8>::StateCatchup(list.clone())),
        Task::CatchUp(list)
    );
    assert_eq!(
        s.process_incoming_msg(Message::<u8>::Debug("hi".to_string())),
        Task::CheckReplicas("hi".to_string())
    );
    assert_eq!(s.process_incoming_msg(Message::<u8>::Reconnect(3)), Task::CheckLeader(3));
}

#[test]
fn the_demo_of_three_pairs() {
    let mut nodes: Vec<(Server, Bytes)> = (1..=3).map(|pid| (server(pid), Bytes::new())).collect();
    let log = vec![put("a", "1"), put("b", "2"), put("c", "3"), delete("a")];
    for (s, store) in nodes.iter_mut() {
        let entries = log.iter().cloned().map(LogEntry::Decided).collect();
        let steps = s.update_database(entries, Some(1));
        run(store, steps);
    }
    for (s, store) in nodes.iter() {
        assert_eq!(answer(s, store, "a"), None);
        assert_eq!(answer(s, store, "b"), Some("2".to_string()));
        assert_eq!(answer(s, store, "c"), Some("3".to_string()));
        assert_eq!(store, &nodes[0].1);
    }
}

#[test]
fn a_node_that_joins_gets_the_state() {
    let mut leader = server(1);
    let mut store = Bytes::new();
    let entries = vec![
        LogEntry::Decided(put("a", "1")),
        LogEntry::Decided(put("b", "2")),
        LogEntry::StopSign(config(2, &[1, 2, 3, 4]), true),
    ];
    let steps = leader.update_database(entries.clone(), Some(1));
    assert_eq!(
        steps[2..],
        [
            Step::SendState(vec![4]),
            Step::StartConfiguration {
                config: config(2, &[1, 2, 3, 4]),
                storage_path: "/data/omnipaxos_1/config2".to_string(),
            },
        ]
    );
    assert_eq!(leader.members, vec![1, 2, 3, 4]);
    run(&mut store, steps);
    let list = leader.database.get_all_key_values(scan(&store)).unwrap();
    let joining = server(4);
    let mut fresh = Bytes::from([(b"old".to_vec(), b"x".to_vec())]);
    for w in joining.database.handle_kv(list, scan(&fresh)) {
        write(&mut fresh, w);
    }
    assert_eq!(fresh, store);
    assert_eq!(answer(&joining, &fresh, "b"), Some("2".to_string()));

    for other in [None, Some(1), Some(3)] {
        let mut follower = server(2);
        let steps = follower.update_database(entries.clone(), other);
        assert_eq!(steps.len(), 3);
        assert!(matches!(steps[2], Step::StartConfiguration { .. }));
        assert_eq!(follower.members, vec![1, 2, 3, 4]);
    }
}

#[test]
fn only_those_that_are_new_get_the_state() {
    let mut s = server(2);
    let steps = s.update_database(
        vec![
            LogEntry::StopSign(config(2, &[1, 2, 3, 5, 4]), true),
            LogEntry::StopSign(config(3, &[6, 2, 4]), true),
            LogEntry::StopSign(config(4, &[2]), true),
        ],
        Some(2),
    );
    let sent: Vec<Vec<u64>> = steps
        .into_iter()
        .filter_map(|step| match step {
            Step::SendState(list) => Some(list),
            _ => None,
        })
        .collect();
    assert_eq!(sent, vec![vec![5, 4], vec![6], vec![]]);
}

#[test]
fn a_node_that_leaves_sends_nothing() {
    let mut s = server(3);
    s.last_decided_idx = 4;
    let steps = s.update_database(vec![LogEntry::StopSign(config(2, &[1, 2]), true)], Some(3));
    assert_eq!(
        steps,
        vec![Step::StartConfiguration {
            config: config(2, &[1, 2]),
            storage_path: "/data/omnipaxos_3/config2".to_string(),
        }]
    );
    assert_eq!((s.current_config_id, s.last_decided_idx), (2, 0));
}

#[test]
fn entries_that_change_nothing() {
    let mut s = server(1);
    s.last_decided_idx = 4;
    let before = s.clone();
    let steps = s.update_database(vec![
        LogEntry::Undecided(put("a", "1")),
        LogEntry::Trimmed(3),
        LogEntry::StopSign(config(2, &[1]), false),
        LogEntry::Decided(KVCommand::Get("a".to_string())),
    ], None);
    assert_eq!(steps, vec![]);
    assert_eq!(s, before);
}

#[test]
fn a_snapshot_brings_a_node_up_to_date() {
    let missed = vec![put("a", "1"), put("b", "2"), delete("a"), put("c", "3")];
    let mut up = server(1);
    let mut up_store = Bytes::from([(b"a".to_vec(), b"0".to_vec())]);
    let mut down = server(2);
    let mut down_store = up_store.clone();
    let steps = up.update_database(missed.iter().cloned().map(LogEntry::Decided).collect(), None);
    run(&mut up_store, steps);
    let snapshot = KVSnapshot::create(&missed);
    let steps = down.update_database(vec![LogEntry::Snapshotted(snapshot)], None);
    run(&mut down_store, steps);
    assert_eq!(down_store, up_store);
}

#[test]
fn entries_taken_in_two_runs() {
    let log = vec![
        LogEntry::Decided(put("a", "1")),
        LogEntry::StopSign(config(2, &[1, 2, 3]), true),
        LogEntry::Decided(delete("a")),
    ];
    let mut whole = server(1);
    let all = whole.update_database(log.clone(), Some(1));
    for cut in 0..=log.len() {
        let mut s = server(1);
        let mut steps = s.update_database(log[..cut].to_vec(), Some(1));
        steps.extend(s.update_database(log[cut..].to_vec(), Some(1)));
        assert_eq!(steps, all);
        assert_eq!(s, whole);
    }
}

fn gets(n: usize) -> Vec<LogEntry> {
    (0..n).map(|_| LogEntry::Decided(KVCommand::Get("a".to_string()))).collect()
}

#[test]
fn decided_entries_are_taken_in_once() {
    let mut s = server(1);
    assert_eq!(s.handle_decided_entries(0), None);
    assert_eq!(s.handle_decided_entries(4), Some(0));
    let applied = s.take_in_decided(4, gets(4), None).1;
    assert_eq!(applied.response, APIResponse::Decided(4));
    assert_eq!(applied.snapshot, None);
    assert_eq!(s.handle_decided_entries(4), None);
    assert_eq!(s.handle_decided_entries(3), None);
    assert_eq!(s.handle_decided_entries(10), Some(4));
    let applied = s.take_in_decided(10, gets(6), None).1;
    assert_eq!(applied.response, APIResponse::Decided(10));
    assert_eq!(applied.snapshot, Some(10));
    assert_eq!(s.last_decided_idx, 10);
}

#[test]
fn a_log_that_is_back_at_its_start_is_read_from_there() {
    let mut s = server(1);
    s.last_decided_idx = 8;
    assert_eq!(s.handle_decided_entries(0), None);
    assert_eq!(s.last_decided_idx, 0);
    assert_eq!(s.handle_decided_entries(2), Some(0));
}

#[test]
fn the_next_log_is_taken_in_from_its_start() {
    let mut s = server(1);
    let mut store = Bytes::new();
    s.last_decided_idx = 8;
    assert_eq!(s.handle_decided_entries(10), Some(8));
    let (steps, applied) = s.take_in_decided(
        10,
        vec![
            LogEntry::Decided(put("a", "1")),
            LogEntry::StopSign(config(2, &[1, 2, 3]), true),
        ],
        None,
    );
    assert_eq!(applied, Applied { response: APIResponse::Decided(10), snapshot: None });
    assert_eq!((s.last_decided_idx, s.current_config_id), (0, 2));
    assert_eq!(s.follow_up(applied.clone(), false), Some(applied.clone()));
    assert_eq!(s.follow_up(applied, true), None);
    run(&mut store, steps);
    assert_eq!(s.handle_decided_entries(3), Some(0));
    let next = vec![put("b", "2"), put("a", "3"), delete("b")];
    let next = next.into_iter().map(LogEntry::Decided).collect();
    let (steps, applied) = s.take_in_decided(3, next, None);
    assert_eq!(applied.response, APIResponse::Decided(3));
    run(&mut store, steps);
    assert_eq!(s.last_decided_idx, 3);
    assert_eq!(answer(&s, &store, "a"), Some("3".to_string()));
    assert_eq!(answer(&s, &store, "b"), None);
}

#[test]
fn a_node_that_crashed_recovers() {
    let log = vec![
        put("a", "1"),
        put("b", "2"),
        delete("a"),
        put("a", "3"),
        delete("b"),
        put("c", "4"),
    ];
    let mut up = server(1);
    let mut up_store = Bytes::new();
    let entries: Vec<LogEntry> = log.iter().cloned().map(LogEntry::Decided).collect();
    let steps = up.update_database(entries.clone(), None);
    run(&mut up_store, steps);
    for taken in 0..=log.len() {
        let mut before = server(2);
        let mut store = Bytes::new();
        let steps = before.update_database(entries[..taken].to_vec(), None);
        run(&mut store, steps);
        for compacted in 0..=log.len() {
            let mut again = server(2);
            let mut recovered = store.clone();
            let snapshot = KVSnapshot::create(&log[..compacted].to_vec());
            let mut kept = vec![LogEntry::Snapshotted(snapshot)];
            kept.extend(entries[compacted..].iter().cloned());
            assert_eq!(again.handle_decided_entries(6), Some(0));
            let (steps, applied) = again.take_in_decided(6, kept, None);
            run(&mut recovered, steps);
            assert_eq!(applied.response, APIResponse::Decided(6));
            assert_eq!(recovered, up_store);
        }
    }
}

#[test]
fn the_leader_proposes_the_new_number_of_nodes() {
    let mut s = server(1);
    assert_eq!(s.check_replicas(Some(1), Some(4)), Some(config(2, &[1, 2, 3, 4])));
    assert_eq!((s.current_num_replicas, s.stop_sign_timeot), (4, 0));
    assert_eq!(s.check_replicas(Some(1), Some(4)), None);
    assert_eq!(s.check_replicas(Some(1), Some(2)), Some(config(2, &[1, 2])));
}

#[test]
fn nobody_else_proposes_anything() {
    let mut s = server(2);
    assert_eq!(s.check_replicas(Some(1), Some(4)), None);
    assert_eq!(s.current_num_replicas, 4);
    assert_eq!(s.check_replicas(None, Some(5)), None);
    assert_eq!(s.current_num_replicas, 5);
    assert_eq!(s.check_replicas(Some(2), None), None);
    assert_eq!(s.check_replicas(Some(2), Some(5)), None);
    assert_eq!((s.current_num_replicas, s.stop_sign_timeot), (5, 0));
}

#[test]
fn a_pending_proposal_waits_out_its_rounds() {
    let mut s = server(1);
    s.stop_sign_timeot = 3;
    assert_eq!(s.check_replicas(Some(1), Some(4)), None);
    assert_eq!((s.stop_sign_timeot, s.current_num_replicas), (4, 3));
    assert_eq!(s.check_replicas(Some(1), Some(4)), None);
    assert_eq!((s.stop_sign_timeot, s.current_num_replicas), (5, 3));
    assert_eq!(s.check_replicas(Some(1), Some(4)), Some(config(2, &[1, 2, 3, 4])));
    assert_eq!((s.stop_sign_timeot, s.current_num_replicas), (0, 4));
}

#[test]
fn the_number_of_a_configuration_wraps() {
    let mut s = server(1);
    s.current_config_id = u32::MAX as u64;
    assert_eq!(s.check_replicas(Some(1), Some(1)), Some(config(0, &[1])));
}

#[test]
fn the_leader_reconnects_nobody() {
    assert!(!server(1).reconnects(Some(1)));
    assert!(server(1).reconnects(Some(2)));
    assert!(server(1).reconnects(None));
}

#[test]
fn signs_of_life() {
    assert_eq!(
        server(2).leader_heartbeat::<u8>(Some(2)),
        Some((0, Message::Debug("Heartbeat from node 2".to_string())))
    );
    assert_eq!(server(2).leader_heartbeat::<u8>(Some(1)), None);
    assert_eq!(server(2).leader_heartbeat::<u8>(None), None);
    assert_eq!(
        server(2).debug_heartbeat::<u8>(),
        vec![
            (1, Message::Debug("Heartbeat from node 2".to_string())),
            (3, Message::Debug("Heartbeat from node 2".to_string())),
        ]
    );
}

#[test]
fn every_configuration_has_a_directory_of_its_own() {
    let mut s = server(1);
    let mut paths = vec![kv_store::config::initial_storage_path(1)];
    for id in 2..14 {
        let entries = vec![LogEntry::StopSign(config(id, &[2, 3]), true)];
        for step in s.update_database(entries, Some(2)) {
            match step {
                Step::StartConfiguration { storage_path, .. } => paths.push(storage_path),
                other => panic!("unexpected {:?}", other),
            }
        }
    }
    assert_eq!(paths.len(), 13);
    assert_eq!(paths[12], "/data/omnipaxos_1/config13");
    paths.sort();
    paths.dedup();
    assert_eq!(paths.len(), 13);
    assert_eq!(s.current_config_id, 13);
}

#[test]
fn nothing_but_the_last_put_counts() {
    let mut s = server(1);
    let mut store = Bytes::new();
    let steps = s.update_database(vec![
        LogEntry::Decided(put("k", "1")),
        LogEntry::Decided(delete("k")),
        LogEntry::Decided(put("k", "2")),
        LogEntry::Decided(put("other", "3")),
        LogEntry::Snapshotted(KVSnapshot {
            snapshotted: vec![("x".to_string(), "4".to_string())],
            deleted_keys: vec!["other".to_string()],
        }),
    ], None);
    run(&mut store, steps);
    assert_eq!(answer(&s, &store, "k"), Some("2".to_string()));
    assert_eq!(answer(&s, &store, "other"), None);
    assert_eq!(answer(&s, &store, "x"), Some("4".to_string()));
}
