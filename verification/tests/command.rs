use kv_store::command::{has_readable_port, parse_command};
use kv_store::kv::{KVCommand, KeyValue};

fn read(line: &str) -> Result<(KVCommand, Option<u64>), String> {
    assert!(has_readable_port(line));
    parse_command(line.to_string()).map_err(|e| e.to_string())
}

fn put(key: &str, value: &str) -> KVCommand {
    KVCommand::Put(KeyValue { key: key.to_string(), value: value.to_string() })
}

#[test]
fn put_of_a_pair() {
    assert_eq!(read("put a 1\n"), Ok((put("a", "1"), None)));
    assert_eq!(read("put a 1 8002\n"), Ok((put("a", "1"), Some(8002))));
}

#[test]
fn get_from_a_node() {
    assert_eq!(read("get a 8001\n"), Ok((KVCommand::Get("a".to_string()), Some(8001))));
    assert_eq!(read("get a"), Ok((KVCommand::Get("a".to_string()), None)));
}

#[test]
fn delete_of_a_key() {
    assert_eq!(read("delete a"), Ok((KVCommand::Delete("a".to_string()), None)));
    assert_eq!(read("  delete a +8003 \r\n"), Ok((KVCommand::Delete("a".to_string()), Some(8003))));
}

#[test]
fn words_behind_the_port_are_passed_over() {
    assert_eq!(read("get a 8001 and more"), Ok((KVCommand::Get("a".to_string()), Some(8001))));
}

#[test]
fn two_spaces_hold_an_empty_word() {
    assert_eq!(read("get  8001"), Ok((KVCommand::Get(String::new()), Some(8001))));
    assert_eq!(read("put  v 7"), Ok((put("", "v"), Some(7))));
    assert_eq!(read("put a  7"), Ok((put("a", ""), Some(7))));
}

#[test]
fn a_tab_is_part_of_a_word() {
    assert_eq!(read("get a\tb"), Ok((KVCommand::Get("a\tb".to_string()), None)));
}

#[test]
fn too_few_arguments() {
    for line in ["put", "put a", "put a \n", "get", "get ", "delete"] {
        assert_eq!(read(line), Err("Not enough arguments".to_string()), "{line}");
    }
}

#[test]
fn help_and_unknown_commands() {
    assert_eq!(
        read("help"),
        Err("Commands: put <key> <value>, get <key>, delete <key> (optional <port>)".to_string())
    );
    for line in ["", "   ", "list", "PUT a 1", "puts a 1"] {
        assert_eq!(read(line), Err("Invalid command type".to_string()), "{line}");
    }
}

#[test]
fn a_port_that_is_no_number_is_seen() {
    for line in ["get a x", "delete a -1", "put a 1 80.0", "get a 18446744073709551616", "get a  7"] {
        assert!(!has_readable_port(line), "{line}");
    }
    for line in ["get a", "put a x", "put a 1", "help me out", "list a b c d", ""] {
        assert!(has_readable_port(line), "{line}");
    }
}

#[test]
fn the_reason_is_shown_as_it_is() {
    let e = parse_command("nothing".to_string()).unwrap_err();
    assert_eq!(e.0, e.to_string());
}
