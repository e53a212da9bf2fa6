use kv6::client::ClientState;
use kv6::cmd::transaction::{execute_store_command, handle_command_with_client, handle_command_with_client_at,
    parse_command_string};
use kv6::cmd::CommandOutcome;
use kv6::resp::RespValue;
use kv6::store::Store;

const NOW_MS: u64 = 1_700_000_000_000;

fn new_store() -> Store {
    Store::new()
}

fn new_client_state(name: String, addr: String) -> ClientState {
    ClientState::new(name, addr)
}

fn make_array_cmd(args: &[&str]) -> RespValue {
    RespValue::Array(Some(
        args.iter()
            .map(|s| RespValue::BulkString(Some(s.to_string())))
            .collect(),
    ))
}

fn reply(outcome: CommandOutcome) -> RespValue {
    match outcome {
        CommandOutcome::Reply(r) => r,
        _ => panic!("Expected a reply"),
    }
}

#[test]
fn test_multi_returns_ok() {
    let mut store = new_store();
    let mut client = new_client_state("test".to_string(), "127.0.0.1:1234".to_string());
    let cmd = make_array_cmd(&["MULTI"]);
    let result = reply(handle_command_with_client(&mut store, &mut client, &cmd));
    assert_eq!(result, RespValue::SimpleString("OK".to_string()));
}

#[test]
fn test_exec_empty_queue_returns_empty_array() {
    let mut store = new_store();
    let mut client = new_client_state("test".to_string(), "127.0.0.1:1234".to_string());
    client.multi();
    let cmd = make_array_cmd(&["EXEC"]);
    let result = reply(handle_command_with_client(&mut store, &mut client, &cmd));
    assert_eq!(result, RespValue::Array(Some(vec![])));
}

#[test]
fn test_discard_returns_ok() {
    let mut store = new_store();
    let mut client = new_client_state("test".to_string(), "127.0.0.1:1234".to_string());
    let cmd = make_array_cmd(&["DISCARD"]);
    let result = reply(handle_command_with_client(&mut store, &mut client, &cmd));
    assert_eq!(result, RespValue::SimpleString("OK".to_string()));
}

#[test]
fn test_watch_returns_ok() {
    let mut store = new_store();
    let mut client = new_client_state("test".to_string(), "127.0.0.1:1234".to_string());
    let cmd = make_array_cmd(&["WATCH", "key1", "key2"]);
    let result = reply(handle_command_with_client(&mut store, &mut client, &cmd));
    assert_eq!(result, RespValue::SimpleString("OK".to_string()));
}

#[test]
fn test_unwatch_returns_ok() {
    let mut store = new_store();
    let mut client = new_client_state("test".to_string(), "127.0.0.1:1234".to_string());
    let cmd = make_array_cmd(&["UNWATCH"]);
    let result = reply(handle_command_with_client(&mut store, &mut client, &cmd));
    assert_eq!(result, RespValue::SimpleString("OK".to_string()));
}

#[test]
fn test_transaction_queue_and_exec() {
    let mut store = new_store();
    let mut client = new_client_state("test".to_string(), "127.0.0.1:1234".to_string());
    client.multi();
    client.queue_command("SET foo bar".to_string());

    let cmd = make_array_cmd(&["EXEC"]);
    let result = reply(handle_command_with_client(&mut store, &mut client, &cmd));

    match result {
        RespValue::Array(Some(arr)) => {
            assert_eq!(arr.len(), 1);
            assert_eq!(arr[0], RespValue::SimpleString("OK".to_string()));
        }
        _ => panic!("Expected Array result"),
    }

    assert_eq!(store.get("foo", NOW_MS), Some("bar".to_string()));
}

#[test]
fn test_watch_key_change_detection() {
    let mut store = new_store();
    let mut client = new_client_state("test".to_string(), "127.0.0.1:1234".to_string());

    store.set("foo".to_string(), "initial".to_string());

    client.watch(vec!["foo".to_string()], vec![("foo".to_string(), store.get_key_version("foo"))]);
    client.multi();
    client.queue_command("SET foo modified".to_string());

    store.set("foo".to_string(), "changed_by_another".to_string());

    let cmd = make_array_cmd(&["EXEC"]);
    let result = reply(handle_command_with_client(&mut store, &mut client, &cmd));

    assert_eq!(result, RespValue::Array(None));

    assert_eq!(store.get("foo", NOW_MS), Some("changed_by_another".to_string()));
}

#[test]
fn test_watch_no_change_executes() {
    let mut store = new_store();
    let mut client = new_client_state("test".to_string(), "127.0.0.1:1234".to_string());

    store.set("foo".to_string(), "initial".to_string());

    client.watch(vec!["foo".to_string()], vec![("foo".to_string(), store.get_key_version("foo"))]);
    client.multi();
    client.queue_command("SET foo modified".to_string());

    let cmd = make_array_cmd(&["EXEC"]);
    let result = reply(handle_command_with_client(&mut store, &mut client, &cmd));

    match result {
        RespValue::Array(Some(arr)) => {
            assert_eq!(arr.len(), 1);
        }
        _ => panic!("Expected Array result"),
    }

    assert_eq!(store.get("foo", NOW_MS), Some("modified".to_string()));
}

#[test]
fn watch_command_then_foreign_write_aborts() {
    let mut store = new_store();
    let mut client = new_client_state("c".to_string(), "a".to_string());
    store.set("k".to_string(), "1".to_string());
    let now_us = NOW_MS * 1000;
    reply(handle_command_with_client_at(&mut store, &mut client, &make_array_cmd(&["WATCH", "k"]), now_us));
    reply(handle_command_with_client_at(&mut store, &mut client, &make_array_cmd(&["MULTI"]), now_us));
    client.queue_command("INCR counter".to_string());
    store.del(vec!["k"], NOW_MS);
    let r = reply(handle_command_with_client_at(&mut store, &mut client, &make_array_cmd(&["EXEC"]), now_us));
    assert_eq!(r, RespValue::Array(None));
    assert_eq!(store.get("counter", NOW_MS), None);
    assert!(!client.has_watched_keys());
    assert!(!client.is_in_multi());
}

#[test]
fn exec_runs_queue_in_order_and_skips_blank_lines() {
    let mut store = new_store();
    let mut client = new_client_state("c".to_string(), "a".to_string());
    client.multi();
    client.queue_command("INCR n".to_string());
    client.queue_command("   ".to_string());
    client.queue_command("get n".to_string());
    client.queue_command("DEL n zz".to_string());
    client.queue_command("LPUSH l x".to_string());
    client.queue_command("SET".to_string());
    let r = reply(handle_command_with_client_at(&mut store, &mut client, &make_array_cmd(&["EXEC"]), NOW_MS * 1000));
    assert_eq!(
        r,
        RespValue::Array(Some(vec![
            RespValue::Integer(1),
            RespValue::BulkString(Some("1".to_string())),
            RespValue::Integer(1),
            RespValue::Error("ERR unknown command 'LPUSH'".to_string()),
            RespValue::Error("ERR wrong number of arguments for 'SET' command".to_string()),
        ]))
    );
    assert!(!client.is_in_multi());
}

#[test]
fn discard_forgets_queue_and_watches() {
    let mut store = new_store();
    let mut client = new_client_state("c".to_string(), "a".to_string());
    reply(handle_command_with_client(&mut store, &mut client, &make_array_cmd(&["WATCH", "a", "b"])));
    assert!(client.has_watched_keys());
    reply(handle_command_with_client(&mut store, &mut client, &make_array_cmd(&["MULTI"])));
    client.queue_command("SET a 1".to_string());
    reply(handle_command_with_client(&mut store, &mut client, &make_array_cmd(&["DISCARD"])));
    assert!(!client.has_watched_keys());
    assert!(!client.is_in_multi());
    let r = reply(handle_command_with_client(&mut store, &mut client, &make_array_cmd(&["EXEC"])));
    assert_eq!(r, RespValue::Array(Some(vec![])));
    assert_eq!(store.get("a", NOW_MS), None);
}

#[test]
fn other_commands_pass_through() {
    let mut store = new_store();
    let mut client = new_client_state("c".to_string(), "a".to_string());
    let r = reply(handle_command_with_client(&mut store, &mut client, &make_array_cmd(&["SET", "k", "v"])));
    assert_eq!(r, RespValue::SimpleString("OK".to_string()));
    assert_eq!(store.get("k", NOW_MS), Some("v".to_string()));
    client.multi();
    let r = reply(handle_command_with_client(&mut store, &mut client, &make_array_cmd(&["GET", "k"])));
    assert_eq!(r, RespValue::BulkString(Some("v".to_string())));
    assert!(client.is_in_multi());
}

#[test]
fn queued_lines_become_bulk_strings() {
    assert_eq!(parse_command_string(" \t "), None);
    assert_eq!(
        parse_command_string("SET  a\tb "),
        Some(vec![
            RespValue::BulkString(Some("SET".to_string())),
            RespValue::BulkString(Some("a".to_string())),
            RespValue::BulkString(Some("b".to_string())),
        ])
    );
}

#[test]
fn store_commands_of_a_transaction() {
    let mut store = new_store();
    assert_eq!(
        execute_store_command(&mut store, make_array_cmd(&["SET", "a", "5"]), NOW_MS),
        RespValue::SimpleString("OK".to_string())
    );
    assert_eq!(execute_store_command(&mut store, make_array_cmd(&["INCR", "a"]), NOW_MS), RespValue::Integer(6));
    execute_store_command(&mut store, make_array_cmd(&["SET", "s", "x"]), NOW_MS);
    assert_eq!(
        execute_store_command(&mut store, make_array_cmd(&["INCR", "s"]), NOW_MS),
        RespValue::Error("ERR value is not an integer".to_string())
    );
    assert_eq!(execute_store_command(&mut store, make_array_cmd(&["DEL"]), NOW_MS), RespValue::Integer(0));
    assert_eq!(
        execute_store_command(&mut store, RespValue::Integer(1), NOW_MS),
        RespValue::Error("ERR invalid command format".to_string())
    );
}
