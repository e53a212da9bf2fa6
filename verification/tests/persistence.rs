use kv6::client::ClientState;
use kv6::cmd::transaction::serve_request;
use kv6::cmd::CommandOutcome;
use kv6::codec::{decode, encode, Decoded};
use kv6::resp::RespValue;
use kv6::store::Store;

const NOW: u64 = 1_700_000_000_000;

fn cmd(args: &[&str]) -> RespValue {
    RespValue::Array(Some(args.iter().map(|s| RespValue::BulkString(Some(s.to_string()))).collect()))
}

#[test]
fn snapshot_then_restore_gives_the_same_values() {
    let mut store = Store::new();
    store.set("s".to_string(), "text".to_string());
    store.rpush("l", vec!["a", "b"], NOW).unwrap();
    store.hset("h", "f", "v", NOW).unwrap();
    store.sadd("m", vec!["x", "y"], NOW).unwrap();
    store.zadd("z", 42, "member", NOW);
    store.psetex("t".to_string(), "soon".to_string(), 5000, NOW);
    store.psetex("gone".to_string(), "old".to_string(), 10, NOW - 100);

    let bytes = encode(&store.snapshot(NOW));
    let value = match decode(&bytes) {
        Decoded::Complete(v, n) => {
            assert_eq!(n, bytes.len());
            v
        }
        _ => panic!("snapshot does not decode"),
    };
    let later = NOW + 1000;
    let mut copy = Store::new();
    copy.restore(&value, later);

    assert_eq!(copy.get("s", later), Some("text".to_string()));
    assert_eq!(copy.lrange("l", 0, -1, later), vec!["a".to_string(), "b".to_string()]);
    assert_eq!(copy.hget("h", "f", later), Some("v".to_string()));
    assert_eq!(copy.smembers("m", later), vec!["x".to_string(), "y".to_string()]);
    assert_eq!(copy.zscore("z", "member", later), Some(42));
    assert_eq!(copy.pttl("t", later), 5000);
    assert!(!copy.key_exists("gone", later));
    assert_eq!(copy.dbsize(later), 6);
}

#[test]
fn malformed_records_are_skipped() {
    let snapshot = RespValue::Array(Some(vec![
        RespValue::Array(Some(vec![
            RespValue::BulkString(Some("k".to_string())),
            RespValue::BulkString(Some("string".to_string())),
            RespValue::Integer(-1),
            RespValue::BulkString(Some("v".to_string())),
        ])),
        RespValue::Array(Some(vec![RespValue::BulkString(Some("bad".to_string()))])),
        RespValue::Array(Some(vec![
            RespValue::BulkString(Some("h".to_string())),
            RespValue::BulkString(Some("hash".to_string())),
            RespValue::Integer(-1),
            RespValue::BulkString(Some("odd".to_string())),
        ])),
    ]));
    let mut store = Store::new();
    store.restore(&snapshot, NOW);
    assert_eq!(store.get("k", NOW), Some("v".to_string()));
    assert_eq!(store.dbsize(NOW), 1);
    store.restore(&RespValue::Integer(1), NOW);
    assert_eq!(store.dbsize(NOW), 1);
}

fn record(key: &str, kind: &str, items: &[&str]) -> RespValue {
    let mut fields = vec![
        RespValue::BulkString(Some(key.to_string())),
        RespValue::BulkString(Some(kind.to_string())),
        RespValue::Integer(-1),
    ];
    fields.extend(items.iter().map(|s| RespValue::BulkString(Some(s.to_string()))));
    RespValue::Array(Some(fields))
}

#[test]
fn records_out_of_shape_are_skipped() {
    let snapshot = RespValue::Array(Some(vec![
        record("dup_set", "set", &["a", "b", "a"]),
        record("dup_hash", "hash", &["f", "1", "f", "2"]),
        record("unordered", "zset", &["b", "2", "a", "1"]),
        record("dup_zset", "zset", &["a", "1", "a", "2"]),
        record("good_set", "set", &["a", "b"]),
        record("good_zset", "zset", &["a", "1", "b", "1"]),
    ]));
    let mut store = Store::new();
    store.restore(&snapshot, NOW);
    assert_eq!(store.keys("*", NOW), vec!["good_set".to_string(), "good_zset".to_string()]);
    assert_eq!(store.zrank("good_zset", "b", false, NOW), Some(1));
}

#[test]
fn purge_drops_only_expired_entries() {
    let mut store = Store::new();
    store.psetex("a".to_string(), "1".to_string(), 10, NOW);
    store.set("b".to_string(), "2".to_string());
    let va = store.get_key_version("a");
    store.purge_expired(NOW + 10);
    assert_eq!(store.get("b", NOW + 10), Some("2".to_string()));
    assert_eq!(store.get("a", NOW), None);
    assert_eq!(store.get_key_version("a"), va);
    assert_eq!(store.keys("*", NOW), vec!["b".to_string()]);
}

#[test]
fn queued_while_in_a_transaction() {
    let mut store = Store::new();
    let mut client = ClientState::new("c".to_string(), "a".to_string());
    let mut serve = |args: &[&str]| match serve_request(&mut store, &mut client, &cmd(args)) {
        CommandOutcome::Reply(r) => r,
        _ => panic!("Expected a reply"),
    };
    assert_eq!(serve(&["MULTI"]), RespValue::SimpleString("OK".to_string()));
    assert_eq!(serve(&["set", "k", "v"]), RespValue::SimpleString("QUEUED".to_string()));
    assert_eq!(serve(&["INCR", "n"]), RespValue::SimpleString("QUEUED".to_string()));
    assert_eq!(
        serve(&["EXEC"]),
        RespValue::Array(Some(vec![RespValue::SimpleString("OK".to_string()), RespValue::Integer(1)]))
    );
    assert_eq!(serve(&["GET", "k"]), RespValue::BulkString(Some("v".to_string())));
}
