use kv6::cmd::{handle_command, handle_command_at, save_reply, CommandOutcome};
use kv6::resp::RespValue;
use kv6::store::Store;

const NOW_MS: u64 = 1_700_000_000_000;

fn new_store() -> Store {
    Store::new()
}

fn make_array_cmd(args: &[&str]) -> RespValue {
    RespValue::Array(Some(
        args.iter()
            .map(|s| RespValue::BulkString(Some(s.to_string())))
            .collect(),
    ))
}

/// The reply a request gets, the snapshot writes succeeding.
fn reply_of(outcome: CommandOutcome) -> RespValue {
    match outcome {
        CommandOutcome::Reply(r) => r,
        CommandOutcome::Save(shutdown) => save_reply(Ok(()), shutdown),
        CommandOutcome::SortedSet(args) => panic!("sorted-set command {:?}", args),
    }
}

fn run(store: &mut Store, args: &[&str]) -> RespValue {
    reply_of(handle_command(store, &make_array_cmd(args)))
}

fn run_at(store: &mut Store, args: &[&str], now_us: u64) -> RespValue {
    reply_of(handle_command_at(store, &make_array_cmd(args), now_us))
}

fn bulk(s: &str) -> RespValue {
    RespValue::BulkString(Some(s.to_string()))
}

#[test]
fn test_ping_returns_pong() {
    let mut store = new_store();
    let result = run(&mut store, &["PING"]);
    assert_eq!(result, RespValue::SimpleString("PONG".to_string()));
}

#[test]
fn test_ping_with_message() {
    let mut store = new_store();
    let result = run(&mut store, &["PING", "hello"]);
    assert_eq!(result, RespValue::SimpleString("hello".to_string()));
}

#[test]
fn test_echo() {
    let mut store = new_store();
    let result = run(&mut store, &["ECHO", "test message"]);
    assert_eq!(result, RespValue::BulkString(Some("test message".to_string())));
}

#[test]
fn test_info() {
    let mut store = new_store();
    let result = run(&mut store, &["INFO"]);
    match result {
        RespValue::BulkString(Some(s)) => {
            assert!(s.contains("kv6_version"));
        }
        _ => panic!("Expected BulkString result"),
    }
}

#[test]
fn test_client_list() {
    let mut store = new_store();
    let result = run(&mut store, &["CLIENT", "LIST"]);
    match result {
        RespValue::Array(Some(arr)) => {
            assert!(arr.is_empty());
        }
        _ => panic!("Expected Array result"),
    }
}

#[test]
fn test_client_kill() {
    let mut store = new_store();
    let result = run(&mut store, &["CLIENT", "KILL", "127.0.0.1:1234"]);
    assert_eq!(result, RespValue::Integer(0));
}

#[test]
fn test_client_unknown_subcommand() {
    let mut store = new_store();
    let result = run(&mut store, &["CLIENT", "UNKNOWN"]);
    match result {
        RespValue::Error(_) => {}
        _ => panic!("Expected Error result"),
    }
}

#[test]
fn test_unknown_command() {
    let mut store = new_store();
    let result = run(&mut store, &["UNKNOWN_CMD"]);
    match result {
        RespValue::Error(_) => {}
        _ => panic!("Expected Error result"),
    }
}

#[test]
fn test_time() {
    let mut store = new_store();
    let result = run(&mut store, &["TIME"]);
    match result {
        RespValue::Array(Some(arr)) => {
            assert_eq!(arr.len(), 2);
            match &arr[0] {
                RespValue::BulkString(Some(s)) => {
                    assert!(s.parse::<i64>().is_ok());
                }
                _ => panic!("Expected BulkString for seconds"),
            }
        }
        _ => panic!("Expected Array result"),
    }
}

#[test]
fn test_lastsave() {
    let mut store = new_store();
    let result = run(&mut store, &["LASTSAVE"]);
    match result {
        RespValue::Integer(n) => {
            assert!(n > 0);
        }
        _ => panic!("Expected Integer result"),
    }
}

#[test]
fn test_shutdown() {
    let mut store = new_store();
    let result = run(&mut store, &["SHUTDOWN"]);
    match result {
        RespValue::Error(_) => {}
        _ => panic!("Expected Error result for SHUTDOWN"),
    }
}

#[test]
fn test_dbsize() {
    let mut store = new_store();
    store.set("key1".to_string(), "value1".to_string());
    store.set("key2".to_string(), "value2".to_string());
    let result = run(&mut store, &["DBSIZE"]);
    assert_eq!(result, RespValue::Integer(2));
}

#[test]
fn test_flushdb() {
    let mut store = new_store();
    store.set("key1".to_string(), "value1".to_string());
    store.set("key2".to_string(), "value2".to_string());
    assert_eq!(store.dbsize(NOW_MS), 2);
    let result = run(&mut store, &["FLUSHDB"]);
    assert_eq!(result, RespValue::SimpleString("OK".to_string()));
    assert_eq!(store.dbsize(NOW_MS), 0);
}

#[test]
fn test_getbit_command() {
    let mut store = new_store();
    store.set("mykey".to_string(), "\x00".to_string());
    let result = run(&mut store, &["GETBIT", "mykey", "0"]);
    assert_eq!(result, RespValue::Integer(0));
}

#[test]
fn test_setbit_command() {
    let mut store = new_store();
    let result = run(&mut store, &["SETBIT", "mykey", "7", "1"]);
    assert_eq!(result, RespValue::Integer(0));
}

#[test]
fn test_bitcount_command() {
    let mut store = new_store();
    store.set("mykey".to_string(), "test".to_string());
    let result = run(&mut store, &["BITCOUNT", "mykey"]);
    assert_eq!(result, RespValue::Integer(17));
}

#[test]
fn test_bitop_command() {
    let mut store = new_store();
    store.set("key1".to_string(), "a".to_string());
    store.set("key2".to_string(), "b".to_string());
    let result = run(&mut store, &["BITOP", "AND", "dest", "key1", "key2"]);
    assert_eq!(result, RespValue::Integer(1));
}

#[test]
fn test_scan_basic() {
    let mut store = new_store();
    store.set("key1".to_string(), "value1".to_string());
    store.set("key2".to_string(), "value2".to_string());
    store.set("key3".to_string(), "value3".to_string());

    let result = run(&mut store, &["SCAN", "0"]);
    match result {
        RespValue::Array(Some(arr)) => {
            assert_eq!(arr.len(), 2);
            match &arr[0] {
                RespValue::BulkString(Some(s)) => {
                    assert!(s.parse::<usize>().is_ok());
                }
                _ => panic!("Expected BulkString for cursor"),
            };
            match &arr[1] {
                RespValue::Array(Some(keys)) => {
                    assert!(!keys.is_empty());
                }
                _ => panic!("Expected Array for keys"),
            };
        }
        _ => panic!("Expected Array result for SCAN"),
    }
}

#[test]
fn test_scan_with_match() {
    let mut store = new_store();
    store.set("user:1".to_string(), "value1".to_string());
    store.set("user:2".to_string(), "value2".to_string());
    store.set("post:1".to_string(), "value3".to_string());

    let result = run(&mut store, &["SCAN", "0", "MATCH", "user:*"]);
    match result {
        RespValue::Array(Some(arr)) => {
            match &arr[1] {
                RespValue::Array(Some(keys)) => {
                    for key in keys {
                        if let RespValue::BulkString(Some(k)) = key {
                            assert!(k.starts_with("user:"));
                        }
                    }
                }
                _ => panic!("Expected Array for keys"),
            };
        }
        _ => panic!("Expected Array result for SCAN"),
    }
}

#[test]
fn test_scan_empty_db() {
    let mut store = new_store();
    let result = run(&mut store, &["SCAN", "0"]);
    match result {
        RespValue::Array(Some(arr)) => {
            assert_eq!(arr.len(), 2);
            match &arr[1] {
                RespValue::Array(Some(keys)) => {
                    assert!(keys.is_empty());
                }
                _ => panic!("Expected empty Array for keys"),
            };
        }
        _ => panic!("Expected Array result for SCAN"),
    }
}

#[test]
fn test_sscan() {
    let mut store = new_store();
    store.sadd("myset", vec!["one", "two", "three"], NOW_MS).ok();

    let result = run(&mut store, &["SSCAN", "myset", "0"]);
    match result {
        RespValue::Array(Some(arr)) => {
            assert_eq!(arr.len(), 2);
            match &arr[1] {
                RespValue::Array(Some(members)) => {
                    assert_eq!(members.len(), 3);
                }
                _ => panic!("Expected Array for members"),
            };
        }
        _ => panic!("Expected Array result for SSCAN"),
    }
}

#[test]
fn test_hscan() {
    let mut store = new_store();
    store.hset("myhash", "field1", "value1", NOW_MS).ok();
    store.hset("myhash", "field2", "value2", NOW_MS).ok();

    let result = run(&mut store, &["HSCAN", "myhash", "0"]);
    match result {
        RespValue::Array(Some(arr)) => {
            assert_eq!(arr.len(), 2);
            match &arr[1] {
                RespValue::Array(Some(fields)) => {
                    assert_eq!(fields.len(), 2);
                }
                _ => panic!("Expected Array for fields"),
            };
        }
        _ => panic!("Expected Array result for HSCAN"),
    }
}

/// The order key the server stores for a floating-point score.
fn score_key(score: f64) -> u64 {
    let bits = (score + 0.0).to_bits();
    if bits >> 63 == 1 {
        !bits
    } else {
        bits | (1 << 63)
    }
}

#[test]
fn test_zscan() {
    let mut store = new_store();
    store.zadd("myzset", score_key(1.0), "one", NOW_MS);
    store.zadd("myzset", score_key(2.0), "two", NOW_MS);

    let result = run(&mut store, &["ZSCAN", "myzset", "0"]);
    match result {
        RespValue::Array(Some(arr)) => {
            assert_eq!(arr.len(), 2);
            match &arr[1] {
                RespValue::Array(Some(members)) => {
                    assert_eq!(members.len(), 2);
                }
                _ => panic!("Expected Array for members"),
            };
        }
        _ => panic!("Expected Array result for ZSCAN"),
    }
}

#[test]
fn sorted_set_commands_without_scores() {
    let mut store = new_store();
    store.zadd("z", score_key(-1.5), "low", NOW_MS);
    store.zadd("z", score_key(3.0), "high", NOW_MS);
    store.zadd("z", score_key(0.0), "mid", NOW_MS);
    assert_eq!(run(&mut store, &["ZCARD", "z"]), RespValue::Integer(3));
    assert_eq!(run(&mut store, &["zrank", "z", "mid"]), RespValue::Integer(1));
    assert_eq!(run(&mut store, &["ZRANK", "z", "low"]), RespValue::Integer(0));
    assert_eq!(run(&mut store, &["ZREVRANK", "z", "low"]), RespValue::Integer(2));
    assert_eq!(run(&mut store, &["ZRANK", "z", "none"]), RespValue::BulkString(None));
    assert_eq!(run(&mut store, &["ZREM", "z", "low", "none", "mid"]), RespValue::Integer(2));
    assert_eq!(run(&mut store, &["ZCARD", "z"]), RespValue::Integer(1));
    assert_eq!(run(&mut store, &["ZREM", "z", "high"]), RespValue::Integer(1));
    assert_eq!(run(&mut store, &["EXISTS", "z"]), RespValue::Integer(0));
    assert_eq!(run(&mut store, &["ZCARD", "z"]), RespValue::Integer(0));
    assert_eq!(
        run(&mut store, &["ZCARD"]),
        RespValue::Error("ERR wrong number of arguments for 'ZCARD' command".to_string())
    );
    assert_eq!(
        run(&mut store, &["ZREVRANK", "z"]),
        RespValue::Error("ERR wrong number of arguments for 'ZREVRANK' command".to_string())
    );
}

#[test]
fn test_sscan_with_match() {
    let mut store = new_store();
    store.sadd("myset", vec!["user:1", "user:2", "post:1"], NOW_MS).ok();

    let result = run(&mut store, &["SSCAN", "myset", "0", "MATCH", "user:*"]);
    match result {
        RespValue::Array(Some(arr)) => {
            match &arr[1] {
                RespValue::Array(Some(members)) => {
                    for member in members {
                        if let RespValue::BulkString(Some(m)) = member {
                            assert!(m.starts_with("user:"));
                        }
                    }
                }
                _ => panic!("Expected Array for members"),
            };
        }
        _ => panic!("Expected Array result for SSCAN"),
    }
}

#[test]
fn set_get_and_arity_errors() {
    let mut store = new_store();
    assert_eq!(run(&mut store, &["set", "k", "v"]), RespValue::SimpleString("OK".to_string()));
    assert_eq!(run(&mut store, &["GET", "k"]), bulk("v"));
    assert_eq!(run(&mut store, &["GET", "missing"]), RespValue::BulkString(None));
    assert_eq!(
        run(&mut store, &["GET"]),
        RespValue::Error("ERR wrong number of arguments for 'GET' command".to_string())
    );
    assert_eq!(
        run(&mut store, &["FOO"]),
        RespValue::Error("ERR unknown command 'FOO'".to_string())
    );
}

#[test]
fn set_with_nx_and_xx() {
    let mut store = new_store();
    assert_eq!(run(&mut store, &["SET", "k", "a", "XX"]), RespValue::BulkString(None));
    assert_eq!(run(&mut store, &["SET", "k", "a", "NX"]), RespValue::SimpleString("OK".to_string()));
    assert_eq!(run(&mut store, &["SET", "k", "b", "NX"]), RespValue::BulkString(None));
    assert_eq!(run(&mut store, &["GET", "k"]), bulk("a"));
}

#[test]
fn set_with_expiry_lapses() {
    let mut store = new_store();
    let t0: u64 = 5_000_000_000;
    assert_eq!(run_at(&mut store, &["SET", "k", "v", "PX", "100"], t0), RespValue::SimpleString("OK".to_string()));
    assert_eq!(run_at(&mut store, &["PTTL", "k"], t0), RespValue::Integer(100));
    assert_eq!(run_at(&mut store, &["GET", "k"], t0 + 99_000), bulk("v"));
    assert_eq!(run_at(&mut store, &["GET", "k"], t0 + 100_000), RespValue::BulkString(None));
    assert_eq!(run_at(&mut store, &["TTL", "k"], t0 + 100_000), RespValue::Integer(-2));
}

#[test]
fn wrong_type_replies() {
    let mut store = new_store();
    run(&mut store, &["LPUSH", "l", "x"]);
    assert_eq!(
        run(&mut store, &["GET", "l"]),
        RespValue::Error("WRONGTYPE Operation against a key holding the wrong kind of value".to_string())
    );
    assert_eq!(
        run(&mut store, &["SADD", "l", "m"]),
        RespValue::Error("WRONGTYPE Operation against a key holding the wrong kind of value".to_string())
    );
    assert_eq!(run(&mut store, &["TYPE", "l"]), RespValue::SimpleString("list".to_string()));
}

#[test]
fn counters() {
    let mut store = new_store();
    assert_eq!(run(&mut store, &["INCR", "n"]), RespValue::Integer(1));
    assert_eq!(run(&mut store, &["INCRBY", "n", "41"]), RespValue::Integer(42));
    assert_eq!(run(&mut store, &["DECRBY", "n", "2"]), RespValue::Integer(40));
    assert_eq!(run(&mut store, &["DECR", "n"]), RespValue::Integer(39));
    assert_eq!(run(&mut store, &["GET", "n"]), bulk("39"));
    assert_eq!(
        run(&mut store, &["INCRBY", "n", "x"]),
        RespValue::Error("ERR value is not an integer".to_string())
    );
    run(&mut store, &["SET", "s", "abc"]);
    assert_eq!(
        run(&mut store, &["INCR", "s"]),
        RespValue::Error("ERR value is not an integer or out of range".to_string())
    );
    run(&mut store, &["SET", "big", "9223372036854775807"]);
    assert_eq!(
        run(&mut store, &["INCR", "big"]),
        RespValue::Error("ERR increment or decrement would overflow".to_string())
    );
}

#[test]
fn decrby_least_integer_is_refused() {
    let mut store = new_store();
    assert_eq!(
        run(&mut store, &["DECRBY", "n", "-9223372036854775808"]),
        RespValue::Error("ERR increment or decrement would overflow".to_string())
    );
    assert_eq!(store.dbsize(NOW_MS), 0);
    assert_eq!(run(&mut store, &["DECRBY", "n", "-5"]), RespValue::Integer(5));
}

#[test]
fn command_names_ignore_case() {
    let mut a = new_store();
    let mut b = new_store();
    assert_eq!(run(&mut a, &["ping"]), RespValue::SimpleString("PONG".to_string()));
    assert_eq!(run_at(&mut a, &["Set", "k", "v"], 5), run_at(&mut b, &["SET", "k", "v"], 5));
    assert_eq!(a.get("k", NOW_MS), b.get("k", NOW_MS));
    assert_eq!(
        run(&mut a, &["nope"]),
        RespValue::Error("ERR unknown command 'NOPE'".to_string())
    );
}

#[test]
fn score_commands_check_their_arity() {
    let mut store = new_store();
    for (args, name) in [
        (vec!["zadd", "z", "1"], "ZADD"),
        (vec!["ZSCORE", "z"], "ZSCORE"),
        (vec!["ZCOUNT", "z", "0"], "ZCOUNT"),
        (vec!["ZINCRBY", "z", "1"], "ZINCRBY"),
        (vec!["ZRANGE", "z", "0"], "ZRANGE"),
        (vec!["ZREVRANGEBYSCORE", "z", "1"], "ZREVRANGEBYSCORE"),
    ] {
        assert_eq!(
            run(&mut store, &args),
            RespValue::Error(format!("ERR wrong number of arguments for '{}' command", name))
        );
    }
    match handle_command(&mut store, &make_array_cmd(&["zscore", "z", "m"])) {
        CommandOutcome::SortedSet(args) => assert_eq!(args, vec!["ZSCORE", "z", "m"]),
        _ => panic!("Expected a sorted-set command"),
    }
}

#[test]
fn list_commands() {
    let mut store = new_store();
    assert_eq!(run(&mut store, &["RPUSH", "l", "a", "b"]), RespValue::Integer(2));
    assert_eq!(run(&mut store, &["LPUSH", "l", "x", "y"]), RespValue::Integer(4));
    assert_eq!(
        run(&mut store, &["LRANGE", "l", "0", "-1"]),
        RespValue::Array(Some(vec![bulk("y"), bulk("x"), bulk("a"), bulk("b")]))
    );
    assert_eq!(run(&mut store, &["LINDEX", "l", "-1"]), bulk("b"));
    assert_eq!(run(&mut store, &["LINDEX", "l", "9"]), RespValue::BulkString(None));
    assert_eq!(run(&mut store, &["LPOP", "l"]), bulk("y"));
    assert_eq!(run(&mut store, &["RPOP", "l"]), bulk("b"));
    assert_eq!(run(&mut store, &["LLEN", "l"]), RespValue::Integer(2));
    run(&mut store, &["LPOP", "l"]);
    run(&mut store, &["LPOP", "l"]);
    assert_eq!(run(&mut store, &["EXISTS", "l"]), RespValue::Integer(0));
}

#[test]
fn hash_commands() {
    let mut store = new_store();
    assert_eq!(run(&mut store, &["HSET", "h", "f", "1"]), RespValue::Integer(1));
    assert_eq!(run(&mut store, &["HSET", "h", "f", "2"]), RespValue::Integer(0));
    assert_eq!(run(&mut store, &["HMSET", "h", "g", "3", "k", "4"]), RespValue::SimpleString("OK".to_string()));
    assert_eq!(
        run(&mut store, &["HMSET", "h", "g"]),
        RespValue::Error("ERR wrong number of arguments for HMSET".to_string())
    );
    assert_eq!(run(&mut store, &["HGET", "h", "f"]), bulk("2"));
    assert_eq!(
        run(&mut store, &["HMGET", "h", "g", "zz"]),
        RespValue::Array(Some(vec![bulk("3"), RespValue::BulkString(None)]))
    );
    assert_eq!(
        run(&mut store, &["HGETALL", "h"]),
        RespValue::Array(Some(vec![bulk("f"), bulk("2"), bulk("g"), bulk("3"), bulk("k"), bulk("4")]))
    );
    assert_eq!(run(&mut store, &["HKEYS", "h"]), RespValue::Array(Some(vec![bulk("f"), bulk("g"), bulk("k")])));
    assert_eq!(run(&mut store, &["HVALS", "h"]), RespValue::Array(Some(vec![bulk("2"), bulk("3"), bulk("4")])));
    assert_eq!(run(&mut store, &["HDEL", "h", "g", "zz"]), RespValue::Integer(1));
    assert_eq!(run(&mut store, &["HLEN", "h"]), RespValue::Integer(2));
    assert_eq!(run(&mut store, &["HEXISTS", "h", "g"]), RespValue::Integer(0));
}

#[test]
fn set_commands() {
    let mut store = new_store();
    assert_eq!(run(&mut store, &["SADD", "s", "b", "a", "b"]), RespValue::Integer(2));
    assert_eq!(run(&mut store, &["SMEMBERS", "s"]), RespValue::Array(Some(vec![bulk("a"), bulk("b")])));
    assert_eq!(run(&mut store, &["SISMEMBER", "s", "a"]), RespValue::Integer(1));
    assert_eq!(run(&mut store, &["SREM", "s", "a", "z"]), RespValue::Integer(1));
    assert_eq!(run(&mut store, &["SCARD", "s"]), RespValue::Integer(1));
    assert_eq!(run(&mut store, &["SREM", "s", "b"]), RespValue::Integer(1));
    assert_eq!(run(&mut store, &["EXISTS", "s"]), RespValue::Integer(0));
}

#[test]
fn key_commands() {
    let mut store = new_store();
    run(&mut store, &["MSET", "b", "1", "a", "2"]);
    assert_eq!(run(&mut store, &["KEYS", "*"]), RespValue::Array(Some(vec![bulk("a"), bulk("b")])));
    assert_eq!(run(&mut store, &["RENAME", "a", "c"]), RespValue::SimpleString("OK".to_string()));
    assert_eq!(run(&mut store, &["GET", "c"]), bulk("2"));
    assert_eq!(
        run(&mut store, &["RENAME", "a", "d"]),
        RespValue::Error("ERR no such key".to_string())
    );
    assert_eq!(run(&mut store, &["DEL", "b", "c", "zz"]), RespValue::Integer(2));
    assert_eq!(
        run(&mut store, &["MSET", "x"]),
        RespValue::Error("ERR wrong number of arguments for MSET".to_string())
    );
    assert_eq!(
        run(&mut store, &["MGET", "x", "b"]),
        RespValue::Array(Some(vec![RespValue::BulkString(None), RespValue::BulkString(None)]))
    );
}

#[test]
fn expire_persist_ttl() {
    let mut store = new_store();
    let t0: u64 = 9_000_000_000;
    run_at(&mut store, &["SET", "k", "v"], t0);
    assert_eq!(run_at(&mut store, &["TTL", "k"], t0), RespValue::Integer(-1));
    assert_eq!(run_at(&mut store, &["EXPIRE", "k", "10"], t0), RespValue::Integer(1));
    assert_eq!(run_at(&mut store, &["TTL", "k"], t0), RespValue::Integer(10));
    assert_eq!(run_at(&mut store, &["PERSIST", "k"], t0), RespValue::Integer(1));
    assert_eq!(run_at(&mut store, &["TTL", "k"], t0 + 20_000_000), RespValue::Integer(-1));
    assert_eq!(run_at(&mut store, &["EXPIRE", "zz", "10"], t0), RespValue::Integer(0));
}

#[test]
fn save_and_sorted_set_outcomes() {
    let mut store = new_store();
    assert!(matches!(handle_command(&mut store, &make_array_cmd(&["SAVE"])), CommandOutcome::Save(false)));
    assert!(matches!(handle_command(&mut store, &make_array_cmd(&["bgsave"])), CommandOutcome::Save(false)));
    assert!(matches!(handle_command(&mut store, &make_array_cmd(&["SHUTDOWN"])), CommandOutcome::Save(true)));
    match handle_command(&mut store, &make_array_cmd(&["zadd", "z", "1", "m"])) {
        CommandOutcome::SortedSet(args) => assert_eq!(args, vec!["ZADD", "z", "1", "m"]),
        _ => panic!("Expected a sorted-set command"),
    }
    assert_eq!(save_reply(Ok(()), false), RespValue::SimpleString("OK".to_string()));
    assert_eq!(
        save_reply(Err("disk full".to_string()), false),
        RespValue::Error("ERR disk full".to_string())
    );
    assert_eq!(save_reply(Ok(()), true), RespValue::Error("ERR SHUTDOWN".to_string()));
}

#[test]
fn invalid_requests() {
    let mut store = new_store();
    let invalid = RespValue::Error("ERR invalid command format".to_string());
    assert_eq!(reply_of(handle_command(&mut store, &RespValue::Integer(3))), invalid);
    assert_eq!(reply_of(handle_command(&mut store, &RespValue::Array(Some(vec![])))), invalid);
    assert_eq!(
        reply_of(handle_command(&mut store, &RespValue::Array(Some(vec![RespValue::Integer(1)])))),
        invalid
    );
    let status_args = RespValue::Array(Some(vec![RespValue::SimpleString("PING".to_string())]));
    assert_eq!(reply_of(handle_command(&mut store, &status_args)), RespValue::SimpleString("PONG".to_string()));
}

#[test]
fn publish_and_subscribe_replies() {
    let mut store = new_store();
    store.subscribe("news");
    store.subscribe("news");
    store.psubscribe("n*");
    assert_eq!(run(&mut store, &["PUBLISH", "news", "hi"]), RespValue::Integer(3));
    assert_eq!(run(&mut store, &["PUBLISH", "other", "hi"]), RespValue::Integer(0));
    assert_eq!(
        run(&mut store, &["SUBSCRIBE", "a"]),
        RespValue::Array(Some(vec![RespValue::Array(Some(vec![
            RespValue::SimpleString("subscribe".to_string()),
            bulk("a"),
            RespValue::Integer(1),
        ]))]))
    );
    assert_eq!(
        run(&mut store, &["PUBSUB", "NUMSUB", "news", "zz"]),
        RespValue::Array(Some(vec![bulk("news"), RespValue::Integer(2), bulk("zz"), RespValue::Integer(0)]))
    );
    assert_eq!(run(&mut store, &["PUBSUB", "NUMPAT"]), RespValue::Integer(1));
    assert_eq!(run(&mut store, &["PUBSUB", "CHANNELS"]), RespValue::Array(Some(vec![bulk("news")])));
}
