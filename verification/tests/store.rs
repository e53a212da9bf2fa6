use kv6::store::{Store, StoreError};

const NOW: u64 = 1_700_000_000_000;

fn new_store() -> Store {
    Store::new()
}

#[test]
fn test_key_version_increments_on_set() {
    let mut store = new_store();
    let v1 = store.get_key_version("key");
    store.set("key".to_string(), "value".to_string());
    let v2 = store.get_key_version("key");
    assert!(v2 > v1);
}

#[test]
fn test_key_version_increments_on_del() {
    let mut store = new_store();
    store.set("key".to_string(), "value".to_string());
    let v1 = store.get_key_version("key");
    store.del(vec!["key"], NOW);
    let v2 = store.get_key_version("key");
    assert!(v2 > v1);
}

#[test]
fn test_getbit() {
    let mut store = new_store();
    store.set("key".to_string(), "a".to_string());
    assert_eq!(store.getbit("key", 0, NOW), 0);
    assert_eq!(store.getbit("key", 1, NOW), 1);
    assert_eq!(store.getbit("key", 7, NOW), 1);
    assert_eq!(store.getbit("nonexistent", 0, NOW), 0);
}

#[test]
fn test_bitcount() {
    let mut store = new_store();
    store.set("key".to_string(), "foobar".to_string());
    assert_eq!(store.bitcount("key", None, None, NOW), 26);
    assert_eq!(store.bitcount("key", Some(0), Some(0), NOW), 4);
}

#[test]
fn test_bitop() {
    let mut store = new_store();
    store.set("key1".to_string(), "foo".to_string());
    store.set("key2".to_string(), "bar".to_string());
    let result = store.bitop("OR", "dest", &["key1", "key2"], NOW);
    assert_eq!(result, 3);
}

#[test]
fn test_bitpos() {
    let mut store = new_store();
    store.set("key".to_string(), "r".to_string());
    assert_eq!(store.bitpos("key", 1, None, None, NOW), 1);
}

#[test]
fn read_gives_back_the_last_write() {
    let mut store = new_store();
    store.set("k".to_string(), "one".to_string());
    store.set("other".to_string(), "x".to_string());
    store.set("k".to_string(), "two".to_string());
    assert_eq!(store.get("k", NOW), Some("two".to_string()));
    assert_eq!(store.get("other", NOW), Some("x".to_string()));
    assert_eq!(store.dbsize(NOW), 2);
}

#[test]
fn deleted_key_is_absent_and_others_stay() {
    let mut store = new_store();
    store.set("a".to_string(), "1".to_string());
    store.set("b".to_string(), "2".to_string());
    assert_eq!(store.del(vec!["a", "missing"], NOW), 1);
    assert!(!store.key_exists("a", NOW));
    assert_eq!(store.get("b", NOW), Some("2".to_string()));
}

#[test]
fn every_write_advances_only_its_key_version() {
    let mut store = new_store();
    store.set("a".to_string(), "1".to_string());
    let va = store.get_key_version("a");
    let vb = store.get_key_version("b");
    store.set("b".to_string(), "2".to_string());
    assert_eq!(store.get_key_version("a"), va);
    assert!(store.get_key_version("b") > vb);
    store.lpush("a", vec!["x"], NOW).ok();
    assert_eq!(store.get_key_version("a"), va);
    store.del(vec!["a"], NOW);
    assert!(store.get_key_version("a") > va);
}

#[test]
fn push_then_pop_gives_back_the_element() {
    let mut store = new_store();
    store.rpush("l", vec!["a", "b"], NOW).unwrap();
    assert_eq!(store.lpush("l", vec!["x"], NOW), Ok(3));
    assert_eq!(store.lpop("l", NOW), Some("x".to_string()));
    assert_eq!(store.lrange("l", 0, -1, NOW), vec!["a".to_string(), "b".to_string()]);
    assert_eq!(store.lpush("s", vec!["only"], NOW), Ok(1));
    assert_eq!(store.lpop("s", NOW), Some("only".to_string()));
    assert!(!store.key_exists("s", NOW));
}

#[test]
fn list_ranges_clamp() {
    let mut store = new_store();
    store.rpush("l", vec!["a", "b", "c", "d"], NOW).unwrap();
    assert_eq!(store.lrange("l", 1, 2, NOW), vec!["b".to_string(), "c".to_string()]);
    assert_eq!(store.lrange("l", -2, 100, NOW), vec!["c".to_string(), "d".to_string()]);
    assert_eq!(store.lrange("l", 3, 1, NOW), Vec::<String>::new());
    assert_eq!(store.lindex("l", -4, NOW), Some("a".to_string()));
    assert_eq!(store.lindex("l", -5, NOW), None);
    assert_eq!(store.llen("l", NOW), 4);
}

#[test]
fn field_set_then_get() {
    let mut store = new_store();
    assert_eq!(store.hset("h", "f", "1", NOW), Ok(1));
    assert_eq!(store.hset("h", "g", "2", NOW), Ok(1));
    assert_eq!(store.hset("h", "f", "3", NOW), Ok(0));
    assert_eq!(store.hget("h", "f", NOW), Some("3".to_string()));
    assert_eq!(store.hget("h", "g", NOW), Some("2".to_string()));
    assert_eq!(store.hdel("h", vec!["f", "g"], NOW), 2);
    assert!(!store.key_exists("h", NOW));
}

#[test]
fn deleted_fields_are_absent() {
    let mut store = new_store();
    store.hset("h", "a", "1", NOW).unwrap();
    store.hset("h", "b", "2", NOW).unwrap();
    store.hset("h", "c", "3", NOW).unwrap();
    assert_eq!(store.hdel("h", vec!["a", "x", "a"], NOW), 1);
    assert_eq!(store.hget("h", "a", NOW), None);
    assert_eq!(store.hget("h", "b", NOW), Some("2".to_string()));
    assert_eq!(store.hget("h", "c", NOW), Some("3".to_string()));
    assert_eq!(store.hlen("h", NOW), 2);
}

#[test]
fn added_members_are_members() {
    let mut store = new_store();
    assert_eq!(store.sadd("s", vec!["a", "b", "a"], NOW), Ok(2));
    assert!(store.sismember("s", "a", NOW));
    assert!(store.sismember("s", "b", NOW));
    assert_eq!(store.scard("s", NOW), 2);
    assert_eq!(store.srem("s", vec!["a"], NOW), 1);
    assert!(!store.sismember("s", "a", NOW));
}

#[test]
fn rename_moves_value_and_expiry() {
    let mut store = new_store();
    store.psetex("a".to_string(), "v".to_string(), 5000, NOW);
    assert_eq!(store.rename("a", "b", NOW), Ok(()));
    assert_eq!(store.get("b", NOW), Some("v".to_string()));
    assert!(!store.key_exists("a", NOW));
    assert_eq!(store.pttl("b", NOW), 5000);
    assert_eq!(store.rename("a", "c", NOW), Err(StoreError::NoSuchKey));
}

#[test]
fn flush_empties() {
    let mut store = new_store();
    store.set("a".to_string(), "1".to_string());
    store.sadd("s", vec!["m"], NOW).unwrap();
    store.flushdb();
    assert_eq!(store.dbsize(NOW), 0);
    assert_eq!(store.get("a", NOW), None);
}

#[test]
fn expiry_takes_effect_and_persist_cancels_it() {
    let mut store = new_store();
    store.set("k".to_string(), "v".to_string());
    assert_eq!(store.pexpire("k", 100, NOW), 1);
    assert_eq!(store.get("k", NOW + 99), Some("v".to_string()));
    assert_eq!(store.get("k", NOW + 100), None);
    assert_eq!(store.ttl("k", NOW + 100), -2);
    store.set("p".to_string(), "v".to_string());
    store.expire("p", 1, NOW);
    assert_eq!(store.persist("p", NOW), 1);
    assert_eq!(store.get("p", NOW + 1_000_000), Some("v".to_string()));
    assert_eq!(store.ttl("p", NOW), -1);
}

#[test]
fn counter_reads_back() {
    let mut store = new_store();
    assert_eq!(store.incrby("n", 40, NOW), Ok(40));
    assert_eq!(store.incr("n", NOW), Ok(41));
    assert_eq!(store.decr("n", NOW), Ok(40));
    assert_eq!(store.incrby("n", -100, NOW), Ok(-60));
    assert_eq!(store.get("n", NOW), Some("-60".to_string()));
    assert_eq!(store.incrby("n", 60, NOW), Ok(0));
    store.set("m".to_string(), "9223372036854775807".to_string());
    assert_eq!(store.incr("m", NOW), Err(StoreError::Overflow));
    store.lpush("l", vec!["x"], NOW).unwrap();
    assert_eq!(store.incr("l", NOW), Err(StoreError::WrongType));
    store.set("t".to_string(), "1.5".to_string());
    assert_eq!(store.incr("t", NOW), Err(StoreError::NotInteger));
}

#[test]
fn strings_append_getset_setnx() {
    let mut store = new_store();
    assert_eq!(store.append("s", "ab", NOW), 2);
    assert_eq!(store.append("s", "cd", NOW), 4);
    assert_eq!(store.strlen("s", NOW), 4);
    assert_eq!(store.getset("s".to_string(), "new".to_string(), NOW), Some("abcd".to_string()));
    assert_eq!(store.setnx("s".to_string(), "x".to_string(), NOW), 0);
    assert_eq!(store.setnx("t".to_string(), "x".to_string(), NOW), 1);
    assert_eq!(
        store.mget(vec!["s", "t", "u"], NOW),
        vec![Some("new".to_string()), Some("x".to_string()), None]
    );
}

#[test]
fn bit_operations() {
    let mut store = new_store();
    assert_eq!(store.setbit("b", 9, 1, NOW), 0);
    assert_eq!(store.getbit("b", 9, NOW), 1);
    assert_eq!(store.strlen("b", NOW), 2);
    assert_eq!(store.setbit("b", 9, 0, NOW), 1);
    assert_eq!(store.bitpos("b", 1, None, None, NOW), -1);
    assert_eq!(store.bitpos("b", 0, None, None, NOW), 0);
    store.set("x".to_string(), "\u{ff}".to_string());
    assert_eq!(store.bitop("NOT", "y", &["x"], NOW), 2);
}

#[test]
fn setbit_reads_back_while_the_bytes_stay_text() {
    let mut store = new_store();
    store.set("k".to_string(), "a".to_string());
    assert_eq!(store.setbit("k", 6, 1, NOW), 0);
    assert_eq!(store.getbit("k", 6, NOW), 1);
    assert_eq!(store.get("k", NOW), Some("c".to_string()));
    for j in [0usize, 1, 2, 3, 4, 5, 7] {
        assert_eq!(store.getbit("k", j, NOW), [0, 1, 1, 0, 0, 0, 0, 1][j]);
    }
    // 0x80 alone is not UTF-8: the string keeps the replacement character.
    assert_eq!(store.setbit("e", 0, 1, NOW), 0);
    assert_eq!(store.get("e", NOW), Some("\u{fffd}".to_string()));
    assert_eq!(store.getbit("e", 1, NOW), 1);
}

#[test]
fn keys_match_patterns() {
    let mut store = new_store();
    store.set("user:1".to_string(), "a".to_string());
    store.set("user:22".to_string(), "b".to_string());
    store.set("post:1".to_string(), "c".to_string());
    let mut users = store.keys("user:*", NOW);
    users.sort();
    assert_eq!(users, vec!["user:1".to_string(), "user:22".to_string()]);
    assert_eq!(store.keys("user:?", NOW), vec!["user:1".to_string()]);
    assert_eq!(store.type_of("post:1", NOW), "string");
    assert_eq!(store.type_of("zzz", NOW), "none");
}

#[test]
fn scan_pages_through_keys() {
    let mut store = new_store();
    store.set("a".to_string(), "1".to_string());
    store.set("b".to_string(), "2".to_string());
    store.set("c".to_string(), "3".to_string());
    let (next, first) = store.scan(0, None, 2, NOW);
    assert_eq!(first.len(), 2);
    assert_eq!(next, 2);
    let (last, rest) = store.scan(next, None, 2, NOW);
    assert_eq!(rest.len(), 1);
    assert_eq!(last, 0);
}

#[test]
fn keys_versions_in_order() {
    let mut store = new_store();
    store.set("a".to_string(), "1".to_string());
    store.set("b".to_string(), "2".to_string());
    let vs = store.get_keys_versions(&["b", "zz", "a"]);
    assert_eq!(vs[0], ("b".to_string(), store.get_key_version("b")));
    assert_eq!(vs[1], ("zz".to_string(), 0));
    assert_eq!(vs[2], ("a".to_string(), store.get_key_version("a")));
    assert!(vs[0].1 > vs[2].1);
}

#[test]
fn error_messages() {
    assert_eq!(StoreError::NoSuchKey.message(), "no such key");
    assert_eq!(StoreError::NotInteger.message(), "value is not an integer or out of range");
}
