use kv6::cmd::zsets::zrange_request;
use kv6::resp::RespValue;
use kv6::store::Store;

const NOW: u64 = 1_700_000_000_000;

fn pairs(items: &[(&str, u64)]) -> Vec<(String, u64)> {
    items.iter().map(|(m, s)| (m.to_string(), *s)).collect()
}

#[test]
fn members_rank_by_score_then_name() {
    let mut store = Store::new();
    assert_eq!(store.zadd("z", 20, "b", NOW), 1);
    assert_eq!(store.zadd("z", 10, "c", NOW), 1);
    assert_eq!(store.zadd("z", 20, "a", NOW), 1);
    assert_eq!(store.zrange("z", 0, -1, false, NOW), pairs(&[("c", 10), ("a", 20), ("b", 20)]));
    assert_eq!(store.zrange("z", 0, -1, true, NOW), pairs(&[("b", 20), ("a", 20), ("c", 10)]));
    assert_eq!(store.zrange("z", 1, 1, false, NOW), pairs(&[("a", 20)]));
}

#[test]
fn score_reads_back_and_moves_member() {
    let mut store = Store::new();
    store.zadd("z", 5, "x", NOW);
    store.zadd("z", 7, "y", NOW);
    assert_eq!(store.zadd("z", 9, "x", NOW), 0);
    assert_eq!(store.zscore("z", "x", NOW), Some(9));
    assert_eq!(store.zscore("z", "nope", NOW), None);
    assert_eq!(store.zcard("z", NOW), 2);
    assert_eq!(store.zrank("z", "x", false, NOW), Some(1));
    assert_eq!(store.zrank("z", "x", true, NOW), Some(0));
    assert_eq!(store.zrank("z", "nope", false, NOW), None);
}

#[test]
fn score_ranges_and_counts() {
    let mut store = Store::new();
    for (m, s) in [("a", 1u64), ("b", 2), ("c", 3), ("d", 4)] {
        store.zadd("z", s, m, NOW);
    }
    assert_eq!(store.zrangebyscore("z", 2, 3, false, NOW), pairs(&[("b", 2), ("c", 3)]));
    assert_eq!(store.zrangebyscore("z", 2, 3, true, NOW), pairs(&[("c", 3), ("b", 2)]));
    assert_eq!(store.zcount("z", 0, 10, NOW), 4);
    assert_eq!(store.zcount("z", 5, 10, NOW), 0);
}

#[test]
fn removing_members_and_the_last_one() {
    let mut store = Store::new();
    store.zadd("z", 1, "a", NOW);
    store.zadd("z", 2, "b", NOW);
    assert_eq!(store.zrem("z", vec!["a", "zz"], NOW), 1);
    assert_eq!(store.zcard("z", NOW), 1);
    assert_eq!(store.zrem("z", vec!["b"], NOW), 1);
    assert!(!store.key_exists("z", NOW));
}

#[test]
fn other_types_are_left_alone() {
    let mut store = Store::new();
    store.set("s".to_string(), "v".to_string());
    assert_eq!(store.zadd("s", 1, "m", NOW), 0);
    assert_eq!(store.get("s", NOW), Some("v".to_string()));
    assert_eq!(store.zcard("s", NOW), 0);
    assert_eq!(store.zrem("s", vec!["m"], NOW), 0);
    store.zadd("z", 1, "m", NOW);
    assert_eq!(store.type_of("z", NOW), "zset");
}

#[test]
fn zscan_pages_members() {
    let mut store = Store::new();
    store.zadd("myzset", 1, "one", NOW);
    store.zadd("myzset", 2, "two", NOW);
    let (next, members) = store.zscan("myzset", 0, None, 10, NOW);
    assert_eq!(next, 0);
    assert_eq!(members, vec!["one".to_string(), "two".to_string()]);
    let (_, matched) = store.zscan("myzset", 0, Some("t*"), 10, NOW);
    assert_eq!(matched, vec!["two".to_string()]);
}

fn strings(items: &[&str]) -> Vec<String> {
    items.iter().map(|s| s.to_string()).collect()
}

#[test]
fn zrange_requests_select_by_rank() {
    let mut store = Store::new();
    store.zadd("z", 3, "c", NOW);
    store.zadd("z", 1, "a", NOW);
    store.zadd("z", 2, "b", NOW);
    assert_eq!(
        zrange_request(&store, &strings(&["ZRANGE", "z", "0", "-1"]), NOW, false),
        Ok((pairs(&[("a", 1), ("b", 2), ("c", 3)]), false))
    );
    assert_eq!(
        zrange_request(&store, &strings(&["ZREVRANGE", "z", "0", "1", "withscores"]), NOW, true),
        Ok((pairs(&[("c", 3), ("b", 2)]), true))
    );
    assert_eq!(
        zrange_request(&store, &strings(&["ZRANGE", "z", "5", "9"]), NOW, false),
        Ok((pairs(&[]), false))
    );
    assert_eq!(
        zrange_request(&store, &strings(&["ZRANGE", "z", "x", "1"]), NOW, false),
        Err(RespValue::Error("ERR value is not an integer".to_string()))
    );
    assert_eq!(
        zrange_request(&store, &strings(&["ZREVRANGE", "z", "0"]), NOW, true),
        Err(RespValue::Error("ERR wrong number of arguments for 'ZREVRANGE' command".to_string()))
    );
}
