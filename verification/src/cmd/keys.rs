//! Key-space commands: existence, deletion, listing, types, expiry, renaming,
//! and the scan family.
use vstd::prelude::*;

use super::reply::{wrong_arity, arity_reply, bulk_array, bulks, strs_view, tail_strs, upper_is};
use super::strings::{pu64, pusize};
use crate::lexical::{by_utf8, sort_texts, stable_sorted};
use crate::resp::{Reply, RespValue, err_reply, ok_reply, reply_of};
use crate::store::{Store, StoreView, add_ms, secs_to_ms};
use crate::store::hashes::hash_of;
use crate::store::keys::{del_all, kind_name, live_count, live_keys, ttl_ms, ttl_secs};
use crate::store::scan::{live_all, opt_view, scan_page};
use crate::store::sets::members_of;
use crate::text::{copy_text, decimal_text, parse_usize, text, text_eq, texts_view, u64_text, upper_case};

verus! {

pub open spec fn exists_reply(st: StoreView, args: Seq<Seq<char>>, now: u64) -> Reply {
    if args.len() < 2 {
        arity_reply("EXISTS"@)
    } else {
        Reply::Number(if st.lookup(args[1], now) is Some { 1 } else { 0 })
    }
}

pub open spec fn del_cmd(st: StoreView, args: Seq<Seq<char>>, now: u64) -> (Reply, StoreView) {
    if args.len() < 2 {
        (arity_reply("DEL"@), st)
    } else {
        let (st2, n) = del_all(st, args.skip(1), now);
        (Reply::Number(n as i64 as int), st2)
    }
}

pub open spec fn keys_reply(st: StoreView, args: Seq<Seq<char>>, now: u64) -> Reply {
    let pattern = if args.len() > 1 { args[1] } else { "*"@ };
    bulks(stable_sorted(live_keys(st.entries, pattern, now), by_utf8()))
}

pub open spec fn type_reply(st: StoreView, args: Seq<Seq<char>>, now: u64) -> Reply {
    if args.len() < 2 {
        arity_reply("TYPE"@)
    } else {
        Reply::Status(kind_name(st.value_of(args[1], now)))
    }
}

/// EXPIRE (`in_ms` false) and PEXPIRE (`in_ms` true).
pub open spec fn expire_cmd(st: StoreView, args: Seq<Seq<char>>, now: u64, in_ms: bool) -> (Reply, StoreView) {
    if args.len() < 3 {
        (arity_reply(if in_ms { "PEXPIRE"@ } else { "EXPIRE"@ }), st)
    } else {
        match pu64(args[2]) {
            None => (err_reply("value is not an integer"@), st),
            Some(t) => match st.lookup(args[1], now) {
                Some(_) => (
                    Reply::Number(1),
                    st.reexpired(st.slot(args[1]), Some(add_ms(now, if in_ms { t } else { secs_to_ms(t) }))),
                ),
                None => (Reply::Number(0), st),
            },
        }
    }
}

pub open spec fn persist_cmd(st: StoreView, args: Seq<Seq<char>>, now: u64) -> (Reply, StoreView) {
    if args.len() < 2 {
        (arity_reply("PERSIST"@), st)
    } else {
        match st.lookup(args[1], now) {
            Some(e) => if e.expires_at is Some {
                (Reply::Number(1), st.reexpired(st.slot(args[1]), None))
            } else {
                (Reply::Number(0), st)
            },
            None => (Reply::Number(0), st),
        }
    }
}

/// TTL (`in_ms` false) and PTTL (`in_ms` true).
pub open spec fn ttl_reply(st: StoreView, args: Seq<Seq<char>>, now: u64, in_ms: bool) -> Reply {
    if args.len() < 2 {
        arity_reply(if in_ms { "PTTL"@ } else { "TTL"@ })
    } else {
        Reply::Number(
            match st.lookup(args[1], now) {
                None => -2i64,
                Some(e) => match e.expires_at {
                    None => -1i64,
                    Some(t) => if in_ms {
                        ttl_ms(t, now)
                    } else {
                        ttl_secs(t, now)
                    },
                },
            } as int,
        )
    }
}

pub open spec fn rename_cmd(st: StoreView, args: Seq<Seq<char>>, now: u64) -> (Reply, StoreView) {
    if args.len() < 3 {
        (arity_reply("RENAME"@), st)
    } else {
        match st.lookup(args[1], now) {
            None => (err_reply("no such key"@), st),
            Some(e) => (
                ok_reply(),
                if args[1] == args[2] {
                    st
                } else {
                    st.deleted(args[1]).stored(args[2], e.value, e.expires_at)
                },
            ),
        }
    }
}

/// The MATCH pattern and COUNT of a scan, read from position `i` on.
pub open spec fn scan_options(args: Seq<Seq<char>>, i: int, pattern: Option<Seq<char>>, count: usize) -> (Option<Seq<char>>, usize)
    decreases args.len() - i,
{
    if i >= args.len() || i < 0 {
        (pattern, count)
    } else if upper_case(args[i]) == "MATCH"@ && i + 1 < args.len() {
        scan_options(args, i + 2, Some(args[i + 1]), count)
    } else if upper_case(args[i]) == "COUNT"@ && i + 1 < args.len() {
        scan_options(args, i + 2, pattern, match pusize(args[i + 1]) {
            Some(c) => c,
            None => 10,
        })
    } else {
        scan_options(args, i + 1, pattern, count)
    }
}

/// The cursor argument at `i`: absent or unparsable gives 0.
pub open spec fn cursor_arg(args: Seq<Seq<char>>, i: int) -> usize {
    if args.len() > i {
        match pusize(args[i]) {
            Some(c) => c,
            None => 0,
        }
    } else {
        0
    }
}

/// The reply to a scan over `all` whose cursor is at `at` and options follow.
pub open spec fn scan_reply_over(all: Seq<Seq<char>>, args: Seq<Seq<char>>, at: int) -> Reply {
    let (pattern, count) = scan_options(args, at + 1, None, 10);
    let (next, names) = scan_page(all, cursor_arg(args, at), pattern, count);
    Reply::List(Some(seq![Reply::Bulk(Some(decimal_text(next as int))), bulks(names)]))
}

pub open spec fn scan_reply(st: StoreView, args: Seq<Seq<char>>, now: u64) -> Reply {
    scan_reply_over(live_all(st.entries, now), args, 1)
}

/// SSCAN (`of_hash` false) and HSCAN (`of_hash` true).
pub open spec fn member_scan_reply(st: StoreView, args: Seq<Seq<char>>, now: u64, of_hash: bool) -> Reply {
    if args.len() < 3 {
        arity_reply(if of_hash { "HSCAN"@ } else { "SSCAN"@ })
    } else if of_hash {
        scan_reply_over(
            hash_of(st.value_of(args[1], now)).map_values(|p: (Seq<char>, Seq<char>)| p.0),
            args,
            2,
        )
    } else {
        scan_reply_over(members_of(st.value_of(args[1], now)), args, 2)
    }
}

/// The key-space command `cmd`, or `None` when `cmd` is not one.
pub open spec fn key_outcome(st: StoreView, cmd: Seq<char>, args: Seq<Seq<char>>, now: u64) -> Option<(Reply, StoreView)> {
    if cmd == "EXISTS"@ {
        Some((exists_reply(st, args, now), st))
    } else if cmd == "DEL"@ {
        Some(del_cmd(st, args, now))
    } else if cmd == "KEYS"@ {
        Some((keys_reply(st, args, now), st))
    } else if cmd == "TYPE"@ {
        Some((type_reply(st, args, now), st))
    } else if cmd == "EXPIRE"@ {
        Some(expire_cmd(st, args, now, false))
    } else if cmd == "PEXPIRE"@ {
        Some(expire_cmd(st, args, now, true))
    } else if cmd == "PERSIST"@ {
        Some(persist_cmd(st, args, now))
    } else if cmd == "TTL"@ {
        Some((ttl_reply(st, args, now, false), st))
    } else if cmd == "PTTL"@ {
        Some((ttl_reply(st, args, now, true), st))
    } else if cmd == "RENAME"@ {
        Some(rename_cmd(st, args, now))
    } else if cmd == "DBSIZE"@ {
        Some((Reply::Number(live_count(st.entries, now) as usize as i64 as int), st))
    } else if cmd == "FLUSHDB"@ || cmd == "FLUSHALL"@ {
        Some((ok_reply(), st.flushed()))
    } else if cmd == "SCAN"@ {
        Some((scan_reply(st, args, now), st))
    } else if cmd == "SSCAN"@ {
        Some((member_scan_reply(st, args, now, false), st))
    } else if cmd == "HSCAN"@ {
        Some((member_scan_reply(st, args, now, true), st))
    } else {
        None
    }
}

pub fn cmd_exists(store: &Store, args: &Vec<String>, now: u64) -> (r: RespValue)
    ensures
        r@ == exists_reply(store@, texts_view(args@), now),
{
    if args.len() < 2 {
        return wrong_arity("EXISTS");
    }
    RespValue::Integer(if store.key_exists(args[1].as_str(), now) { 1 } else { 0 })
}

pub fn cmd_del(store: &mut Store, args: &Vec<String>, now: u64) -> (r: RespValue)
    ensures
        (r@, final(store)@) == del_cmd(old(store)@, texts_view(args@), now),
{
    if args.len() < 2 {
        return wrong_arity("DEL");
    }
    let keys = tail_strs(args, 1);
    assert(keys@.map_values(|k: &str| k@) =~= strs_view(keys@));
    RespValue::Integer(store.del(keys, now))
}

pub fn cmd_keys(store: &Store, args: &Vec<String>, now: u64) -> (r: RespValue)
    ensures
        r@ == keys_reply(store@, texts_view(args@), now),
{
    let keys = if args.len() > 1 { store.keys(args[1].as_str(), now) } else { store.keys("*", now) };
    bulk_array(sort_texts(keys))
}

pub fn cmd_type(store: &Store, args: &Vec<String>, now: u64) -> (r: RespValue)
    ensures
        r@ == type_reply(store@, texts_view(args@), now),
{
    if args.len() < 2 {
        return wrong_arity("TYPE");
    }
    RespValue::SimpleString(text(store.type_of(args[1].as_str(), now)))
}

pub fn cmd_expire(store: &mut Store, args: &Vec<String>, now: u64, in_ms: bool) -> (r: RespValue)
    ensures
        (r@, final(store)@) == expire_cmd(old(store)@, texts_view(args@), now, in_ms),
{
    if args.len() < 3 {
        return if in_ms { wrong_arity("PEXPIRE") } else { wrong_arity("EXPIRE") };
    }
    let t = match crate::text::parse_u64(args[2].as_str()) {
        Some(t) => t,
        None => {
            return RespValue::error("value is not an integer");
        },
    };
    if in_ms {
        RespValue::Integer(store.pexpire(args[1].as_str(), t, now))
    } else {
        RespValue::Integer(store.expire(args[1].as_str(), t, now))
    }
}

pub fn cmd_persist(store: &mut Store, args: &Vec<String>, now: u64) -> (r: RespValue)
    ensures
        (r@, final(store)@) == persist_cmd(old(store)@, texts_view(args@), now),
{
    if args.len() < 2 {
        return wrong_arity("PERSIST");
    }
    RespValue::Integer(store.persist(args[1].as_str(), now))
}

pub fn cmd_ttl(store: &Store, args: &Vec<String>, now: u64, in_ms: bool) -> (r: RespValue)
    ensures
        r@ == ttl_reply(store@, texts_view(args@), now, in_ms),
{
    if args.len() < 2 {
        return if in_ms { wrong_arity("PTTL") } else { wrong_arity("TTL") };
    }
    if in_ms {
        RespValue::Integer(store.pttl(args[1].as_str(), now))
    } else {
        RespValue::Integer(store.ttl(args[1].as_str(), now))
    }
}

pub fn cmd_rename(store: &mut Store, args: &Vec<String>, now: u64) -> (r: RespValue)
    ensures
        (r@, final(store)@) == rename_cmd(old(store)@, texts_view(args@), now),
{
    if args.len() < 3 {
        return wrong_arity("RENAME");
    }
    match store.rename(args[1].as_str(), args[2].as_str(), now) {
        Ok(_) => RespValue::ok(),
        Err(e) => RespValue::error(e.message().as_str()),
    }
}

pub fn scan_options_at(args: &Vec<String>, from: usize) -> (r: (Option<&str>, usize))
    ensures
        (opt_view(r.0), r.1) == scan_options(texts_view(args@), from as int, None, 10),
{
    let ghost av = texts_view(args@);
    let mut pattern: Option<&str> = None;
    let mut count: usize = 10;
    let mut i = from;
    while i < args.len()
        invariant
            av == texts_view(args@),
            scan_options(av, from as int, None, 10) == scan_options(av, i as int, opt_view(pattern), count),
        decreases args@.len() - i,
    {
        if upper_is(args[i].as_str(), "MATCH") && i + 1 < args.len() {
            pattern = Some(args[i + 1].as_str());
            i = i + 2;
        } else if upper_is(args[i].as_str(), "COUNT") && i + 1 < args.len() {
            count = match parse_usize(args[i + 1].as_str()) {
                Some(c) => c,
                None => 10,
            };
            i = i + 2;
        } else {
            i = i + 1;
        }
    }
    (pattern, count)
}

pub fn cursor_at(args: &Vec<String>, i: usize) -> (r: usize)
    ensures
        r == cursor_arg(texts_view(args@), i as int),
{
    if args.len() > i {
        match parse_usize(args[i].as_str()) {
            Some(c) => c,
            None => 0,
        }
    } else {
        0
    }
}

pub fn scan_result(next: usize, names: Vec<String>) -> (r: RespValue)
    ensures
        r@ == Reply::List(Some(seq![Reply::Bulk(Some(decimal_text(next as int))), bulks(texts_view(names@))])),
{
    let mut v: Vec<RespValue> = Vec::new();
    v.push(RespValue::BulkString(Some(u64_text(next as u64))));
    v.push(bulk_array(names));
    proof {
        super::reply::lemma_array_view(
            v,
            seq![Reply::Bulk(Some(decimal_text(next as int))), bulks(texts_view(names@))],
        );
    }
    RespValue::Array(Some(v))
}

pub fn cmd_scan(store: &Store, args: &Vec<String>, now: u64) -> (r: RespValue)
    ensures
        r@ == scan_reply(store@, texts_view(args@), now),
{
    let cursor = cursor_at(args, 1);
    let (pattern, count) = scan_options_at(args, 2);
    let (next, keys) = store.scan(cursor, pattern, count, now);
    scan_result(next, keys)
}

pub fn cmd_member_scan(store: &Store, args: &Vec<String>, now: u64, of_hash: bool) -> (r: RespValue)
    ensures
        r@ == member_scan_reply(store@, texts_view(args@), now, of_hash),
{
    if args.len() < 3 {
        return if of_hash { wrong_arity("HSCAN") } else { wrong_arity("SSCAN") };
    }
    let cursor = cursor_at(args, 2);
    let (pattern, count) = scan_options_at(args, 3);
    if of_hash {
        let (next, names) = store.hscan(args[1].as_str(), cursor, pattern, count, now);
        scan_result(next, names)
    } else {
        let (next, names) = store.sscan(args[1].as_str(), cursor, pattern, count, now);
        scan_result(next, names)
    }
}

/// Runs the key-space command `cmd` (upper-cased), if it is one.
pub fn key_command(store: &mut Store, cmd: &str, args: &Vec<String>, now: u64) -> (r: Option<RespValue>)
    ensures
        match r {
            Some(v) => key_outcome(old(store)@, cmd@, texts_view(args@), now) == Some((v@, final(store)@)),
            None => key_outcome(old(store)@, cmd@, texts_view(args@), now) is None && final(store)@ == old(store)@,
        },
{
    let r = if text_eq(cmd, "EXISTS") {
        cmd_exists(store, args, now)
    } else if text_eq(cmd, "DEL") {
        cmd_del(store, args, now)
    } else if text_eq(cmd, "KEYS") {
        cmd_keys(store, args, now)
    } else if text_eq(cmd, "TYPE") {
        cmd_type(store, args, now)
    } else if text_eq(cmd, "EXPIRE") {
        cmd_expire(store, args, now, false)
    } else if text_eq(cmd, "PEXPIRE") {
        cmd_expire(store, args, now, true)
    } else if text_eq(cmd, "PERSIST") {
        cmd_persist(store, args, now)
    } else if text_eq(cmd, "TTL") {
        cmd_ttl(store, args, now, false)
    } else if text_eq(cmd, "PTTL") {
        cmd_ttl(store, args, now, true)
    } else if text_eq(cmd, "RENAME") {
        cmd_rename(store, args, now)
    } else if text_eq(cmd, "DBSIZE") {
        RespValue::Integer(store.dbsize(now) as i64)
    } else if text_eq(cmd, "FLUSHDB") || text_eq(cmd, "FLUSHALL") {
        store.flushdb();
        RespValue::ok()
    } else if text_eq(cmd, "SCAN") {
        cmd_scan(store, args, now)
    } else if text_eq(cmd, "SSCAN") {
        cmd_member_scan(store, args, now, false)
    } else if text_eq(cmd, "HSCAN") {
        cmd_member_scan(store, args, now, true)
    } else {
        return None;
    };
    Some(r)
}

} // verus!
