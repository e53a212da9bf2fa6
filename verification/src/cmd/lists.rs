//! List commands.
use vstd::prelude::*;

use super::reply::{wrong_arity, arity_reply, bulk_array, bulks, strs_view, tail_strs};
use super::strings::pi64;
use crate::resp::{Reply, RespValue, wrongtype_text};
use crate::store::{Store, StoreView, ValueView};
use crate::store::lists::{clamp_range, list_of, list_or_empty, pushed_front};
use crate::text::{parse_i64, text_eq, texts_view};

verus! {

/// LPUSH (`front` true) and RPUSH (`front` false).
pub open spec fn push_cmd(st: StoreView, args: Seq<Seq<char>>, now: u64, front: bool) -> (Reply, StoreView) {
    if args.len() < 3 {
        (arity_reply(if front { "LPUSH"@ } else { "RPUSH"@ }), st)
    } else {
        match list_or_empty(st.value_of(args[1], now)) {
            None => (Reply::Failure(wrongtype_text()), st),
            Some(l) => {
                let nl = if front { pushed_front(l, args.skip(2)) } else { l + args.skip(2) };
                (Reply::Number(nl.len() as i64 as int), st.stored(args[1], ValueView::List(nl), st.expiry_of(args[1], now)))
            },
        }
    }
}

/// LPOP (`front` true) and RPOP (`front` false).
pub open spec fn pop_cmd(st: StoreView, args: Seq<Seq<char>>, now: u64, front: bool) -> (Reply, StoreView) {
    if args.len() < 2 {
        (arity_reply(if front { "LPOP"@ } else { "RPOP"@ }), st)
    } else {
        match st.value_of(args[1], now) {
            Some(ValueView::List(l)) => if l.len() > 0 {
                if front {
                    (Reply::Bulk(Some(l[0])), st.with_list(args[1], l.drop_first(), now))
                } else {
                    (Reply::Bulk(Some(l.last())), st.with_list(args[1], l.drop_last(), now))
                }
            } else {
                (Reply::Bulk(None), st)
            },
            _ => (Reply::Bulk(None), st),
        }
    }
}

pub open spec fn llen_reply(st: StoreView, args: Seq<Seq<char>>, now: u64) -> Reply {
    if args.len() < 2 {
        arity_reply("LLEN"@)
    } else {
        Reply::Number(list_of(st.value_of(args[1], now)).len() as i64 as int)
    }
}

/// An index argument: unparsable gives `default`.
pub open spec fn index_arg(s: Seq<char>, default: i64) -> i64 {
    match pi64(s) {
        Some(v) => v,
        None => default,
    }
}

pub open spec fn lrange_reply(st: StoreView, args: Seq<Seq<char>>, now: u64) -> Reply {
    if args.len() < 4 {
        arity_reply("LRANGE"@)
    } else {
        let l = list_of(st.value_of(args[1], now));
        let (lo, hi) = clamp_range(l.len() as int, index_arg(args[2], 0) as int, index_arg(args[3], -1i64) as int);
        bulks(l.subrange(lo, hi))
    }
}

pub open spec fn lindex_reply(st: StoreView, args: Seq<Seq<char>>, now: u64) -> Reply {
    if args.len() < 3 {
        arity_reply("LINDEX"@)
    } else {
        let l = list_of(st.value_of(args[1], now));
        let index = index_arg(args[2], 0);
        let idx = if index < 0 { index + l.len() } else { index as int };
        Reply::Bulk(if 0 <= idx < l.len() { Some(l[idx]) } else { None })
    }
}

fn index_at(s: &str, default: i64) -> (r: i64)
    ensures
        r == index_arg(s@, default),
{
    match parse_i64(s) {
        Some(v) => v,
        None => default,
    }
}

pub fn cmd_push(store: &mut Store, args: &Vec<String>, now: u64, front: bool) -> (r: RespValue)
    ensures
        (r@, final(store)@) == push_cmd(old(store)@, texts_view(args@), now, front),
{
    if args.len() < 3 {
        return if front { wrong_arity("LPUSH") } else { wrong_arity("RPUSH") };
    }
    let values = tail_strs(args, 2);
    assert(values@.map_values(|v: &str| v@) =~= strs_view(values@));
    let res = if front {
        store.lpush(args[1].as_str(), values, now)
    } else {
        store.rpush(args[1].as_str(), values, now)
    };
    match res {
        Ok(n) => RespValue::Integer(n),
        Err(_) => RespValue::wrongtype(),
    }
}

fn bulk_opt_value(o: Option<String>) -> (r: RespValue)
    ensures
        r@ == Reply::Bulk(match o {
            Some(s) => Some(s@),
            None => None,
        }),
{
    RespValue::BulkString(o)
}

pub fn cmd_pop(store: &mut Store, args: &Vec<String>, now: u64, front: bool) -> (r: RespValue)
    ensures
        (r@, final(store)@) == pop_cmd(old(store)@, texts_view(args@), now, front),
{
    if args.len() < 2 {
        return if front { wrong_arity("LPOP") } else { wrong_arity("RPOP") };
    }
    if front {
        bulk_opt_value(store.lpop(args[1].as_str(), now))
    } else {
        bulk_opt_value(store.rpop(args[1].as_str(), now))
    }
}

pub fn cmd_llen(store: &Store, args: &Vec<String>, now: u64) -> (r: RespValue)
    ensures
        r@ == llen_reply(store@, texts_view(args@), now),
{
    if args.len() < 2 {
        return wrong_arity("LLEN");
    }
    RespValue::Integer(store.llen(args[1].as_str(), now))
}

pub fn cmd_lrange(store: &Store, args: &Vec<String>, now: u64) -> (r: RespValue)
    ensures
        r@ == lrange_reply(store@, texts_view(args@), now),
{
    if args.len() < 4 {
        return wrong_arity("LRANGE");
    }
    let start = index_at(args[2].as_str(), 0);
    let stop = index_at(args[3].as_str(), -1);
    bulk_array(store.lrange(args[1].as_str(), start, stop, now))
}

pub fn cmd_lindex(store: &Store, args: &Vec<String>, now: u64) -> (r: RespValue)
    ensures
        r@ == lindex_reply(store@, texts_view(args@), now),
{
    if args.len() < 3 {
        return wrong_arity("LINDEX");
    }
    let index = index_at(args[2].as_str(), 0);
    bulk_opt_value(store.lindex(args[1].as_str(), index, now))
}

/// The list command `cmd`, or `None` when `cmd` is not one.
pub open spec fn list_outcome(st: StoreView, cmd: Seq<char>, args: Seq<Seq<char>>, now: u64) -> Option<(Reply, StoreView)> {
    if cmd == "LPUSH"@ {
        Some(push_cmd(st, args, now, true))
    } else if cmd == "RPUSH"@ {
        Some(push_cmd(st, args, now, false))
    } else if cmd == "LPOP"@ {
        Some(pop_cmd(st, args, now, true))
    } else if cmd == "RPOP"@ {
        Some(pop_cmd(st, args, now, false))
    } else if cmd == "LLEN"@ {
        Some((llen_reply(st, args, now), st))
    } else if cmd == "LRANGE"@ {
        Some((lrange_reply(st, args, now), st))
    } else if cmd == "LINDEX"@ {
        Some((lindex_reply(st, args, now), st))
    } else {
        None
    }
}

/// Runs the list command `cmd` (upper-cased), if it is one.
pub fn list_command(store: &mut Store, cmd: &str, args: &Vec<String>, now: u64) -> (r: Option<RespValue>)
    ensures
        match r {
            Some(v) => list_outcome(old(store)@, cmd@, texts_view(args@), now) == Some((v@, final(store)@)),
            None => list_outcome(old(store)@, cmd@, texts_view(args@), now) is None && final(store)@ == old(store)@,
        },
{
    let r = if text_eq(cmd, "LPUSH") {
        cmd_push(store, args, now, true)
    } else if text_eq(cmd, "RPUSH") {
        cmd_push(store, args, now, false)
    } else if text_eq(cmd, "LPOP") {
        cmd_pop(store, args, now, true)
    } else if text_eq(cmd, "RPOP") {
        cmd_pop(store, args, now, false)
    } else if text_eq(cmd, "LLEN") {
        cmd_llen(store, args, now)
    } else if text_eq(cmd, "LRANGE") {
        cmd_lrange(store, args, now)
    } else if text_eq(cmd, "LINDEX") {
        cmd_lindex(store, args, now)
    } else {
        return None;
    };
    Some(r)
}

} // verus!
