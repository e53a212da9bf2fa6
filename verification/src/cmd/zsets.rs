//! The sorted-set commands that read or write no score: ZCARD, ZREM, ZRANK,
//! ZREVRANK and ZSCAN.
use vstd::prelude::*;

use super::keys::{cursor_at, scan_options_at, scan_reply_over, scan_result};
use super::reply::{arity_reply, strs_view, tail_strs, upper_is, wrong_arity};
use crate::resp::{Reply, RespValue, err_reply};
use crate::store::{Store, StoreView, ValueView, ranked_view};
use crate::store::lists::clamp_range;
use crate::store::zsets::{member_pos, ranked_of, reversed, without_ranked};
use crate::text::{parse_i64, parsed_int, text_eq, texts_view, upper_case};

verus! {

pub open spec fn zcard_reply(st: StoreView, args: Seq<Seq<char>>, now: u64) -> Reply {
    if args.len() < 2 {
        arity_reply("ZCARD"@)
    } else {
        Reply::Number(ranked_of(st.value_of(args[1], now)).len() as i64 as int)
    }
}

pub open spec fn zrem_cmd(st: StoreView, args: Seq<Seq<char>>, now: u64) -> (Reply, StoreView) {
    if args.len() < 3 {
        (arity_reply("ZREM"@), st)
    } else {
        match st.value_of(args[1], now) {
            Some(ValueView::Ranked(z)) => {
                let (z2, n) = without_ranked(z, args.skip(2));
                (
                    Reply::Number(n as i64 as int),
                    if n > 0 {
                        if z2.len() == 0 {
                            st.deleted(args[1])
                        } else {
                            st.stored(args[1], ValueView::Ranked(z2), st.expiry_of(args[1], now))
                        }
                    } else {
                        st
                    },
                )
            },
            _ => (Reply::Number(0), st),
        }
    }
}

/// ZRANK (`reverse` false) and ZREVRANK (`reverse` true): the rank, or nil.
pub open spec fn zrank_reply(st: StoreView, args: Seq<Seq<char>>, now: u64, reverse: bool) -> Reply {
    if args.len() < 3 {
        arity_reply(if reverse { "ZREVRANK"@ } else { "ZRANK"@ })
    } else {
        let z = ranked_of(st.value_of(args[1], now));
        let i = member_pos(z, args[2]);
        if 0 <= i < z.len() {
            Reply::Number((if reverse { z.len() - 1 - i } else { i }) as i64 as int)
        } else {
            Reply::Bulk(None)
        }
    }
}

pub open spec fn zscan_reply(st: StoreView, args: Seq<Seq<char>>, now: u64) -> Reply {
    if args.len() < 3 {
        arity_reply("ZSCAN"@)
    } else {
        scan_reply_over(
            ranked_of(st.value_of(args[1], now)).map_values(|p: (Seq<char>, u64)| p.0),
            args,
            2,
        )
    }
}

/// What ZRANGE (`reverse` false) or ZREVRANGE (`reverse` true) asks for: the
/// members ranked `start..=stop` with their order keys, and whether WITHSCORES
/// follows; or the error reply.
pub open spec fn zrange_request_outcome(st: StoreView, args: Seq<Seq<char>>, now: u64, reverse: bool) -> Result<
    (Seq<(Seq<char>, u64)>, bool),
    Reply,
> {
    if args.len() < 4 {
        Err(arity_reply(if reverse { "ZREVRANGE"@ } else { "ZRANGE"@ }))
    } else {
        match (
            parsed_int(args[2], true, i64::MIN as int, i64::MAX as int),
            parsed_int(args[3], true, i64::MIN as int, i64::MAX as int),
        ) {
            (Some(start), Some(stop)) => {
                let z0 = ranked_of(st.value_of(args[1], now));
                let z = if reverse { reversed(z0) } else { z0 };
                let (lo, hi) = clamp_range(z.len() as int, start, stop);
                Ok((z.subrange(lo, hi), args.len() > 4 && upper_case(args[4]) == "WITHSCORES"@))
            },
            _ => Err(err_reply("value is not an integer"@)),
        }
    }
}

/// The sorted-set command `cmd` that involves no score, or `None` when `cmd`
/// is not one.
pub open spec fn zset_outcome(st: StoreView, cmd: Seq<char>, args: Seq<Seq<char>>, now: u64) -> Option<(Reply, StoreView)> {
    if cmd == "ZCARD"@ {
        Some((zcard_reply(st, args, now), st))
    } else if cmd == "ZREM"@ {
        Some(zrem_cmd(st, args, now))
    } else if cmd == "ZRANK"@ {
        Some((zrank_reply(st, args, now, false), st))
    } else if cmd == "ZREVRANK"@ {
        Some((zrank_reply(st, args, now, true), st))
    } else if cmd == "ZSCAN"@ {
        Some((zscan_reply(st, args, now), st))
    } else {
        None
    }
}

/// Reads a ZRANGE or ZREVRANGE request: the ranked members it selects and
/// whether their scores are asked for, or the error reply. Writing the scores
/// out is left to the caller, as they are floating point.
pub fn zrange_request(store: &Store, args: &Vec<String>, now: u64, reverse: bool) -> (r: Result<
    (Vec<(String, u64)>, bool),
    RespValue,
>)
    ensures
        match r {
            Ok((items, withscores)) => zrange_request_outcome(store@, texts_view(args@), now, reverse) == Ok::<
                (Seq<(Seq<char>, u64)>, bool),
                Reply,
            >((ranked_view(items@), withscores)),
            Err(e) => zrange_request_outcome(store@, texts_view(args@), now, reverse) == Err::<
                (Seq<(Seq<char>, u64)>, bool),
                Reply,
            >(e@),
        },
{
    if args.len() < 4 {
        return Err(if reverse { wrong_arity("ZREVRANGE") } else { wrong_arity("ZRANGE") });
    }
    let start = match parse_i64(args[2].as_str()) {
        Some(s) => s,
        None => {
            return Err(RespValue::error("value is not an integer"));
        },
    };
    let stop = match parse_i64(args[3].as_str()) {
        Some(s) => s,
        None => {
            return Err(RespValue::error("value is not an integer"));
        },
    };
    let withscores = args.len() > 4 && upper_is(args[4].as_str(), "WITHSCORES");
    Ok((store.zrange(args[1].as_str(), start, stop, reverse, now), withscores))
}

pub fn cmd_zcard(store: &Store, args: &Vec<String>, now: u64) -> (r: RespValue)
    ensures
        r@ == zcard_reply(store@, texts_view(args@), now),
{
    if args.len() < 2 {
        return wrong_arity("ZCARD");
    }
    RespValue::Integer(store.zcard(args[1].as_str(), now))
}

pub fn cmd_zrem(store: &mut Store, args: &Vec<String>, now: u64) -> (r: RespValue)
    ensures
        (r@, final(store)@) == zrem_cmd(old(store)@, texts_view(args@), now),
{
    if args.len() < 3 {
        return wrong_arity("ZREM");
    }
    let members = tail_strs(args, 2);
    assert(members@.map_values(|x: &str| x@) =~= strs_view(members@));
    RespValue::Integer(store.zrem(args[1].as_str(), members, now))
}

pub fn cmd_zrank(store: &Store, args: &Vec<String>, now: u64, reverse: bool) -> (r: RespValue)
    ensures
        r@ == zrank_reply(store@, texts_view(args@), now, reverse),
{
    if args.len() < 3 {
        return if reverse { wrong_arity("ZREVRANK") } else { wrong_arity("ZRANK") };
    }
    match store.zrank(args[1].as_str(), args[2].as_str(), reverse, now) {
        Some(r) => RespValue::Integer(r),
        None => RespValue::BulkString(None),
    }
}

pub fn cmd_zscan(store: &Store, args: &Vec<String>, now: u64) -> (r: RespValue)
    ensures
        r@ == zscan_reply(store@, texts_view(args@), now),
{
    if args.len() < 3 {
        return wrong_arity("ZSCAN");
    }
    let cursor = cursor_at(args, 2);
    let (pattern, count) = scan_options_at(args, 3);
    let (next, names) = store.zscan(args[1].as_str(), cursor, pattern, count, now);
    scan_result(next, names)
}

/// Runs the sorted-set command `cmd` (upper-cased) that involves no score, if
/// it is one.
pub fn zset_command(store: &mut Store, cmd: &str, args: &Vec<String>, now: u64) -> (r: Option<RespValue>)
    ensures
        match r {
            Some(v) => zset_outcome(old(store)@, cmd@, texts_view(args@), now) == Some((v@, final(store)@)),
            None => zset_outcome(old(store)@, cmd@, texts_view(args@), now) is None && final(store)@ == old(store)@,
        },
{
    let r = if text_eq(cmd, "ZCARD") {
        cmd_zcard(store, args, now)
    } else if text_eq(cmd, "ZREM") {
        cmd_zrem(store, args, now)
    } else if text_eq(cmd, "ZRANK") {
        cmd_zrank(store, args, now, false)
    } else if text_eq(cmd, "ZREVRANK") {
        cmd_zrank(store, args, now, true)
    } else if text_eq(cmd, "ZSCAN") {
        cmd_zscan(store, args, now)
    } else {
        return None;
    };
    Some(r)
}

} // verus!
