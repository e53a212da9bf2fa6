//! Set commands.
use vstd::prelude::*;

use super::reply::{wrong_arity, arity_reply, bulk_array, bulks, strs_view, tail_strs};
use crate::lexical::{by_utf8, sort_texts, stable_sorted};
use crate::resp::{Reply, RespValue, wrongtype_text};
use crate::store::{Store, StoreView, ValueView};
use crate::store::sets::{members_of, members_or_empty, text_pos, with_members, without_members};
use crate::text::{text_eq, texts_view};

verus! {

pub open spec fn sadd_cmd(st: StoreView, args: Seq<Seq<char>>, now: u64) -> (Reply, StoreView) {
    if args.len() < 3 {
        (arity_reply("SADD"@), st)
    } else {
        match members_or_empty(st.value_of(args[1], now)) {
            None => (Reply::Failure(wrongtype_text()), st),
            Some(m) => {
                let (m2, n) = with_members(m, args.skip(2));
                (
                    Reply::Number(n as i64 as int),
                    if n > 0 { st.stored(args[1], ValueView::Members(m2), st.expiry_of(args[1], now)) } else { st },
                )
            },
        }
    }
}

pub open spec fn srem_cmd(st: StoreView, args: Seq<Seq<char>>, now: u64) -> (Reply, StoreView) {
    if args.len() < 3 {
        (arity_reply("SREM"@), st)
    } else {
        match st.value_of(args[1], now) {
            Some(ValueView::Members(m)) => {
                let (m2, n) = without_members(m, args.skip(2));
                (
                    Reply::Number(n as i64 as int),
                    if n > 0 {
                        if m2.len() == 0 {
                            st.deleted(args[1])
                        } else {
                            st.stored(args[1], ValueView::Members(m2), st.expiry_of(args[1], now))
                        }
                    } else {
                        st
                    },
                )
            },
            _ => (Reply::Number(0), st),
        }
    }
}

/// SMEMBERS answers the members in byte order.
pub open spec fn smembers_reply(st: StoreView, args: Seq<Seq<char>>, now: u64) -> Reply {
    if args.len() < 2 {
        arity_reply("SMEMBERS"@)
    } else {
        bulks(stable_sorted(members_of(st.value_of(args[1], now)), by_utf8()))
    }
}

pub open spec fn sismember_reply(st: StoreView, args: Seq<Seq<char>>, now: u64) -> Reply {
    if args.len() < 3 {
        arity_reply("SISMEMBER"@)
    } else {
        Reply::Number(if text_pos(members_of(st.value_of(args[1], now)), args[2]) != -1 { 1 } else { 0 })
    }
}

pub open spec fn scard_reply(st: StoreView, args: Seq<Seq<char>>, now: u64) -> Reply {
    if args.len() < 2 {
        arity_reply("SCARD"@)
    } else {
        Reply::Number(members_of(st.value_of(args[1], now)).len() as i64 as int)
    }
}

pub fn cmd_sadd(store: &mut Store, args: &Vec<String>, now: u64) -> (r: RespValue)
    ensures
        (r@, final(store)@) == sadd_cmd(old(store)@, texts_view(args@), now),
{
    if args.len() < 3 {
        return wrong_arity("SADD");
    }
    let members = tail_strs(args, 2);
    assert(members@.map_values(|x: &str| x@) =~= strs_view(members@));
    match store.sadd(args[1].as_str(), members, now) {
        Ok(n) => RespValue::Integer(n),
        Err(_) => RespValue::wrongtype(),
    }
}

pub fn cmd_srem(store: &mut Store, args: &Vec<String>, now: u64) -> (r: RespValue)
    ensures
        (r@, final(store)@) == srem_cmd(old(store)@, texts_view(args@), now),
{
    if args.len() < 3 {
        return wrong_arity("SREM");
    }
    let members = tail_strs(args, 2);
    assert(members@.map_values(|x: &str| x@) =~= strs_view(members@));
    RespValue::Integer(store.srem(args[1].as_str(), members, now))
}

pub fn cmd_smembers(store: &Store, args: &Vec<String>, now: u64) -> (r: RespValue)
    ensures
        r@ == smembers_reply(store@, texts_view(args@), now),
{
    if args.len() < 2 {
        return wrong_arity("SMEMBERS");
    }
    bulk_array(sort_texts(store.smembers(args[1].as_str(), now)))
}

pub fn cmd_sismember(store: &Store, args: &Vec<String>, now: u64) -> (r: RespValue)
    ensures
        r@ == sismember_reply(store@, texts_view(args@), now),
{
    if args.len() < 3 {
        return wrong_arity("SISMEMBER");
    }
    RespValue::Integer(if store.sismember(args[1].as_str(), args[2].as_str(), now) { 1 } else { 0 })
}

pub fn cmd_scard(store: &Store, args: &Vec<String>, now: u64) -> (r: RespValue)
    ensures
        r@ == scard_reply(store@, texts_view(args@), now),
{
    if args.len() < 2 {
        return wrong_arity("SCARD");
    }
    RespValue::Integer(store.scard(args[1].as_str(), now))
}

/// The set command `cmd`, or `None` when `cmd` is not one.
pub open spec fn set_outcome(st: StoreView, cmd: Seq<char>, args: Seq<Seq<char>>, now: u64) -> Option<(Reply, StoreView)> {
    if cmd == "SADD"@ {
        Some(sadd_cmd(st, args, now))
    } else if cmd == "SREM"@ {
        Some(srem_cmd(st, args, now))
    } else if cmd == "SMEMBERS"@ {
        Some((smembers_reply(st, args, now), st))
    } else if cmd == "SISMEMBER"@ {
        Some((sismember_reply(st, args, now), st))
    } else if cmd == "SCARD"@ {
        Some((scard_reply(st, args, now), st))
    } else {
        None
    }
}

/// Runs the set command `cmd` (upper-cased), if it is one.
pub fn set_command(store: &mut Store, cmd: &str, args: &Vec<String>, now: u64) -> (r: Option<RespValue>)
    ensures
        match r {
            Some(v) => set_outcome(old(store)@, cmd@, texts_view(args@), now) == Some((v@, final(store)@)),
            None => set_outcome(old(store)@, cmd@, texts_view(args@), now) is None && final(store)@ == old(store)@,
        },
{
    let r = if text_eq(cmd, "SADD") {
        cmd_sadd(store, args, now)
    } else if text_eq(cmd, "SREM") {
        cmd_srem(store, args, now)
    } else if text_eq(cmd, "SMEMBERS") {
        cmd_smembers(store, args, now)
    } else if text_eq(cmd, "SISMEMBER") {
        cmd_sismember(store, args, now)
    } else if text_eq(cmd, "SCARD") {
        cmd_scard(store, args, now)
    } else {
        return None;
    };
    Some(r)
}

} // verus!
