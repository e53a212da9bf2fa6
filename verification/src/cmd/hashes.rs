//! Hash commands.
use vstd::prelude::*;

use super::reply::{wrong_arity, arity_reply, bulk_array, bulks, lemma_array_view, opt_bulk_array, opt_bulks,
    opt_texts_view, strs_view, tail_strs};
use crate::resp::{Reply, RespValue, err_reply, ok_reply, reply_of, wrongtype_text};
use crate::store::{Store, StoreView, ValueView, text_pairs_view};
use crate::store::hashes::{field_value, hash_of, hash_or_empty, with_field, with_fields, without_fields};
use crate::text::{copy_text, text_eq, texts_view};

verus! {

/// Field names and values of `h`, alternating.
pub open spec fn flattened(h: Seq<(Seq<char>, Seq<char>)>) -> Seq<Seq<char>> {
    Seq::new(2 * h.len(), |j: int| if j % 2 == 0 { h[j / 2].0 } else { h[j / 2].1 })
}

/// Consecutive arguments taken two by two.
pub open spec fn arg_pairs_of(t: Seq<Seq<char>>) -> Seq<(Seq<char>, Seq<char>)> {
    Seq::new(t.len() / 2, |i: int| (t[2 * i], t[2 * i + 1]))
}

pub open spec fn hset_cmd(st: StoreView, args: Seq<Seq<char>>, now: u64) -> (Reply, StoreView) {
    if args.len() < 4 {
        (arity_reply("HSET"@), st)
    } else {
        match hash_or_empty(st.value_of(args[1], now)) {
            None => (Reply::Failure(wrongtype_text()), st),
            Some(h) => (
                Reply::Number(if field_value(h, args[2]) is None { 1 } else { 0 }),
                st.stored(args[1], ValueView::Hash(with_field(h, args[2], args[3])), st.expiry_of(args[1], now)),
            ),
        }
    }
}

pub open spec fn hget_reply(st: StoreView, args: Seq<Seq<char>>, now: u64) -> Reply {
    if args.len() < 3 {
        arity_reply("HGET"@)
    } else {
        Reply::Bulk(field_value(hash_of(st.value_of(args[1], now)), args[2]))
    }
}

pub open spec fn hmset_cmd(st: StoreView, args: Seq<Seq<char>>, now: u64) -> (Reply, StoreView) {
    if args.len() < 4 || (args.len() - 2) % 2 != 0 {
        (err_reply("wrong number of arguments for HMSET"@), st)
    } else {
        match hash_or_empty(st.value_of(args[1], now)) {
            None => (Reply::Failure(wrongtype_text()), st),
            Some(h) => (
                ok_reply(),
                st.stored(
                    args[1],
                    ValueView::Hash(with_fields(h, arg_pairs_of(args.skip(2)))),
                    st.expiry_of(args[1], now),
                ),
            ),
        }
    }
}

pub open spec fn hmget_reply(st: StoreView, args: Seq<Seq<char>>, now: u64) -> Reply {
    if args.len() < 3 {
        arity_reply("HMGET"@)
    } else {
        let h = hash_of(st.value_of(args[1], now));
        opt_bulks(args.skip(2).map_values(|f: Seq<char>| field_value(h, f)))
    }
}

pub open spec fn hdel_cmd(st: StoreView, args: Seq<Seq<char>>, now: u64) -> (Reply, StoreView) {
    if args.len() < 3 {
        (arity_reply("HDEL"@), st)
    } else {
        match st.value_of(args[1], now) {
            Some(ValueView::Hash(h)) => {
                let (h2, n) = without_fields(h, args.skip(2));
                (Reply::Number(n as i64 as int), if n > 0 { st.with_hash(args[1], h2, now) } else { st })
            },
            _ => (Reply::Number(0), st),
        }
    }
}

pub open spec fn hgetall_reply(st: StoreView, args: Seq<Seq<char>>, now: u64) -> Reply {
    if args.len() < 2 {
        arity_reply("HGETALL"@)
    } else {
        bulks(flattened(hash_of(st.value_of(args[1], now))))
    }
}

/// HKEYS (`values` false) and HVALS (`values` true).
pub open spec fn hnames_reply(st: StoreView, args: Seq<Seq<char>>, now: u64, values: bool) -> Reply {
    if args.len() < 2 {
        arity_reply(if values { "HVALS"@ } else { "HKEYS"@ })
    } else {
        let h = hash_of(st.value_of(args[1], now));
        bulks(
            if values {
                h.map_values(|p: (Seq<char>, Seq<char>)| p.1)
            } else {
                h.map_values(|p: (Seq<char>, Seq<char>)| p.0)
            },
        )
    }
}

pub open spec fn hlen_reply(st: StoreView, args: Seq<Seq<char>>, now: u64) -> Reply {
    if args.len() < 2 {
        arity_reply("HLEN"@)
    } else {
        Reply::Number(hash_of(st.value_of(args[1], now)).len() as i64 as int)
    }
}

pub open spec fn hexists_reply(st: StoreView, args: Seq<Seq<char>>, now: u64) -> Reply {
    if args.len() < 3 {
        arity_reply("HEXISTS"@)
    } else {
        Reply::Number(if field_value(hash_of(st.value_of(args[1], now)), args[2]) is Some { 1 } else { 0 })
    }
}

pub fn cmd_hset(store: &mut Store, args: &Vec<String>, now: u64) -> (r: RespValue)
    ensures
        (r@, final(store)@) == hset_cmd(old(store)@, texts_view(args@), now),
{
    if args.len() < 4 {
        return wrong_arity("HSET");
    }
    match store.hset(args[1].as_str(), args[2].as_str(), args[3].as_str(), now) {
        Ok(n) => RespValue::Integer(n),
        Err(_) => RespValue::wrongtype(),
    }
}

pub fn cmd_hget(store: &Store, args: &Vec<String>, now: u64) -> (r: RespValue)
    ensures
        r@ == hget_reply(store@, texts_view(args@), now),
{
    if args.len() < 3 {
        return wrong_arity("HGET");
    }
    RespValue::BulkString(store.hget(args[1].as_str(), args[2].as_str(), now))
}

/// `args[from..]` taken two by two.
fn arg_pairs(args: &Vec<String>, from: usize) -> (r: Vec<(&str, &str)>)
    requires
        from <= args@.len(),
        (args@.len() - from) % 2 == 0,
    ensures
        r@.map_values(|p: (&str, &str)| (p.0@, p.1@)) == arg_pairs_of(texts_view(args@).skip(from as int)),
{
    let ghost t = texts_view(args@).skip(from as int);
    let mut r: Vec<(&str, &str)> = Vec::new();
    let mut i = from;
    while i < args.len()
        invariant
            from <= i <= args@.len(),
            (i - from) % 2 == 0,
            (args@.len() - from) % 2 == 0,
            t == texts_view(args@).skip(from as int),
            r@.len() == (i - from) / 2,
            forall|j: int| 0 <= j < r@.len() ==> (#[trigger] r@[j]).0@ == t[2 * j] && r@[j].1@ == t[2 * j + 1],
        decreases args@.len() - i,
    {
        r.push((args[i].as_str(), args[i + 1].as_str()));
        i = i + 2;
    }
    assert(r@.map_values(|p: (&str, &str)| (p.0@, p.1@)) =~= arg_pairs_of(t));
    r
}

pub fn cmd_hmset(store: &mut Store, args: &Vec<String>, now: u64) -> (r: RespValue)
    ensures
        (r@, final(store)@) == hmset_cmd(old(store)@, texts_view(args@), now),
{
    if args.len() < 4 || (args.len() - 2) % 2 != 0 {
        return RespValue::error("wrong number of arguments for HMSET");
    }
    let pairs = arg_pairs(args, 2);
    match store.hmset(args[1].as_str(), pairs, now) {
        Ok(_) => RespValue::ok(),
        Err(_) => RespValue::wrongtype(),
    }
}

pub fn cmd_hmget(store: &Store, args: &Vec<String>, now: u64) -> (r: RespValue)
    ensures
        r@ == hmget_reply(store@, texts_view(args@), now),
{
    if args.len() < 3 {
        return wrong_arity("HMGET");
    }
    let fields = tail_strs(args, 2);
    let ghost fv = strs_view(fields@);
    let values = store.hmget(args[1].as_str(), fields, now);
    proof {
        let h = hash_of(store@.value_of(args@[1]@, now));
        assert(opt_texts_view(values@) =~= texts_view(args@).skip(2).map_values(
            |f: Seq<char>| field_value(h, f),
        )) by {
            assert forall|i: int| 0 <= i < values@.len() implies opt_texts_view(values@)[i]
                == field_value(h, fv[i]) by {
                assert(fv[i] == fields@[i]@);
            }
        }
    }
    opt_bulk_array(values)
}

pub fn cmd_hdel(store: &mut Store, args: &Vec<String>, now: u64) -> (r: RespValue)
    ensures
        (r@, final(store)@) == hdel_cmd(old(store)@, texts_view(args@), now),
{
    if args.len() < 3 {
        return wrong_arity("HDEL");
    }
    let fields = tail_strs(args, 2);
    assert(fields@.map_values(|f: &str| f@) =~= strs_view(fields@));
    RespValue::Integer(store.hdel(args[1].as_str(), fields, now))
}

pub fn cmd_hgetall(store: &Store, args: &Vec<String>, now: u64) -> (r: RespValue)
    ensures
        r@ == hgetall_reply(store@, texts_view(args@), now),
{
    if args.len() < 2 {
        return wrong_arity("HGETALL");
    }
    let pairs = store.hgetall(args[1].as_str(), now);
    let ghost h = text_pairs_view(pairs@);
    let ghost target = flattened(h).map_values(|s: Seq<char>| Reply::Bulk(Some(s)));
    let mut items: Vec<RespValue> = Vec::new();
    let mut i: usize = 0;
    while i < pairs.len()
        invariant
            i <= pairs@.len(),
            h == text_pairs_view(pairs@),
            target == flattened(h).map_values(|s: Seq<char>| Reply::Bulk(Some(s))),
            items@.len() == 2 * i,
            forall|j: int| 0 <= j < 2 * i ==> reply_of(#[trigger] items@[j]) == target[j],
        decreases pairs@.len() - i,
    {
        items.push(RespValue::BulkString(Some(copy_text(&pairs[i].0))));
        items.push(RespValue::BulkString(Some(copy_text(&pairs[i].1))));
        proof {
            assert((2 * i) / 2 == i as int);
            assert((2 * i + 1) / 2 == i as int);
            assert((2 * i) % 2 == 0);
            assert((2 * i + 1) % 2 == 1);
        }
        i = i + 1;
    }
    proof {
        lemma_array_view(items, target);
    }
    RespValue::Array(Some(items))
}

pub fn cmd_hnames(store: &Store, args: &Vec<String>, now: u64, values: bool) -> (r: RespValue)
    ensures
        r@ == hnames_reply(store@, texts_view(args@), now, values),
{
    if args.len() < 2 {
        return if values { wrong_arity("HVALS") } else { wrong_arity("HKEYS") };
    }
    if values {
        bulk_array(store.hvals(args[1].as_str(), now))
    } else {
        bulk_array(store.hkeys(args[1].as_str(), now))
    }
}

pub fn cmd_hlen(store: &Store, args: &Vec<String>, now: u64) -> (r: RespValue)
    ensures
        r@ == hlen_reply(store@, texts_view(args@), now),
{
    if args.len() < 2 {
        return wrong_arity("HLEN");
    }
    RespValue::Integer(store.hlen(args[1].as_str(), now))
}

pub fn cmd_hexists(store: &Store, args: &Vec<String>, now: u64) -> (r: RespValue)
    ensures
        r@ == hexists_reply(store@, texts_view(args@), now),
{
    if args.len() < 3 {
        return wrong_arity("HEXISTS");
    }
    RespValue::Integer(if store.hexists(args[1].as_str(), args[2].as_str(), now) { 1 } else { 0 })
}

/// The hash command `cmd`, or `None` when `cmd` is not one.
pub open spec fn hash_outcome(st: StoreView, cmd: Seq<char>, args: Seq<Seq<char>>, now: u64) -> Option<(Reply, StoreView)> {
    if cmd == "HSET"@ {
        Some(hset_cmd(st, args, now))
    } else if cmd == "HGET"@ {
        Some((hget_reply(st, args, now), st))
    } else if cmd == "HMSET"@ {
        Some(hmset_cmd(st, args, now))
    } else if cmd == "HMGET"@ {
        Some((hmget_reply(st, args, now), st))
    } else if cmd == "HDEL"@ {
        Some(hdel_cmd(st, args, now))
    } else if cmd == "HGETALL"@ {
        Some((hgetall_reply(st, args, now), st))
    } else if cmd == "HKEYS"@ {
        Some((hnames_reply(st, args, now, false), st))
    } else if cmd == "HVALS"@ {
        Some((hnames_reply(st, args, now, true), st))
    } else if cmd == "HLEN"@ {
        Some((hlen_reply(st, args, now), st))
    } else if cmd == "HEXISTS"@ {
        Some((hexists_reply(st, args, now), st))
    } else {
        None
    }
}

/// Runs the hash command `cmd` (upper-cased), if it is one.
pub fn hash_command(store: &mut Store, cmd: &str, args: &Vec<String>, now: u64) -> (r: Option<RespValue>)
    ensures
        match r {
            Some(v) => hash_outcome(old(store)@, cmd@, texts_view(args@), now) == Some((v@, final(store)@)),
            None => hash_outcome(old(store)@, cmd@, texts_view(args@), now) is None && final(store)@ == old(store)@,
        },
{
    let r = if text_eq(cmd, "HSET") {
        cmd_hset(store, args, now)
    } else if text_eq(cmd, "HGET") {
        cmd_hget(store, args, now)
    } else if text_eq(cmd, "HMSET") {
        cmd_hmset(store, args, now)
    } else if text_eq(cmd, "HMGET") {
        cmd_hmget(store, args, now)
    } else if text_eq(cmd, "HDEL") {
        cmd_hdel(store, args, now)
    } else if text_eq(cmd, "HGETALL") {
        cmd_hgetall(store, args, now)
    } else if text_eq(cmd, "HKEYS") {
        cmd_hnames(store, args, now, false)
    } else if text_eq(cmd, "HVALS") {
        cmd_hnames(store, args, now, true)
    } else if text_eq(cmd, "HLEN") {
        cmd_hlen(store, args, now)
    } else if text_eq(cmd, "HEXISTS") {
        cmd_hexists(store, args, now)
    } else {
        return None;
    };
    Some(r)
}

} // verus!
