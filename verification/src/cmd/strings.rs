//! String, integer and bit commands.
use vstd::prelude::*;

use super::reply::{wrong_arity, arity_reply, opt_bulks, opt_texts_view, strs_view, tail_strs, upper_is};
use crate::resp::{Reply, RespValue, err_reply, ok_reply, reply_of, wrongtype_text};
use crate::store::{Store, StoreView, ValueView, secs_to_ms};
use crate::store::bits::{bit_in, bitop_code, bitop_result, first_bit, ones, opt_int, value_bytes,
    with_bit, BitOp};
use crate::store::lists::clamp_range;
use crate::store::strings::{byte_len, expiry_after, get_answer, incr_outcome, mset_all, string_of_value};
use crate::text::{copy_text, utf8_text, decimal_text, parse_i64, parse_u64, parse_u8, parse_usize, parsed_int, starts_with,
    text_eq, texts_view, upper_case};

verus! {

pub open spec fn pu64(s: Seq<char>) -> Option<u64> {
    match parsed_int(s, false, 0, u64::MAX as int) {
        Some(v) => Some(v as u64),
        None => None,
    }
}

pub open spec fn pi64(s: Seq<char>) -> Option<i64> {
    match parsed_int(s, true, i64::MIN as int, i64::MAX as int) {
        Some(v) => Some(v as i64),
        None => None,
    }
}

pub open spec fn pusize(s: Seq<char>) -> Option<usize> {
    match parsed_int(s, false, 0, usize::MAX as int) {
        Some(v) => Some(v as usize),
        None => None,
    }
}

pub open spec fn pu8(s: Seq<char>) -> Option<u8> {
    match parsed_int(s, false, 0, u8::MAX as int) {
        Some(v) => Some(v as u8),
        None => None,
    }
}

pub struct SetOpts {
    pub secs: Option<u64>,
    pub ms: Option<u64>,
    pub nx: bool,
    pub xx: bool,
}

/// The options of SET from position `i` on: EX and PX take the next argument
/// (an unparsable one clears the option), NX and XX are flags, anything else is
/// skipped.
pub open spec fn set_options(args: Seq<Seq<char>>, i: int, o: SetOpts) -> SetOpts
    decreases args.len() - i,
{
    if i >= args.len() || i < 0 {
        o
    } else {
        let u = upper_case(args[i]);
        if u == "EX"@ && i + 1 < args.len() {
            set_options(args, i + 2, SetOpts { secs: pu64(args[i + 1]), ..o })
        } else if u == "PX"@ && i + 1 < args.len() {
            set_options(args, i + 2, SetOpts { ms: pu64(args[i + 1]), ..o })
        } else if u == "NX"@ {
            set_options(args, i + 1, SetOpts { nx: true, ..o })
        } else if u == "XX"@ {
            set_options(args, i + 1, SetOpts { xx: true, ..o })
        } else {
            set_options(args, i + 1, o)
        }
    }
}

pub open spec fn set_cmd(st: StoreView, args: Seq<Seq<char>>, now: u64) -> (Reply, StoreView) {
    if args.len() < 3 {
        (arity_reply("SET"@), st)
    } else {
        let o = set_options(args, 3, SetOpts { secs: None, ms: None, nx: false, xx: false });
        let live = st.lookup(args[1], now) is Some;
        if o.nx && live {
            (Reply::Bulk(None), st)
        } else if o.xx && !live {
            (Reply::Bulk(None), st)
        } else {
            let exp = match o.secs {
                Some(s) => expiry_after(now, secs_to_ms(s)),
                None => match o.ms {
                    Some(m) => expiry_after(now, m),
                    None => None,
                },
            };
            (ok_reply(), st.stored(args[1], ValueView::Str(args[2]), exp))
        }
    }
}

/// Whether a GET answer carries the wrong-type tag.
pub open spec fn tagged(v: Seq<char>) -> bool {
    "(error)"@.len() <= v.len() && v.subrange(0, "(error)"@.len() as int) == "(error)"@
}

pub open spec fn get_reply(st: StoreView, args: Seq<Seq<char>>, now: u64) -> Reply {
    if args.len() < 2 {
        arity_reply("GET"@)
    } else {
        match get_answer(st.value_of(args[1], now)) {
            Some(v) => if tagged(v) {
                Reply::Failure(wrongtype_text())
            } else {
                Reply::Bulk(Some(v))
            },
            None => Reply::Bulk(None),
        }
    }
}

pub open spec fn getset_cmd(st: StoreView, args: Seq<Seq<char>>, now: u64) -> (Reply, StoreView) {
    if args.len() < 3 {
        (arity_reply("GETSET"@), st)
    } else {
        (Reply::Bulk(string_of_value(st.value_of(args[1], now))), st.stored(args[1], ValueView::Str(args[2]), None))
    }
}

pub open spec fn setnx_cmd(st: StoreView, args: Seq<Seq<char>>, now: u64) -> (Reply, StoreView) {
    if args.len() < 3 {
        (arity_reply("SETNX"@), st)
    } else if st.lookup(args[1], now) is Some {
        (Reply::Number(0), st)
    } else {
        (Reply::Number(1), st.stored(args[1], ValueView::Str(args[2]), None))
    }
}

/// SETEX (`in_ms` false) and PSETEX (`in_ms` true).
pub open spec fn setex_cmd(st: StoreView, args: Seq<Seq<char>>, now: u64, in_ms: bool) -> (Reply, StoreView) {
    if args.len() < 4 {
        (arity_reply(if in_ms { "PSETEX"@ } else { "SETEX"@ }), st)
    } else {
        match pu64(args[2]) {
            None => (err_reply("value is not an integer or out of range"@), st),
            Some(t) => (
                ok_reply(),
                st.stored(args[1], ValueView::Str(args[3]), expiry_after(now, if in_ms { t } else { secs_to_ms(t) })),
            ),
        }
    }
}

/// The key-value pairs of `args[1..]`, two by two.
pub open spec fn arg_pairs(args: Seq<Seq<char>>, from: int) -> Seq<(Seq<char>, Seq<char>)> {
    Seq::new(((args.len() - from) / 2) as nat, |i: int| (args[from + 2 * i], args[from + 2 * i + 1]))
}

pub open spec fn mset_cmd(st: StoreView, args: Seq<Seq<char>>) -> (Reply, StoreView) {
    if args.len() < 3 || (args.len() - 1) % 2 != 0 {
        (err_reply("wrong number of arguments for MSET"@), st)
    } else {
        (ok_reply(), mset_all(st, arg_pairs(args, 1)))
    }
}

pub open spec fn mget_reply(st: StoreView, args: Seq<Seq<char>>, now: u64) -> Reply {
    if args.len() < 2 {
        arity_reply("MGET"@)
    } else {
        opt_bulks(args.skip(1).map_values(|k: Seq<char>| string_of_value(st.value_of(k, now))))
    }
}

pub open spec fn append_cmd(st: StoreView, args: Seq<Seq<char>>, now: u64) -> (Reply, StoreView) {
    if args.len() < 3 {
        (arity_reply("APPEND"@), st)
    } else {
        let (k, v) = (args[1], args[2]);
        match st.value_of(k, now) {
            None => (Reply::Number(byte_len(v) as i64 as int), st.stored(k, ValueView::Str(v), None)),
            Some(ValueView::Str(s)) => (
                Reply::Number(byte_len(s + v) as i64 as int),
                st.stored(k, ValueView::Str(s + v), st.expiry_of(k, now)),
            ),
            Some(_) => (Reply::Number(0), st),
        }
    }
}

pub open spec fn strlen_reply(st: StoreView, args: Seq<Seq<char>>, now: u64) -> Reply {
    if args.len() < 2 {
        arity_reply("STRLEN"@)
    } else {
        Reply::Number(
            match string_of_value(st.value_of(args[1], now)) {
                Some(s) => byte_len(s) as i64,
                None => 0i64,
            } as int,
        )
    }
}

/// The reply and store after adding `delta` to the integer at `k`.
pub open spec fn incr_step(st: StoreView, k: Seq<char>, delta: i64, now: u64) -> (Reply, StoreView) {
    match incr_outcome(st.value_of(k, now), delta) {
        Ok(v) => (Reply::Number(v as int), st.stored(k, ValueView::Str(decimal_text(v as int)), st.expiry_of(k, now))),
        Err(e) => (err_reply(e.text()), st),
    }
}

/// INCR (`sign` 1) and DECR (`sign` -1).
pub open spec fn incr_cmd(st: StoreView, args: Seq<Seq<char>>, now: u64, sign: i64) -> (Reply, StoreView) {
    if args.len() < 2 {
        (arity_reply(if sign == 1 { "INCR"@ } else { "DECR"@ }), st)
    } else {
        incr_step(st, args[1], sign, now)
    }
}

/// INCRBY (`negate` false) and DECRBY (`negate` true).
pub open spec fn incrby_cmd(st: StoreView, args: Seq<Seq<char>>, now: u64, negate: bool) -> (Reply, StoreView) {
    if args.len() < 3 {
        (arity_reply(if negate { "DECRBY"@ } else { "INCRBY"@ }), st)
    } else {
        match pi64(args[2]) {
            None => (err_reply("value is not an integer"@), st),
            Some(d) => if negate && d == i64::MIN {
                (err_reply("increment or decrement would overflow"@), st)
            } else {
                incr_step(st, args[1], if negate { (-d) as i64 } else { d }, now)
            },
        }
    }
}

pub open spec fn getbit_reply(st: StoreView, args: Seq<Seq<char>>, now: u64) -> Reply {
    if args.len() < 3 {
        arity_reply("GETBIT"@)
    } else {
        match pusize(args[2]) {
            None => err_reply("offset is not an integer"@),
            Some(off) => Reply::Number(bit_in(value_bytes(st.value_of(args[1], now)), off as int) as i64 as int),
        }
    }
}

pub open spec fn setbit_cmd(st: StoreView, args: Seq<Seq<char>>, now: u64) -> (Reply, StoreView) {
    if args.len() < 4 {
        (arity_reply("SETBIT"@), st)
    } else {
        match pusize(args[2]) {
            None => (err_reply("offset is not an integer"@), st),
            Some(off) => match pu8(args[3]) {
                None => (err_reply("value is not an integer"@), st),
                Some(val) => match st.value_of(args[1], now) {
                    Some(v) if !(v is Str) => (Reply::Number(0), st),
                    _ => {
                        let b = value_bytes(st.value_of(args[1], now));
                        (
                            Reply::Number(bit_in(b, off as int) as i64 as int),
                            st.stored(
                                args[1],
                                ValueView::Str(utf8_text(with_bit(b, off as nat, val != 0))),
                                st.expiry_of(args[1], now),
                            ),
                        )
                    },
                },
            },
        }
    }
}

/// An optional integer argument at `i`: absent, or unparsable, gives `None`.
pub open spec fn opt_i64_arg(args: Seq<Seq<char>>, i: int) -> Option<i64> {
    if args.len() > i {
        pi64(args[i])
    } else {
        None
    }
}

pub open spec fn bitcount_reply(st: StoreView, args: Seq<Seq<char>>, now: u64) -> Reply {
    if args.len() < 2 {
        arity_reply("BITCOUNT"@)
    } else {
        let b = value_bytes(st.value_of(args[1], now));
        let (lo, hi) = clamp_range(
            b.len() as int,
            opt_int(opt_i64_arg(args, 2), 0),
            opt_int(opt_i64_arg(args, 3), -1),
        );
        Reply::Number(ones(b.subrange(lo, hi)) as i64 as int)
    }
}

pub open spec fn bitop_cmd(st: StoreView, args: Seq<Seq<char>>, now: u64) -> (Reply, StoreView) {
    if args.len() < 4 {
        (arity_reply("BITOP"@), st)
    } else {
        let keys = args.skip(3);
        match bitop_code(args[1]) {
            None => (Reply::Number(0), st),
            Some(code) => if code is Not && keys.len() != 1 {
                (Reply::Number(0), st)
            } else {
                let res = bitop_result(code, st.sources(keys, now));
                if res.len() == 0 {
                    (
                        Reply::Number(0),
                        if st.lookup(args[2], now) is Some {
                            st.deleted(args[2])
                        } else {
                            st
                        },
                    )
                } else {
                    (Reply::Number(res.len() as i64 as int), st.stored(args[2], ValueView::Str(utf8_text(res)), None))
                }
            },
        }
    }
}

pub open spec fn bitpos_reply(st: StoreView, args: Seq<Seq<char>>, now: u64) -> Reply {
    if args.len() < 3 {
        arity_reply("BITPOS"@)
    } else {
        match pu8(args[2]) {
            None => err_reply("bit is not an integer"@),
            Some(bit) => {
                let b = value_bytes(st.value_of(args[1], now));
                let end = opt_i64_arg(args, 4);
                let (lo, hi) = clamp_range(b.len() as int, opt_int(opt_i64_arg(args, 3), 0), opt_int(end, -1));
                let pos = first_bit(b, lo * 8, hi * 8, if bit != 0 { 1 } else { 0 });
                Reply::Number(
                    (if pos >= 0 {
                        pos as i64
                    } else if bit == 0 && end is None {
                        (hi * 8) as i64
                    } else {
                        -1i64
                    }) as int,
                )
            },
        }
    }
}

fn opt_i64_at(args: &Vec<String>, i: usize) -> (r: Option<i64>)
    ensures
        r == opt_i64_arg(texts_view(args@), i as int),
{
    if args.len() > i {
        parse_i64(args[i].as_str())
    } else {
        None
    }
}

/// The string, integer or bit command `cmd`, or `None` when `cmd` is not one.
pub open spec fn string_outcome(st: StoreView, cmd: Seq<char>, args: Seq<Seq<char>>, now: u64) -> Option<(Reply, StoreView)> {
    if cmd == "SET"@ {
        Some(set_cmd(st, args, now))
    } else if cmd == "GET"@ {
        Some((get_reply(st, args, now), st))
    } else if cmd == "GETSET"@ {
        Some(getset_cmd(st, args, now))
    } else if cmd == "SETNX"@ {
        Some(setnx_cmd(st, args, now))
    } else if cmd == "SETEX"@ {
        Some(setex_cmd(st, args, now, false))
    } else if cmd == "PSETEX"@ {
        Some(setex_cmd(st, args, now, true))
    } else if cmd == "MSET"@ {
        Some(mset_cmd(st, args))
    } else if cmd == "MGET"@ {
        Some((mget_reply(st, args, now), st))
    } else if cmd == "APPEND"@ {
        Some(append_cmd(st, args, now))
    } else if cmd == "STRLEN"@ {
        Some((strlen_reply(st, args, now), st))
    } else if cmd == "GETBIT"@ {
        Some((getbit_reply(st, args, now), st))
    } else if cmd == "SETBIT"@ {
        Some(setbit_cmd(st, args, now))
    } else if cmd == "BITCOUNT"@ {
        Some((bitcount_reply(st, args, now), st))
    } else if cmd == "BITOP"@ {
        Some(bitop_cmd(st, args, now))
    } else if cmd == "BITPOS"@ {
        Some((bitpos_reply(st, args, now), st))
    } else if cmd == "INCR"@ {
        Some(incr_cmd(st, args, now, 1i64))
    } else if cmd == "DECR"@ {
        Some(incr_cmd(st, args, now, -1i64))
    } else if cmd == "INCRBY"@ {
        Some(incrby_cmd(st, args, now, false))
    } else if cmd == "DECRBY"@ {
        Some(incrby_cmd(st, args, now, true))
    } else {
        None
    }
}

pub fn cmd_set(store: &mut Store, args: &Vec<String>, now: u64) -> (r: RespValue)
    ensures
        (r@, final(store)@) == set_cmd(old(store)@, texts_view(args@), now),
{
    let ghost av = texts_view(args@);
    if args.len() < 3 {
        return wrong_arity("SET");
    }
    let mut ttl_secs: Option<u64> = None;
    let mut ttl_ms: Option<u64> = None;
    let mut nx = false;
    let mut xx = false;
    let mut i: usize = 3;
    while i < args.len()
        invariant
            3 <= i,
            av == texts_view(args@),
            set_options(av, 3, SetOpts { secs: None, ms: None, nx: false, xx: false }) == set_options(
                av,
                i as int,
                SetOpts { secs: ttl_secs, ms: ttl_ms, nx, xx },
            ),
        decreases args@.len() - i,
    {
        if upper_is(args[i].as_str(), "EX") && i + 1 < args.len() {
            ttl_secs = parse_u64(args[i + 1].as_str());
            i = i + 2;
        } else if upper_is(args[i].as_str(), "PX") && i + 1 < args.len() {
            ttl_ms = parse_u64(args[i + 1].as_str());
            i = i + 2;
        } else if upper_is(args[i].as_str(), "NX") {
            nx = true;
            i = i + 1;
        } else if upper_is(args[i].as_str(), "XX") {
            xx = true;
            i = i + 1;
        } else {
            i = i + 1;
        }
    }
    let key = copy_text(&args[1]);
    let value = copy_text(&args[2]);
    let live = store.key_exists(key.as_str(), now);
    if nx && live {
        return RespValue::BulkString(None);
    }
    if xx && !live {
        return RespValue::BulkString(None);
    }
    match ttl_secs {
        Some(secs) => store.setex(key, value, secs, now),
        None => match ttl_ms {
            Some(ms) => store.psetex(key, value, ms, now),
            None => store.set(key, value),
        },
    }
    RespValue::ok()
}

pub fn cmd_get(store: &Store, args: &Vec<String>, now: u64) -> (r: RespValue)
    ensures
        r@ == get_reply(store@, texts_view(args@), now),
{
    if args.len() < 2 {
        return wrong_arity("GET");
    }
    match store.get(args[1].as_str(), now) {
        Some(v) => if starts_with(v.as_str(), "(error)") {
            RespValue::wrongtype()
        } else {
            RespValue::BulkString(Some(v))
        },
        None => RespValue::BulkString(None),
    }
}

pub fn cmd_getset(store: &mut Store, args: &Vec<String>, now: u64) -> (r: RespValue)
    ensures
        (r@, final(store)@) == getset_cmd(old(store)@, texts_view(args@), now),
{
    if args.len() < 3 {
        return wrong_arity("GETSET");
    }
    RespValue::BulkString(store.getset(copy_text(&args[1]), copy_text(&args[2]), now))
}

pub fn cmd_setnx(store: &mut Store, args: &Vec<String>, now: u64) -> (r: RespValue)
    ensures
        (r@, final(store)@) == setnx_cmd(old(store)@, texts_view(args@), now),
{
    if args.len() < 3 {
        return wrong_arity("SETNX");
    }
    RespValue::Integer(store.setnx(copy_text(&args[1]), copy_text(&args[2]), now))
}

pub fn cmd_setex(store: &mut Store, args: &Vec<String>, now: u64, in_ms: bool) -> (r: RespValue)
    ensures
        (r@, final(store)@) == setex_cmd(old(store)@, texts_view(args@), now, in_ms),
{
    if args.len() < 4 {
        return if in_ms { wrong_arity("PSETEX") } else { wrong_arity("SETEX") };
    }
    let ttl = match parse_u64(args[2].as_str()) {
        Some(t) => t,
        None => {
            return RespValue::error("value is not an integer or out of range");
        },
    };
    if in_ms {
        store.psetex(copy_text(&args[1]), copy_text(&args[3]), ttl, now);
    } else {
        store.setex(copy_text(&args[1]), copy_text(&args[3]), ttl, now);
    }
    RespValue::ok()
}

pub fn cmd_mset(store: &mut Store, args: &Vec<String>) -> (r: RespValue)
    ensures
        (r@, final(store)@) == mset_cmd(old(store)@, texts_view(args@)),
{
    if args.len() < 3 || (args.len() - 1) % 2 != 0 {
        return RespValue::error("wrong number of arguments for MSET");
    }
    let ghost av = texts_view(args@);
    let l = args.len();
    let n = (l - 1) / 2;
    let mut pairs: Vec<(String, String)> = Vec::new();
    let mut i: usize = 0;
    while i < n
        invariant
            l == args@.len(),
            i <= n,
            n == (args@.len() - 1) / 2,
            av == texts_view(args@),
            pairs@.len() == i,
            forall|j: int| 0 <= j < i ==> ((#[trigger] pairs@[j]).0@, pairs@[j].1@) == arg_pairs(av, 1)[j],
        decreases n - i,
    {
        pairs.push((copy_text(&args[1 + 2 * i]), copy_text(&args[2 + 2 * i])));
        i = i + 1;
    }
    assert(pairs@.map_values(|p: (String, String)| (p.0@, p.1@)) =~= arg_pairs(av, 1));
    store.mset(pairs);
    RespValue::ok()
}

pub fn cmd_mget(store: &Store, args: &Vec<String>, now: u64) -> (r: RespValue)
    ensures
        r@ == mget_reply(store@, texts_view(args@), now),
{
    if args.len() < 2 {
        return wrong_arity("MGET");
    }
    let keys = tail_strs(args, 1);
    let values = store.mget(keys, now);
    proof {
        let av = texts_view(args@);
        assert(opt_texts_view(values@) =~= av.skip(1).map_values(
            |k: Seq<char>| string_of_value(store@.value_of(k, now)),
        ));
    }
    super::reply::opt_bulk_array(values)
}

pub fn cmd_append(store: &mut Store, args: &Vec<String>, now: u64) -> (r: RespValue)
    ensures
        (r@, final(store)@) == append_cmd(old(store)@, texts_view(args@), now),
{
    if args.len() < 3 {
        return wrong_arity("APPEND");
    }
    RespValue::Integer(store.append(args[1].as_str(), args[2].as_str(), now))
}

pub fn cmd_strlen(store: &Store, args: &Vec<String>, now: u64) -> (r: RespValue)
    ensures
        r@ == strlen_reply(store@, texts_view(args@), now),
{
    if args.len() < 2 {
        return wrong_arity("STRLEN");
    }
    RespValue::Integer(store.strlen(args[1].as_str(), now))
}

fn incr_reply(store: &mut Store, key: &str, delta: i64, now: u64) -> (r: RespValue)
    ensures
        (r@, final(store)@) == incr_step(old(store)@, key@, delta, now),
{
    match store.incrby(key, delta, now) {
        Ok(v) => RespValue::Integer(v),
        Err(e) => RespValue::error(e.message().as_str()),
    }
}

pub fn cmd_incr(store: &mut Store, args: &Vec<String>, now: u64, sign: i64) -> (r: RespValue)
    requires
        sign == 1 || sign == -1,
    ensures
        (r@, final(store)@) == incr_cmd(old(store)@, texts_view(args@), now, sign),
{
    if args.len() < 2 {
        return if sign == 1 { wrong_arity("INCR") } else { wrong_arity("DECR") };
    }
    incr_reply(store, args[1].as_str(), sign, now)
}

pub fn cmd_incrby(store: &mut Store, args: &Vec<String>, now: u64, negate: bool) -> (r: RespValue)
    ensures
        (r@, final(store)@) == incrby_cmd(old(store)@, texts_view(args@), now, negate),
{
    if args.len() < 3 {
        return if negate { wrong_arity("DECRBY") } else { wrong_arity("INCRBY") };
    }
    let delta = match parse_i64(args[2].as_str()) {
        Some(d) => d,
        None => {
            return RespValue::error("value is not an integer");
        },
    };
    if negate && delta == i64::MIN {
        return RespValue::error("increment or decrement would overflow");
    }
    let d = if negate { -delta } else { delta };
    incr_reply(store, args[1].as_str(), d, now)
}

pub fn cmd_getbit(store: &Store, args: &Vec<String>, now: u64) -> (r: RespValue)
    ensures
        r@ == getbit_reply(store@, texts_view(args@), now),
{
    if args.len() < 3 {
        return wrong_arity("GETBIT");
    }
    let offset = match parse_usize(args[2].as_str()) {
        Some(o) => o,
        None => {
            return RespValue::error("offset is not an integer");
        },
    };
    RespValue::Integer(store.getbit(args[1].as_str(), offset, now))
}

pub fn cmd_setbit(store: &mut Store, args: &Vec<String>, now: u64) -> (r: RespValue)
    ensures
        (r@, final(store)@) == setbit_cmd(old(store)@, texts_view(args@), now),
{
    if args.len() < 4 {
        return wrong_arity("SETBIT");
    }
    let offset = match parse_usize(args[2].as_str()) {
        Some(o) => o,
        None => {
            return RespValue::error("offset is not an integer");
        },
    };
    let value = match parse_u8(args[3].as_str()) {
        Some(v) => v,
        None => {
            return RespValue::error("value is not an integer");
        },
    };
    RespValue::Integer(store.setbit(args[1].as_str(), offset, value, now))
}

pub fn cmd_bitcount(store: &Store, args: &Vec<String>, now: u64) -> (r: RespValue)
    ensures
        r@ == bitcount_reply(store@, texts_view(args@), now),
{
    if args.len() < 2 {
        return wrong_arity("BITCOUNT");
    }
    let start = opt_i64_at(args, 2);
    let end = opt_i64_at(args, 3);
    RespValue::Integer(store.bitcount(args[1].as_str(), start, end, now))
}

pub fn cmd_bitop(store: &mut Store, args: &Vec<String>, now: u64) -> (r: RespValue)
    ensures
        (r@, final(store)@) == bitop_cmd(old(store)@, texts_view(args@), now),
{
    if args.len() < 4 {
        return wrong_arity("BITOP");
    }
    let keys = tail_strs(args, 3);
    assert(keys@.map_values(|k: &str| k@) =~= strs_view(keys@));
    RespValue::Integer(store.bitop(args[1].as_str(), args[2].as_str(), keys.as_slice(), now))
}

pub fn cmd_bitpos(store: &Store, args: &Vec<String>, now: u64) -> (r: RespValue)
    ensures
        r@ == bitpos_reply(store@, texts_view(args@), now),
{
    if args.len() < 3 {
        return wrong_arity("BITPOS");
    }
    let bit = match parse_u8(args[2].as_str()) {
        Some(b) => b,
        None => {
            return RespValue::error("bit is not an integer");
        },
    };
    let start = opt_i64_at(args, 3);
    let end = opt_i64_at(args, 4);
    RespValue::Integer(store.bitpos(args[1].as_str(), bit, start, end, now))
}

/// Runs the string, integer or bit command `cmd` (upper-cased), if it is one.
pub fn string_command(store: &mut Store, cmd: &str, args: &Vec<String>, now: u64) -> (r: Option<RespValue>)
    ensures
        match r {
            Some(v) => string_outcome(old(store)@, cmd@, texts_view(args@), now) == Some((v@, final(store)@)),
            None => string_outcome(old(store)@, cmd@, texts_view(args@), now) is None && final(store)@ == old(store)@,
        },
{
    let r = if text_eq(cmd, "SET") {
        cmd_set(store, args, now)
    } else if text_eq(cmd, "GET") {
        cmd_get(store, args, now)
    } else if text_eq(cmd, "GETSET") {
        cmd_getset(store, args, now)
    } else if text_eq(cmd, "SETNX") {
        cmd_setnx(store, args, now)
    } else if text_eq(cmd, "SETEX") {
        cmd_setex(store, args, now, false)
    } else if text_eq(cmd, "PSETEX") {
        cmd_setex(store, args, now, true)
    } else if text_eq(cmd, "MSET") {
        cmd_mset(store, args)
    } else if text_eq(cmd, "MGET") {
        cmd_mget(store, args, now)
    } else if text_eq(cmd, "APPEND") {
        cmd_append(store, args, now)
    } else if text_eq(cmd, "STRLEN") {
        cmd_strlen(store, args, now)
    } else if text_eq(cmd, "GETBIT") {
        cmd_getbit(store, args, now)
    } else if text_eq(cmd, "SETBIT") {
        cmd_setbit(store, args, now)
    } else if text_eq(cmd, "BITCOUNT") {
        cmd_bitcount(store, args, now)
    } else if text_eq(cmd, "BITOP") {
        cmd_bitop(store, args, now)
    } else if text_eq(cmd, "BITPOS") {
        cmd_bitpos(store, args, now)
    } else if text_eq(cmd, "INCR") {
        cmd_incr(store, args, now, 1)
    } else if text_eq(cmd, "DECR") {
        cmd_incr(store, args, now, -1)
    } else if text_eq(cmd, "INCRBY") {
        cmd_incrby(store, args, now, false)
    } else if text_eq(cmd, "DECRBY") {
        cmd_incrby(store, args, now, true)
    } else {
        return None;
    };
    Some(r)
}

} // verus!
