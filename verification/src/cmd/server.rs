//! Connection, server and publish/subscribe commands.
use vstd::prelude::*;

use super::reply::{wrong_arity, arity_reply, bulk_array, bulks, strs_view, tail_strs, upper_is};
use crate::pubsub::{count_of, names_matching, pattern_receivers};
use crate::resp::{Reply, RespValue, err_reply, ok_reply, reply_of};
use crate::store::{Store, StoreView};
use crate::store::keys::live_count;
use crate::text::{concat_text, copy_text, decimal_text, text, text_eq, texts_view, u64_text, upper_case};

verus! {

pub open spec fn ping_reply(args: Seq<Seq<char>>) -> Reply {
    Reply::Status(if args.len() > 1 { args[1] } else { "PONG"@ })
}

pub open spec fn echo_reply(args: Seq<Seq<char>>) -> Reply {
    Reply::Bulk(Some(if args.len() > 1 { args[1] } else { ""@ }))
}

pub open spec fn client_reply(args: Seq<Seq<char>>) -> Reply {
    if args.len() < 2 {
        err_reply("wrong number of arguments for 'client' command"@)
    } else if upper_case(args[1]) == "LIST"@ {
        Reply::List(Some(Seq::empty()))
    } else if upper_case(args[1]) == "KILL"@ {
        Reply::Number(0)
    } else {
        err_reply("unknown subcommand for 'client'"@)
    }
}

/// The text of the INFO reply for a store of `n` live keys.
pub open spec fn info_text(n: usize) -> Seq<char> {
    "# Server\r\nkv6_version:0.1.0\r\nmode:standalone\r\nos:Linux\r\n# Stats\r\nconnected_clients:1\r\nused_memory:unknown\r\n# Keyspace\r\ndb0:keys="@
        + decimal_text(n as int) + ",expires=0\r\n"@
}

pub open spec fn time_reply(now_us: u64) -> Reply {
    Reply::List(
        Some(
            seq![
                Reply::Bulk(Some(decimal_text((now_us / 1000000) as int))),
                Reply::Bulk(Some(decimal_text((now_us % 1000000) as int))),
            ],
        ),
    )
}

/// The number of receivers PUBLISH reports.
pub open spec fn receivers(st: StoreView, channel: Seq<char>) -> usize {
    let n = count_of(st.pubsub.channels, channel) + pattern_receivers(st.pubsub.patterns, channel);
    if n > usize::MAX {
        usize::MAX
    } else {
        n as usize
    }
}

pub open spec fn publish_reply(st: StoreView, args: Seq<Seq<char>>) -> Reply {
    if args.len() < 3 {
        arity_reply("PUBLISH"@)
    } else {
        Reply::Number(receivers(st, args[1]) as i64 as int)
    }
}

/// One confirmation per name: the kind, the name, and a count.
pub open spec fn confirmations(kind: Seq<char>, names: Seq<Seq<char>>, count: int) -> Reply {
    Reply::List(
        Some(
            names.map_values(
                |n: Seq<char>| Reply::List(Some(seq![Reply::Status(kind), Reply::Bulk(Some(n)), Reply::Number(count)])),
            ),
        ),
    )
}

pub open spec fn numsub_items(st: StoreView, chans: Seq<Seq<char>>) -> Seq<Reply>
    decreases chans.len(),
{
    if chans.len() == 0 {
        Seq::empty()
    } else {
        numsub_items(st, chans.drop_last()) + seq![
            Reply::Bulk(Some(chans.last())),
            Reply::Number(count_of(st.pubsub.channels, chans.last()) as usize as i64 as int),
        ]
    }
}

pub open spec fn pubsub_reply(st: StoreView, args: Seq<Seq<char>>) -> Reply {
    if args.len() < 2 {
        arity_reply("PUBSUB"@)
    } else if upper_case(args[1]) == "CHANNELS"@ {
        bulks(names_matching(st.pubsub.channels, if args.len() > 2 { Some(args[2]) } else { None }))
    } else if upper_case(args[1]) == "NUMSUB"@ {
        Reply::List(Some(numsub_items(st, args.skip(2))))
    } else if upper_case(args[1]) == "NUMPAT"@ {
        Reply::Number(st.pubsub.patterns.len() as usize as i64 as int)
    } else {
        err_reply("ERR Unknown PUBSUB subcommand"@)
    }
}

pub fn cmd_ping(args: &Vec<String>) -> (r: RespValue)
    ensures
        r@ == ping_reply(texts_view(args@)),
{
    let msg = if args.len() > 1 { copy_text(&args[1]) } else { text("PONG") };
    RespValue::SimpleString(msg)
}

pub fn cmd_echo(args: &Vec<String>) -> (r: RespValue)
    ensures
        r@ == echo_reply(texts_view(args@)),
{
    let msg = if args.len() > 1 { copy_text(&args[1]) } else { text("") };
    RespValue::BulkString(Some(msg))
}

pub fn cmd_client(args: &Vec<String>) -> (r: RespValue)
    ensures
        r@ == client_reply(texts_view(args@)),
{
    if args.len() < 2 {
        return RespValue::error("wrong number of arguments for 'client' command");
    }
    if upper_is(args[1].as_str(), "LIST") {
        let v: Vec<RespValue> = Vec::new();
        proof {
            super::reply::lemma_array_view(v, Seq::empty());
        }
        RespValue::Array(Some(v))
    } else if upper_is(args[1].as_str(), "KILL") {
        RespValue::Integer(0)
    } else {
        RespValue::error("unknown subcommand for 'client'")
    }
}

pub fn cmd_info(store: &Store, now: u64) -> (r: RespValue)
    ensures
        r@ == Reply::Bulk(Some(info_text(live_count(store@.entries, now) as usize))),
{
    let n = store.dbsize(now);
    let head = "# Server\r\nkv6_version:0.1.0\r\nmode:standalone\r\nos:Linux\r\n# Stats\r\nconnected_clients:1\r\nused_memory:unknown\r\n# Keyspace\r\ndb0:keys=";
    let a = concat_text(head, u64_text(n as u64).as_str());
    let b = concat_text(a.as_str(), ",expires=0\r\n");
    RespValue::BulkString(Some(b))
}

pub fn cmd_time(now_us: u64) -> (r: RespValue)
    ensures
        r@ == time_reply(now_us),
{
    let secs = now_us / 1000000;
    let micros = now_us % 1000000;
    let mut v: Vec<RespValue> = Vec::new();
    v.push(RespValue::BulkString(Some(u64_text(secs))));
    v.push(RespValue::BulkString(Some(u64_text(micros))));
    proof {
        super::reply::lemma_array_view(
            v,
            seq![
                Reply::Bulk(Some(decimal_text((now_us / 1000000) as int))),
                Reply::Bulk(Some(decimal_text((now_us % 1000000) as int))),
            ],
        );
    }
    RespValue::Array(Some(v))
}

pub fn cmd_publish(store: &Store, args: &Vec<String>) -> (r: RespValue)
    ensures
        r@ == publish_reply(store@, texts_view(args@)),
{
    if args.len() < 3 {
        return wrong_arity("PUBLISH");
    }
    let count = store.pubsub().publish(args[1].as_str(), args[2].as_str());
    RespValue::Integer(count as i64)
}

/// One confirmation per name of `names`.
fn confirm_each(kind: &str, names: &Vec<&str>, count: i64) -> (r: RespValue)
    ensures
        r@ == confirmations(kind@, strs_view(names@), count as int),
{
    let ghost target = strs_view(names@).map_values(
        |n: Seq<char>| Reply::List(Some(seq![Reply::Status(kind@), Reply::Bulk(Some(n)), Reply::Number(count as int)])),
    );
    let mut out: Vec<RespValue> = Vec::new();
    let mut i: usize = 0;
    while i < names.len()
        invariant
            i <= names@.len(),
            out@.len() == i,
            target == strs_view(names@).map_values(
                |n: Seq<char>| Reply::List(Some(seq![Reply::Status(kind@), Reply::Bulk(Some(n)), Reply::Number(count as int)])),
            ),
            forall|j: int| 0 <= j < i ==> reply_of(#[trigger] out@[j]) == target[j],
        decreases names@.len() - i,
    {
        let mut item: Vec<RespValue> = Vec::new();
        item.push(RespValue::SimpleString(kind.to_owned()));
        item.push(RespValue::BulkString(Some(names[i].to_owned())));
        item.push(RespValue::Integer(count));
        proof {
            super::reply::lemma_array_view(
                item,
                seq![Reply::Status(kind@), Reply::Bulk(Some(names@[i as int]@)), Reply::Number(count as int)],
            );
        }
        out.push(RespValue::Array(Some(item)));
        i = i + 1;
    }
    proof {
        super::reply::lemma_array_view(out, target);
    }
    RespValue::Array(Some(out))
}

pub fn cmd_subscribe(store: &Store, args: &Vec<String>, pattern: bool) -> (r: RespValue)
    ensures
        r@ == if args@.len() < 2 {
            arity_reply(if pattern { "PSUBSCRIBE"@ } else { "SUBSCRIBE"@ })
        } else {
            confirmations(
                if pattern { "psubscribe"@ } else { "subscribe"@ },
                texts_view(args@).skip(1),
                if pattern {
                    store@.pubsub.patterns.len() as usize as i64 as int
                } else {
                    store@.pubsub.channels.len() as usize as i64 as int
                },
            )
        },
{
    if args.len() < 2 {
        return if pattern { wrong_arity("PSUBSCRIBE") } else { wrong_arity("SUBSCRIBE") };
    }
    let names = tail_strs(args, 1);
    if pattern {
        let count = store.pubsub().patterns_count();
        confirm_each("psubscribe", &names, count as i64)
    } else {
        let count = store.pubsub().channels_count();
        confirm_each("subscribe", &names, count as i64)
    }
}

pub fn cmd_unsubscribe(args: &Vec<String>, pattern: bool) -> (r: RespValue)
    requires
        args@.len() >= 1,
    ensures
        r@ == confirmations(
            if pattern { "punsubscribe"@ } else { "unsubscribe"@ },
            texts_view(args@).skip(1),
            0,
        ),
{
    let names = tail_strs(args, 1);
    if pattern {
        confirm_each("punsubscribe", &names, 0)
    } else {
        confirm_each("unsubscribe", &names, 0)
    }
}

pub fn cmd_pubsub(store: &Store, args: &Vec<String>) -> (r: RespValue)
    ensures
        r@ == pubsub_reply(store@, texts_view(args@)),
{
    if args.len() < 2 {
        return wrong_arity("PUBSUB");
    }
    if upper_is(args[1].as_str(), "CHANNELS") {
        let pattern = if args.len() > 2 { Some(args[2].as_str()) } else { None };
        let names = store.pubsub().channels(pattern);
        bulk_array(names)
    } else if upper_is(args[1].as_str(), "NUMSUB") {
        let chans = tail_strs(args, 2);
        let counts = store.pubsub().numsub(chans.as_slice());
        let ghost cs = strs_view(chans@);
        let mut out: Vec<RespValue> = Vec::new();
        let mut i: usize = 0;
        assert(cs.take(0) =~= Seq::<Seq<char>>::empty());
        while i < counts.len()
            invariant
                i <= counts@.len(),
                counts@.len() == chans@.len(),
                cs == strs_view(chans@),
                forall|j: int| 0 <= j < chans@.len() ==> (#[trigger] counts@[j]).0@ == chans@[j]@
                    && counts@[j].1 == count_of(store@.pubsub.channels, chans@[j]@),
                out@.len() == numsub_items(store@, cs.take(i as int)).len(),
                forall|j: int| 0 <= j < out@.len() ==> reply_of(#[trigger] out@[j]) == numsub_items(store@, cs.take(i as int))[j],
            decreases counts@.len() - i,
        {
            proof {
                let t = cs.take(i as int + 1);
                assert(t.drop_last() =~= cs.take(i as int));
                assert(t.last() == cs[i as int]);
            }
            let ghost before = out@;
            out.push(RespValue::BulkString(Some(copy_text(&counts[i].0))));
            out.push(RespValue::Integer(counts[i].1 as i64));
            i = i + 1;
        }
        assert(cs.take(counts@.len() as int) =~= cs);
        proof {
            super::reply::lemma_array_view(out, numsub_items(store@, cs));
        }
        RespValue::Array(Some(out))
    } else if upper_is(args[1].as_str(), "NUMPAT") {
        RespValue::Integer(store.pubsub().numpat() as i64)
    } else {
        RespValue::error("ERR Unknown PUBSUB subcommand")
    }
}

pub open spec fn subscribe_reply(st: StoreView, args: Seq<Seq<char>>, pattern: bool) -> Reply {
    if args.len() < 2 {
        arity_reply(if pattern { "PSUBSCRIBE"@ } else { "SUBSCRIBE"@ })
    } else {
        confirmations(
            if pattern { "psubscribe"@ } else { "subscribe"@ },
            args.skip(1),
            if pattern {
                st.pubsub.patterns.len() as usize as i64 as int
            } else {
                st.pubsub.channels.len() as usize as i64 as int
            },
        )
    }
}

pub open spec fn unsubscribe_reply(args: Seq<Seq<char>>, pattern: bool) -> Reply {
    confirmations(if pattern { "punsubscribe"@ } else { "unsubscribe"@ }, args.skip(1), 0)
}

/// The connection, server or publish/subscribe command `cmd` at time `now_us`
/// (microseconds since the epoch), or `None` when `cmd` is not one.
pub open spec fn server_outcome(st: StoreView, cmd: Seq<char>, args: Seq<Seq<char>>, now_us: u64) -> Option<Reply> {
    if cmd == "PING"@ {
        Some(ping_reply(args))
    } else if cmd == "ECHO"@ {
        Some(echo_reply(args))
    } else if cmd == "QUIT"@ || cmd == "COMMAND"@ {
        Some(Reply::Status("OK"@))
    } else if cmd == "MULTI"@ || cmd == "DISCARD"@ || cmd == "WATCH"@ || cmd == "UNWATCH"@ || cmd == "SELECT"@ {
        Some(ok_reply())
    } else if cmd == "EXEC"@ {
        Some(Reply::List(Some(Seq::empty())))
    } else if cmd == "CLIENT"@ {
        Some(client_reply(args))
    } else if cmd == "INFO"@ {
        Some(Reply::Bulk(Some(info_text(live_count(st.entries, (now_us / 1000) as u64) as usize))))
    } else if cmd == "LASTSAVE"@ {
        Some(Reply::Number((now_us / 1000000) as int))
    } else if cmd == "TIME"@ {
        Some(time_reply(now_us))
    } else if cmd == "PUBLISH"@ {
        Some(publish_reply(st, args))
    } else if cmd == "SUBSCRIBE"@ {
        Some(subscribe_reply(st, args, false))
    } else if cmd == "PSUBSCRIBE"@ {
        Some(subscribe_reply(st, args, true))
    } else if cmd == "UNSUBSCRIBE"@ {
        Some(unsubscribe_reply(args, false))
    } else if cmd == "PUNSUBSCRIBE"@ {
        Some(unsubscribe_reply(args, true))
    } else if cmd == "PUBSUB"@ {
        Some(pubsub_reply(st, args))
    } else {
        None
    }
}

/// Runs the connection, server or publish/subscribe command `cmd`
/// (upper-cased), if it is one.
pub fn server_command(store: &Store, cmd: &str, args: &Vec<String>, now_us: u64) -> (r: Option<RespValue>)
    requires
        args@.len() >= 1,
    ensures
        match r {
            Some(v) => server_outcome(store@, cmd@, texts_view(args@), now_us) == Some(v@),
            None => server_outcome(store@, cmd@, texts_view(args@), now_us) is None,
        },
{
    let r = if text_eq(cmd, "PING") {
        cmd_ping(args)
    } else if text_eq(cmd, "ECHO") {
        cmd_echo(args)
    } else if text_eq(cmd, "QUIT") || text_eq(cmd, "COMMAND") {
        RespValue::SimpleString(text("OK"))
    } else if text_eq(cmd, "MULTI") || text_eq(cmd, "DISCARD") || text_eq(cmd, "WATCH") || text_eq(cmd, "UNWATCH")
        || text_eq(cmd, "SELECT") {
        RespValue::ok()
    } else if text_eq(cmd, "EXEC") {
        let v: Vec<RespValue> = Vec::new();
        proof {
            super::reply::lemma_array_view(v, Seq::empty());
        }
        RespValue::Array(Some(v))
    } else if text_eq(cmd, "CLIENT") {
        cmd_client(args)
    } else if text_eq(cmd, "INFO") {
        cmd_info(store, now_us / 1000)
    } else if text_eq(cmd, "LASTSAVE") {
        RespValue::Integer((now_us / 1000000) as i64)
    } else if text_eq(cmd, "TIME") {
        cmd_time(now_us)
    } else if text_eq(cmd, "PUBLISH") {
        cmd_publish(store, args)
    } else if text_eq(cmd, "SUBSCRIBE") {
        cmd_subscribe(store, args, false)
    } else if text_eq(cmd, "PSUBSCRIBE") {
        cmd_subscribe(store, args, true)
    } else if text_eq(cmd, "UNSUBSCRIBE") {
        cmd_unsubscribe(args, false)
    } else if text_eq(cmd, "PUNSUBSCRIBE") {
        cmd_unsubscribe(args, true)
    } else if text_eq(cmd, "PUBSUB") {
        cmd_pubsub(store, args)
    } else {
        return None;
    };
    Some(r)
}

} // verus!
