//! Command dispatch: from a request to what it comes to, and the store's next
//! state.
use vstd::prelude::*;

pub mod hashes;
pub mod laws;
pub mod keys;
pub mod lists;
pub mod reply;
pub mod server;
pub mod sets;
pub mod strings;
pub mod transaction;
pub mod zsets;


use crate::resp::{Reply, RespValue, err_reply, ok_reply, reply_of};
use crate::store::{Store, StoreView};
use crate::text::{concat_text, copy_text, text_eq, texts_view, to_upper, upper_case, lemma_texts_push};
use reply::{arity_reply, wrong_arity};
use hashes::{hash_command, hash_outcome};
use keys::{key_command, key_outcome};
use lists::{list_command, list_outcome};
use server::{server_command, server_outcome};
use sets::{set_command, set_outcome};
use strings::{string_command, string_outcome};
use zsets::{zset_command, zset_outcome};

verus! {

/// What a request comes to.
pub enum CommandOutcome {
    /// A reply to send.
    Reply(RespValue),
    /// SAVE or BGSAVE (`false`), or SHUTDOWN (`true`): the caller writes the
    /// snapshot, then answers with `save_reply`.
    Save(bool),
    /// A sorted-set command that reads or writes a score, with its arguments;
    /// scores are floating point, and the caller runs it.
    SortedSet(Vec<String>),
}

/// The abstract content of a `CommandOutcome`.
pub enum Outcome {
    Reply(Reply),
    Save(bool),
    SortedSet(Seq<Seq<char>>),
}

impl View for CommandOutcome {
    type V = Outcome;

    open spec fn view(&self) -> Outcome {
        match self {
            CommandOutcome::Reply(r) => Outcome::Reply(r@),
            CommandOutcome::Save(b) => Outcome::Save(*b),
            CommandOutcome::SortedSet(a) => Outcome::SortedSet(texts_view(a@)),
        }
    }
}

/// Whether an array item can stand as an argument: a bulk string or a status.
pub open spec fn is_text_item(r: Reply) -> bool {
    r matches Reply::Bulk(Some(_)) || r is Status
}

pub open spec fn item_text(r: Reply) -> Seq<char> {
    match r {
        Reply::Bulk(Some(s)) => s,
        Reply::Status(s) => s,
        _ => Seq::empty(),
    }
}

/// The arguments of a request: an array whose items are all bulk strings or
/// statuses.
pub open spec fn args_of(input: Reply) -> Option<Seq<Seq<char>>> {
    match input {
        Reply::List(Some(items)) => if forall|i: int| 0 <= i < items.len() ==> is_text_item(#[trigger] items[i]) {
            Some(items.map_values(|x: Reply| item_text(x)))
        } else {
            None
        },
        _ => None,
    }
}

/// The arguments of `value`, as `args_of` says.
pub fn extract_args(value: &RespValue) -> (r: Option<Vec<String>>)
    ensures
        match r {
            Some(a) => args_of(value@) == Some(texts_view(a@)),
            None => args_of(value@) is None,
        },
{
    let items = match value {
        RespValue::Array(Some(items)) => items,
        _ => {
            return None;
        },
    };
    let ghost iv = Seq::new(items@.len(), |i: int| reply_of(items@[i]));
    assert(value@ == Reply::List(Some(iv))) by {
        let got = value@;
        assert(got matches Reply::List(Some(s)) && s =~= iv);
    }
    let mut out: Vec<String> = Vec::new();
    let mut i: usize = 0;
    while i < items.len()
        invariant
            i <= items@.len(),
            iv == Seq::new(items@.len(), |i: int| reply_of(items@[i])),
            value@ == Reply::List(Some(iv)),
            forall|j: int| 0 <= j < i ==> is_text_item(#[trigger] iv[j]),
            texts_view(out@) == iv.take(i as int).map_values(|x: Reply| item_text(x)),
        decreases items@.len() - i,
    {
        let ghost before = out@;
        let s = match &items[i] {
            RespValue::BulkString(Some(s)) => copy_text(s),
            RespValue::SimpleString(s) => copy_text(s),
            _ => {
                assert(!is_text_item(iv[i as int]));
                return None;
            },
        };
        out.push(s);
        proof {
            lemma_texts_push(before, s);
            assert(iv.take(i as int + 1).map_values(|x: Reply| item_text(x)) =~= iv.take(i as int).map_values(
                |x: Reply| item_text(x),
            ).push(item_text(iv[i as int])));
        }
        i = i + 1;
    }
    assert(iv.take(iv.len() as int) =~= iv);
    Some(out)
}

/// The sorted-set commands that read or write a score. Scores are floating
/// point, so the caller runs these.
pub open spec fn sorted_set_command(cmd: Seq<char>) -> bool {
    ||| cmd == "ZADD"@
    ||| cmd == "ZRANGE"@
    ||| cmd == "ZRANGEBYSCORE"@
    ||| cmd == "ZREVRANGE"@
    ||| cmd == "ZREVRANGEBYSCORE"@
    ||| cmd == "ZSCORE"@
    ||| cmd == "ZCOUNT"@
    ||| cmd == "ZINCRBY"@
}

/// The reply to a command nobody knows.
pub open spec fn unknown_reply(cmd: Seq<char>) -> Reply {
    Reply::Failure("ERR unknown command '"@ + cmd + "'"@)
}

/// The reply to a request that is not an array of strings.
pub open spec fn invalid_reply() -> Reply {
    err_reply("invalid command format"@)
}

/// How many words a sorted-set command that handles scores needs, its name
/// included.
pub open spec fn score_arity(cmd: Seq<char>) -> int {
    if cmd == "ZSCORE"@ {
        3
    } else {
        4
    }
}

/// What the command `args` comes to at `now_us` microseconds since the epoch;
/// the store's commands see the time in milliseconds. The command name is
/// read in upper case, and the commands see it so.
pub open spec fn dispatch_outcome(st: StoreView, args: Seq<Seq<char>>, now_us: u64) -> (Outcome, StoreView) {
    let cmd = upper_case(args[0]);
    let a = args.update(0, cmd);
    let now = (now_us / 1000) as u64;
    if cmd == "SAVE"@ || cmd == "BGSAVE"@ {
        (Outcome::Save(false), st)
    } else if cmd == "SHUTDOWN"@ {
        (Outcome::Save(true), st)
    } else if sorted_set_command(cmd) {
        if args.len() < score_arity(cmd) {
            (Outcome::Reply(arity_reply(cmd)), st)
        } else {
            (Outcome::SortedSet(a), st)
        }
    } else if server_outcome(st, cmd, a, now_us) is Some {
        (Outcome::Reply(server_outcome(st, cmd, a, now_us)->Some_0), st)
    } else if string_outcome(st, cmd, a, now) is Some {
        let p = string_outcome(st, cmd, a, now)->Some_0;
        (Outcome::Reply(p.0), p.1)
    } else if key_outcome(st, cmd, a, now) is Some {
        let p = key_outcome(st, cmd, a, now)->Some_0;
        (Outcome::Reply(p.0), p.1)
    } else if list_outcome(st, cmd, a, now) is Some {
        let p = list_outcome(st, cmd, a, now)->Some_0;
        (Outcome::Reply(p.0), p.1)
    } else if hash_outcome(st, cmd, a, now) is Some {
        let p = hash_outcome(st, cmd, a, now)->Some_0;
        (Outcome::Reply(p.0), p.1)
    } else if set_outcome(st, cmd, a, now) is Some {
        let p = set_outcome(st, cmd, a, now)->Some_0;
        (Outcome::Reply(p.0), p.1)
    } else if zset_outcome(st, cmd, a, now) is Some {
        let p = zset_outcome(st, cmd, a, now)->Some_0;
        (Outcome::Reply(p.0), p.1)
    } else {
        (Outcome::Reply(unknown_reply(cmd)), st)
    }
}

/// Command names are read without regard to case: two commands whose names
/// have the same upper case and whose other words agree come to the same
/// outcome and the same store.
pub proof fn law_command_name_case(st: StoreView, xs: Seq<Seq<char>>, ys: Seq<Seq<char>>, now_us: u64)
    requires
        xs.len() > 0,
        ys.len() == xs.len(),
        upper_case(xs[0]) == upper_case(ys[0]),
        forall|i: int| 1 <= i < xs.len() ==> xs[i] == ys[i],
    ensures
        dispatch_outcome(st, xs, now_us) == dispatch_outcome(st, ys, now_us),
{
    assert(xs.update(0, upper_case(xs[0])) =~= ys.update(0, upper_case(ys[0])));
}

/// What the request `input` comes to at `now_us`.
pub open spec fn command_outcome(st: StoreView, input: Reply, now_us: u64) -> (Outcome, StoreView) {
    match args_of(input) {
        Some(args) => if args.len() > 0 {
            dispatch_outcome(st, args, now_us)
        } else {
            (Outcome::Reply(invalid_reply()), st)
        },
        None => (Outcome::Reply(invalid_reply()), st),
    }
}

/// Runs the command `args` at `now_us`.
pub fn dispatch(store: &mut Store, args: &Vec<String>, now_us: u64) -> (r: CommandOutcome)
    requires
        args@.len() > 0,
    ensures
        (r@, final(store)@) == dispatch_outcome(old(store)@, texts_view(args@), now_us),
{
    let upper = to_upper(args[0].as_str());
    let cmd = upper.as_str();
    let now = now_us / 1000;
    let mut named = crate::store::copy_texts(args);
    assert(named@.len() == texts_view(named@).len() && args@.len() == texts_view(args@).len());
    named.set(0, copy_text(&upper));
    assert(texts_view(named@) =~= texts_view(args@).update(0, upper@));
    let a = &named;
    if text_eq(cmd, "SAVE") || text_eq(cmd, "BGSAVE") {
        return CommandOutcome::Save(false);
    }
    if text_eq(cmd, "SHUTDOWN") {
        return CommandOutcome::Save(true);
    }
    if text_eq(cmd, "ZADD") || text_eq(cmd, "ZRANGE") || text_eq(cmd, "ZRANGEBYSCORE") || text_eq(cmd, "ZREVRANGE")
        || text_eq(cmd, "ZREVRANGEBYSCORE") || text_eq(cmd, "ZSCORE") || text_eq(cmd, "ZCOUNT") || text_eq(
        cmd,
        "ZINCRBY",
    ) {
        let need: usize = if text_eq(cmd, "ZSCORE") { 3 } else { 4 };
        if args.len() < need {
            return CommandOutcome::Reply(wrong_arity(cmd));
        }
        return CommandOutcome::SortedSet(crate::store::copy_texts(a));
    }
    if let Some(r) = server_command(store, cmd, a, now_us) {
        return CommandOutcome::Reply(r);
    }
    if let Some(r) = string_command(store, cmd, a, now) {
        return CommandOutcome::Reply(r);
    }
    if let Some(r) = key_command(store, cmd, a, now) {
        return CommandOutcome::Reply(r);
    }
    if let Some(r) = list_command(store, cmd, a, now) {
        return CommandOutcome::Reply(r);
    }
    if let Some(r) = hash_command(store, cmd, a, now) {
        return CommandOutcome::Reply(r);
    }
    if let Some(r) = set_command(store, cmd, a, now) {
        return CommandOutcome::Reply(r);
    }
    if let Some(r) = zset_command(store, cmd, a, now) {
        return CommandOutcome::Reply(r);
    }
    let a = concat_text("ERR unknown command '", cmd);
    CommandOutcome::Reply(RespValue::Error(concat_text(a.as_str(), "'")))
}

/// Runs the request `input` at `now_us` microseconds since the epoch.
pub fn handle_command_at(store: &mut Store, input: &RespValue, now_us: u64) -> (r: CommandOutcome)
    ensures
        (r@, final(store)@) == command_outcome(old(store)@, input@, now_us),
{
    let args = match extract_args(input) {
        Some(a) => a,
        None => {
            return CommandOutcome::Reply(RespValue::error("invalid command format"));
        },
    };
    if args.len() == 0 {
        return CommandOutcome::Reply(RespValue::error("invalid command format"));
    }
    dispatch(store, &args, now_us)
}

/// Microseconds since the Unix epoch by the system clock, through
/// `SystemTime::elapsed` on `UNIX_EPOCH` (0 for a clock set before the epoch).
/// Nothing is stated of the result: it is the machine's clock.
#[verifier::external_body]
fn clock_micros() -> u64 {
    match std::time::UNIX_EPOCH.elapsed() {
        Ok(d) => d.as_micros() as u64,
        Err(_) => 0,
    }
}

/// Runs the request `input` at the current time.
pub fn handle_command(store: &mut Store, input: &RespValue) -> (r: CommandOutcome)
    ensures
        exists|now_us: u64| (r@, final(store)@) == #[trigger] command_outcome(old(store)@, input@, now_us),
{
    let now_us = clock_micros();
    handle_command_at(store, input, now_us)
}

/// The answer to SAVE or BGSAVE (`shutdown` false) or SHUTDOWN (`true`) once
/// the snapshot was written with `result`; SHUTDOWN answers with an error
/// whatever came of it.
pub fn save_reply(result: Result<(), String>, shutdown: bool) -> (r: RespValue)
    ensures
        r@ == if shutdown {
            err_reply("SHUTDOWN"@)
        } else {
            match result {
                Ok(_) => ok_reply(),
                Err(e) => err_reply(e@),
            }
        },
{
    if shutdown {
        return RespValue::error("SHUTDOWN");
    }
    match result {
        Ok(_) => RespValue::ok(),
        Err(e) => RespValue::error(e.as_str()),
    }
}

} // verus!
