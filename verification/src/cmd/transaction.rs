//! Transactions: MULTI, EXEC, DISCARD, WATCH and UNWATCH against a client's
//! state, and the queued commands that EXEC runs.
use vstd::prelude::*;

use super::{CommandOutcome, Outcome, args_of, command_outcome, dispatch, dispatch_outcome, extract_args,
    invalid_reply, unknown_reply};
use super::reply::{arity_reply, bulks, lemma_array_view, strs_view, tail_strs, wrong_arity};
use super::strings::{cmd_get, get_reply};
use crate::client::{ClientState, ClientView, versions_view};
use crate::resp::{Reply, RespValue, err_reply, ok_reply, reply_of};
use crate::store::{Store, StoreView, ValueView};
use crate::store::keys::del_all;
use crate::store::strings::incr_outcome;
use crate::text::{concat_text, copy_text, decimal_text, split_words, text_eq, texts_view, to_upper, upper_case,
    words};

verus! {

/// The command a queued line stands for: its words, unless it has none.
pub open spec fn parsed_line(s: Seq<char>) -> Option<Seq<Seq<char>>> {
    if words(s).len() == 0 {
        None
    } else {
        Some(words(s))
    }
}

/// A queued command as EXEC runs it: SET, GET, DEL and INCR, nothing else.
pub open spec fn exec_step(st: StoreView, args: Seq<Seq<char>>, now: u64) -> (Reply, StoreView) {
    let cmd = upper_case(args[0]);
    if cmd == "SET"@ {
        if args.len() < 3 {
            (arity_reply("SET"@), st)
        } else {
            (ok_reply(), st.stored(args[1], ValueView::Str(args[2]), None))
        }
    } else if cmd == "GET"@ {
        (get_reply(st, args, now), st)
    } else if cmd == "DEL"@ {
        let (s2, n) = del_all(st, args.skip(1), now);
        (Reply::Number(n as i64 as int), s2)
    } else if cmd == "INCR"@ {
        if args.len() < 2 {
            (arity_reply("INCR"@), st)
        } else {
            match incr_outcome(st.value_of(args[1], now), 1) {
                Ok(v) => (
                    Reply::Number(v as int),
                    st.stored(args[1], ValueView::Str(decimal_text(v as int)), st.expiry_of(args[1], now)),
                ),
                Err(_) => (err_reply("value is not an integer"@), st),
            }
        }
    } else {
        (unknown_reply(cmd), st)
    }
}

/// What `execute_store_command` answers to `input`.
pub open spec fn store_command_outcome(st: StoreView, input: Reply, now: u64) -> (Reply, StoreView) {
    match args_of(input) {
        Some(args) => if args.len() > 0 {
            exec_step(st, args, now)
        } else {
            (invalid_reply(), st)
        },
        None => (invalid_reply(), st),
    }
}

/// The queued lines `q` run in order (lines without words are skipped), with
/// their replies.
pub open spec fn run_queue(st: StoreView, q: Seq<Seq<char>>, now: u64) -> (Seq<Reply>, StoreView)
    decreases q.len(),
{
    if q.len() == 0 {
        (Seq::empty(), st)
    } else {
        let (rs, s1) = run_queue(st, q.drop_last(), now);
        match parsed_line(q.last()) {
            Some(args) => {
                let (r, s2) = exec_step(s1, args, now);
                (rs.push(r), s2)
            },
            None => (rs, s1),
        }
    }
}

/// Whether a watched key was written since it was watched.
pub open spec fn watch_broken(st: StoreView, watched: Seq<(Seq<char>, u64)>) -> bool {
    exists|i: int| 0 <= i < watched.len() && st.version(#[trigger] watched[i].0) != watched[i].1
}

/// The client after its transaction ends: no queue, nothing watched.
pub open spec fn cleared(c: ClientView) -> ClientView {
    ClientView { in_multi: false, queue: Seq::empty(), watched: Seq::empty(), ..c }
}

/// What `input` comes to for a client in state `c`, at `now_us` microseconds
/// since the epoch: the transaction commands act on the client, the others as
/// without one.
pub open spec fn client_outcome(st: StoreView, c: ClientView, input: Reply, now_us: u64) -> (Outcome, StoreView, ClientView) {
    match args_of(input) {
        Some(args) => if args.len() == 0 {
            (Outcome::Reply(invalid_reply()), st, c)
        } else {
            let cmd = upper_case(args[0]);
            if cmd == "MULTI"@ {
                (Outcome::Reply(ok_reply()), st, ClientView { in_multi: true, queue: Seq::empty(), ..c })
            } else if cmd == "EXEC"@ {
                if c.watched.len() > 0 && watch_broken(st, c.watched) {
                    (Outcome::Reply(Reply::List(None)), st, cleared(c))
                } else {
                    let (rs, s2) = run_queue(st, c.queue, (now_us / 1000) as u64);
                    (Outcome::Reply(Reply::List(Some(rs))), s2, cleared(c))
                }
            } else if cmd == "DISCARD"@ {
                (Outcome::Reply(ok_reply()), st, cleared(c))
            } else if cmd == "WATCH"@ {
                (
                    Outcome::Reply(ok_reply()),
                    st,
                    ClientView {
                        watched: c.watched + args.skip(1).map_values(|k: Seq<char>| (k, st.version(k))),
                        ..c
                    },
                )
            } else if cmd == "UNWATCH"@ {
                (Outcome::Reply(ok_reply()), st, ClientView { watched: Seq::empty(), ..c })
            } else {
                let (o, s2) = dispatch_outcome(st, args, now_us);
                (o, s2, c)
            }
        },
        None => (Outcome::Reply(invalid_reply()), st, c),
    }
}

/// The words of a queued line as bulk strings, or `None` when it has none.
pub fn parse_command_string(s: &str) -> (r: Option<Vec<RespValue>>)
    ensures
        match r {
            Some(v) => words(s@).len() > 0 && reply_of(RespValue::Array(Some(v))) == bulks(words(s@)),
            None => words(s@).len() == 0,
        },
{
    let parts = split_words(s);
    if parts.len() == 0 {
        return None;
    }
    let ghost target = words(s@).map_values(|w: Seq<char>| Reply::Bulk(Some(w)));
    let mut out: Vec<RespValue> = Vec::new();
    let mut i: usize = 0;
    while i < parts.len()
        invariant
            i <= parts@.len(),
            texts_view(parts@) == words(s@),
            target == words(s@).map_values(|w: Seq<char>| Reply::Bulk(Some(w))),
            out@.len() == i,
            forall|j: int| 0 <= j < i ==> reply_of(#[trigger] out@[j]) == target[j],
        decreases parts@.len() - i,
    {
        out.push(RespValue::BulkString(Some(copy_text(&parts[i]))));
        i = i + 1;
    }
    proof {
        lemma_array_view(out, target);
    }
    Some(out)
}

/// The arguments of an array of bulk strings are those strings.
proof fn lemma_args_of_bulks(ws: Seq<Seq<char>>)
    ensures
        args_of(bulks(ws)) == Some(ws),
{
    let items = ws.map_values(|w: Seq<char>| Reply::Bulk(Some(w)));
    assert(forall|i: int| 0 <= i < items.len() ==> super::is_text_item(#[trigger] items[i]));
    assert(items.map_values(|x: Reply| super::item_text(x)) =~= ws);
}

/// Runs one queued command: SET, GET, DEL or INCR.
pub fn execute_store_command(store: &mut Store, input: RespValue, now: u64) -> (r: RespValue)
    ensures
        (r@, final(store)@) == store_command_outcome(old(store)@, input@, now),
{
    let args = match extract_args(&input) {
        Some(a) => a,
        None => {
            return RespValue::error("invalid command format");
        },
    };
    if args.len() == 0 {
        return RespValue::error("invalid command format");
    }
    let upper = to_upper(args[0].as_str());
    let cmd = upper.as_str();
    if text_eq(cmd, "SET") {
        if args.len() < 3 {
            return wrong_arity("SET");
        }
        store.set(copy_text(&args[1]), copy_text(&args[2]));
        RespValue::ok()
    } else if text_eq(cmd, "GET") {
        cmd_get(store, &args, now)
    } else if text_eq(cmd, "DEL") {
        let keys = tail_strs(&args, 1);
        assert(keys@.map_values(|k: &str| k@) =~= strs_view(keys@));
        RespValue::Integer(store.del(keys, now))
    } else if text_eq(cmd, "INCR") {
        if args.len() < 2 {
            return wrong_arity("INCR");
        }
        match store.incr(args[1].as_str(), now) {
            Ok(v) => RespValue::Integer(v),
            Err(_) => RespValue::error("value is not an integer"),
        }
    } else {
        let a = concat_text("ERR unknown command '", cmd);
        RespValue::Error(concat_text(a.as_str(), "'"))
    }
}

/// Whether a key that `client` watches was written since.
fn watch_is_broken(store: &Store, client: &ClientState) -> (r: bool)
    ensures
        r == watch_broken(store@, client@.watched),
{
    let watched = client.watched_keys_versions();
    let mut keys: Vec<&str> = Vec::new();
    let mut i: usize = 0;
    while i < watched.len()
        invariant
            i <= watched@.len(),
            keys@.len() == i,
            forall|j: int| 0 <= j < i ==> (#[trigger] keys@[j])@ == watched@[j].0@,
        decreases watched@.len() - i,
    {
        keys.push(watched[i].0.as_str());
        i = i + 1;
    }
    let current = store.get_keys_versions(keys.as_slice());
    let ghost w = versions_view(watched@);
    let mut k: usize = 0;
    while k < watched.len()
        invariant
            k <= watched@.len(),
            w == versions_view(watched@),
            w == client@.watched,
            current@.len() == watched@.len(),
            keys@.len() == watched@.len(),
            forall|j: int| 0 <= j < keys@.len() ==> (#[trigger] keys@[j])@ == watched@[j].0@,
            forall|j: int| 0 <= j < keys@.len() ==> (#[trigger] current@[j]).1 == store@.version(keys@[j]@),
            forall|j: int| 0 <= j < k ==> store@.version(#[trigger] w[j].0) == w[j].1,
        decreases watched@.len() - k,
    {
        assert(keys@[k as int]@ == w[k as int].0);
        if current[k].1 != watched[k].1 {
            return true;
        }
        k = k + 1;
    }
    false
}

/// Runs the queued lines `commands` in order.
fn run_commands(store: &mut Store, commands: &Vec<String>, now: u64) -> (r: Vec<RespValue>)
    ensures
        ({
            let (rs, s2) = run_queue(old(store)@, texts_view(commands@), now);
            &&& reply_of(RespValue::Array(Some(r))) == Reply::List(Some(rs))
            &&& final(store)@ == s2
        }),
{
    let ghost q = texts_view(commands@);
    let ghost st0 = store@;
    let ghost mut rs: Seq<Reply> = Seq::empty();
    let mut results: Vec<RespValue> = Vec::new();
    let mut i: usize = 0;
    assert(q.take(0) =~= Seq::<Seq<char>>::empty());
    while i < commands.len()
        invariant
            i <= commands@.len(),
            q == texts_view(commands@),
            (rs, store@) == run_queue(st0, q.take(i as int), now),
            results@.len() == rs.len(),
            forall|j: int| 0 <= j < rs.len() ==> reply_of(#[trigger] results@[j]) == rs[j],
        decreases commands@.len() - i,
    {
        assert(q.take(i as int + 1).drop_last() =~= q.take(i as int));
        assert(q.take(i as int + 1).last() == commands@[i as int]@);
        if let Some(args) = parse_command_string(commands[i].as_str()) {
            let ghost ws = words(commands@[i as int]@);
            let input = RespValue::Array(Some(args));
            proof {
                lemma_args_of_bulks(ws);
            }
            let r = execute_store_command(store, input, now);
            proof {
                rs = rs.push(r@);
            }
            results.push(r);
        }
        i = i + 1;
    }
    assert(q.take(commands@.len() as int) =~= q);
    proof {
        lemma_array_view(results, rs);
    }
    results
}

/// Runs the request `input` for `client` at `now_us` microseconds since the
/// epoch.
pub fn handle_command_with_client_at(store: &mut Store, client: &mut ClientState, input: &RespValue, now_us: u64) -> (r: CommandOutcome)
    ensures
        (r@, final(store)@, final(client)@) == client_outcome(old(store)@, old(client)@, input@, now_us),
{
    let args = match extract_args(input) {
        Some(a) => a,
        None => {
            return CommandOutcome::Reply(RespValue::error("invalid command format"));
        },
    };
    if args.len() == 0 {
        return CommandOutcome::Reply(RespValue::error("invalid command format"));
    }
    let upper = to_upper(args[0].as_str());
    let cmd = upper.as_str();
    if text_eq(cmd, "MULTI") {
        client.multi();
        CommandOutcome::Reply(RespValue::ok())
    } else if text_eq(cmd, "EXEC") {
        if client.has_watched_keys() && watch_is_broken(store, client) {
            let _ = client.exec();
            return CommandOutcome::Reply(RespValue::Array(None));
        }
        let commands = client.exec();
        let results = run_commands(store, &commands, now_us / 1000);
        CommandOutcome::Reply(RespValue::Array(Some(results)))
    } else if text_eq(cmd, "DISCARD") {
        client.discard();
        CommandOutcome::Reply(RespValue::ok())
    } else if text_eq(cmd, "WATCH") {
        let keys = tail_strs(&args, 1);
        let versions = store.get_keys_versions(keys.as_slice());
        proof {
            let ks = texts_view(args@).skip(1);
            assert(versions_view(versions@) =~= ks.map_values(|k: Seq<char>| (k, store@.version(k)))) by {
                assert forall|j: int| 0 <= j < versions@.len() implies versions_view(versions@)[j] == (
                ks[j],
                store@.version(ks[j]),
                ) by {
                    assert(strs_view(keys@)[j] == keys@[j]@);
                }
            }
        }
        client.watch(Vec::new(), versions);
        CommandOutcome::Reply(RespValue::ok())
    } else if text_eq(cmd, "UNWATCH") {
        client.unwatch();
        CommandOutcome::Reply(RespValue::ok())
    } else {
        dispatch(store, &args, now_us)
    }
}

/// Runs the request `input` for `client` at the current time.
pub fn handle_command_with_client(store: &mut Store, client: &mut ClientState, input: &RespValue) -> (r: CommandOutcome)
    ensures
        exists|now_us: u64|
            (r@, final(store)@, final(client)@) == #[trigger] client_outcome(old(store)@, old(client)@, input@, now_us),
{
    let now_us = super::clock_micros();
    handle_command_with_client_at(store, client, input, now_us)
}

/// The commands that act on the transaction itself.
pub open spec fn is_transaction_command(cmd: Seq<char>) -> bool {
    cmd == "MULTI"@ || cmd == "EXEC"@ || cmd == "DISCARD"@ || cmd == "WATCH"@ || cmd == "UNWATCH"@
}

/// The words of a command joined by single spaces, as a queued line.
pub open spec fn joined(args: Seq<Seq<char>>) -> Seq<char>
    decreases args.len(),
{
    if args.len() == 0 {
        Seq::empty()
    } else if args.len() == 1 {
        args[0]
    } else {
        joined(args.drop_last()) + seq![' '] + args.last()
    }
}

/// What a connection does with `input`: while a transaction is open, a command
/// that does not act on the transaction is queued as a line and answered
/// QUEUED; everything else goes as `client_outcome` says.
pub open spec fn session_outcome(st: StoreView, c: ClientView, input: Reply, now_us: u64) -> (Outcome, StoreView, ClientView) {
    match args_of(input) {
        Some(args) => if args.len() > 0 && c.in_multi && !is_transaction_command(upper_case(args[0])) {
            (Outcome::Reply(Reply::Status("QUEUED"@)), st, ClientView { queue: c.queue.push(joined(args)), ..c })
        } else {
            client_outcome(st, c, input, now_us)
        },
        None => client_outcome(st, c, input, now_us),
    }
}

/// The words of `args` joined by single spaces.
fn join_words(args: &Vec<String>) -> (r: String)
    ensures
        r@ == joined(texts_view(args@)),
{
    let ghost a = texts_view(args@);
    if args.len() == 0 {
        proof {
            reveal_strlit("");
            assert(""@ =~= Seq::<char>::empty());
        }
        return crate::text::text("");
    }
    let mut r = copy_text(&args[0]);
    let mut i: usize = 1;
    assert(a.take(1).drop_last() =~= Seq::<Seq<char>>::empty());
    while i < args.len()
        invariant
            1 <= i <= args@.len(),
            a == texts_view(args@),
            r@ == joined(a.take(i as int)),
        decreases args@.len() - i,
    {
        let spaced = concat_text(r.as_str(), " ");
        r = concat_text(spaced.as_str(), args[i].as_str());
        proof {
            let t = a.take(i as int + 1);
            assert(t.drop_last() =~= a.take(i as int));
            assert(t.last() == a[i as int]);
            reveal_strlit(" ");
            assert(" "@ =~= seq![' ']);
        }
        i = i + 1;
    }
    assert(a.take(args@.len() as int) =~= a);
    r
}

/// Serves the request `input` of a connection whose transaction state is
/// `client`, at `now_us` microseconds since the epoch.
pub fn serve_request_at(store: &mut Store, client: &mut ClientState, input: &RespValue, now_us: u64) -> (r: CommandOutcome)
    ensures
        (r@, final(store)@, final(client)@) == session_outcome(old(store)@, old(client)@, input@, now_us),
{
    if client.is_in_multi() {
        if let Some(args) = extract_args(input) {
            if args.len() > 0 {
                let upper = to_upper(args[0].as_str());
                let cmd = upper.as_str();
                if !(text_eq(cmd, "MULTI") || text_eq(cmd, "EXEC") || text_eq(cmd, "DISCARD") || text_eq(cmd, "WATCH")
                    || text_eq(cmd, "UNWATCH")) {
                    client.queue_command(join_words(&args));
                    return CommandOutcome::Reply(RespValue::SimpleString(crate::text::text("QUEUED")));
                }
            }
        }
    }
    handle_command_with_client_at(store, client, input, now_us)
}

/// Serves the request `input` of a connection at the current time.
pub fn serve_request(store: &mut Store, client: &mut ClientState, input: &RespValue) -> (r: CommandOutcome)
    ensures
        exists|now_us: u64|
            (r@, final(store)@, final(client)@) == #[trigger] session_outcome(old(store)@, old(client)@, input@, now_us),
{
    let now_us = super::clock_micros();
    serve_request_at(store, client, input, now_us)
}

/// A command that does not act on the transaction runs as it would without a
/// client, at once (it is not queued), and leaves the client as it was; a
/// request that is not a non-empty array of strings gets the format error and
/// changes nothing.
pub proof fn law_other_commands_pass_through(st: StoreView, c: ClientView, input: Reply, now_us: u64)
    ensures
        (args_of(input) matches Some(args) && args.len() > 0 && !is_transaction_command(upper_case(args[0])))
            ==> client_outcome(st, c, input, now_us) == (
            command_outcome(st, input, now_us).0,
            command_outcome(st, input, now_us).1,
            c,
        ),
        (args_of(input) is None || args_of(input) == Some(Seq::<Seq<char>>::empty())) ==> client_outcome(
            st,
            c,
            input,
            now_us,
        ) == (Outcome::Reply(invalid_reply()), st, c),
{
}

/// A transaction whose watched key was written after its version was recorded
/// is refused: EXEC answers nil, runs nothing, and ends the transaction.
pub proof fn law_watched_write_aborts_exec(
    st: StoreView,
    c: ClientView,
    i: int,
    v: ValueView,
    exp: Option<u64>,
    input: Reply,
    now_us: u64,
)
    requires
        st.wf(),
        st.clock < u64::MAX,
        0 <= i < c.watched.len(),
        c.watched[i].1 == st.version(c.watched[i].0),
        args_of(input) matches Some(a) && a.len() > 0 && upper_case(a[0]) == "EXEC"@,
    ensures
        ({
            let st2 = st.stored(c.watched[i].0, v, exp);
            client_outcome(st2, c, input, now_us) == (Outcome::Reply(Reply::List(None)), st2, cleared(c))
        }),
{
    reveal_strlit("EXEC");
    reveal_strlit("MULTI");
    let k = c.watched[i].0;
    crate::store::laws::law_write_advances_version(st, k, v, exp);
    let st2 = st.stored(k, v, exp);
    assert(st2.version(c.watched[i].0) != c.watched[i].1);
    assert(watch_broken(st2, c.watched));
}

/// With every watched key still at its recorded version, EXEC runs the queued
/// commands in order and ends the transaction.
pub proof fn law_unwritten_watch_runs_exec(st: StoreView, c: ClientView, input: Reply, now_us: u64)
    requires
        forall|j: int| 0 <= j < c.watched.len() ==> st.version(#[trigger] c.watched[j].0) == c.watched[j].1,
        args_of(input) matches Some(a) && a.len() > 0 && upper_case(a[0]) == "EXEC"@,
    ensures
        ({
            let (rs, st2) = run_queue(st, c.queue, (now_us / 1000) as u64);
            client_outcome(st, c, input, now_us) == (Outcome::Reply(Reply::List(Some(rs))), st2, cleared(c))
        }),
{
    reveal_strlit("EXEC");
    reveal_strlit("MULTI");
}

} // verus!
