//! Snapshots: the live entries as one RESP value, with the milliseconds each
//! has left to live, and a store rebuilt from such a value.
use vstd::prelude::*;

use super::{Entry, EntryView, Store, StoreView, Value, ValueView, add_ms, is_live, ranked_view, text_pairs_view, value_ok,
    values_ok};
use super::keys::{kind_name, ttl_ms};
use super::hashes::{distinct_fields, names_distinct};
use super::sets::{distinct_texts, texts_distinct};
use super::zsets::{distinct_members, ranked, ranked_distinct};
use crate::resp::{Reply, RespValue, reply_of};
use crate::text::{copy_text, decimal_text, parse_u64, parsed_int, text, texts_view, u64_text};

verus! {

/// Names and values taken two by two.
pub open spec fn pairs_in(t: Seq<Seq<char>>) -> Seq<(Seq<char>, Seq<char>)> {
    Seq::new(t.len() / 2, |i: int| (t[2 * i], t[2 * i + 1]))
}

/// The texts that follow the key, type and time to live of a record.
pub open spec fn payload(v: ValueView) -> Seq<Seq<char>> {
    match v {
        ValueView::Str(s) => seq![s],
        ValueView::List(l) => l,
        ValueView::Hash(h) => Seq::new(2 * h.len(), |j: int| if j % 2 == 0 { h[j / 2].0 } else { h[j / 2].1 }),
        ValueView::Members(m) => m,
        ValueView::Ranked(z) => Seq::new(
            2 * z.len(),
            |j: int| if j % 2 == 0 { z[j / 2].0 } else { decimal_text(z[j / 2].1 as int) },
        ),
    }
}

/// The milliseconds an entry has left, -1 for one without expiry.
pub open spec fn time_left(e: EntryView, now: u64) -> int {
    match e.expires_at {
        None => -1,
        Some(t) => ttl_ms(t, now) as int,
    }
}

/// A record: key, type name, time left, then the payload, all bulk strings but
/// the time.
pub open spec fn record_of(e: EntryView, now: u64) -> Reply {
    Reply::List(
        Some(
            seq![Reply::Bulk(Some(e.key)), Reply::Bulk(Some(kind_name(Some(e.value)))), Reply::Number(time_left(e, now))]
                + payload(e.value).map_values(|s: Seq<char>| Reply::Bulk(Some(s))),
        ),
    )
}

/// The records of the live entries, in entry order.
pub open spec fn live_records(entries: Seq<EntryView>, now: u64) -> Seq<Reply>
    decreases entries.len(),
{
    if entries.len() == 0 {
        Seq::empty()
    } else {
        let prev = live_records(entries.drop_last(), now);
        if is_live(entries.last(), now) {
            prev.push(record_of(entries.last(), now))
        } else {
            prev
        }
    }
}

/// The snapshot of the store at time `now`.
pub open spec fn snapshot_of(st: StoreView, now: u64) -> Reply {
    Reply::List(Some(live_records(st.entries, now)))
}

/// The text of a bulk string item.
pub open spec fn bulk_text(r: Reply) -> Option<Seq<char>> {
    match r {
        Reply::Bulk(Some(s)) => Some(s),
        _ => None,
    }
}

/// The value a type name and payload stand for, if they make one of its
/// shape: a set needs distinct members, a hash distinct field names, and a
/// sorted set distinct members in rank order.
pub open spec fn value_from(kind: Seq<char>, t: Seq<Seq<char>>) -> Option<ValueView> {
    if kind == "string"@ {
        if t.len() == 1 {
            Some(ValueView::Str(t[0]))
        } else {
            None
        }
    } else if kind == "list"@ {
        Some(ValueView::List(t))
    } else if kind == "hash"@ {
        if t.len() % 2 == 0 && distinct_fields(pairs_in(t)) {
            Some(ValueView::Hash(pairs_in(t)))
        } else {
            None
        }
    } else if kind == "set"@ {
        if distinct_texts(t) {
            Some(ValueView::Members(t))
        } else {
            None
        }
    } else if kind == "zset"@ {
        if t.len() % 2 == 0 && forall|i: int| 0 <= i < t.len() / 2 ==> #[trigger] score_text(t[2 * i + 1]) is Some {
            let z = Seq::new(t.len() / 2, |i: int| (t[2 * i], score_text(t[2 * i + 1])->Some_0));
            if distinct_members(z) && ranked(z) {
                Some(ValueView::Ranked(z))
            } else {
                None
            }
        } else {
            None
        }
    } else {
        None
    }
}

/// A score key written in decimal.
pub open spec fn score_text(s: Seq<char>) -> Option<u64> {
    match parsed_int(s, false, 0, u64::MAX as int) {
        Some(v) => Some(v as u64),
        None => None,
    }
}

/// The entry a record stands for at time `now`, if the record has the shape
/// of one: a time left of -1 means no expiry.
pub open spec fn record_entry(r: Reply, now: u64) -> Option<EntryView> {
    match r {
        Reply::List(Some(f)) => if f.len() >= 3 && bulk_text(f[0]) is Some && bulk_text(f[1]) is Some && (
        f[2] matches Reply::Number(n) && n >= -1 && n <= u64::MAX) && forall|i: int|
            3 <= i < f.len() ==> #[trigger] bulk_text(f[i]) is Some {
            let t = f.skip(3).map_values(|x: Reply| bulk_text(x)->Some_0);
            let n = f[2]->Number_0;
            match value_from(bulk_text(f[1])->Some_0, t) {
                Some(v) => Some(
                    EntryView {
                        key: bulk_text(f[0])->Some_0,
                        value: v,
                        expires_at: if n == -1 { None } else { Some(add_ms(now, n as u64)) },
                    },
                ),
                None => None,
            }
        } else {
            None
        },
        _ => None,
    }
}

/// The store after storing, in order, the entry of each record that has one.
pub open spec fn restored(st: StoreView, rs: Seq<Reply>, now: u64) -> StoreView
    decreases rs.len(),
{
    if rs.len() == 0 {
        st
    } else {
        let s1 = restored(st, rs.drop_last(), now);
        match record_entry(rs.last(), now) {
            Some(e) => s1.stored(e.key, e.value, e.expires_at),
            None => s1,
        }
    }
}

/// The payload of `v` as bulk strings.
fn payload_items(v: &Value) -> (r: Vec<RespValue>)
    ensures
        r@.len() == payload(v@).len(),
        forall|j: int| 0 <= j < r@.len() ==> reply_of(#[trigger] r@[j]) == Reply::Bulk(Some(payload(v@)[j])),
{
    let mut out: Vec<RespValue> = Vec::new();
    match v {
        Value::Str(s) => {
            out.push(RespValue::BulkString(Some(copy_text(s))));
        },
        Value::List(l) | Value::Members(l) => {
            let mut i: usize = 0;
            while i < l.len()
                invariant
                    i <= l@.len(),
                    out@.len() == i,
                    forall|j: int| 0 <= j < i ==> reply_of(#[trigger] out@[j]) == Reply::Bulk(Some(l@[j]@)),
                decreases l@.len() - i,
            {
                out.push(RespValue::BulkString(Some(copy_text(&l[i]))));
                i = i + 1;
            }
            assert forall|j: int| 0 <= j < out@.len() implies reply_of(#[trigger] out@[j]) == Reply::Bulk(
                Some(payload(v@)[j]),
            ) by {
                assert(payload(v@)[j] == l@[j]@);
            }
        },
        Value::Hash(h) => {
            let ghost hv = text_pairs_view(h@);
            let mut i: usize = 0;
            while i < h.len()
                invariant
                    i <= h@.len(),
                    hv == text_pairs_view(h@),
                    out@.len() == 2 * i,
                    forall|j: int| 0 <= j < 2 * i ==> reply_of(#[trigger] out@[j]) == Reply::Bulk(
                        Some(if j % 2 == 0 { hv[j / 2].0 } else { hv[j / 2].1 }),
                    ),
                decreases h@.len() - i,
            {
                out.push(RespValue::BulkString(Some(copy_text(&h[i].0))));
                out.push(RespValue::BulkString(Some(copy_text(&h[i].1))));
                proof {
                    assert((2 * i) / 2 == i as int && (2 * i) % 2 == 0);
                    assert((2 * i + 1) / 2 == i as int && (2 * i + 1) % 2 == 1);
                }
                i = i + 1;
            }
        },
        Value::Ranked(z) => {
            let ghost zv = ranked_view(z@);
            let mut i: usize = 0;
            while i < z.len()
                invariant
                    i <= z@.len(),
                    zv == ranked_view(z@),
                    out@.len() == 2 * i,
                    forall|j: int| 0 <= j < 2 * i ==> reply_of(#[trigger] out@[j]) == Reply::Bulk(
                        Some(if j % 2 == 0 { zv[j / 2].0 } else { decimal_text(zv[j / 2].1 as int) }),
                    ),
                decreases z@.len() - i,
            {
                out.push(RespValue::BulkString(Some(copy_text(&z[i].0))));
                out.push(RespValue::BulkString(Some(u64_text(z[i].1))));
                proof {
                    assert((2 * i) / 2 == i as int && (2 * i) % 2 == 0);
                    assert((2 * i + 1) / 2 == i as int && (2 * i + 1) % 2 == 1);
                }
                i = i + 1;
            }
        },
    }
    out
}

/// The type name of `v`.
fn kind_text(v: &Value) -> (r: String)
    ensures
        r@ == kind_name(Some(v@)),
{
    match v {
        Value::Str(_) => text("string"),
        Value::List(_) => text("list"),
        Value::Hash(_) => text("hash"),
        Value::Members(_) => text("set"),
        Value::Ranked(_) => text("zset"),
    }
}

/// The record of the live entry `e`.
fn record(e: &Entry, now: u64) -> (r: RespValue)
    requires
        is_live(e@, now),
    ensures
        r@ == record_of(e@, now),
{
    let mut fields: Vec<RespValue> = Vec::new();
    fields.push(RespValue::BulkString(Some(copy_text(&e.key))));
    fields.push(RespValue::BulkString(Some(kind_text(&e.value))));
    let left: i64 = match e.expires_at {
        None => -1,
        Some(t) => if t - now > 9223372036854775807u64 {
            9223372036854775807i64
        } else {
            (t - now) as i64
        },
    };
    fields.push(RespValue::Integer(left));
    let items = payload_items(&e.value);
    let mut i: usize = 0;
    let ghost target = seq![
        Reply::Bulk(Some(e@.key)),
        Reply::Bulk(Some(kind_name(Some(e@.value)))),
        Reply::Number(time_left(e@, now)),
    ] + payload(e@.value).map_values(|s: Seq<char>| Reply::Bulk(Some(s)));
    while i < items.len()
        invariant
            i <= items@.len(),
            items@.len() == payload(e@.value).len(),
            forall|j: int| 0 <= j < items@.len() ==> reply_of(#[trigger] items@[j]) == Reply::Bulk(
                Some(payload(e@.value)[j]),
            ),
            target == seq![
                Reply::Bulk(Some(e@.key)),
                Reply::Bulk(Some(kind_name(Some(e@.value)))),
                Reply::Number(time_left(e@, now)),
            ] + payload(e@.value).map_values(|s: Seq<char>| Reply::Bulk(Some(s))),
            fields@.len() == 3 + i,
            forall|j: int| 0 <= j < 3 + i ==> reply_of(#[trigger] fields@[j]) == target[j],
        decreases items@.len() - i,
    {
        let item = match &items[i] {
            RespValue::BulkString(Some(s)) => RespValue::BulkString(Some(copy_text(s))),
            _ => RespValue::BulkString(None),
        };
        assert(reply_of(item) == reply_of(items@[i as int]));
        fields.push(item);
        i = i + 1;
    }
    proof {
        crate::cmd::reply::lemma_array_view(fields, target);
    }
    RespValue::Array(Some(fields))
}

/// The text of a bulk string item.
fn item_text(r: &RespValue) -> (t: Option<String>)
    ensures
        match t {
            Some(s) => bulk_text(r@) == Some(s@),
            None => bulk_text(r@) is None,
        },
{
    match r {
        RespValue::BulkString(Some(s)) => Some(copy_text(s)),
        _ => None,
    }
}

/// The value that `kind` and the texts `t` stand for.
fn value_of_texts(kind: &str, t: Vec<String>) -> (r: Option<Value>)
    ensures
        match r {
            Some(v) => value_from(kind@, texts_view(t@)) == Some(v@),
            None => value_from(kind@, texts_view(t@)) is None,
        },
{
    let ghost tv = texts_view(t@);
    if crate::text::text_eq(kind, "string") {
        if t.len() == 1 {
            Some(Value::Str(copy_text(&t[0])))
        } else {
            None
        }
    } else if crate::text::text_eq(kind, "list") {
        Some(Value::List(t))
    } else if crate::text::text_eq(kind, "hash") {
        if t.len() % 2 != 0 {
            return None;
        }
        let mut h: Vec<(String, String)> = Vec::new();
        let mut i: usize = 0;
        while i < t.len() / 2
            invariant
                t@.len() % 2 == 0,
                tv == texts_view(t@),
                i <= t@.len() / 2,
                h@.len() == i,
                forall|j: int| 0 <= j < i ==> (#[trigger] text_pairs_view(h@)[j]) == pairs_in(tv)[j],
            decreases t@.len() / 2 - i,
        {
            let ghost before = h@;
            let a = copy_text(&t[2 * i]);
            let b = copy_text(&t[2 * i + 1]);
            h.push((a, b));
            proof {
                assert(tv[2 * i] == t@[2 * i]@);
                assert(tv[2 * i + 1] == t@[2 * i + 1]@);
                assert(text_pairs_view(h@) =~= text_pairs_view(before).push((a@, b@)));
            }
            i = i + 1;
        }
        assert(text_pairs_view(h@) =~= pairs_in(tv));
        if names_distinct(&h) {
            Some(Value::Hash(h))
        } else {
            None
        }
    } else if crate::text::text_eq(kind, "set") {
        if texts_distinct(&t) {
            Some(Value::Members(t))
        } else {
            None
        }
    } else if crate::text::text_eq(kind, "zset") {
        if t.len() % 2 != 0 {
            return None;
        }
        let mut z: Vec<(String, u64)> = Vec::new();
        let mut i: usize = 0;
        while i < t.len() / 2
            invariant
                t@.len() % 2 == 0,
                tv == texts_view(t@),
                i <= t@.len() / 2,
                z@.len() == i,
                kind@ == "zset"@,
                kind@ != "string"@ && kind@ != "list"@ && kind@ != "hash"@ && kind@ != "set"@,
                forall|j: int| 0 <= j < i ==> #[trigger] score_text(tv[2 * j + 1]) is Some,
                forall|j: int| 0 <= j < i ==> (#[trigger] ranked_view(z@)[j]) == (
                tv[2 * j],
                score_text(tv[2 * j + 1])->Some_0,
                ),
            decreases t@.len() / 2 - i,
        {
            assert(tv[2 * i] == t@[2 * i]@);
            assert(tv[2 * i + 1] == t@[2 * i + 1]@);
            let s = match parse_u64(t[2 * i + 1].as_str()) {
                Some(s) => s,
                None => {
                    assert(score_text(tv[2 * i + 1]) is None);
                    assert(!(forall|j: int| 0 <= j < tv.len() / 2 ==> #[trigger] score_text(tv[2 * j + 1]) is Some));
                    return None;
                },
            };
            let ghost before = z@;
            let m = copy_text(&t[2 * i]);
            z.push((m, s));
            assert(ranked_view(z@) =~= ranked_view(before).push((m@, s)));
            i = i + 1;
        }
        assert(ranked_view(z@) =~= Seq::new(
            tv.len() / 2,
            |i: int| (tv[2 * i], score_text(tv[2 * i + 1])->Some_0),
        ));
        if ranked_distinct(&z) {
            Some(Value::Ranked(z))
        } else {
            None
        }
    } else {
        None
    }
}

/// The entry that the record `r` stands for at time `now`.
fn entry_of_record(r: &RespValue, now: u64) -> (e: Option<Entry>)
    ensures
        match e {
            Some(e) => record_entry(r@, now) == Some(e@),
            None => record_entry(r@, now) is None,
        },
{
    let f = match r {
        RespValue::Array(Some(f)) => f,
        _ => {
            return None;
        },
    };
    let ghost fv = Seq::new(f@.len(), |i: int| reply_of(f@[i]));
    assert(r@ == Reply::List(Some(fv))) by {
        let got = r@;
        assert(got matches Reply::List(Some(s)) && s =~= fv);
    }
    if f.len() < 3 {
        return None;
    }
    let key = match item_text(&f[0]) {
        Some(k) => k,
        None => {
            return None;
        },
    };
    let kind = match item_text(&f[1]) {
        Some(k) => k,
        None => {
            return None;
        },
    };
    let n = match &f[2] {
        RespValue::Integer(n) => *n,
        _ => {
            return None;
        },
    };
    if n < -1 {
        return None;
    }
    let mut t: Vec<String> = Vec::new();
    let mut i: usize = 3;
    while i < f.len()
        invariant
            3 <= i <= f@.len(),
            fv == Seq::new(f@.len(), |i: int| reply_of(f@[i])),
            r@ == Reply::List(Some(fv)),
            forall|j: int| 3 <= j < i ==> #[trigger] bulk_text(fv[j]) is Some,
            texts_view(t@) == fv.subrange(3, i as int).map_values(|x: Reply| bulk_text(x)->Some_0),
        decreases f@.len() - i,
    {
        let s = match item_text(&f[i]) {
            Some(s) => s,
            None => {
                return None;
            },
        };
        let ghost before = t@;
        t.push(s);
        proof {
            crate::text::lemma_texts_push(before, s);
            assert(fv.subrange(3, i as int + 1).map_values(|x: Reply| bulk_text(x)->Some_0) =~= fv.subrange(
                3,
                i as int,
            ).map_values(|x: Reply| bulk_text(x)->Some_0).push(bulk_text(fv[i as int])->Some_0));
        }
        i = i + 1;
    }
    assert(fv.subrange(3, fv.len() as int) =~= fv.skip(3));
    let value = match value_of_texts(kind.as_str(), t) {
        Some(v) => v,
        None => {
            return None;
        },
    };
    let expires_at = if n == -1 {
        None
    } else {
        let m = n as u64;
        Some(if now > u64::MAX - m { u64::MAX } else { now + m })
    };
    Some(Entry { key, value, expires_at })
}

impl Store {
    /// The snapshot of the live entries at time `now`.
    pub fn snapshot(&self, now: u64) -> (r: RespValue)
        ensures
            r@ == snapshot_of(self@, now),
    {
        let ghost es = self@.entries;
        let mut out: Vec<RespValue> = Vec::new();
        let ghost mut rs: Seq<Reply> = Seq::empty();
        let mut i: usize = 0;
        while i < self.entries.len()
            invariant
                i <= es.len(),
                es == self@.entries,
                rs == live_records(es.take(i as int), now),
                out@.len() == rs.len(),
                forall|j: int| 0 <= j < rs.len() ==> reply_of(#[trigger] out@[j]) == rs[j],
            decreases es.len() - i,
        {
            let e = &self.entries[i];
            proof {
                let t = es.take(i as int + 1);
                assert(t.drop_last() =~= es.take(i as int));
                assert(t.last() == e@);
            }
            let live = match e.expires_at {
                None => true,
                Some(t) => now < t,
            };
            if live {
                let rec = record(e, now);
                proof {
                    rs = rs.push(rec@);
                }
                out.push(rec);
            }
            i = i + 1;
        }
        assert(es.take(es.len() as int) =~= es);
        proof {
            crate::cmd::reply::lemma_array_view(out, rs);
        }
        RespValue::Array(Some(out))
    }

    /// Stores, in order, the entry of each record of `snapshot` that has one
    /// (expiry counted from `now`); a snapshot that is not an array changes
    /// nothing.
    pub fn restore(&mut self, snapshot: &RespValue, now: u64)
        ensures
            match snapshot@ {
                Reply::List(Some(rs)) => final(self)@ == restored(old(self)@, rs, now),
                _ => final(self)@ == old(self)@,
            },
            old(self)@.wf() ==> final(self)@.wf(),
    {
        let records = match snapshot {
            RespValue::Array(Some(rs)) => rs,
            _ => {
                return;
            },
        };
        let ghost rv = Seq::new(records@.len(), |i: int| reply_of(records@[i]));
        assert(snapshot@ == Reply::List(Some(rv))) by {
            let got = snapshot@;
            assert(got matches Reply::List(Some(s)) && s =~= rv);
        }
        let mut i: usize = 0;
        while i < records.len()
            invariant
                i <= records@.len(),
                rv == Seq::new(records@.len(), |i: int| reply_of(records@[i])),
                self@ == restored(old(self)@, rv.take(i as int), now),
                old(self)@.wf() ==> self@.wf(),
            decreases records@.len() - i,
        {
            proof {
                let t = rv.take(i as int + 1);
                assert(t.drop_last() =~= rv.take(i as int));
                assert(t.last() == rv[i as int]);
            }
            if let Some(e) = entry_of_record(&records[i], now) {
                self.store_entry(e);
            }
            i = i + 1;
        }
        assert(rv.take(rv.len() as int) =~= rv);
    }
}

/// The last live entry for `k` among `es`, if there is one.
pub open spec fn latest_live(es: Seq<EntryView>, k: Seq<char>, now: u64) -> Option<EntryView>
    decreases es.len(),
{
    if es.len() == 0 {
        None
    } else if es.last().key == k && is_live(es.last(), now) {
        Some(es.last())
    } else {
        latest_live(es.drop_last(), k, now)
    }
}

/// The expiry that an entry saved at `now` with expiry `exp` gets when it is
/// restored at `later`: `later` plus the milliseconds it had left.
pub open spec fn moved_expiry(exp: Option<u64>, now: u64, later: u64) -> Option<u64> {
    match exp {
        None => None,
        Some(t) => Some(add_ms(later, ttl_ms(t, now) as u64)),
    }
}

/// Entry `e`, saved at `now`, as restored at `later`.
pub open spec fn moved_entry(e: EntryView, now: u64, later: u64) -> EntryView {
    EntryView { key: e.key, value: e.value, expires_at: moved_expiry(e.expires_at, now, later) }
}

proof fn lemma_score_text(k: u64)
    ensures
        score_text(decimal_text(k as int)) == Some(k),
{
    super::laws::lemma_digits(k as nat);
}

/// The type names differ from each other.
proof fn lemma_kind_names_differ()
    ensures
        "string"@ != "list"@,
        "string"@ != "hash"@,
        "string"@ != "set"@,
        "string"@ != "zset"@,
        "list"@ != "hash"@,
        "list"@ != "set"@,
        "list"@ != "zset"@,
        "hash"@ != "set"@,
        "hash"@ != "zset"@,
        "set"@ != "zset"@,
{
    reveal_strlit("string");
    reveal_strlit("list");
    reveal_strlit("hash");
    reveal_strlit("set");
    reveal_strlit("zset");
    assert("string"@.len() == 6 && "list"@.len() == 4 && "hash"@.len() == 4 && "set"@.len() == 3
        && "zset"@.len() == 4);
    assert("list"@[0] == 'l' && "hash"@[0] == 'h' && "zset"@[0] == 'z');
}

/// A live entry's record, read back at `later`, stands for the entry with the
/// time it had left counted from `later`; that entry is live at `later`.
proof fn lemma_record_entry(e: EntryView, now: u64, later: u64)
    requires
        is_live(e, now),
        value_ok(e.value),
        later < u64::MAX || later <= now,
    ensures
        record_entry(record_of(e, now), later) == Some(moved_entry(e, now, later)),
        is_live(moved_entry(e, now, later), later),
{
    lemma_kind_names_differ();
    let r = record_of(e, now);
    let p = payload(e.value);
    let f = seq![Reply::Bulk(Some(e.key)), Reply::Bulk(Some(kind_name(Some(e.value)))), Reply::Number(time_left(e, now))]
        + p.map_values(|s: Seq<char>| Reply::Bulk(Some(s)));
    assert(r == Reply::List(Some(f)));
    assert forall|i: int| 3 <= i < f.len() implies #[trigger] bulk_text(f[i]) is Some by {
        assert(f[i] == Reply::Bulk(Some(p[i - 3])));
    }
    let t = f.skip(3).map_values(|x: Reply| bulk_text(x)->Some_0);
    assert(t =~= p);
    assert(f.len() >= 3);
    assert(bulk_text(f[0]) == Some(e.key));
    assert(bulk_text(f[1]) == Some(kind_name(Some(e.value))));
    assert(f[2] == Reply::Number(time_left(e, now)));
    assert(-1 <= time_left(e, now) <= i64::MAX);
    match e.value {
        ValueView::Hash(h) => {
            assert(kind_name(Some(e.value)) == "hash"@);
            assert(p.len() % 2 == 0);
            assert(pairs_in(p) =~= h) by {
                assert forall|i: int| 0 <= i < h.len() implies #[trigger] pairs_in(p)[i] == h[i] by {
                    assert((2 * i) % 2 == 0 && (2 * i) / 2 == i);
                    assert((2 * i + 1) % 2 == 1 && (2 * i + 1) / 2 == i);
                }
            }
        },
        ValueView::Ranked(z) => {
            assert forall|i: int| 0 <= i < p.len() / 2 implies #[trigger] score_text(p[2 * i + 1]) is Some by {
                assert((2 * i + 1) % 2 == 1 && (2 * i + 1) / 2 == i);
                lemma_score_text(z[i].1);
            }
            let zz = Seq::new(p.len() / 2, |i: int| (p[2 * i], score_text(p[2 * i + 1])->Some_0));
            assert(zz =~= z) by {
                assert forall|i: int| 0 <= i < z.len() implies #[trigger] zz[i] == z[i] by {
                    assert((2 * i) % 2 == 0 && (2 * i) / 2 == i);
                    assert((2 * i + 1) % 2 == 1 && (2 * i + 1) / 2 == i);
                    lemma_score_text(z[i].1);
                }
            }
        },
        _ => {},
    }
}

/// Restoring at `later` the records saved at `now` leaves, for each key, its
/// last live entry, moved to `later`.
proof fn lemma_restored(b0: StoreView, es: Seq<EntryView>, k: Seq<char>, now: u64, later: u64)
    requires
        later < u64::MAX || later <= now,
        values_ok(es),
    ensures
        restored(b0, live_records(es, now), later).lookup(k, later) == match latest_live(es, k, now) {
            Some(e) => Some(moved_entry(e, now, later)),
            None => b0.lookup(k, later),
        },
    decreases es.len(),
{
    if es.len() > 0 {
        let e = es.last();
        let prev = live_records(es.drop_last(), now);
        assert(values_ok(es.drop_last())) by {
            assert forall|i: int| 0 <= i < es.len() - 1 implies value_ok(#[trigger] es.drop_last()[i].value) by {
                assert(es.drop_last()[i] == es[i]);
            }
        }
        assert(value_ok(es[es.len() - 1].value));
        lemma_restored(b0, es.drop_last(), k, now, later);
        if is_live(e, now) {
            let rs = prev.push(record_of(e, now));
            assert(rs.drop_last() =~= prev);
            lemma_record_entry(e, now, later);
            let e2 = moved_entry(e, now, later);
            let s1 = restored(b0, prev, later);
            super::lemma_with_entry_lookup(s1, e2, k, later);
        }
    }
}

/// With distinct keys, the last live entry for `k` is its live entry.
proof fn lemma_latest_live(st: StoreView, k: Seq<char>, now: u64)
    requires
        super::keys_distinct(st.entries),
    ensures
        latest_live(st.entries, k, now) == st.lookup(k, now),
{
    lemma_latest_live_in(st.entries, k, now);
    super::lemma_key_pos(st.entries, k);
}

proof fn lemma_latest_live_in(es: Seq<EntryView>, k: Seq<char>, now: u64)
    requires
        super::keys_distinct(es),
    ensures
        latest_live(es, k, now) == (if 0 <= super::key_pos(es, k) && is_live(es[super::key_pos(es, k)], now) {
            Some(es[super::key_pos(es, k)])
        } else {
            None
        }),
    decreases es.len(),
{
    if es.len() > 0 {
        let d = es.drop_last();
        assert(super::keys_distinct(d)) by {
            assert forall|a: int, b: int| 0 <= a < b < d.len() implies #[trigger] d[a].key != #[trigger] d[b].key by {
                assert(d[a] == es[a] && d[b] == es[b]);
            }
        }
        lemma_latest_live_in(d, k, now);
        super::lemma_key_pos(d, k);
        if es.last().key == k {
            if !is_live(es.last(), now) {
                let j = super::key_pos(d, k);
                if 0 <= j {
                    assert(d[j] == es[j]);
                    assert(es[j].key != es[es.len() - 1].key);
                }
            }
        } else {
            let j = super::key_pos(d, k);
            if 0 <= j {
                assert(d[j] == es[j]);
            }
        }
    }
}

/// What a snapshot taken at `now` restores at `later`: every key that was
/// live at `now` has its value again, with the milliseconds it had left
/// counted from `later`; every other key keeps what the store restored into
/// had. (Restored at the largest time, an entry with an expiry would be
/// expired at once, so that time is left out unless it is `now` itself.)
pub proof fn law_snapshot_restores(st: StoreView, b0: StoreView, k: Seq<char>, now: u64, later: u64)
    requires
        st.wf(),
        later < u64::MAX || later <= now,
    ensures
        ({
            let back = restored(b0, live_records(st.entries, now), later);
            match st.lookup(k, now) {
                Some(e) => back.value_of(k, later) == Some(e.value) && back.expiry_of(k, later) == moved_expiry(
                    e.expires_at,
                    now,
                    later,
                ),
                None => back.lookup(k, later) == b0.lookup(k, later),
            }
        }),
{
    lemma_restored(b0, st.entries, k, now, later);
    lemma_latest_live(st, k, now);
}

} // verus!
