//! Operations on keys: existence, deletion, listing, types, expiry, renaming.
use vstd::prelude::*;

use super::{Entry, EntryView, Store, StoreError, StoreView, Value, ValueView, add_ms, is_live, keys_distinct, secs_to_ms};
use super::strings::{later, secs_ms};
use crate::text::{copy_text, glob, glob_match, text_eq, texts_view};

verus! {

/// The store after `del(ks)`: each live key deleted in turn, with the count.
pub open spec fn del_all(st: StoreView, ks: Seq<Seq<char>>, now: u64) -> (StoreView, int)
    decreases ks.len(),
{
    if ks.len() == 0 {
        (st, 0)
    } else {
        let (s1, n) = del_all(st, ks.drop_last(), now);
        if s1.lookup(ks.last(), now) is Some {
            (s1.deleted(ks.last()), n + 1)
        } else {
            (s1, n)
        }
    }
}

/// The live keys of `entries` that match `pattern`, in entry order.
pub open spec fn live_keys(entries: Seq<EntryView>, pattern: Seq<char>, now: u64) -> Seq<Seq<char>>
    decreases entries.len(),
{
    if entries.len() == 0 {
        Seq::empty()
    } else {
        let prev = live_keys(entries.drop_last(), pattern, now);
        let e = entries.last();
        if is_live(e, now) && glob(pattern, e.key) {
            prev.push(e.key)
        } else {
            prev
        }
    }
}

/// The number of live entries.
pub open spec fn live_count(entries: Seq<EntryView>, now: u64) -> nat
    decreases entries.len(),
{
    if entries.len() == 0 {
        0
    } else {
        live_count(entries.drop_last(), now) + if is_live(entries.last(), now) {
            1nat
        } else {
            0nat
        }
    }
}

/// The name of the type of a (live) value.
pub open spec fn kind_name(v: Option<ValueView>) -> Seq<char> {
    match v {
        None => "none"@,
        Some(ValueView::Str(_)) => "string"@,
        Some(ValueView::List(_)) => "list"@,
        Some(ValueView::Hash(_)) => "hash"@,
        Some(ValueView::Members(_)) => "set"@,
        Some(ValueView::Ranked(_)) => "zset"@,
    }
}

/// Writes to each of `ks` in turn.
pub open spec fn touch_all(st: StoreView, ks: Seq<Seq<char>>) -> StoreView
    decreases ks.len(),
{
    if ks.len() == 0 {
        st
    } else {
        touch_all(st, ks.drop_last()).touched(ks.last())
    }
}

impl StoreView {
    /// The store with the entry in slot `i` given expiry `exp`, as a write.
    pub open spec fn reexpired(self, i: int, exp: Option<u64>) -> StoreView {
        let e = self.entries[i];
        self.with_entry(EntryView { expires_at: exp, ..e }).touched(e.key)
    }

    /// Every entry removed, each key that had one counted as written.
    pub open spec fn flushed(self) -> StoreView {
        StoreView {
            entries: Seq::empty(),
            ..touch_all(self, self.entries.map_values(|e: EntryView| e.key))
        }
    }
}

/// Remaining time to live in seconds, rounded to the nearest second.
pub open spec fn ttl_secs(t: u64, now: u64) -> i64 {
    let d = t - now;
    (d / 1000 + if d % 1000 >= 500 {
        1int
    } else {
        0int
    }) as i64
}

/// Remaining time to live in milliseconds, capped at the largest `i64`.
pub open spec fn ttl_ms(t: u64, now: u64) -> i64 {
    if t - now > i64::MAX {
        i64::MAX
    } else {
        (t - now) as i64
    }
}

impl Store {
    /// Whether `key` has a live entry.
    pub fn key_exists(&self, key: &str, now: u64) -> (r: bool)
        ensures
            r == (self@.lookup(key@, now) is Some),
    {
        self.find_live(key, now).is_some()
    }

    /// Deletes each live key of `keys`; returns how many were deleted.
    pub fn del(&mut self, keys: Vec<&str>, now: u64) -> (r: i64)
        ensures
            final(self)@ == del_all(old(self)@, keys@.map_values(|k: &str| k@), now).0,
            r == del_all(old(self)@, keys@.map_values(|k: &str| k@), now).1 as i64,
            old(self)@.wf() ==> final(self)@.wf(),
    {
        let ghost ks = keys@.map_values(|k: &str| k@);
        let mut n: usize = 0;
        let mut i: usize = 0;
        assert(ks.take(0) =~= Seq::<Seq<char>>::empty());
        while i < keys.len()
            invariant
                i <= keys@.len(),
                ks == keys@.map_values(|k: &str| k@),
                (self@, n as int) == del_all(old(self)@, ks.take(i as int), now),
                0 <= n <= i,
                old(self)@.wf() ==> self@.wf(),
            decreases keys@.len() - i,
        {
            proof {
                let t = ks.take(i as int + 1);
                assert(t.drop_last() =~= ks.take(i as int));
                assert(t.last() == keys@[i as int]@);
            }
            let k = keys[i];
            match self.find_live(k, now) {
                Some(slot) => {
                    proof {
                        super::lemma_key_pos(self@.entries, k@);
                    }
                    self.remove_slot(slot);
                    n = n + 1;
                },
                None => {},
            }
            i = i + 1;
        }
        assert(ks.take(keys@.len() as int) =~= ks);
        n as i64
    }

    /// The live keys matching the glob `pattern`, in insertion order.
    pub fn keys(&self, pattern: &str, now: u64) -> (r: Vec<String>)
        ensures
            texts_view(r@) == live_keys(self@.entries, pattern@, now),
    {
        let ghost es = self@.entries;
        let mut r: Vec<String> = Vec::new();
        let mut i: usize = 0;
        assert(texts_view(r@) =~= live_keys(es.take(0), pattern@, now));
        while i < self.entries.len()
            invariant
                i <= es.len(),
                es == self@.entries,
                texts_view(r@) == live_keys(es.take(i as int), pattern@, now),
            decreases es.len() - i,
        {
            let e = &self.entries[i];
            proof {
                let t = es.take(i as int + 1);
                assert(t.drop_last() =~= es.take(i as int));
                assert(t.last() == e@);
            }
            let live = match e.expires_at {
                None => true,
                Some(t) => now < t,
            };
            if live && glob_match(pattern, e.key.as_str()) {
                let ghost before = r@;
                r.push(copy_text(&e.key));
                assert(texts_view(r@) =~= texts_view(before).push(e@.key));
            }
            i = i + 1;
        }
        assert(es.take(es.len() as int) =~= es);
        r
    }

    /// The type name of the value at `key`: string, list, hash, set, zset or none.
    pub fn type_of(&self, key: &str, now: u64) -> (r: &'static str)
        ensures
            r@ == kind_name(self@.value_of(key@, now)),
    {
        match self.find_live(key, now) {
            Some(i) => match &self.entries[i].value {
                Value::Str(_) => "string",
                Value::List(_) => "list",
                Value::Hash(_) => "hash",
                Value::Members(_) => "set",
                Value::Ranked(_) => "zset",
            },
            None => "none",
        }
    }

    fn set_expiry(&mut self, key: &str, exp: Option<u64>, now: u64) -> (r: i64)
        ensures
            match old(self)@.lookup(key@, now) {
                Some(e) => r == 1 && final(self)@ == old(self)@.reexpired(old(self)@.slot(key@), exp),
                None => r == 0 && final(self)@ == old(self)@,
            },
            old(self)@.wf() ==> final(self)@.wf(),
    {
        match self.find_live(key, now) {
            Some(i) => {
                let e = &self.entries[i];
                let ne = Entry { key: copy_text(&e.key), value: super::clone_value(&e.value), expires_at: exp };
                self.store_entry(ne);
                1
            },
            None => 0,
        }
    }

    /// Gives the live `key` an expiry `secs` seconds after `now`: 1 if it exists.
    pub fn expire(&mut self, key: &str, secs: u64, now: u64) -> (r: i64)
        ensures
            match old(self)@.lookup(key@, now) {
                Some(e) => r == 1 && final(self)@ == old(self)@.reexpired(
                    old(self)@.slot(key@),
                    Some(add_ms(now, secs_to_ms(secs))),
                ),
                None => r == 0 && final(self)@ == old(self)@,
            },
            old(self)@.wf() ==> final(self)@.wf(),
    {
        let at = later(now, secs_ms(secs));
        self.set_expiry(key, Some(at), now)
    }

    /// Gives the live `key` an expiry `ms` milliseconds after `now`: 1 if it exists.
    pub fn pexpire(&mut self, key: &str, ms: u64, now: u64) -> (r: i64)
        ensures
            match old(self)@.lookup(key@, now) {
                Some(e) => r == 1 && final(self)@ == old(self)@.reexpired(old(self)@.slot(key@), Some(add_ms(now, ms))),
                None => r == 0 && final(self)@ == old(self)@,
            },
            old(self)@.wf() ==> final(self)@.wf(),
    {
        let at = later(now, ms);
        self.set_expiry(key, Some(at), now)
    }

    /// Removes the expiry of the live `key`: 1 if it had one.
    pub fn persist(&mut self, key: &str, now: u64) -> (r: i64)
        ensures
            match old(self)@.lookup(key@, now) {
                Some(e) => if e.expires_at is Some {
                    r == 1 && final(self)@ == old(self)@.reexpired(old(self)@.slot(key@), None)
                } else {
                    r == 0 && final(self)@ == old(self)@
                },
                None => r == 0 && final(self)@ == old(self)@,
            },
            old(self)@.wf() ==> final(self)@.wf(),
    {
        match self.find_live(key, now) {
            Some(i) => {
                if self.entries[i].expires_at.is_some() {
                    self.set_expiry(key, None, now)
                } else {
                    0
                }
            },
            None => 0,
        }
    }

    /// Seconds left to live: -2 for an absent key, -1 for a key without expiry.
    pub fn ttl(&self, key: &str, now: u64) -> (r: i64)
        ensures
            r == match self@.lookup(key@, now) {
                None => -2i64,
                Some(e) => match e.expires_at {
                    None => -1i64,
                    Some(t) => ttl_secs(t, now),
                },
            },
    {
        match self.find_live(key, now) {
            Some(i) => match self.entries[i].expires_at {
                None => -1,
                Some(t) => {
                    let d = t - now;
                    let q: u64 = d / 1000 + if d % 1000 >= 500 { 1 } else { 0 };
                    q as i64
                },
            },
            None => -2,
        }
    }

    /// Milliseconds left to live: -2 for an absent key, -1 for a key without expiry.
    pub fn pttl(&self, key: &str, now: u64) -> (r: i64)
        ensures
            r == match self@.lookup(key@, now) {
                None => -2i64,
                Some(e) => match e.expires_at {
                    None => -1i64,
                    Some(t) => ttl_ms(t, now),
                },
            },
    {
        match self.find_live(key, now) {
            Some(i) => match self.entries[i].expires_at {
                None => -1,
                Some(t) => {
                    let d = t - now;
                    if d > i64::MAX as u64 {
                        i64::MAX
                    } else {
                        d as i64
                    }
                },
            },
            None => -2,
        }
    }

    /// Moves the value and expiry of `from` to `to`, replacing what `to` held.
    pub fn rename(&mut self, from: &str, to: &str, now: u64) -> (r: Result<(), StoreError>)
        ensures
            match old(self)@.lookup(from@, now) {
                None => r == Err::<(), StoreError>(StoreError::NoSuchKey) && final(self)@ == old(self)@,
                Some(e) => r is Ok && if from@ == to@ {
                    final(self)@ == old(self)@
                } else {
                    final(self)@ == old(self)@.deleted(from@).stored(to@, e.value, e.expires_at)
                },
            },
            old(self)@.wf() ==> final(self)@.wf(),
    {
        match self.find_live(from, now) {
            None => Err(StoreError::NoSuchKey),
            Some(i) => {
                if text_eq(from, to) {
                    return Ok(());
                }
                proof {
                    super::lemma_key_pos(self@.entries, from@);
                }
                let e = self.remove_slot(i);
                self.store_entry(Entry { key: to.to_owned(), value: e.value, expires_at: e.expires_at });
                Ok(())
            },
        }
    }

    /// The number of live keys.
    pub fn dbsize(&self, now: u64) -> (r: usize)
        ensures
            r == live_count(self@.entries, now),
    {
        let ghost es = self@.entries;
        let mut n: usize = 0;
        let mut i: usize = 0;
        while i < self.entries.len()
            invariant
                i <= es.len(),
                es == self@.entries,
                n == live_count(es.take(i as int), now),
                n <= i,
            decreases es.len() - i,
        {
            let e = &self.entries[i];
            proof {
                let t = es.take(i as int + 1);
                assert(t.drop_last() =~= es.take(i as int));
                assert(t.last() == e@);
            }
            let live = match e.expires_at {
                None => true,
                Some(t) => now < t,
            };
            if live {
                n = n + 1;
            }
            i = i + 1;
        }
        assert(es.take(es.len() as int) =~= es);
        n
    }

    /// Removes every entry; each key that had one counts as written.
    pub fn flushdb(&mut self)
        ensures
            final(self)@ == old(self)@.flushed(),
            old(self)@.wf() ==> final(self)@.wf(),
    {
        let ghost ks = old(self)@.entries.map_values(|e: EntryView| e.key);
        let mut i: usize = 0;
        assert(ks.take(0) =~= Seq::<Seq<char>>::empty());
        while i < self.entries.len()
            invariant
                i <= self@.entries.len(),
                self@.entries == old(self)@.entries,
                ks == old(self)@.entries.map_values(|e: EntryView| e.key),
                self@ == touch_all(old(self)@, ks.take(i as int)),
                old(self)@.wf() ==> self@.wf(),
            decreases self@.entries.len() - i,
        {
            proof {
                let t = ks.take(i as int + 1);
                assert(t.drop_last() =~= ks.take(i as int));
                assert(t.last() == ks[i as int]);
            }
            let k = copy_text(&self.entries[i].key);
            self.touch(k.as_str());
            i = i + 1;
        }
        assert(ks.take(ks.len() as int) =~= ks);
        let ghost pre = self@;
        self.entries = Vec::new();
        assert(self@.entries =~= Seq::<EntryView>::empty());
        assert(self@.versions == pre.versions && self@.clock == pre.clock);
    }
}

/// The entries that are live at `now`, in order.
pub open spec fn live_only(entries: Seq<EntryView>, now: u64) -> Seq<EntryView>
    decreases entries.len(),
{
    if entries.len() == 0 {
        Seq::empty()
    } else {
        let prev = live_only(entries.drop_last(), now);
        if is_live(entries.last(), now) {
            prev.push(entries.last())
        } else {
            prev
        }
    }
}

proof fn lemma_live_only_from(entries: Seq<EntryView>, now: u64)
    ensures
        forall|j: int| 0 <= j < live_only(entries, now).len() ==> exists|i: int| 0 <= i < entries.len() && #[trigger] live_only(entries, now)[j] == entries[i],
        live_only(entries, now).len() <= entries.len(),
    decreases entries.len(),
{
    if entries.len() > 0 {
        lemma_live_only_from(entries.drop_last(), now);
        let prev = live_only(entries.drop_last(), now);
        assert forall|j: int| 0 <= j < live_only(entries, now).len() implies exists|i: int|
            0 <= i < entries.len() && #[trigger] live_only(entries, now)[j] == entries[i] by {
            if j < prev.len() {
                let i = choose|i: int| 0 <= i < entries.drop_last().len() && prev[j] == entries.drop_last()[i];
                assert(entries[i] == entries.drop_last()[i]);
            } else {
                assert(live_only(entries, now)[j] == entries[entries.len() - 1]);
            }
        }
    }
}

proof fn lemma_live_only_distinct(entries: Seq<EntryView>, now: u64)
    requires
        keys_distinct(entries),
    ensures
        keys_distinct(live_only(entries, now)),
    decreases entries.len(),
{
    if entries.len() > 0 {
        let d = entries.drop_last();
        assert(keys_distinct(d)) by {
            assert forall|a: int, b: int| 0 <= a < b < d.len() implies #[trigger] d[a].key != #[trigger] d[b].key by {
                assert(d[a] == entries[a] && d[b] == entries[b]);
            }
        }
        lemma_live_only_distinct(d, now);
        lemma_live_only_from(d, now);
        let prev = live_only(d, now);
        let s = live_only(entries, now);
        if is_live(entries.last(), now) {
            assert forall|a: int, b: int| 0 <= a < b < s.len() implies #[trigger] s[a].key != #[trigger] s[b].key by {
                if b == prev.len() {
                    let i = choose|i: int| 0 <= i < d.len() && prev[a] == d[i];
                    assert(d[i] == entries[i]);
                    assert(entries[i].key != entries[entries.len() - 1].key);
                } else {
                    assert(s[a] == prev[a] && s[b] == prev[b]);
                }
            }
        }
    }
}

impl Store {
    /// Drops the entries whose time has come; nothing else changes.
    pub fn purge_expired(&mut self, now: u64)
        ensures
            final(self)@ == (StoreView { entries: live_only(old(self)@.entries, now), ..old(self)@ }),
            old(self)@.wf() ==> final(self)@.wf(),
    {
        let ghost es = self@.entries;
        let mut kept: Vec<Entry> = Vec::new();
        let mut i: usize = 0;
        while i < self.entries.len()
            invariant
                i <= es.len(),
                es == self@.entries,
                self@ == old(self)@,
                super::entries_view(kept@) == live_only(es.take(i as int), now),
            decreases es.len() - i,
        {
            let e = &self.entries[i];
            proof {
                let t = es.take(i as int + 1);
                assert(t.drop_last() =~= es.take(i as int));
                assert(t.last() == e@);
            }
            let live = match e.expires_at {
                None => true,
                Some(t) => now < t,
            };
            if live {
                let ghost before = kept@;
                let copy = Entry { key: copy_text(&e.key), value: super::clone_value(&e.value), expires_at: e.expires_at };
                kept.push(copy);
                assert(super::entries_view(kept@) =~= super::entries_view(before).push(e@));
            }
            i = i + 1;
        }
        assert(es.take(es.len() as int) =~= es);
        proof {
            if old(self)@.wf() {
                lemma_live_only_distinct(es, now);
                lemma_live_only_from(es, now);
                let s = live_only(es, now);
                assert forall|j: int| 0 <= j < s.len() implies super::value_ok(#[trigger] s[j].value) by {
                    let i = choose|i: int| 0 <= i < es.len() && s[j] == es[i];
                    assert(super::value_ok(es[i].value));
                }
            }
        }
        self.entries = kept;
    }
}

} // verus!
