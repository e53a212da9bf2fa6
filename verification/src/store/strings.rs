//! String values.
use vstd::prelude::*;
use vstd::string::*;
use vstd::utf8::encode_utf8;

use super::{Entry, Store, StoreError, StoreView, Value, ValueView, add_ms, secs_to_ms};
use crate::text::{concat_text, copy_text, decimal_text, i64_text, parse_i64, parsed_int, text};

verus! {

/// What `get` answers for a key that holds another type.
pub open spec fn wrongtype_tag() -> Seq<char> {
    "(error) WRONGTYPE Operation against a key holding the wrong kind of value"@
}

/// Length in bytes of the UTF-8 encoding of `s`, as `str::len` reports it.
pub open spec fn byte_len(s: Seq<char>) -> usize {
    encode_utf8(s).len() as usize
}

/// What `get` answers for a (live) value.
pub open spec fn get_answer(v: Option<ValueView>) -> Option<Seq<char>> {
    match v {
        None => None,
        Some(ValueView::Str(s)) => Some(s),
        Some(_) => Some(wrongtype_tag()),
    }
}

/// The string held by a (live) value, if it is a string.
pub open spec fn string_of_value(v: Option<ValueView>) -> Option<Seq<char>> {
    match v {
        Some(ValueView::Str(s)) => Some(s),
        _ => None,
    }
}

/// The expiry of `ms` milliseconds from `now`.
pub open spec fn expiry_after(now: u64, ms: u64) -> Option<u64> {
    Some(add_ms(now, ms))
}

/// What `incrby` yields: the new number, or why there is none.
pub open spec fn incr_outcome(v: Option<ValueView>, delta: i64) -> Result<i64, StoreError> {
    match v {
        None => Ok(delta),
        Some(ValueView::Str(s)) => match parsed_int(s, true, i64::MIN as int, i64::MAX as int) {
            None => Err(StoreError::NotInteger),
            Some(n) => if i64::MIN <= n + delta <= i64::MAX {
                Ok((n + delta) as i64)
            } else {
                Err(StoreError::Overflow)
            },
        },
        Some(_) => Err(StoreError::WrongType),
    }
}

/// The store after `mset(pairs)`: each pair set in turn.
pub open spec fn mset_all(st: StoreView, pairs: Seq<(Seq<char>, Seq<char>)>) -> StoreView
    decreases pairs.len(),
{
    if pairs.len() == 0 {
        st
    } else {
        mset_all(st, pairs.drop_last()).stored(pairs.last().0, ValueView::Str(pairs.last().1), None)
    }
}

impl StoreView {
    /// The expiry `k` keeps across a rewrite of its value.
    pub open spec fn expiry_of(self, k: Seq<char>, now: u64) -> Option<u64> {
        match self.lookup(k, now) {
            Some(e) => e.expires_at,
            None => None,
        }
    }
}

/// `secs * 1000`, saturating.
pub(crate) fn secs_ms(secs: u64) -> (r: u64)
    ensures
        r == secs_to_ms(secs),
{
    match secs.checked_mul(1000) {
        Some(v) => v,
        None => u64::MAX,
    }
}

/// `now + ms`, saturating.
pub(crate) fn later(now: u64, ms: u64) -> (r: u64)
    ensures
        r == add_ms(now, ms),
{
    now.saturating_add(ms)
}

impl Store {
    /// The value stored at `key` as a string, or the wrong-type tag.
    pub fn get(&self, key: &str, now: u64) -> (r: Option<String>)
        ensures
            match r {
                Some(s) => get_answer(self@.value_of(key@, now)) == Some(s@),
                None => get_answer(self@.value_of(key@, now)) is None,
            },
    {
        match self.find_live(key, now) {
            Some(i) => match &self.entries[i].value {
                Value::Str(s) => Some(copy_text(s)),
                _ => Some(text("(error) WRONGTYPE Operation against a key holding the wrong kind of value")),
            },
            None => None,
        }
    }

    /// The string at `key`, if it holds one.
    pub(crate) fn get_string(&self, key: &str, now: u64) -> (r: Option<String>)
        ensures
            match r {
                Some(s) => string_of_value(self@.value_of(key@, now)) == Some(s@),
                None => string_of_value(self@.value_of(key@, now)) is None,
            },
    {
        match self.find_live(key, now) {
            Some(i) => match &self.entries[i].value {
                Value::Str(s) => Some(copy_text(s)),
                _ => None,
            },
            None => None,
        }
    }

    /// Stores the string `value` at `key`, with no expiry.
    pub fn set(&mut self, key: String, value: String)
        ensures
            final(self)@ == old(self)@.stored(key@, ValueView::Str(value@), None),
            old(self)@.wf() ==> final(self)@.wf(),
    {
        self.store_entry(Entry { key, value: Value::Str(value), expires_at: None });
    }

    /// Stores `value` at `key`, expiring `secs` seconds after `now`.
    pub fn setex(&mut self, key: String, value: String, secs: u64, now: u64)
        ensures
            final(self)@ == old(self)@.stored(key@, ValueView::Str(value@), expiry_after(now, secs_to_ms(secs))),
            old(self)@.wf() ==> final(self)@.wf(),
    {
        let at = later(now, secs_ms(secs));
        self.store_entry(Entry { key, value: Value::Str(value), expires_at: Some(at) });
    }

    /// Stores `value` at `key`, expiring `ms` milliseconds after `now`.
    pub fn psetex(&mut self, key: String, value: String, ms: u64, now: u64)
        ensures
            final(self)@ == old(self)@.stored(key@, ValueView::Str(value@), expiry_after(now, ms)),
            old(self)@.wf() ==> final(self)@.wf(),
    {
        let at = later(now, ms);
        self.store_entry(Entry { key, value: Value::Str(value), expires_at: Some(at) });
    }

    /// Stores `value` at `key` and returns the string it held before, if any.
    pub fn getset(&mut self, key: String, value: String, now: u64) -> (r: Option<String>)
        ensures
            final(self)@ == old(self)@.stored(key@, ValueView::Str(value@), None),
            match r {
                Some(s) => string_of_value(old(self)@.value_of(key@, now)) == Some(s@),
                None => string_of_value(old(self)@.value_of(key@, now)) is None,
            },
            old(self)@.wf() ==> final(self)@.wf(),
    {
        let previous = self.get_string(key.as_str(), now);
        self.set(key, value);
        previous
    }

    /// Stores `value` at `key` only when the key is absent: 1 if stored, else 0.
    pub fn setnx(&mut self, key: String, value: String, now: u64) -> (r: i64)
        ensures
            old(self)@.lookup(key@, now) is Some ==> r == 0 && final(self)@ == old(self)@,
            old(self)@.lookup(key@, now) is None ==> r == 1 && final(self)@ == old(self)@.stored(
                key@,
                ValueView::Str(value@),
                None,
            ),
            old(self)@.wf() ==> final(self)@.wf(),
    {
        if self.find_live(key.as_str(), now).is_some() {
            0
        } else {
            self.set(key, value);
            1
        }
    }

    /// Sets every pair in turn.
    pub fn mset(&mut self, pairs: Vec<(String, String)>)
        ensures
            final(self)@ == mset_all(old(self)@, pairs@.map_values(|p: (String, String)| (p.0@, p.1@))),
            old(self)@.wf() ==> final(self)@.wf(),
    {
        let ghost pv = pairs@.map_values(|p: (String, String)| (p.0@, p.1@));
        let mut i: usize = 0;
        assert(pv.take(0) =~= Seq::<(Seq<char>, Seq<char>)>::empty());
        while i < pairs.len()
            invariant
                i <= pairs@.len(),
                pv == pairs@.map_values(|p: (String, String)| (p.0@, p.1@)),
                self@ == mset_all(old(self)@, pv.take(i as int)),
                old(self)@.wf() ==> self@.wf(),
            decreases pairs@.len() - i,
        {
            proof {
                let t = pv.take(i as int + 1);
                assert(t.drop_last() =~= pv.take(i as int));
                assert(t.last() == pv[i as int]);
            }
            let k = copy_text(&pairs[i].0);
            let v = copy_text(&pairs[i].1);
            self.set(k, v);
            i = i + 1;
        }
        assert(pv.take(pairs@.len() as int) =~= pv);
    }

    /// The string at each of `keys` (absent for keys that hold none).
    pub fn mget(&self, keys: Vec<&str>, now: u64) -> (r: Vec<Option<String>>)
        ensures
            r@.len() == keys@.len(),
            forall|i: int| 0 <= i < keys@.len() ==> match #[trigger] r@[i] {
                Some(s) => string_of_value(self@.value_of(keys@[i]@, now)) == Some(s@),
                None => string_of_value(self@.value_of(keys@[i]@, now)) is None,
            },
    {
        let mut r: Vec<Option<String>> = Vec::new();
        let mut i: usize = 0;
        while i < keys.len()
            invariant
                i <= keys@.len(),
                r@.len() == i,
                forall|j: int| 0 <= j < i ==> match #[trigger] r@[j] {
                    Some(s) => string_of_value(self@.value_of(keys@[j]@, now)) == Some(s@),
                    None => string_of_value(self@.value_of(keys@[j]@, now)) is None,
                },
            decreases keys@.len() - i,
        {
            r.push(self.get_string(keys[i], now));
            i = i + 1;
        }
        r
    }

    /// Appends `value` to the string at `key` (creating it when absent) and
    /// returns the new length in bytes; a key of another type is left alone (0).
    pub fn append(&mut self, key: &str, value: &str, now: u64) -> (r: i64)
        ensures
            match old(self)@.value_of(key@, now) {
                None => r == byte_len(value@) as i64 && final(self)@ == old(self)@.stored(
                    key@,
                    ValueView::Str(value@),
                    None,
                ),
                Some(ValueView::Str(s)) => r == byte_len(s + value@) as i64 && final(self)@
                    == old(self)@.stored(key@, ValueView::Str(s + value@), old(self)@.expiry_of(key@, now)),
                Some(_) => r == 0 && final(self)@ == old(self)@,
            },
            old(self)@.wf() ==> final(self)@.wf(),
    {
        match self.find_live(key, now) {
            Some(i) => {
                let exp = self.entries[i].expires_at;
                let joined = match &self.entries[i].value {
                    Value::Str(s) => concat_text(s.as_str(), value),
                    _ => {
                        return 0;
                    },
                };
                let n = joined.as_str().len() as i64;
                self.store_entry(Entry { key: key.to_owned(), value: Value::Str(joined), expires_at: exp });
                n
            },
            None => {
                let v = value.to_owned();
                let n = v.as_str().len() as i64;
                self.store_entry(Entry { key: key.to_owned(), value: Value::Str(v), expires_at: None });
                n
            },
        }
    }

    /// Length in bytes of the string at `key`; 0 when it holds none.
    pub fn strlen(&self, key: &str, now: u64) -> (r: i64)
        ensures
            r == match string_of_value(self@.value_of(key@, now)) {
                Some(s) => byte_len(s) as i64,
                None => 0,
            },
    {
        match self.get_string(key, now) {
            Some(s) => s.as_str().len() as i64,
            None => 0,
        }
    }

    /// Adds `delta` to the integer stored as a string at `key` (absent counts as
    /// 0), keeping its expiry; returns the new value.
    pub fn incrby(&mut self, key: &str, delta: i64, now: u64) -> (r: Result<i64, StoreError>)
        ensures
            r == incr_outcome(old(self)@.value_of(key@, now), delta),
            match r {
                Ok(v) => final(self)@ == old(self)@.stored(
                    key@,
                    ValueView::Str(decimal_text(v as int)),
                    old(self)@.expiry_of(key@, now),
                ),
                Err(_) => final(self)@ == old(self)@,
            },
            old(self)@.wf() ==> final(self)@.wf(),
    {
        let (current, exp) = match self.find_live(key, now) {
            Some(i) => match &self.entries[i].value {
                Value::Str(s) => match parse_i64(s.as_str()) {
                    Some(n) => (n, self.entries[i].expires_at),
                    None => {
                        return Err(StoreError::NotInteger);
                    },
                },
                _ => {
                    return Err(StoreError::WrongType);
                },
            },
            None => (0i64, None),
        };
        let v = match current.checked_add(delta) {
            Some(v) => v,
            None => {
                return Err(StoreError::Overflow);
            },
        };
        self.store_entry(Entry { key: key.to_owned(), value: Value::Str(i64_text(v)), expires_at: exp });
        Ok(v)
    }

    /// `incrby(key, 1)`.
    pub fn incr(&mut self, key: &str, now: u64) -> (r: Result<i64, StoreError>)
        ensures
            r == incr_outcome(old(self)@.value_of(key@, now), 1),
            match r {
                Ok(v) => final(self)@ == old(self)@.stored(
                    key@,
                    ValueView::Str(decimal_text(v as int)),
                    old(self)@.expiry_of(key@, now),
                ),
                Err(_) => final(self)@ == old(self)@,
            },
            old(self)@.wf() ==> final(self)@.wf(),
    {
        self.incrby(key, 1, now)
    }

    /// `incrby(key, -1)`.
    pub fn decr(&mut self, key: &str, now: u64) -> (r: Result<i64, StoreError>)
        ensures
            r == incr_outcome(old(self)@.value_of(key@, now), -1i64),
            match r {
                Ok(v) => final(self)@ == old(self)@.stored(
                    key@,
                    ValueView::Str(decimal_text(v as int)),
                    old(self)@.expiry_of(key@, now),
                ),
                Err(_) => final(self)@ == old(self)@,
            },
            old(self)@.wf() ==> final(self)@.wf(),
    {
        self.incrby(key, -1, now)
    }
}

} // verus!
