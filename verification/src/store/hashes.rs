//! Hash values: fields with string values, in insertion order.
use vstd::prelude::*;

use super::{Entry, Store, StoreError, StoreView, Value, ValueView, copy_text_pairs, text_pairs_view};
use crate::text::{copy_text, text_eq, texts_view, lemma_texts_push};

verus! {

/// Index of the last field named `f`, or -1.
pub open spec fn field_pos(h: Seq<(Seq<char>, Seq<char>)>, f: Seq<char>) -> int
    decreases h.len(),
{
    if h.len() == 0 {
        -1
    } else if h.last().0 == f {
        h.len() - 1
    } else {
        field_pos(h.drop_last(), f)
    }
}

/// The value of field `f`.
pub open spec fn field_value(h: Seq<(Seq<char>, Seq<char>)>, f: Seq<char>) -> Option<Seq<char>> {
    let i = field_pos(h, f);
    if 0 <= i < h.len() {
        Some(h[i].1)
    } else {
        None
    }
}

/// `h` with field `f` set to `v` (in place, or appended when new).
pub open spec fn with_field(h: Seq<(Seq<char>, Seq<char>)>, f: Seq<char>, v: Seq<char>) -> Seq<(Seq<char>, Seq<char>)> {
    let i = field_pos(h, f);
    if 0 <= i < h.len() {
        h.update(i, (f, v))
    } else {
        h.push((f, v))
    }
}

/// `h` with every pair of `ps` set in turn.
pub open spec fn with_fields(h: Seq<(Seq<char>, Seq<char>)>, ps: Seq<(Seq<char>, Seq<char>)>) -> Seq<(Seq<char>, Seq<char>)>
    decreases ps.len(),
{
    if ps.len() == 0 {
        h
    } else {
        with_field(with_fields(h, ps.drop_last()), ps.last().0, ps.last().1)
    }
}

/// `h` without field `f`.
pub open spec fn without_field(h: Seq<(Seq<char>, Seq<char>)>, f: Seq<char>) -> Seq<(Seq<char>, Seq<char>)> {
    let i = field_pos(h, f);
    if 0 <= i < h.len() {
        h.remove(i)
    } else {
        h
    }
}

/// `h` after removing each of `fs` in turn, with the number actually removed.
pub open spec fn without_fields(h: Seq<(Seq<char>, Seq<char>)>, fs: Seq<Seq<char>>) -> (Seq<(Seq<char>, Seq<char>)>, int)
    decreases fs.len(),
{
    if fs.len() == 0 {
        (h, 0)
    } else {
        let (h1, n) = without_fields(h, fs.drop_last());
        if field_value(h1, fs.last()) is Some {
            (without_field(h1, fs.last()), n + 1)
        } else {
            (h1, n)
        }
    }
}

pub open spec fn hash_or_empty(v: Option<ValueView>) -> Option<Seq<(Seq<char>, Seq<char>)>> {
    match v {
        None => Some(Seq::empty()),
        Some(ValueView::Hash(h)) => Some(h),
        Some(_) => None,
    }
}

pub open spec fn hash_of(v: Option<ValueView>) -> Seq<(Seq<char>, Seq<char>)> {
    match v {
        Some(ValueView::Hash(h)) => h,
        _ => Seq::empty(),
    }
}

impl StoreView {
    /// The store after replacing the hash at `k` by `h`, keeping its expiry, or
    /// deleting `k` when `h` is empty.
    pub open spec fn with_hash(self, k: Seq<char>, h: Seq<(Seq<char>, Seq<char>)>, now: u64) -> StoreView {
        if h.len() == 0 {
            self.deleted(k)
        } else {
            self.stored(k, ValueView::Hash(h), self.expiry_of(k, now))
        }
    }
}

fn find_field(h: &Vec<(String, String)>, f: &str) -> (r: Option<usize>)
    ensures
        match r {
            Some(i) => i == field_pos(text_pairs_view(h@), f@) && i < h@.len(),
            None => field_pos(text_pairs_view(h@), f@) == -1,
        },
{
    let ghost s = text_pairs_view(h@);
    let mut i = h.len();
    assert(s.take(i as int) =~= s);
    while i > 0
        invariant
            i <= h@.len(),
            s == text_pairs_view(h@),
            field_pos(s, f@) == field_pos(s.take(i as int), f@),
        decreases i,
    {
        proof {
            let t = s.take(i as int);
            assert(t.drop_last() =~= s.take(i as int - 1));
            assert(t.last() == s[i - 1]);
        }
        if text_eq(h[i - 1].0.as_str(), f) {
            return Some(i - 1);
        }
        i = i - 1;
    }
    None
}

proof fn lemma_field_pos(h: Seq<(Seq<char>, Seq<char>)>, f: Seq<char>)
    ensures
        -1 <= field_pos(h, f) < h.len(),
        0 <= field_pos(h, f) ==> h[field_pos(h, f)].0 == f,
    decreases h.len(),
{
    if h.len() > 0 {
        lemma_field_pos(h.drop_last(), f);
    }
}

/// Sets field `f` of `h` to `v`; true when the field is new.
fn set_field(h: &mut Vec<(String, String)>, f: &str, v: &str) -> (r: bool)
    ensures
        text_pairs_view(final(h)@) == with_field(text_pairs_view(old(h)@), f@, v@),
        r == (field_value(text_pairs_view(old(h)@), f@) is None),
{
    proof {
        lemma_field_pos(text_pairs_view(h@), f@);
    }
    let ghost before = h@;
    match find_field(h, f) {
        Some(i) => {
            h.set(i, (f.to_owned(), v.to_owned()));
            assert(text_pairs_view(h@) =~= with_field(text_pairs_view(before), f@, v@));
            false
        },
        None => {
            h.push((f.to_owned(), v.to_owned()));
            assert(text_pairs_view(h@) =~= with_field(text_pairs_view(before), f@, v@));
            true
        },
    }
}

impl Store {
    /// The live hash at `key` (empty when absent), or `None` for another type,
    /// with its expiry.
    fn hash_at(&self, key: &str, now: u64) -> (r: Option<(Vec<(String, String)>, Option<u64>)>)
        ensures
            match r {
                Some((h, exp)) => hash_or_empty(self@.value_of(key@, now)) == Some(text_pairs_view(h@))
                    && exp == self@.expiry_of(key@, now),
                None => hash_or_empty(self@.value_of(key@, now)) is None,
            },
    {
        match self.find_live(key, now) {
            Some(i) => match &self.entries[i].value {
                Value::Hash(h) => Some((copy_text_pairs(h), self.entries[i].expires_at)),
                _ => None,
            },
            None => {
                let v: Vec<(String, String)> = Vec::new();
                assert(text_pairs_view(v@) =~= Seq::<(Seq<char>, Seq<char>)>::empty());
                Some((v, None))
            },
        }
    }

    /// Sets `field` of the hash at `key` (creating it): 1 if the field is new, else 0.
    pub fn hset(&mut self, key: &str, field: &str, value: &str, now: u64) -> (r: Result<i64, StoreError>)
        ensures
            match hash_or_empty(old(self)@.value_of(key@, now)) {
                None => r == Err::<i64, StoreError>(StoreError::WrongType) && final(self)@ == old(self)@,
                Some(h) => {
                    &&& r == Ok::<i64, StoreError>(if field_value(h, field@) is None { 1i64 } else { 0i64 })
                    &&& final(self)@ == old(self)@.stored(
                        key@,
                        ValueView::Hash(with_field(h, field@, value@)),
                        old(self)@.expiry_of(key@, now),
                    )
                },
            },
            old(self)@.wf() ==> final(self)@.wf(),
    {
        let (mut h, exp) = match self.hash_at(key, now) {
            Some(p) => p,
            None => {
                return Err(StoreError::WrongType);
            },
        };
        proof {
            if self@.wf() {
                super::lemma_live_value_ok(self@, key@, now);
                law_set_field_stays_distinct(text_pairs_view(h@), field@, value@);
            }
        }
        let added = set_field(&mut h, field, value);
        self.store_entry(Entry { key: key.to_owned(), value: Value::Hash(h), expires_at: exp });
        Ok(if added { 1 } else { 0 })
    }

    /// The value of `field` in the hash at `key`.
    pub fn hget(&self, key: &str, field: &str, now: u64) -> (r: Option<String>)
        ensures
            match r {
                Some(v) => field_value(hash_of(self@.value_of(key@, now)), field@) == Some(v@),
                None => field_value(hash_of(self@.value_of(key@, now)), field@) is None,
            },
    {
        match self.find_live(key, now) {
            Some(i) => match &self.entries[i].value {
                Value::Hash(h) => {
                    proof {
                        lemma_field_pos(text_pairs_view(h@), field@);
                    }
                    match find_field(h, field) {
                        Some(j) => Some(copy_text(&h[j].1)),
                        None => None,
                    }
                },
                _ => None,
            },
            None => None,
        }
    }

    /// Sets each field of `pairs` in turn in the hash at `key` (creating it).
    pub fn hmset(&mut self, key: &str, pairs: Vec<(&str, &str)>, now: u64) -> (r: Result<(), StoreError>)
        ensures
            match hash_or_empty(old(self)@.value_of(key@, now)) {
                None => r == Err::<(), StoreError>(StoreError::WrongType) && final(self)@ == old(self)@,
                Some(h) => r is Ok && final(self)@ == old(self)@.stored(
                    key@,
                    ValueView::Hash(with_fields(h, pairs@.map_values(|p: (&str, &str)| (p.0@, p.1@)))),
                    old(self)@.expiry_of(key@, now),
                ),
            },
            old(self)@.wf() ==> final(self)@.wf(),
    {
        let (mut h, exp) = match self.hash_at(key, now) {
            Some(p) => p,
            None => {
                return Err(StoreError::WrongType);
            },
        };
        let ghost h0 = text_pairs_view(h@);
        let ghost ps = pairs@.map_values(|p: (&str, &str)| (p.0@, p.1@));
        let mut i: usize = 0;
        assert(ps.take(0) =~= Seq::<(Seq<char>, Seq<char>)>::empty());
        while i < pairs.len()
            invariant
                i <= pairs@.len(),
                ps == pairs@.map_values(|p: (&str, &str)| (p.0@, p.1@)),
                text_pairs_view(h@) == with_fields(h0, ps.take(i as int)),
            decreases pairs@.len() - i,
        {
            proof {
                let t = ps.take(i as int + 1);
                assert(t.drop_last() =~= ps.take(i as int));
                assert(t.last() == ps[i as int]);
            }
            let (f, v) = pairs[i];
            set_field(&mut h, f, v);
            i = i + 1;
        }
        assert(ps.take(pairs@.len() as int) =~= ps);
        proof {
            if old(self)@.wf() {
                super::lemma_live_value_ok(old(self)@, key@, now);
                law_set_fields_stay_distinct(h0, ps);
            }
        }
        self.store_entry(Entry { key: key.to_owned(), value: Value::Hash(h), expires_at: exp });
        Ok(())
    }

    /// The value of each of `fields` in the hash at `key`.
    pub fn hmget(&self, key: &str, fields: Vec<&str>, now: u64) -> (r: Vec<Option<String>>)
        ensures
            r@.len() == fields@.len(),
            forall|i: int| 0 <= i < fields@.len() ==> match #[trigger] r@[i] {
                Some(v) => field_value(hash_of(self@.value_of(key@, now)), fields@[i]@) == Some(v@),
                None => field_value(hash_of(self@.value_of(key@, now)), fields@[i]@) is None,
            },
    {
        let mut r: Vec<Option<String>> = Vec::new();
        let mut i: usize = 0;
        while i < fields.len()
            invariant
                i <= fields@.len(),
                r@.len() == i,
                forall|j: int| 0 <= j < i ==> match #[trigger] r@[j] {
                    Some(v) => field_value(hash_of(self@.value_of(key@, now)), fields@[j]@) == Some(v@),
                    None => field_value(hash_of(self@.value_of(key@, now)), fields@[j]@) is None,
                },
            decreases fields@.len() - i,
        {
            r.push(self.hget(key, fields[i], now));
            i = i + 1;
        }
        r
    }

    /// Removes each of `fields` from the hash at `key`; returns how many were
    /// removed. The key goes when the hash empties.
    pub fn hdel(&mut self, key: &str, fields: Vec<&str>, now: u64) -> (r: i64)
        ensures
            match old(self)@.value_of(key@, now) {
                Some(ValueView::Hash(h)) => {
                    let (h2, n) = without_fields(h, fields@.map_values(|f: &str| f@));
                    &&& r == n as i64
                    &&& final(self)@ == if n > 0 {
                        old(self)@.with_hash(key@, h2, now)
                    } else {
                        old(self)@
                    }
                },
                _ => r == 0 && final(self)@ == old(self)@,
            },
            old(self)@.wf() ==> final(self)@.wf(),
    {
        let slot = match self.find_live(key, now) {
            Some(i) => i,
            None => {
                return 0;
            },
        };
        let (mut h, exp) = match &self.entries[slot].value {
            Value::Hash(h) => (copy_text_pairs(h), self.entries[slot].expires_at),
            _ => {
                return 0;
            },
        };
        let ghost h0 = text_pairs_view(h@);
        let ghost fs = fields@.map_values(|f: &str| f@);
        let mut n: usize = 0;
        let mut i: usize = 0;
        assert(fs.take(0) =~= Seq::<Seq<char>>::empty());
        while i < fields.len()
            invariant
                i <= fields@.len(),
                fs == fields@.map_values(|f: &str| f@),
                (text_pairs_view(h@), n as int) == without_fields(h0, fs.take(i as int)),
                n <= i,
            decreases fields@.len() - i,
        {
            proof {
                let t = fs.take(i as int + 1);
                assert(t.drop_last() =~= fs.take(i as int));
                assert(t.last() == fs[i as int]);
                lemma_field_pos(text_pairs_view(h@), fs[i as int]);
            }
            let ghost before = h@;
            match find_field(&h, fields[i]) {
                Some(j) => {
                    h.remove(j);
                    assert(text_pairs_view(h@) =~= without_field(text_pairs_view(before), fs[i as int]));
                    n = n + 1;
                },
                None => {},
            }
            i = i + 1;
        }
        assert(fs.take(fields@.len() as int) =~= fs);
        proof {
            if old(self)@.wf() {
                super::lemma_live_value_ok(old(self)@, key@, now);
                law_deleted_fields_are_absent(h0, fs, Seq::empty());
            }
        }
        if n > 0 {
            if h.len() == 0 {
                proof {
                    super::lemma_key_pos(self@.entries, key@);
                }
                self.remove_slot(slot);
            } else {
                self.store_entry(Entry { key: key.to_owned(), value: Value::Hash(h), expires_at: exp });
            }
        }
        n as i64
    }

    /// The field-value pairs of the hash at `key`, in insertion order.
    pub fn hgetall(&self, key: &str, now: u64) -> (r: Vec<(String, String)>)
        ensures
            text_pairs_view(r@) == hash_of(self@.value_of(key@, now)),
    {
        match self.find_live(key, now) {
            Some(i) => match &self.entries[i].value {
                Value::Hash(h) => copy_text_pairs(h),
                _ => {
                    let v: Vec<(String, String)> = Vec::new();
                    assert(text_pairs_view(v@) =~= Seq::<(Seq<char>, Seq<char>)>::empty());
                    v
                },
            },
            None => {
                let v: Vec<(String, String)> = Vec::new();
                assert(text_pairs_view(v@) =~= Seq::<(Seq<char>, Seq<char>)>::empty());
                v
            },
        }
    }

    /// The field names of the hash at `key`, in insertion order.
    pub fn hkeys(&self, key: &str, now: u64) -> (r: Vec<String>)
        ensures
            texts_view(r@) == hash_of(self@.value_of(key@, now)).map_values(|p: (Seq<char>, Seq<char>)| p.0),
    {
        let all = self.hgetall(key, now);
        let ghost h = text_pairs_view(all@);
        let mut r: Vec<String> = Vec::new();
        let mut i: usize = 0;
        while i < all.len()
            invariant
                i <= all@.len(),
                h == text_pairs_view(all@),
                texts_view(r@) == h.map_values(|p: (Seq<char>, Seq<char>)| p.0).take(i as int),
            decreases all@.len() - i,
        {
            let ghost before = r@;
            let x = copy_text(&all[i].0);
            r.push(x);
            proof {
                lemma_texts_push(before, x);
            }
            assert(texts_view(r@) =~= h.map_values(|p: (Seq<char>, Seq<char>)| p.0).take(i as int + 1));
            i = i + 1;
        }
        assert(h.map_values(|p: (Seq<char>, Seq<char>)| p.0).take(all@.len() as int) =~= h.map_values(|p: (Seq<char>, Seq<char>)| p.0));
        r
    }

    /// The values of the hash at `key`, in insertion order.
    pub fn hvals(&self, key: &str, now: u64) -> (r: Vec<String>)
        ensures
            texts_view(r@) == hash_of(self@.value_of(key@, now)).map_values(|p: (Seq<char>, Seq<char>)| p.1),
    {
        let all = self.hgetall(key, now);
        let ghost h = text_pairs_view(all@);
        let mut r: Vec<String> = Vec::new();
        let mut i: usize = 0;
        while i < all.len()
            invariant
                i <= all@.len(),
                h == text_pairs_view(all@),
                texts_view(r@) == h.map_values(|p: (Seq<char>, Seq<char>)| p.1).take(i as int),
            decreases all@.len() - i,
        {
            let ghost before = r@;
            let x = copy_text(&all[i].1);
            r.push(x);
            proof {
                lemma_texts_push(before, x);
            }
            assert(texts_view(r@) =~= h.map_values(|p: (Seq<char>, Seq<char>)| p.1).take(i as int + 1));
            i = i + 1;
        }
        assert(h.map_values(|p: (Seq<char>, Seq<char>)| p.1).take(all@.len() as int) =~= h.map_values(|p: (Seq<char>, Seq<char>)| p.1));
        r
    }

    /// The number of fields of the hash at `key`.
    pub fn hlen(&self, key: &str, now: u64) -> (r: i64)
        ensures
            r == hash_of(self@.value_of(key@, now)).len() as i64,
    {
        match self.find_live(key, now) {
            Some(i) => match &self.entries[i].value {
                Value::Hash(h) => h.len() as i64,
                _ => 0,
            },
            None => 0,
        }
    }

    /// Whether the hash at `key` has `field`.
    pub fn hexists(&self, key: &str, field: &str, now: u64) -> (r: bool)
        ensures
            r == (field_value(hash_of(self@.value_of(key@, now)), field@) is Some),
    {
        self.hget(key, field, now).is_some()
    }
}

proof fn lemma_field_pos_update(h: Seq<(Seq<char>, Seq<char>)>, i: int, p: (Seq<char>, Seq<char>), g: Seq<char>)
    requires
        0 <= i < h.len(),
        p.0 == h[i].0,
    ensures
        field_pos(h.update(i, p), g) == field_pos(h, g),
    decreases h.len(),
{
    if i < h.len() - 1 {
        assert(h.update(i, p).drop_last() =~= h.drop_last().update(i, p));
        lemma_field_pos_update(h.drop_last(), i, p, g);
    } else {
        assert(h.update(i, p).drop_last() =~= h.drop_last());
    }
}

proof fn lemma_field_pos_push(h: Seq<(Seq<char>, Seq<char>)>, p: (Seq<char>, Seq<char>), g: Seq<char>)
    ensures
        field_pos(h.push(p), g) == if p.0 == g { h.len() as int } else { field_pos(h, g) },
{
    assert(h.push(p).drop_last() =~= h);
}

/// Setting a field makes it read back as the value set, and leaves every other
/// field as it was.
pub proof fn law_field_set_then_get(h: Seq<(Seq<char>, Seq<char>)>, f: Seq<char>, v: Seq<char>, g: Seq<char>)
    ensures
        field_value(with_field(h, f, v), f) == Some(v),
        g != f ==> field_value(with_field(h, f, v), g) == field_value(h, g),
{
    lemma_field_pos(h, f);
    let i = field_pos(h, f);
    if 0 <= i < h.len() {
        lemma_field_pos_update(h, i, (f, v), f);
        lemma_field_pos_update(h, i, (f, v), g);
        lemma_field_pos(h, g);
        let j = field_pos(h, g);
        if g != f && 0 <= j < h.len() {
            assert(j != i);
            assert(h.update(i, (f, v))[j] == h[j]);
        }
    } else {
        lemma_field_pos_push(h, (f, v), f);
        lemma_field_pos_push(h, (f, v), g);
        lemma_field_pos(h, g);
        let j = field_pos(h, g);
        if g != f && 0 <= j < h.len() {
            assert(h.push((f, v))[j] == h[j]);
        }
    }
}


/// No field name occurs twice.
pub open spec fn distinct_fields(h: Seq<(Seq<char>, Seq<char>)>) -> bool {
    forall|i: int, j: int| 0 <= i < j < h.len() ==> h[i].0 != h[j].0
}

/// With distinct names, a field is found exactly where it is, and only there.
proof fn lemma_field_pos_unique(h: Seq<(Seq<char>, Seq<char>)>, g: Seq<char>, j: int)
    requires
        distinct_fields(h),
    ensures
        field_pos(h, g) == -1 <==> forall|t: int| 0 <= t < h.len() ==> #[trigger] h[t].0 != g,
        0 <= j < h.len() && h[j].0 == g ==> field_pos(h, g) == j,
    decreases h.len(),
{
    lemma_field_pos(h, g);
    if h.len() > 0 {
        let d = h.drop_last();
        assert(distinct_fields(d)) by {
            assert forall|a: int, b: int| 0 <= a < b < d.len() implies d[a].0 != d[b].0 by {
                assert(d[a] == h[a] && d[b] == h[b]);
            }
        }
        lemma_field_pos_unique(d, g, j);
        if h.last().0 != g {
            assert forall|t: int| 0 <= t < d.len() && #[trigger] d[t].0 == g implies h[t].0 == g by {
                assert(d[t] == h[t]);
            }
            assert forall|t: int| 0 <= t < h.len() - 1 && #[trigger] h[t].0 == g implies d[t].0 == g by {
                assert(d[t] == h[t]);
            }
            if 0 <= j < d.len() {
                assert(d[j] == h[j]);
            }
        } else if 0 <= j < h.len() - 1 && h[j].0 == g {
            assert(h[j].0 != h[h.len() - 1].0);
        }
    }
}

/// Removing one field of a hash with distinct names: the names stay distinct,
/// that field reads as absent, and every other field keeps its value.
proof fn lemma_remove_field(h: Seq<(Seq<char>, Seq<char>)>, i: int, g: Seq<char>)
    requires
        distinct_fields(h),
        0 <= i < h.len(),
    ensures
        distinct_fields(h.remove(i)),
        field_value(h.remove(i), h[i].0) is None,
        g != h[i].0 ==> field_value(h.remove(i), g) == field_value(h, g),
{
    let r = h.remove(i);
    assert forall|a: int, b: int| 0 <= a < b < r.len() implies r[a].0 != r[b].0 by {
        let a0 = if a < i { a } else { a + 1 };
        let b0 = if b < i { b } else { b + 1 };
        assert(r[a] == h[a0] && r[b] == h[b0]);
    }
    assert forall|t: int| 0 <= t < r.len() implies #[trigger] r[t].0 != h[i].0 by {
        let t0 = if t < i { t } else { t + 1 };
        assert(r[t] == h[t0]);
    }
    lemma_field_pos_unique(r, h[i].0, 0);
    if g != h[i].0 {
        lemma_field_pos(h, g);
        let j = field_pos(h, g);
        if 0 <= j {
            assert(j != i);
            let jr = if j < i { j } else { j - 1 };
            assert(r[jr] == h[j]);
            lemma_field_pos_unique(r, g, jr);
        } else {
            lemma_field_pos_unique(h, g, 0);
            assert forall|t: int| 0 <= t < r.len() implies #[trigger] r[t].0 != g by {
                let t0 = if t < i { t } else { t + 1 };
                assert(r[t] == h[t0]);
            }
            lemma_field_pos_unique(r, g, 0);
        }
    }
}

/// Deleting fields from a hash with distinct names: none of them reads back,
/// every other field keeps its value, and the names stay distinct.
pub proof fn law_deleted_fields_are_absent(h: Seq<(Seq<char>, Seq<char>)>, fs: Seq<Seq<char>>, g: Seq<char>)
    requires
        distinct_fields(h),
    ensures
        distinct_fields(without_fields(h, fs).0),
        fs.contains(g) ==> field_value(without_fields(h, fs).0, g) is None,
        !fs.contains(g) ==> field_value(without_fields(h, fs).0, g) == field_value(h, g),
    decreases fs.len(),
{
    if fs.len() > 0 {
        let p = fs.drop_last();
        let y = fs.last();
        law_deleted_fields_are_absent(h, p, g);
        law_deleted_fields_are_absent(h, p, y);
        let h1 = without_fields(h, p).0;
        if field_value(h1, y) is Some {
            lemma_field_pos(h1, y);
            let i = field_pos(h1, y);
            lemma_remove_field(h1, i, g);
        }
        if fs.contains(g) && g != y {
            let j = choose|j: int| 0 <= j < fs.len() && fs[j] == g;
            assert(p[j] == g);
        }
        if p.contains(g) {
            let j = choose|j: int| 0 <= j < p.len() && p[j] == g;
            assert(fs[j] == g);
        }
        if g == y {
            assert(fs[fs.len() - 1] == g);
        }
    }
}


/// Setting fields in turn keeps the field names of a hash distinct.
pub proof fn law_set_fields_stay_distinct(h: Seq<(Seq<char>, Seq<char>)>, ps: Seq<(Seq<char>, Seq<char>)>)
    requires
        distinct_fields(h),
    ensures
        distinct_fields(with_fields(h, ps)),
    decreases ps.len(),
{
    if ps.len() > 0 {
        law_set_fields_stay_distinct(h, ps.drop_last());
        law_set_field_stays_distinct(with_fields(h, ps.drop_last()), ps.last().0, ps.last().1);
    }
}

/// Setting a field keeps the field names of a hash distinct.
pub proof fn law_set_field_stays_distinct(h: Seq<(Seq<char>, Seq<char>)>, f: Seq<char>, v: Seq<char>)
    requires
        distinct_fields(h),
    ensures
        distinct_fields(with_field(h, f, v)),
{
    lemma_field_pos(h, f);
    let i = field_pos(h, f);
    let w = with_field(h, f, v);
    if 0 <= i < h.len() {
        assert forall|a: int, b: int| 0 <= a < b < w.len() implies w[a].0 != w[b].0 by {
            assert(w[a].0 == h[a].0 && w[b].0 == h[b].0);
        }
    } else {
        lemma_field_pos_unique(h, f, 0);
        assert forall|a: int, b: int| 0 <= a < b < w.len() implies w[a].0 != w[b].0 by {
            if b == h.len() {
                assert(w[a] == h[a]);
            }
        }
    }
}


/// Whether the field names of `h` are distinct.
pub(crate) fn names_distinct(h: &Vec<(String, String)>) -> (r: bool)
    ensures
        r == distinct_fields(text_pairs_view(h@)),
{
    let ghost s = text_pairs_view(h@);
    let mut i: usize = 0;
    while i < h.len()
        invariant
            i <= h@.len(),
            s == text_pairs_view(h@),
            forall|a: int, b: int| 0 <= a < b < i ==> s[a].0 != s[b].0,
        decreases h@.len() - i,
    {
        let mut j: usize = 0;
        while j < i
            invariant
                j <= i < h@.len(),
                s == text_pairs_view(h@),
                forall|a: int, b: int| 0 <= a < b < i ==> s[a].0 != s[b].0,
                forall|a: int| 0 <= a < j ==> s[a].0 != s[i as int].0,
            decreases i - j,
        {
            if text_eq(h[j].0.as_str(), h[i].0.as_str()) {
                assert(s[j as int].0 == s[i as int].0);
                return false;
            }
            j = j + 1;
        }
        i = i + 1;
    }
    true
}

} // verus!
