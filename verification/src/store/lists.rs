//! List values.
use vstd::prelude::*;

use super::{Entry, Store, StoreError, StoreView, Value, ValueView, copy_texts};
use super::strings::string_of_value;
use crate::text::{copy_text, texts_view, lemma_texts_push};

verus! {

/// `vs` pushed one by one at the front of `l` (so they end up reversed).
pub open spec fn pushed_front(l: Seq<Seq<char>>, vs: Seq<Seq<char>>) -> Seq<Seq<char>>
    decreases vs.len(),
{
    if vs.len() == 0 {
        l
    } else {
        seq![vs.last()] + pushed_front(l, vs.drop_last())
    }
}

/// The list at a (live) value: `Some` for a list or an absent key (empty),
/// `None` for another type.
pub open spec fn list_or_empty(v: Option<ValueView>) -> Option<Seq<Seq<char>>> {
    match v {
        None => Some(Seq::empty()),
        Some(ValueView::List(l)) => Some(l),
        Some(_) => None,
    }
}

/// The list held by a (live) value, empty when it holds none.
pub open spec fn list_of(v: Option<ValueView>) -> Seq<Seq<char>> {
    match v {
        Some(ValueView::List(l)) => l,
        _ => Seq::empty(),
    }
}

/// The inclusive index range `start..=stop` (negative indices count from the
/// end) clamped to a list of length `n`, as a half-open range.
pub open spec fn clamp_range(n: int, start: int, stop: int) -> (int, int) {
    let s0 = if start < 0 { start + n } else { start };
    let s = if s0 < 0 { 0 } else { s0 };
    let e0 = if stop < 0 { stop + n } else { stop };
    let e = if e0 >= n { n - 1 } else { e0 };
    if s > e || s >= n {
        (0, 0)
    } else {
        (s, e + 1)
    }
}

impl StoreView {
    /// The store after replacing the list at `k` by `l`, keeping its expiry, or
    /// deleting `k` when `l` is empty.
    pub open spec fn with_list(self, k: Seq<char>, l: Seq<Seq<char>>, now: u64) -> StoreView {
        if l.len() == 0 {
            self.deleted(k)
        } else {
            self.stored(k, ValueView::List(l), self.expiry_of(k, now))
        }
    }
}

impl Store {
    /// The live list at `key` (empty when absent), or `None` for another type,
    /// with its expiry.
    fn list_at(&self, key: &str, now: u64) -> (r: Option<(Vec<String>, Option<u64>)>)
        ensures
            match r {
                Some((l, exp)) => list_or_empty(self@.value_of(key@, now)) == Some(texts_view(l@))
                    && exp == self@.expiry_of(key@, now),
                None => list_or_empty(self@.value_of(key@, now)) is None,
            },
    {
        match self.find_live(key, now) {
            Some(i) => match &self.entries[i].value {
                Value::List(l) => Some((copy_texts(l), self.entries[i].expires_at)),
                _ => None,
            },
            None => {
                let v: Vec<String> = Vec::new();
                assert(texts_view(v@) =~= Seq::<Seq<char>>::empty());
                Some((v, None))
            },
        }
    }

    /// Pushes each of `values` at the head of the list at `key` (creating it);
    /// returns the new length.
    pub fn lpush(&mut self, key: &str, values: Vec<&str>, now: u64) -> (r: Result<i64, StoreError>)
        ensures
            match list_or_empty(old(self)@.value_of(key@, now)) {
                None => r == Err::<i64, StoreError>(StoreError::WrongType) && final(self)@ == old(self)@,
                Some(l) => {
                    let nl = pushed_front(l, values@.map_values(|v: &str| v@));
                    &&& r == Ok::<i64, StoreError>(nl.len() as i64)
                    &&& final(self)@ == old(self)@.stored(key@, ValueView::List(nl), old(self)@.expiry_of(key@, now))
                },
            },
            old(self)@.wf() ==> final(self)@.wf(),
    {
        let (l, exp) = match self.list_at(key, now) {
            Some(p) => p,
            None => {
                return Err(StoreError::WrongType);
            },
        };
        let ghost vs = values@.map_values(|v: &str| v@);
        let mut front: Vec<String> = Vec::new();
        let mut i = values.len();
        assert(vs.take(0) =~= Seq::<Seq<char>>::empty());
        while i > 0
            invariant
                i <= values@.len(),
                vs == values@.map_values(|v: &str| v@),
                texts_view(front@) == Seq::new((values@.len() - i) as nat, |j: int| vs[values@.len() - 1 - j]),
            decreases i,
        {
            let ghost before = front@;
            let x = values[i - 1].to_owned();
            front.push(x);
            proof {
                lemma_texts_push(before, x);
            }
            assert(texts_view(front@) =~= Seq::new((values@.len() - (i - 1)) as nat, |j: int| vs[values@.len() - 1 - j]));
            i = i - 1;
        }
        let ghost fv = texts_view(front@);
        let mut j: usize = 0;
        let n = l.len();
        while j < n
            invariant
                j <= n,
                n == l@.len(),
                texts_view(front@) == fv + texts_view(l@).take(j as int),
            decreases n - j,
        {
            let ghost before = front@;
            let x = copy_text(&l[j]);
            front.push(x);
            proof {
                lemma_texts_push(before, x);
            }
            assert(texts_view(front@) =~= fv + texts_view(l@).take(j as int + 1));
            j = j + 1;
        }
        proof {
            assert(texts_view(l@).take(n as int) =~= texts_view(l@));
            lemma_pushed_front(texts_view(l@), vs);
            assert(fv =~= Seq::new(vs.len(), |k: int| vs[vs.len() - 1 - k]));
        }
        let len = front.len() as i64;
        self.store_entry(Entry { key: key.to_owned(), value: Value::List(front), expires_at: exp });
        Ok(len)
    }

    /// Pushes each of `values` at the tail of the list at `key` (creating it);
    /// returns the new length.
    pub fn rpush(&mut self, key: &str, values: Vec<&str>, now: u64) -> (r: Result<i64, StoreError>)
        ensures
            match list_or_empty(old(self)@.value_of(key@, now)) {
                None => r == Err::<i64, StoreError>(StoreError::WrongType) && final(self)@ == old(self)@,
                Some(l) => {
                    let nl = l + values@.map_values(|v: &str| v@);
                    &&& r == Ok::<i64, StoreError>(nl.len() as i64)
                    &&& final(self)@ == old(self)@.stored(key@, ValueView::List(nl), old(self)@.expiry_of(key@, now))
                },
            },
            old(self)@.wf() ==> final(self)@.wf(),
    {
        let (mut l, exp) = match self.list_at(key, now) {
            Some(p) => p,
            None => {
                return Err(StoreError::WrongType);
            },
        };
        let ghost lv = texts_view(l@);
        let ghost vs = values@.map_values(|v: &str| v@);
        let mut i: usize = 0;
        while i < values.len()
            invariant
                i <= values@.len(),
                vs == values@.map_values(|v: &str| v@),
                texts_view(l@) == lv + vs.take(i as int),
            decreases values@.len() - i,
        {
            let ghost before = l@;
            let x = values[i].to_owned();
            l.push(x);
            proof {
                lemma_texts_push(before, x);
            }
            assert(texts_view(l@) =~= lv + vs.take(i as int + 1));
            i = i + 1;
        }
        assert(vs.take(values@.len() as int) =~= vs);
        let len = l.len() as i64;
        self.store_entry(Entry { key: key.to_owned(), value: Value::List(l), expires_at: exp });
        Ok(len)
    }

    /// Removes and returns the head of the list at `key`; the key goes when the
    /// list empties.
    pub fn lpop(&mut self, key: &str, now: u64) -> (r: Option<String>)
        ensures
            match old(self)@.value_of(key@, now) {
                Some(ValueView::List(l)) => if l.len() > 0 {
                    &&& r is Some && r->Some_0@ == l[0]
                    &&& final(self)@ == old(self)@.with_list(key@, l.drop_first(), now)
                } else {
                    r is None && final(self)@ == old(self)@
                },
                _ => r is None && final(self)@ == old(self)@,
            },
            old(self)@.wf() ==> final(self)@.wf(),
    {
        let i = match self.find_live(key, now) {
            Some(i) => i,
            None => {
                return None;
            },
        };
        let (mut l, exp) = match &self.entries[i].value {
            Value::List(l) => (copy_texts(l), self.entries[i].expires_at),
            _ => {
                return None;
            },
        };
        if l.len() == 0 {
            return None;
        }
        let ghost lv = texts_view(l@);
        let head = l.remove(0);
        assert(texts_view(l@) =~= lv.drop_first());
        if l.len() == 0 {
            proof {
                super::lemma_key_pos(self@.entries, key@);
            }
            self.remove_slot(i);
        } else {
            self.store_entry(Entry { key: key.to_owned(), value: Value::List(l), expires_at: exp });
        }
        Some(head)
    }

    /// Removes and returns the tail of the list at `key`; the key goes when the
    /// list empties.
    pub fn rpop(&mut self, key: &str, now: u64) -> (r: Option<String>)
        ensures
            match old(self)@.value_of(key@, now) {
                Some(ValueView::List(l)) => if l.len() > 0 {
                    &&& r is Some && r->Some_0@ == l.last()
                    &&& final(self)@ == old(self)@.with_list(key@, l.drop_last(), now)
                } else {
                    r is None && final(self)@ == old(self)@
                },
                _ => r is None && final(self)@ == old(self)@,
            },
            old(self)@.wf() ==> final(self)@.wf(),
    {
        let i = match self.find_live(key, now) {
            Some(i) => i,
            None => {
                return None;
            },
        };
        let (mut l, exp) = match &self.entries[i].value {
            Value::List(l) => (copy_texts(l), self.entries[i].expires_at),
            _ => {
                return None;
            },
        };
        if l.len() == 0 {
            return None;
        }
        let ghost lv = texts_view(l@);
        let tail = l.pop().unwrap();
        assert(texts_view(l@) =~= lv.drop_last());
        if l.len() == 0 {
            proof {
                super::lemma_key_pos(self@.entries, key@);
            }
            self.remove_slot(i);
        } else {
            self.store_entry(Entry { key: key.to_owned(), value: Value::List(l), expires_at: exp });
        }
        Some(tail)
    }

    /// Length of the list at `key`; 0 when it holds none.
    pub fn llen(&self, key: &str, now: u64) -> (r: i64)
        ensures
            r == list_of(self@.value_of(key@, now)).len() as i64,
    {
        match self.find_live(key, now) {
            Some(i) => match &self.entries[i].value {
                Value::List(l) => l.len() as i64,
                _ => 0,
            },
            None => 0,
        }
    }

    /// The elements `start..=stop` of the list at `key` (negative indices count
    /// from the end; the range is clamped to the list).
    pub fn lrange(&self, key: &str, start: i64, stop: i64, now: u64) -> (r: Vec<String>)
        ensures
            ({
                let l = list_of(self@.value_of(key@, now));
                let (lo, hi) = clamp_range(l.len() as int, start as int, stop as int);
                texts_view(r@) == l.subrange(lo, hi)
            }),
    {
        let empty: Vec<String> = Vec::new();
        assert(texts_view(empty@) =~= Seq::<Seq<char>>::empty());
        let i = match self.find_live(key, now) {
            Some(i) => i,
            None => {
                return empty;
            },
        };
        let l = match &self.entries[i].value {
            Value::List(l) => l,
            _ => {
                return empty;
            },
        };
        let n = l.len() as i128;
        let s0: i128 = if start < 0 { start as i128 + n } else { start as i128 };
        let s: i128 = if s0 < 0 { 0 } else { s0 };
        let e0: i128 = if stop < 0 { stop as i128 + n } else { stop as i128 };
        let e: i128 = if e0 >= n { n - 1 } else { e0 };
        if s > e || s >= n {
            return empty;
        }
        let lo = s as usize;
        let hi = (e + 1) as usize;
        let mut r: Vec<String> = Vec::new();
        let mut j = lo;
        while j < hi
            invariant
                lo <= j <= hi,
                hi <= l@.len(),
                texts_view(r@) == texts_view(l@).subrange(lo as int, j as int),
            decreases hi - j,
        {
            let ghost before = r@;
            let x = copy_text(&l[j]);
            r.push(x);
            proof {
                lemma_texts_push(before, x);
            }
            assert(texts_view(r@) =~= texts_view(l@).subrange(lo as int, j as int + 1));
            j = j + 1;
        }
        r
    }

    /// The element at `index` of the list at `key` (negative counts from the end).
    pub fn lindex(&self, key: &str, index: i64, now: u64) -> (r: Option<String>)
        ensures
            ({
                let l = list_of(self@.value_of(key@, now));
                let idx = if index < 0 { index + l.len() } else { index as int };
                match r {
                    Some(s) => 0 <= idx < l.len() && s@ == l[idx],
                    None => !(0 <= idx < l.len()),
                }
            }),
    {
        let i = match self.find_live(key, now) {
            Some(i) => i,
            None => {
                return None;
            },
        };
        let l = match &self.entries[i].value {
            Value::List(l) => l,
            _ => {
                return None;
            },
        };
        let n = l.len() as i128;
        let idx: i128 = if index < 0 { index as i128 + n } else { index as i128 };
        if 0 <= idx && idx < n {
            Some(copy_text(&l[idx as usize]))
        } else {
            None
        }
    }
}

proof fn lemma_pushed_front(l: Seq<Seq<char>>, vs: Seq<Seq<char>>)
    ensures
        pushed_front(l, vs) == Seq::new(vs.len(), |k: int| vs[vs.len() - 1 - k]) + l,
    decreases vs.len(),
{
    if vs.len() > 0 {
        lemma_pushed_front(l, vs.drop_last());
        let p = vs.drop_last();
        assert(seq![vs.last()] + (Seq::new(p.len(), |k: int| p[p.len() - 1 - k]) + l) =~= Seq::new(
            vs.len(),
            |k: int| vs[vs.len() - 1 - k],
        ) + l);
    } else {
        assert(Seq::new(vs.len(), |k: int| vs[vs.len() - 1 - k]) + l =~= l);
    }
}

} // verus!
