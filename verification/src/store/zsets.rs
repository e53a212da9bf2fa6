//! Sorted-set values. A member's score is held by an order key: an integer
//! whose order is the order of the scores (the caller makes it from the
//! floating-point score and back). Members are ranked by key, and between equal
//! keys by member in byte order.
use vstd::prelude::*;
use vstd::utf8::encode_utf8;

use super::{Entry, Store, StoreView, Value, ValueView, copy_ranked, ranked_view};
use super::lists::clamp_range;
use super::scan::{opt_view, page, scan_page};
use crate::lexical::{bytes_lt, lex_lt};
use crate::text::{copy_text, text_eq, texts_view, lemma_texts_push};

verus! {

/// `a` ranks strictly below `b`.
pub open spec fn rank_lt(a: (Seq<char>, u64), b: (Seq<char>, u64)) -> bool {
    a.1 < b.1 || (a.1 == b.1 && lex_lt(encode_utf8(a.0), encode_utf8(b.0)))
}

/// Where `x` goes in `z`: before the first entry ranked above it.
pub open spec fn place(z: Seq<(Seq<char>, u64)>, x: (Seq<char>, u64)) -> int
    decreases z.len(),
{
    if z.len() == 0 {
        0
    } else if rank_lt(x, z[0]) {
        0
    } else {
        1 + place(z.drop_first(), x)
    }
}

/// Index of the last entry for member `m`, or -1.
pub open spec fn member_pos(z: Seq<(Seq<char>, u64)>, m: Seq<char>) -> int
    decreases z.len(),
{
    if z.len() == 0 {
        -1
    } else if z.last().0 == m {
        z.len() - 1
    } else {
        member_pos(z.drop_last(), m)
    }
}

/// The score key of member `m`.
pub open spec fn score_of(z: Seq<(Seq<char>, u64)>, m: Seq<char>) -> Option<u64> {
    let i = member_pos(z, m);
    if 0 <= i < z.len() {
        Some(z[i].1)
    } else {
        None
    }
}

pub open spec fn without_member(z: Seq<(Seq<char>, u64)>, m: Seq<char>) -> Seq<(Seq<char>, u64)> {
    let i = member_pos(z, m);
    if 0 <= i < z.len() {
        z.remove(i)
    } else {
        z
    }
}

/// `z` with member `m` at score key `s`: taken out if present, then put in its
/// place.
pub open spec fn with_score(z: Seq<(Seq<char>, u64)>, m: Seq<char>, s: u64) -> Seq<(Seq<char>, u64)> {
    let r = without_member(z, m);
    r.insert(place(r, (m, s)), (m, s))
}

/// `z` after removing each of `ms` that it holds, with the count removed.
pub open spec fn without_ranked(z: Seq<(Seq<char>, u64)>, ms: Seq<Seq<char>>) -> (Seq<(Seq<char>, u64)>, int)
    decreases ms.len(),
{
    if ms.len() == 0 {
        (z, 0)
    } else {
        let (z1, n) = without_ranked(z, ms.drop_last());
        if member_pos(z1, ms.last()) != -1 {
            (without_member(z1, ms.last()), n + 1)
        } else {
            (z1, n)
        }
    }
}

/// The entries whose score key lies in `min..=max`, in rank order.
pub open spec fn scored_between(z: Seq<(Seq<char>, u64)>, min: u64, max: u64) -> Seq<(Seq<char>, u64)>
    decreases z.len(),
{
    if z.len() == 0 {
        Seq::empty()
    } else {
        let prev = scored_between(z.drop_last(), min, max);
        if min <= z.last().1 <= max {
            prev.push(z.last())
        } else {
            prev
        }
    }
}

/// `z` from the highest rank down.
pub open spec fn reversed(z: Seq<(Seq<char>, u64)>) -> Seq<(Seq<char>, u64)> {
    Seq::new(z.len(), |i: int| z[z.len() - 1 - i])
}

/// The sorted set at a (live) value: `Some` for a sorted set or an absent key
/// (empty), `None` for another type.
pub open spec fn ranked_or_empty(v: Option<ValueView>) -> Option<Seq<(Seq<char>, u64)>> {
    match v {
        None => Some(Seq::empty()),
        Some(ValueView::Ranked(z)) => Some(z),
        Some(_) => None,
    }
}

/// The sorted set held by a (live) value, empty when it holds none.
pub open spec fn ranked_of(v: Option<ValueView>) -> Seq<(Seq<char>, u64)> {
    match v {
        Some(ValueView::Ranked(z)) => z,
        _ => Seq::empty(),
    }
}

proof fn lemma_member_pos(z: Seq<(Seq<char>, u64)>, m: Seq<char>)
    ensures
        -1 <= member_pos(z, m) < z.len(),
        0 <= member_pos(z, m) ==> z[member_pos(z, m)].0 == m,
        member_pos(z, m) == -1 ==> forall|j: int| 0 <= j < z.len() ==> (#[trigger] z[j]).0 != m,
        forall|j: int| member_pos(z, m) < j < z.len() ==> (#[trigger] z[j]).0 != m,
    decreases z.len(),
{
    if z.len() > 0 {
        lemma_member_pos(z.drop_last(), m);
        if z.last().0 != m {
            assert forall|j: int| member_pos(z, m) < j < z.len() implies (#[trigger] z[j]).0 != m by {
                if j < z.len() - 1 {
                    assert(z.drop_last()[j] == z[j]);
                }
            }
        }
    }
}

/// Whether `(m, s)` ranks strictly below `e`.
fn ranks_below(m: &str, s: u64, e: &(String, u64)) -> (r: bool)
    ensures
        r == rank_lt((m@, s), (e.0@, e.1)),
{
    if s != e.1 {
        s < e.1
    } else {
        bytes_lt(m.as_bytes(), e.0.as_str().as_bytes())
    }
}

/// The slot of the last entry for `m`.
fn find_member(z: &Vec<(String, u64)>, m: &str) -> (r: Option<usize>)
    ensures
        match r {
            Some(i) => i == member_pos(ranked_view(z@), m@) && i < z@.len(),
            None => member_pos(ranked_view(z@), m@) == -1,
        },
{
    let ghost s = ranked_view(z@);
    let mut i = z.len();
    assert(s.take(i as int) =~= s);
    while i > 0
        invariant
            i <= z@.len(),
            s == ranked_view(z@),
            member_pos(s, m@) == member_pos(s.take(i as int), m@),
        decreases i,
    {
        proof {
            let t = s.take(i as int);
            assert(t.drop_last() =~= s.take(i as int - 1));
            assert(t.last() == s[i - 1]);
        }
        if text_eq(z[i - 1].0.as_str(), m) {
            return Some(i - 1);
        }
        i = i - 1;
    }
    None
}

/// Where `(m, s)` goes in `z`.
fn place_of(z: &Vec<(String, u64)>, m: &str, s: u64) -> (r: usize)
    ensures
        r == place(ranked_view(z@), (m@, s)),
        r <= z@.len(),
{
    let ghost v = ranked_view(z@);
    let mut i: usize = 0;
    assert(v.skip(0) =~= v);
    while i < z.len() && !ranks_below(m, s, &z[i])
        invariant
            i <= z@.len(),
            v == ranked_view(z@),
            place(v, (m@, s)) == i + place(v.skip(i as int), (m@, s)),
        decreases z@.len() - i,
    {
        proof {
            let t = v.skip(i as int);
            assert(t[0] == v[i as int]);
            assert(t.drop_first() =~= v.skip(i as int + 1));
        }
        i = i + 1;
    }
    proof {
        let t = v.skip(i as int);
        if i < z@.len() {
            assert(t[0] == v[i as int]);
        } else {
            assert(t.len() == 0);
        }
    }
    i
}

/// The entries whose score key lies in `min..=max`.
fn between(z: &Vec<(String, u64)>, min: u64, max: u64) -> (r: Vec<(String, u64)>)
    ensures
        ranked_view(r@) == scored_between(ranked_view(z@), min, max),
{
    let ghost v = ranked_view(z@);
    let mut r: Vec<(String, u64)> = Vec::new();
    let mut i: usize = 0;
    assert(ranked_view(r@) =~= scored_between(v.take(0), min, max));
    while i < z.len()
        invariant
            i <= z@.len(),
            v == ranked_view(z@),
            ranked_view(r@) == scored_between(v.take(i as int), min, max),
        decreases z@.len() - i,
    {
        proof {
            let t = v.take(i as int + 1);
            assert(t.drop_last() =~= v.take(i as int));
            assert(t.last() == v[i as int]);
        }
        if min <= z[i].1 && z[i].1 <= max {
            let ghost before = r@;
            let x = copy_text(&z[i].0);
            r.push((x, z[i].1));
            assert(ranked_view(r@) =~= ranked_view(before).push(v[i as int]));
        }
        i = i + 1;
    }
    assert(v.take(z@.len() as int) =~= v);
    r
}

/// `z` from the highest rank down.
fn reverse_of(z: &Vec<(String, u64)>) -> (r: Vec<(String, u64)>)
    ensures
        ranked_view(r@) == reversed(ranked_view(z@)),
{
    let ghost v = ranked_view(z@);
    let mut r: Vec<(String, u64)> = Vec::new();
    let mut i = z.len();
    while i > 0
        invariant
            i <= z@.len(),
            v == ranked_view(z@),
            r@.len() == z@.len() - i,
            forall|j: int| 0 <= j < r@.len() ==> (#[trigger] ranked_view(r@)[j]) == v[v.len() - 1 - j],
        decreases i,
    {
        let ghost before = r@;
        let x = copy_text(&z[i - 1].0);
        r.push((x, z[i - 1].1));
        assert(ranked_view(r@) =~= ranked_view(before).push(v[i - 1]));
        i = i - 1;
    }
    assert(ranked_view(r@) =~= reversed(v));
    r
}

/// The entries `start..=stop` of `z` (negative indices count from the end; the
/// range is clamped).
fn index_range(z: &Vec<(String, u64)>, start: i64, stop: i64) -> (r: Vec<(String, u64)>)
    ensures
        ({
            let (lo, hi) = clamp_range(z@.len() as int, start as int, stop as int);
            ranked_view(r@) == ranked_view(z@).subrange(lo, hi)
        }),
{
    let ghost v = ranked_view(z@);
    let n = z.len() as i128;
    let s0: i128 = if start < 0 { start as i128 + n } else { start as i128 };
    let s: i128 = if s0 < 0 { 0 } else { s0 };
    let e0: i128 = if stop < 0 { stop as i128 + n } else { stop as i128 };
    let e: i128 = if e0 >= n { n - 1 } else { e0 };
    let mut r: Vec<(String, u64)> = Vec::new();
    if s > e || s >= n {
        assert(ranked_view(r@) =~= v.subrange(0, 0));
        return r;
    }
    let lo = s as usize;
    let hi = (e + 1) as usize;
    let mut j = lo;
    assert(ranked_view(r@) =~= v.subrange(lo as int, lo as int));
    while j < hi
        invariant
            lo <= j <= hi,
            hi <= z@.len(),
            v == ranked_view(z@),
            ranked_view(r@) == v.subrange(lo as int, j as int),
        decreases hi - j,
    {
        let ghost before = r@;
        let x = copy_text(&z[j].0);
        r.push((x, z[j].1));
        assert(ranked_view(r@) =~= ranked_view(before).push(v[j as int]));
        assert(ranked_view(r@) =~= v.subrange(lo as int, j as int + 1));
        j = j + 1;
    }
    r
}

impl Store {
    /// The live sorted set at `key` (empty when absent), or `None` for another
    /// type, with its expiry.
    fn ranked_at(&self, key: &str, now: u64) -> (r: Option<(Vec<(String, u64)>, Option<u64>)>)
        ensures
            match r {
                Some((z, exp)) => ranked_or_empty(self@.value_of(key@, now)) == Some(ranked_view(z@))
                    && exp == self@.expiry_of(key@, now),
                None => ranked_or_empty(self@.value_of(key@, now)) is None,
            },
    {
        match self.find_live(key, now) {
            Some(i) => match &self.entries[i].value {
                Value::Ranked(z) => Some((copy_ranked(z), self.entries[i].expires_at)),
                _ => None,
            },
            None => {
                let z: Vec<(String, u64)> = Vec::new();
                assert(ranked_view(z@) =~= Seq::<(Seq<char>, u64)>::empty());
                Some((z, None))
            },
        }
    }

    /// The sorted set at `key`, empty when it holds none.
    fn ranked_or_none(&self, key: &str, now: u64) -> (r: Vec<(String, u64)>)
        ensures
            ranked_view(r@) == ranked_of(self@.value_of(key@, now)),
    {
        match self.find_live(key, now) {
            Some(i) => match &self.entries[i].value {
                Value::Ranked(z) => copy_ranked(z),
                _ => {
                    let z: Vec<(String, u64)> = Vec::new();
                    assert(ranked_view(z@) =~= Seq::<(Seq<char>, u64)>::empty());
                    z
                },
            },
            None => {
                let z: Vec<(String, u64)> = Vec::new();
                assert(ranked_view(z@) =~= Seq::<(Seq<char>, u64)>::empty());
                z
            },
        }
    }

    /// Gives `member` of the sorted set at `key` (creating it) the score key
    /// `score`; 1 when the member is new, 0 when it was there. A key of another
    /// type is left alone, with 0.
    pub fn zadd(&mut self, key: &str, score: u64, member: &str, now: u64) -> (r: i64)
        ensures
            match ranked_or_empty(old(self)@.value_of(key@, now)) {
                None => r == 0 && final(self)@ == old(self)@,
                Some(z) => {
                    &&& r == if member_pos(z, member@) == -1 { 1i64 } else { 0i64 }
                    &&& final(self)@ == old(self)@.stored(
                        key@,
                        ValueView::Ranked(with_score(z, member@, score)),
                        old(self)@.expiry_of(key@, now),
                    )
                },
            },
            old(self)@.wf() ==> final(self)@.wf(),
    {
        let (mut z, exp) = match self.ranked_at(key, now) {
            Some(p) => p,
            None => {
                return 0;
            },
        };
        let ghost z0 = ranked_view(z@);
        let fresh = match find_member(&z, member) {
            Some(i) => {
                let ghost before = z@;
                z.remove(i);
                assert(ranked_view(z@) =~= ranked_view(before).remove(i as int));
                false
            },
            None => true,
        };
        assert(ranked_view(z@) == without_member(z0, member@));
        let at = place_of(&z, member, score);
        let ghost before = z@;
        z.insert(at, (member.to_owned(), score));
        assert(ranked_view(z@) =~= ranked_view(before).insert(at as int, (member@, score)));
        proof {
            if old(self)@.wf() {
                super::lemma_live_value_ok(old(self)@, key@, now);
                law_score_reads_back(z0, member@, score, member@);
                law_score_keeps_rank_order(z0, member@, score);
            }
        }
        self.store_entry(Entry { key: key.to_owned(), value: Value::Ranked(z), expires_at: exp });
        if fresh {
            1
        } else {
            0
        }
    }

    /// Removes each of `members` from the sorted set at `key`; returns how many
    /// were removed. The key goes when the set empties.
    pub fn zrem(&mut self, key: &str, members: Vec<&str>, now: u64) -> (r: i64)
        ensures
            match old(self)@.value_of(key@, now) {
                Some(ValueView::Ranked(z)) => {
                    let (z2, n) = without_ranked(z, members@.map_values(|x: &str| x@));
                    &&& r == n as i64
                    &&& final(self)@ == if n > 0 {
                        if z2.len() == 0 {
                            old(self)@.deleted(key@)
                        } else {
                            old(self)@.stored(key@, ValueView::Ranked(z2), old(self)@.expiry_of(key@, now))
                        }
                    } else {
                        old(self)@
                    }
                },
                _ => r == 0 && final(self)@ == old(self)@,
            },
            old(self)@.wf() ==> final(self)@.wf(),
    {
        let slot = match self.find_live(key, now) {
            Some(i) => i,
            None => {
                return 0;
            },
        };
        let (mut z, exp) = match &self.entries[slot].value {
            Value::Ranked(z) => (copy_ranked(z), self.entries[slot].expires_at),
            _ => {
                return 0;
            },
        };
        let ghost z0 = ranked_view(z@);
        let ghost xs = members@.map_values(|x: &str| x@);
        let mut n: usize = 0;
        let mut i: usize = 0;
        assert(xs.take(0) =~= Seq::<Seq<char>>::empty());
        while i < members.len()
            invariant
                i <= members@.len(),
                xs == members@.map_values(|x: &str| x@),
                (ranked_view(z@), n as int) == without_ranked(z0, xs.take(i as int)),
                n <= i,
            decreases members@.len() - i,
        {
            proof {
                let t = xs.take(i as int + 1);
                assert(t.drop_last() =~= xs.take(i as int));
                assert(t.last() == xs[i as int]);
            }
            let ghost before = z@;
            match find_member(&z, members[i]) {
                Some(j) => {
                    z.remove(j);
                    assert(ranked_view(z@) =~= ranked_view(before).remove(j as int));
                    n = n + 1;
                },
                None => {},
            }
            i = i + 1;
        }
        assert(xs.take(members@.len() as int) =~= xs);
        proof {
            if old(self)@.wf() {
                super::lemma_live_value_ok(old(self)@, key@, now);
                law_removed_keep_rank_order(z0, xs, Seq::empty());
            }
        }
        if n > 0 {
            if z.len() == 0 {
                proof {
                    super::lemma_key_pos(self@.entries, key@);
                }
                self.remove_slot(slot);
            } else {
                self.store_entry(Entry { key: key.to_owned(), value: Value::Ranked(z), expires_at: exp });
            }
        }
        n as i64
    }

    /// The number of members of the sorted set at `key`.
    pub fn zcard(&self, key: &str, now: u64) -> (r: i64)
        ensures
            r == ranked_of(self@.value_of(key@, now)).len() as i64,
    {
        match self.find_live(key, now) {
            Some(i) => match &self.entries[i].value {
                Value::Ranked(z) => z.len() as i64,
                _ => 0,
            },
            None => 0,
        }
    }

    /// The score key of `member` in the sorted set at `key`.
    pub fn zscore(&self, key: &str, member: &str, now: u64) -> (r: Option<u64>)
        ensures
            r == score_of(ranked_of(self@.value_of(key@, now)), member@),
    {
        let z = self.ranked_or_none(key, now);
        proof {
            lemma_member_pos(ranked_view(z@), member@);
        }
        match find_member(&z, member) {
            Some(i) => Some(z[i].1),
            None => None,
        }
    }

    /// The rank of `member` (0 for the lowest), or, with `reverse`, its rank
    /// from the highest.
    pub fn zrank(&self, key: &str, member: &str, reverse: bool, now: u64) -> (r: Option<i64>)
        ensures
            ({
                let z = ranked_of(self@.value_of(key@, now));
                let i = member_pos(z, member@);
                r == if 0 <= i < z.len() {
                    Some((if reverse { z.len() - 1 - i } else { i }) as i64)
                } else {
                    None::<i64>
                }
            }),
    {
        let z = self.ranked_or_none(key, now);
        proof {
            lemma_member_pos(ranked_view(z@), member@);
        }
        match find_member(&z, member) {
            Some(i) => Some(if reverse { (z.len() - 1 - i) as i64 } else { i as i64 }),
            None => None,
        }
    }

    /// The entries ranked `start..=stop` (negative indices count from the end;
    /// the range is clamped), or, with `reverse`, counted from the highest down.
    pub fn zrange(&self, key: &str, start: i64, stop: i64, reverse: bool, now: u64) -> (r: Vec<(String, u64)>)
        ensures
            ({
                let z0 = ranked_of(self@.value_of(key@, now));
                let z = if reverse { reversed(z0) } else { z0 };
                let (lo, hi) = clamp_range(z.len() as int, start as int, stop as int);
                ranked_view(r@) == z.subrange(lo, hi)
            }),
    {
        let z = self.ranked_or_none(key, now);
        if reverse {
            index_range(&reverse_of(&z), start, stop)
        } else {
            index_range(&z, start, stop)
        }
    }

    /// The entries whose score key lies in `min..=max`, from the lowest rank up,
    /// or, with `reverse`, from the highest down.
    pub fn zrangebyscore(&self, key: &str, min: u64, max: u64, reverse: bool, now: u64) -> (r: Vec<(String, u64)>)
        ensures
            ({
                let s = scored_between(ranked_of(self@.value_of(key@, now)), min, max);
                ranked_view(r@) == if reverse { reversed(s) } else { s }
            }),
    {
        let z = self.ranked_or_none(key, now);
        let s = between(&z, min, max);
        if reverse {
            reverse_of(&s)
        } else {
            s
        }
    }

    /// The number of members whose score key lies in `min..=max`.
    pub fn zcount(&self, key: &str, min: u64, max: u64, now: u64) -> (r: i64)
        ensures
            r == scored_between(ranked_of(self@.value_of(key@, now)), min, max).len() as i64,
    {
        let z = self.ranked_or_none(key, now);
        between(&z, min, max).len() as i64
    }

    /// One page of the members of the sorted set at `key`, in rank order.
    pub fn zscan(&self, key: &str, cursor: usize, pattern: Option<&str>, count: usize, now: u64) -> (r: (usize, Vec<String>))
        ensures
            ({
                let names = ranked_of(self@.value_of(key@, now)).map_values(|p: (Seq<char>, u64)| p.0);
                &&& r.0 == scan_page(names, cursor, opt_view(pattern), count).0
                &&& texts_view(r.1@) == scan_page(names, cursor, opt_view(pattern), count).1
            }),
    {
        let z = self.ranked_or_none(key, now);
        let ghost names = ranked_view(z@).map_values(|p: (Seq<char>, u64)| p.0);
        let mut all: Vec<String> = Vec::new();
        let mut i: usize = 0;
        while i < z.len()
            invariant
                i <= z@.len(),
                names == ranked_view(z@).map_values(|p: (Seq<char>, u64)| p.0),
                texts_view(all@) == names.take(i as int),
            decreases z@.len() - i,
        {
            let ghost before = all@;
            let x = copy_text(&z[i].0);
            all.push(x);
            proof {
                lemma_texts_push(before, x);
            }
            assert(texts_view(all@) =~= names.take(i as int + 1));
            i = i + 1;
        }
        assert(names.take(z@.len() as int) =~= names);
        page(&all, cursor, pattern, count)
    }
}

/// No member occurs twice.
pub open spec fn distinct_members(z: Seq<(Seq<char>, u64)>) -> bool {
    forall|i: int, j: int| #![trigger z[i], z[j]] 0 <= i < j < z.len() ==> z[i].0 != z[j].0
}

/// Every entry ranks strictly below the entries after it.
pub open spec fn ranked(z: Seq<(Seq<char>, u64)>) -> bool {
    forall|i: int, j: int| #![trigger z[i], z[j]] 0 <= i < j < z.len() ==> rank_lt(z[i], z[j])
}

/// With distinct members, an entry's member is found at its own index.
proof fn lemma_member_pos_distinct(z: Seq<(Seq<char>, u64)>, i: int)
    requires
        distinct_members(z),
        0 <= i < z.len(),
    ensures
        member_pos(z, z[i].0) == i,
{
    lemma_member_pos(z, z[i].0);
    let p = member_pos(z, z[i].0);
    if p != i {
        if p < i {
            assert(z[p].0 != z[i].0);
        }
    }
}

proof fn lemma_place(z: Seq<(Seq<char>, u64)>, x: (Seq<char>, u64))
    ensures
        0 <= place(z, x) <= z.len(),
        forall|j: int| 0 <= j < place(z, x) ==> !rank_lt(x, #[trigger] z[j]),
        place(z, x) < z.len() ==> rank_lt(x, z[place(z, x)]),
    decreases z.len(),
{
    if z.len() > 0 && !rank_lt(x, z[0]) {
        let t = z.drop_first();
        lemma_place(t, x);
        assert forall|j: int| 0 <= j < place(z, x) implies !rank_lt(x, #[trigger] z[j]) by {
            if j > 0 {
                assert(z[j] == t[j - 1]);
            }
        }
        if place(z, x) < z.len() {
            assert(z[place(z, x)] == t[place(t, x)]);
        }
    }
}

proof fn lemma_rank_transitive(a: (Seq<char>, u64), b: (Seq<char>, u64), c: (Seq<char>, u64))
    requires
        rank_lt(a, b),
        rank_lt(b, c),
    ensures
        rank_lt(a, c),
{
    crate::lexical::lemma_lex_transitive(encode_utf8(a.0), encode_utf8(b.0), encode_utf8(c.0));
}

/// Of two entries with different members, one ranks below the other.
proof fn lemma_rank_total(a: (Seq<char>, u64), b: (Seq<char>, u64))
    requires
        a.0 != b.0,
    ensures
        rank_lt(a, b) || rank_lt(b, a),
{
    vstd::utf8::encode_utf8_decode_utf8(a.0);
    vstd::utf8::encode_utf8_decode_utf8(b.0);
    crate::lexical::lemma_lex_total(encode_utf8(a.0), encode_utf8(b.0));
}

proof fn lemma_without_member(z: Seq<(Seq<char>, u64)>, m: Seq<char>)
    requires
        distinct_members(z),
    ensures
        distinct_members(without_member(z, m)),
        ranked(z) ==> ranked(without_member(z, m)),
        forall|j: int| 0 <= j < without_member(z, m).len() ==> (#[trigger] without_member(z, m)[j]).0 != m,
        forall|o: Seq<char>| o != m ==> #[trigger] score_of(without_member(z, m), o) == score_of(z, o),
{
    lemma_member_pos(z, m);
    let i = member_pos(z, m);
    let r = without_member(z, m);
    if 0 <= i < z.len() {
        assert forall|a: int, b: int| 0 <= a < b < r.len() implies #[trigger] r[a].0 != #[trigger] r[b].0 by {
            let a0 = if a < i { a } else { a + 1 };
            let b0 = if b < i { b } else { b + 1 };
            assert(r[a] == z[a0] && r[b] == z[b0]);
        }
        if ranked(z) {
            assert forall|a: int, b: int| 0 <= a < b < r.len() implies rank_lt(#[trigger] r[a], #[trigger] r[b]) by {
                let a0 = if a < i { a } else { a + 1 };
                let b0 = if b < i { b } else { b + 1 };
                assert(r[a] == z[a0] && r[b] == z[b0]);
            }
        }
        assert forall|j: int| 0 <= j < r.len() implies (#[trigger] r[j]).0 != m by {
            let j0 = if j < i { j } else { j + 1 };
            assert(r[j] == z[j0]);
            assert(z[i].0 == m);
        }
        assert forall|o: Seq<char>| o != m implies #[trigger] score_of(r, o) == score_of(z, o) by {
            lemma_member_pos(z, o);
            lemma_member_pos(r, o);
            let q = member_pos(z, o);
            if 0 <= q < z.len() {
                assert(q != i);
                let q1 = if q < i { q } else { q - 1 };
                assert(r[q1] == z[q]);
                lemma_member_pos_distinct(r, q1);
            } else {
                assert forall|j: int| 0 <= j < r.len() implies (#[trigger] r[j]).0 != o by {
                    let j0 = if j < i { j } else { j + 1 };
                    assert(r[j] == z[j0]);
                }
            }
        }
    }
}

/// A member given a score reads back that score; every other member keeps its
/// score; no member occurs twice.
pub proof fn law_score_reads_back(z: Seq<(Seq<char>, u64)>, m: Seq<char>, s: u64, o: Seq<char>)
    requires
        distinct_members(z),
    ensures
        score_of(with_score(z, m, s), m) == Some(s),
        o != m ==> score_of(with_score(z, m, s), o) == score_of(z, o),
        distinct_members(with_score(z, m, s)),
{
    lemma_without_member(z, m);
    let r = without_member(z, m);
    let x = (m, s);
    lemma_place(r, x);
    let p = place(r, x);
    let w = r.insert(p, x);
    assert(w[p] == x);
    assert forall|a: int, b: int| 0 <= a < b < w.len() implies #[trigger] w[a].0 != #[trigger] w[b].0 by {
        let a0 = if a < p { a } else { a - 1 };
        let b0 = if b < p { b } else { b - 1 };
        if a != p && b != p {
            assert(w[a] == r[a0] && w[b] == r[b0]);
        } else if a == p {
            assert(w[b] == r[b0]);
        } else {
            assert(w[a] == r[a0]);
        }
    }
    lemma_member_pos_distinct(w, p);
    if o != m {
        assert(score_of(r, o) == score_of(z, o));
        lemma_member_pos(r, o);
        lemma_member_pos(w, o);
        let q = member_pos(r, o);
        if 0 <= q < r.len() {
            let q1 = if q < p { q } else { q + 1 };
            assert(w[q1] == r[q]);
            lemma_member_pos_distinct(w, q1);
        } else {
            assert forall|j: int| 0 <= j < w.len() implies (#[trigger] w[j]).0 != o by {
                if j != p {
                    let j0 = if j < p { j } else { j - 1 };
                    assert(w[j] == r[j0]);
                }
            }
        }
    }
}

/// Giving a member a score keeps the set in rank order.
pub proof fn law_score_keeps_rank_order(z: Seq<(Seq<char>, u64)>, m: Seq<char>, s: u64)
    requires
        distinct_members(z),
        ranked(z),
    ensures
        ranked(with_score(z, m, s)),
{
    lemma_without_member(z, m);
    let r = without_member(z, m);
    let x = (m, s);
    lemma_place(r, x);
    let p = place(r, x);
    let w = r.insert(p, x);
    assert forall|a: int, b: int| 0 <= a < b < w.len() implies rank_lt(#[trigger] w[a], #[trigger] w[b]) by {
        if a != p && b != p {
            let a0 = if a < p { a } else { a - 1 };
            let b0 = if b < p { b } else { b - 1 };
            assert(w[a] == r[a0] && w[b] == r[b0]);
        } else if a == p {
            let b0 = b - 1;
            assert(w[b] == r[b0]);
            assert(w[a] == x);
            if b0 == p {
            } else {
                assert(rank_lt(r[p], r[b0]));
                lemma_rank_transitive(x, r[p], r[b0]);
            }
        } else {
            assert(w[a] == r[a]);
            assert(w[b] == x);
            assert(!rank_lt(x, r[a]));
            assert(r[a].0 != m);
            lemma_rank_total(r[a], x);
        }
    }
}


/// Removing members from a sorted set keeps it in rank order with distinct
/// members; the removed members have no score left, and every other member
/// keeps its score.
pub proof fn law_removed_keep_rank_order(z: Seq<(Seq<char>, u64)>, ms: Seq<Seq<char>>, o: Seq<char>)
    requires
        distinct_members(z),
        ranked(z),
    ensures
        distinct_members(without_ranked(z, ms).0),
        ranked(without_ranked(z, ms).0),
        ms.contains(o) ==> score_of(without_ranked(z, ms).0, o) is None,
        !ms.contains(o) ==> score_of(without_ranked(z, ms).0, o) == score_of(z, o),
    decreases ms.len(),
{
    if ms.len() > 0 {
        let p = ms.drop_last();
        let y = ms.last();
        law_removed_keep_rank_order(z, p, o);
        law_removed_keep_rank_order(z, p, y);
        let w1 = without_ranked(z, p).0;
        lemma_member_pos(w1, y);
        if member_pos(w1, y) != -1 {
            lemma_without_member(w1, y);
            let w = without_member(w1, y);
            assert(score_of(w, o) == score_of(w1, o) || o == y);
            lemma_member_pos(w, y);
            if member_pos(w, y) >= 0 {
                assert(w[member_pos(w, y)].0 == y);
            }
        }
        if ms.contains(o) && o != y {
            let j = choose|j: int| 0 <= j < ms.len() && ms[j] == o;
            assert(p[j] == o);
        }
        if p.contains(o) {
            let j = choose|j: int| 0 <= j < p.len() && p[j] == o;
            assert(ms[j] == o);
        }
        if o == y {
            assert(ms[ms.len() - 1] == o);
        }
    }
}


/// Whether `z` has distinct members in rank order.
pub(crate) fn ranked_distinct(z: &Vec<(String, u64)>) -> (r: bool)
    ensures
        r == (distinct_members(ranked_view(z@)) && ranked(ranked_view(z@))),
{
    let ghost s = ranked_view(z@);
    let mut i: usize = 0;
    while i < z.len()
        invariant
            i <= z@.len(),
            s == ranked_view(z@),
            forall|a: int, b: int| #![trigger s[a], s[b]] 0 <= a < b < i ==> s[a].0 != s[b].0 && rank_lt(s[a], s[b]),
        decreases z@.len() - i,
    {
        if i > 0 {
            if !ranks_below(z[i - 1].0.as_str(), z[i - 1].1, &z[i]) {
                assert(!rank_lt(s[i - 1], s[i as int]));
                return false;
            }
        }
        let mut j: usize = 0;
        while j < i
            invariant
                j <= i < z@.len(),
                s == ranked_view(z@),
                forall|a: int| 0 <= a < j ==> (#[trigger] s[a]).0 != s[i as int].0,
            decreases i - j,
        {
            if text_eq(z[j].0.as_str(), z[i].0.as_str()) {
                assert(s[j as int].0 == s[i as int].0);
                return false;
            }
            j = j + 1;
        }
        proof {
            assert forall|a: int, b: int| #![trigger s[a], s[b]] 0 <= a < b < i + 1 implies s[a].0 != s[b].0
                && rank_lt(s[a], s[b]) by {
                if b == i && a < i - 1 {
                    lemma_rank_transitive(s[a], s[i - 1], s[b]);
                }
            }
        }
        i = i + 1;
    }
    true
}

} // verus!
