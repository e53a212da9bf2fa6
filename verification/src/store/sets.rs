//! Set values: distinct members, in insertion order.
use vstd::prelude::*;

use super::{Entry, Store, StoreError, StoreView, Value, ValueView, copy_texts};
use crate::text::{text_eq, texts_view, lemma_texts_push};

verus! {

/// Index of the last occurrence of `x` in `s`, or -1.
pub open spec fn text_pos(s: Seq<Seq<char>>, x: Seq<char>) -> int
    decreases s.len(),
{
    if s.len() == 0 {
        -1
    } else if s.last() == x {
        s.len() - 1
    } else {
        text_pos(s.drop_last(), x)
    }
}

/// `m` after adding each of `xs` that it does not hold yet, with the count added.
pub open spec fn with_members(m: Seq<Seq<char>>, xs: Seq<Seq<char>>) -> (Seq<Seq<char>>, int)
    decreases xs.len(),
{
    if xs.len() == 0 {
        (m, 0)
    } else {
        let (m1, n) = with_members(m, xs.drop_last());
        if text_pos(m1, xs.last()) == -1 {
            (m1.push(xs.last()), n + 1)
        } else {
            (m1, n)
        }
    }
}

/// `m` after removing each of `xs` that it holds, with the count removed.
pub open spec fn without_members(m: Seq<Seq<char>>, xs: Seq<Seq<char>>) -> (Seq<Seq<char>>, int)
    decreases xs.len(),
{
    if xs.len() == 0 {
        (m, 0)
    } else {
        let (m1, n) = without_members(m, xs.drop_last());
        let i = text_pos(m1, xs.last());
        if 0 <= i < m1.len() {
            (m1.remove(i), n + 1)
        } else {
            (m1, n)
        }
    }
}

pub open spec fn members_or_empty(v: Option<ValueView>) -> Option<Seq<Seq<char>>> {
    match v {
        None => Some(Seq::empty()),
        Some(ValueView::Members(m)) => Some(m),
        Some(_) => None,
    }
}

pub open spec fn members_of(v: Option<ValueView>) -> Seq<Seq<char>> {
    match v {
        Some(ValueView::Members(m)) => m,
        _ => Seq::empty(),
    }
}

fn find_text(v: &Vec<String>, x: &str) -> (r: Option<usize>)
    ensures
        match r {
            Some(i) => i == text_pos(texts_view(v@), x@) && i < v@.len(),
            None => text_pos(texts_view(v@), x@) == -1,
        },
{
    let ghost s = texts_view(v@);
    let mut i = v.len();
    assert(s.take(i as int) =~= s);
    while i > 0
        invariant
            i <= v@.len(),
            s == texts_view(v@),
            text_pos(s, x@) == text_pos(s.take(i as int), x@),
        decreases i,
    {
        proof {
            let t = s.take(i as int);
            assert(t.drop_last() =~= s.take(i as int - 1));
            assert(t.last() == s[i - 1]);
        }
        if text_eq(v[i - 1].as_str(), x) {
            return Some(i - 1);
        }
        i = i - 1;
    }
    None
}

impl Store {
    /// Adds each of `members` not yet in the set at `key` (creating it); returns
    /// how many were added.
    pub fn sadd(&mut self, key: &str, members: Vec<&str>, now: u64) -> (r: Result<i64, StoreError>)
        ensures
            match members_or_empty(old(self)@.value_of(key@, now)) {
                None => r == Err::<i64, StoreError>(StoreError::WrongType) && final(self)@ == old(self)@,
                Some(m) => {
                    let (m2, n) = with_members(m, members@.map_values(|x: &str| x@));
                    &&& r == Ok::<i64, StoreError>(n as i64)
                    &&& final(self)@ == if n > 0 {
                        old(self)@.stored(key@, ValueView::Members(m2), old(self)@.expiry_of(key@, now))
                    } else {
                        old(self)@
                    }
                },
            },
            old(self)@.wf() ==> final(self)@.wf(),
    {
        let (mut m, exp) = match self.find_live(key, now) {
            Some(i) => match &self.entries[i].value {
                Value::Members(m) => (copy_texts(m), self.entries[i].expires_at),
                _ => {
                    return Err(StoreError::WrongType);
                },
            },
            None => {
                let v: Vec<String> = Vec::new();
                assert(texts_view(v@) =~= Seq::<Seq<char>>::empty());
                (v, None)
            },
        };
        let ghost m0 = texts_view(m@);
        let ghost xs = members@.map_values(|x: &str| x@);
        let mut n: usize = 0;
        let mut i: usize = 0;
        assert(xs.take(0) =~= Seq::<Seq<char>>::empty());
        while i < members.len()
            invariant
                i <= members@.len(),
                xs == members@.map_values(|x: &str| x@),
                (texts_view(m@), n as int) == with_members(m0, xs.take(i as int)),
                n <= i,
            decreases members@.len() - i,
        {
            proof {
                let t = xs.take(i as int + 1);
                assert(t.drop_last() =~= xs.take(i as int));
                assert(t.last() == xs[i as int]);
            }
            if find_text(&m, members[i]).is_none() {
                let ghost before = m@;
                let x = members[i].to_owned();
                m.push(x);
                proof {
                    lemma_texts_push(before, x);
                }
                n = n + 1;
            }
            i = i + 1;
        }
        assert(xs.take(members@.len() as int) =~= xs);
        proof {
            if old(self)@.wf() {
                super::lemma_live_value_ok(old(self)@, key@, now);
                law_added_stay_distinct(m0, xs);
            }
        }
        if n > 0 {
            self.store_entry(Entry { key: key.to_owned(), value: Value::Members(m), expires_at: exp });
        }
        Ok(n as i64)
    }

    /// Removes each of `members` from the set at `key`; returns how many were
    /// removed. The key goes when the set empties.
    pub fn srem(&mut self, key: &str, members: Vec<&str>, now: u64) -> (r: i64)
        ensures
            match old(self)@.value_of(key@, now) {
                Some(ValueView::Members(m)) => {
                    let (m2, n) = without_members(m, members@.map_values(|x: &str| x@));
                    &&& r == n as i64
                    &&& final(self)@ == if n > 0 {
                        if m2.len() == 0 {
                            old(self)@.deleted(key@)
                        } else {
                            old(self)@.stored(key@, ValueView::Members(m2), old(self)@.expiry_of(key@, now))
                        }
                    } else {
                        old(self)@
                    }
                },
                _ => r == 0 && final(self)@ == old(self)@,
            },
            old(self)@.wf() ==> final(self)@.wf(),
    {
        let slot = match self.find_live(key, now) {
            Some(i) => i,
            None => {
                return 0;
            },
        };
        let (mut m, exp) = match &self.entries[slot].value {
            Value::Members(m) => (copy_texts(m), self.entries[slot].expires_at),
            _ => {
                return 0;
            },
        };
        let ghost m0 = texts_view(m@);
        let ghost xs = members@.map_values(|x: &str| x@);
        let mut n: usize = 0;
        let mut i: usize = 0;
        assert(xs.take(0) =~= Seq::<Seq<char>>::empty());
        while i < members.len()
            invariant
                i <= members@.len(),
                xs == members@.map_values(|x: &str| x@),
                (texts_view(m@), n as int) == without_members(m0, xs.take(i as int)),
                n <= i,
            decreases members@.len() - i,
        {
            proof {
                let t = xs.take(i as int + 1);
                assert(t.drop_last() =~= xs.take(i as int));
                assert(t.last() == xs[i as int]);
            }
            let ghost before = m@;
            match find_text(&m, members[i]) {
                Some(j) => {
                    m.remove(j);
                    assert(texts_view(m@) =~= texts_view(before).remove(j as int));
                    n = n + 1;
                },
                None => {},
            }
            i = i + 1;
        }
        assert(xs.take(members@.len() as int) =~= xs);
        proof {
            if old(self)@.wf() {
                super::lemma_live_value_ok(old(self)@, key@, now);
                law_removed_are_not_members(m0, xs, Seq::empty());
            }
        }
        if n > 0 {
            if m.len() == 0 {
                proof {
                    super::lemma_key_pos(self@.entries, key@);
                }
                self.remove_slot(slot);
            } else {
                self.store_entry(Entry { key: key.to_owned(), value: Value::Members(m), expires_at: exp });
            }
        }
        n as i64
    }

    /// The members of the set at `key`, in insertion order.
    pub fn smembers(&self, key: &str, now: u64) -> (r: Vec<String>)
        ensures
            texts_view(r@) == members_of(self@.value_of(key@, now)),
    {
        match self.find_live(key, now) {
            Some(i) => match &self.entries[i].value {
                Value::Members(m) => copy_texts(m),
                _ => {
                    let v: Vec<String> = Vec::new();
                    assert(texts_view(v@) =~= Seq::<Seq<char>>::empty());
                    v
                },
            },
            None => {
                let v: Vec<String> = Vec::new();
                assert(texts_view(v@) =~= Seq::<Seq<char>>::empty());
                v
            },
        }
    }

    /// Whether the set at `key` holds `member`.
    pub fn sismember(&self, key: &str, member: &str, now: u64) -> (r: bool)
        ensures
            r == (text_pos(members_of(self@.value_of(key@, now)), member@) != -1),
    {
        match self.find_live(key, now) {
            Some(i) => match &self.entries[i].value {
                Value::Members(m) => find_text(m, member).is_some(),
                _ => false,
            },
            None => false,
        }
    }

    /// The number of members of the set at `key`.
    pub fn scard(&self, key: &str, now: u64) -> (r: i64)
        ensures
            r == members_of(self@.value_of(key@, now)).len() as i64,
    {
        match self.find_live(key, now) {
            Some(i) => match &self.entries[i].value {
                Value::Members(m) => m.len() as i64,
                _ => 0,
            },
            None => 0,
        }
    }
}

proof fn lemma_text_pos_push(s: Seq<Seq<char>>, y: Seq<char>, x: Seq<char>)
    ensures
        text_pos(s.push(y), x) == if y == x { s.len() as int } else { text_pos(s, x) },
{
    assert(s.push(y).drop_last() =~= s);
}

/// After adding members, each of them is a member, and so is every earlier
/// member.
pub proof fn law_added_are_members(m: Seq<Seq<char>>, xs: Seq<Seq<char>>, x: Seq<char>)
    requires
        xs.contains(x) || text_pos(m, x) != -1,
    ensures
        text_pos(with_members(m, xs).0, x) != -1,
    decreases xs.len(),
{
    if xs.len() > 0 {
        let p = xs.drop_last();
        let (m1, n) = with_members(m, p);
        if x != xs.last() {
            assert(p.contains(x) || text_pos(m, x) != -1) by {
                if xs.contains(x) {
                    let j = choose|j: int| 0 <= j < xs.len() && xs[j] == x;
                    assert(p[j] == x);
                }
            }
            law_added_are_members(m, p, x);
            lemma_text_pos_push(m1, xs.last(), x);
        } else {
            lemma_text_pos_push(m1, xs.last(), x);
        }
    }
}


/// No member occurs twice.
pub open spec fn distinct_texts(m: Seq<Seq<char>>) -> bool {
    forall|i: int, j: int| 0 <= i < j < m.len() ==> m[i] != m[j]
}

proof fn lemma_text_pos(s: Seq<Seq<char>>, x: Seq<char>)
    ensures
        -1 <= text_pos(s, x) < s.len(),
        text_pos(s, x) == -1 <==> !s.contains(x),
        0 <= text_pos(s, x) ==> s[text_pos(s, x)] == x,
    decreases s.len(),
{
    if s.len() > 0 {
        let d = s.drop_last();
        lemma_text_pos(d, x);
        if s.last() != x {
            if s.contains(x) {
                let j = choose|j: int| 0 <= j < s.len() && s[j] == x;
                assert(d[j] == x);
            }
            if d.contains(x) {
                let j = choose|j: int| 0 <= j < d.len() && d[j] == x;
                assert(s[j] == x);
            }
        } else {
            assert(s[s.len() - 1] == x);
        }
    }
}

/// Removing one element of a set with distinct members: the rest stay
/// distinct, that element is gone, and every other element stays.
proof fn lemma_remove_distinct(m: Seq<Seq<char>>, i: int, x: Seq<char>)
    requires
        distinct_texts(m),
        0 <= i < m.len(),
    ensures
        distinct_texts(m.remove(i)),
        !m.remove(i).contains(m[i]),
        x != m[i] ==> (m.remove(i).contains(x) <==> m.contains(x)),
{
    let r = m.remove(i);
    assert forall|a: int, b: int| 0 <= a < b < r.len() implies r[a] != r[b] by {
        let a0 = if a < i { a } else { a + 1 };
        let b0 = if b < i { b } else { b + 1 };
        assert(r[a] == m[a0] && r[b] == m[b0]);
    }
    if r.contains(m[i]) {
        let j = choose|j: int| 0 <= j < r.len() && r[j] == m[i];
        let j0 = if j < i { j } else { j + 1 };
        assert(r[j] == m[j0]);
    }
    if x != m[i] {
        if m.contains(x) {
            let j = choose|j: int| 0 <= j < m.len() && m[j] == x;
            assert(j != i);
            let jr = if j < i { j } else { j - 1 };
            assert(r[jr] == x);
        }
        if r.contains(x) {
            let j = choose|j: int| 0 <= j < r.len() && r[j] == x;
            let j0 = if j < i { j } else { j + 1 };
            assert(m[j0] == x);
        }
    }
}

/// Removing members from a set with distinct members: none of them is left,
/// every other member stays, and the members stay distinct.
pub proof fn law_removed_are_not_members(m: Seq<Seq<char>>, xs: Seq<Seq<char>>, x: Seq<char>)
    requires
        distinct_texts(m),
    ensures
        distinct_texts(without_members(m, xs).0),
        xs.contains(x) ==> !without_members(m, xs).0.contains(x),
        !xs.contains(x) ==> (without_members(m, xs).0.contains(x) <==> m.contains(x)),
    decreases xs.len(),
{
    if xs.len() > 0 {
        let p = xs.drop_last();
        let y = xs.last();
        law_removed_are_not_members(m, p, x);
        law_removed_are_not_members(m, p, y);
        let m1 = without_members(m, p).0;
        let i = text_pos(m1, y);
        lemma_text_pos(m1, y);
        if 0 <= i < m1.len() {
            lemma_remove_distinct(m1, i, x);
        }
        if xs.contains(x) && x != y {
            let j = choose|j: int| 0 <= j < xs.len() && xs[j] == x;
            assert(p[j] == x);
        }
        if p.contains(x) {
            let j = choose|j: int| 0 <= j < p.len() && p[j] == x;
            assert(xs[j] == x);
        }
        if x == y {
            assert(xs[xs.len() - 1] == x);
        }
    }
}


/// Adding members keeps the members of a set distinct.
pub proof fn law_added_stay_distinct(m: Seq<Seq<char>>, xs: Seq<Seq<char>>)
    requires
        distinct_texts(m),
    ensures
        distinct_texts(with_members(m, xs).0),
    decreases xs.len(),
{
    if xs.len() > 0 {
        let p = xs.drop_last();
        let y = xs.last();
        law_added_stay_distinct(m, p);
        let m1 = with_members(m, p).0;
        lemma_text_pos(m1, y);
        if text_pos(m1, y) == -1 {
            let m2 = m1.push(y);
            assert forall|a: int, b: int| 0 <= a < b < m2.len() implies m2[a] != m2[b] by {
                if b == m1.len() {
                    assert(m2[a] == m1[a]);
                }
            }
        }
    }
}


/// Whether the members of `v` are distinct.
pub(crate) fn texts_distinct(v: &Vec<String>) -> (r: bool)
    ensures
        r == distinct_texts(texts_view(v@)),
{
    let ghost s = texts_view(v@);
    let mut i: usize = 0;
    while i < v.len()
        invariant
            i <= v@.len(),
            s == texts_view(v@),
            forall|a: int, b: int| 0 <= a < b < i ==> s[a] != s[b],
        decreases v@.len() - i,
    {
        let mut j: usize = 0;
        while j < i
            invariant
                j <= i < v@.len(),
                s == texts_view(v@),
                forall|a: int, b: int| 0 <= a < b < i ==> s[a] != s[b],
                forall|a: int| 0 <= a < j ==> s[a] != s[i as int],
            decreases i - j,
        {
            if text_eq(v[j].as_str(), v[i].as_str()) {
                assert(s[j as int] == s[i as int]);
                return false;
            }
            j = j + 1;
        }
        i = i + 1;
    }
    true
}

} // verus!
