//! The in-memory key space: string, list, hash, set and sorted-set values,
//! optional expiry times (lazy: an entry whose time has come reads as absent),
//! and a version per key that every write advances. Every operation keeps the
//! store well formed: keys distinct, versions within the clock, and each value
//! in its shape.
use vstd::prelude::*;

use crate::pubsub::{PubSub, PubSubView};
use crate::text::{text_eq, texts_view};
use hashes::distinct_fields;
use sets::distinct_texts;
use zsets::{distinct_members, ranked};

pub mod bits;
pub mod hashes;
pub mod keys;
pub mod laws;
pub mod lists;
pub mod scan;
pub mod sets;
pub mod snapshot;
pub mod strings;
pub mod zsets;

verus! {

#[derive(Debug)]
pub enum Value {
    Str(String),
    List(Vec<String>),
    Hash(Vec<(String, String)>),
    Members(Vec<String>),
    /// Members with the order keys of their scores, ranked by score and then
    /// by member.
    Ranked(Vec<(String, u64)>),
}

pub enum ValueView {
    Str(Seq<char>),
    List(Seq<Seq<char>>),
    Hash(Seq<(Seq<char>, Seq<char>)>),
    Members(Seq<Seq<char>>),
    Ranked(Seq<(Seq<char>, u64)>),
}

pub open spec fn text_pairs_view(s: Seq<(String, String)>) -> Seq<(Seq<char>, Seq<char>)> {
    s.map_values(|p: (String, String)| (p.0@, p.1@))
}

pub open spec fn ranked_view(s: Seq<(String, u64)>) -> Seq<(Seq<char>, u64)> {
    s.map_values(|p: (String, u64)| (p.0@, p.1))
}

impl View for Value {
    type V = ValueView;

    open spec fn view(&self) -> ValueView {
        match self {
            Value::Str(s) => ValueView::Str(s@),
            Value::List(l) => ValueView::List(texts_view(l@)),
            Value::Hash(h) => ValueView::Hash(text_pairs_view(h@)),
            Value::Members(m) => ValueView::Members(texts_view(m@)),
            Value::Ranked(z) => ValueView::Ranked(ranked_view(z@)),
        }
    }
}

pub struct Entry {
    pub key: String,
    pub value: Value,
    /// Expiry time in milliseconds since the Unix epoch.
    pub expires_at: Option<u64>,
}

pub struct EntryView {
    pub key: Seq<char>,
    pub value: ValueView,
    pub expires_at: Option<u64>,
}

impl View for Entry {
    type V = EntryView;

    open spec fn view(&self) -> EntryView {
        EntryView { key: self.key@, value: self.value@, expires_at: self.expires_at }
    }
}

pub open spec fn entries_view(s: Seq<Entry>) -> Seq<EntryView> {
    s.map_values(|e: Entry| e@)
}

/// Index of the last entry with key `k`, or -1.
pub open spec fn key_pos(s: Seq<EntryView>, k: Seq<char>) -> int
    decreases s.len(),
{
    if s.len() == 0 {
        -1
    } else if s.last().key == k {
        s.len() - 1
    } else {
        key_pos(s.drop_last(), k)
    }
}

/// Index of the last version record for key `k`, or -1.
pub open spec fn version_pos(s: Seq<(Seq<char>, u64)>, k: Seq<char>) -> int
    decreases s.len(),
{
    if s.len() == 0 {
        -1
    } else if s.last().0 == k {
        s.len() - 1
    } else {
        version_pos(s.drop_last(), k)
    }
}

/// No two entries share a key.
pub open spec fn keys_distinct(s: Seq<EntryView>) -> bool {
    forall|i: int, j: int| #![trigger s[i], s[j]] 0 <= i < j < s.len() ==> s[i].key != s[j].key
}

/// A value keeps its shape: a set's members are distinct, a hash's field
/// names are distinct, and a sorted set's members are distinct and in rank
/// order.
pub open spec fn value_ok(v: ValueView) -> bool {
    match v {
        ValueView::Members(m) => distinct_texts(m),
        ValueView::Hash(h) => distinct_fields(h),
        ValueView::Ranked(z) => distinct_members(z) && ranked(z),
        _ => true,
    }
}

/// Every entry's value keeps its shape.
pub open spec fn values_ok(es: Seq<EntryView>) -> bool {
    forall|i: int| 0 <= i < es.len() ==> value_ok(#[trigger] es[i].value)
}

/// An entry is live until its expiry time.
pub open spec fn is_live(e: EntryView, now: u64) -> bool {
    match e.expires_at {
        None => true,
        Some(t) => now < t,
    }
}

/// The version clock after one more write (it stops at its maximum).
pub open spec fn next_clock(c: u64) -> u64 {
    if c == u64::MAX {
        c
    } else {
        (c + 1) as u64
    }
}

/// `now + delta` milliseconds, stopping at the largest time.
pub open spec fn add_ms(now: u64, delta: u64) -> u64 {
    if now + delta > u64::MAX {
        u64::MAX
    } else {
        (now + delta) as u64
    }
}

/// `secs` seconds in milliseconds, stopping at the largest value.
pub open spec fn secs_to_ms(secs: u64) -> u64 {
    if secs * 1000 > u64::MAX {
        u64::MAX
    } else {
        (secs * 1000) as u64
    }
}

pub struct StoreView {
    pub entries: Seq<EntryView>,
    pub versions: Seq<(Seq<char>, u64)>,
    pub clock: u64,
    pub pubsub: PubSubView,
}

impl StoreView {
    pub open spec fn slot(self, k: Seq<char>) -> int {
        key_pos(self.entries, k)
    }

    /// The live entry for `k` at time `now`.
    pub open spec fn lookup(self, k: Seq<char>, now: u64) -> Option<EntryView> {
        let i = self.slot(k);
        if 0 <= i < self.entries.len() && is_live(self.entries[i], now) {
            Some(self.entries[i])
        } else {
            None
        }
    }

    /// The live value of `k` at time `now`.
    pub open spec fn value_of(self, k: Seq<char>, now: u64) -> Option<ValueView> {
        match self.lookup(k, now) {
            Some(e) => Some(e.value),
            None => None,
        }
    }

    /// `e` stored under its key: replacing the entry of that key in place, or
    /// appended when there is none.
    pub open spec fn with_entry(self, e: EntryView) -> StoreView {
        let i = self.slot(e.key);
        StoreView {
            entries: if 0 <= i < self.entries.len() {
                self.entries.update(i, e)
            } else {
                self.entries.push(e)
            },
            ..self
        }
    }

    /// The entry of `k` (live or not) removed.
    pub open spec fn without(self, k: Seq<char>) -> StoreView {
        let i = self.slot(k);
        StoreView {
            entries: if 0 <= i < self.entries.len() {
                self.entries.remove(i)
            } else {
                self.entries
            },
            ..self
        }
    }

    /// The version of `k`: the clock value of its last write, 0 if never written.
    pub open spec fn version(self, k: Seq<char>) -> u64 {
        let i = version_pos(self.versions, k);
        if 0 <= i < self.versions.len() {
            self.versions[i].1
        } else {
            0
        }
    }

    /// The store after recording a write to `k`.
    pub open spec fn touched(self, k: Seq<char>) -> StoreView {
        let c = next_clock(self.clock);
        let i = version_pos(self.versions, k);
        StoreView {
            clock: c,
            versions: if 0 <= i < self.versions.len() {
                self.versions.update(i, (k, c))
            } else {
                self.versions.push((k, c))
            },
            ..self
        }
    }

    /// `v` stored under `k` with expiry `exp`, as a write to `k`.
    pub open spec fn stored(self, k: Seq<char>, v: ValueView, exp: Option<u64>) -> StoreView {
        self.with_entry(EntryView { key: k, value: v, expires_at: exp }).touched(k)
    }

    /// `k` deleted, as a write to `k`.
    pub open spec fn deleted(self, k: Seq<char>) -> StoreView {
        self.without(k).touched(k)
    }

    /// Every version is at most the clock, no two entries share a key, and
    /// every value keeps its shape.
    pub open spec fn wf(self) -> bool {
        &&& forall|i: int| 0 <= i < self.versions.len() ==> (#[trigger] self.versions[i]).1 <= self.clock
        &&& keys_distinct(self.entries)
        &&& values_ok(self.entries)
    }
}

pub struct Store {
    entries: Vec<Entry>,
    versions: Vec<(String, u64)>,
    clock: u64,
    pubsub: PubSub,
}

impl View for Store {
    type V = StoreView;

    closed spec fn view(&self) -> StoreView {
        StoreView {
            entries: entries_view(self.entries@),
            versions: self.versions@.map_values(|p: (String, u64)| (p.0@, p.1)),
            clock: self.clock,
            pubsub: self.pubsub@,
        }
    }
}

/// The error of a store operation.
#[derive(Debug, Clone, Copy, PartialEq, Eq, Structural)]
pub enum StoreError {
    WrongType,
    NotInteger,
    Overflow,
    NoSuchKey,
}

impl StoreError {
    /// The text of the error.
    pub fn message(&self) -> (r: String)
        ensures
            r@ == self.text(),
    {
        match self {
            StoreError::WrongType => crate::text::text("WRONGTYPE Operation against a key holding the wrong kind of value"),
            StoreError::NotInteger => crate::text::text("value is not an integer or out of range"),
            StoreError::Overflow => crate::text::text("increment or decrement would overflow"),
            StoreError::NoSuchKey => crate::text::text("no such key"),
        }
    }

    pub open spec fn text(&self) -> Seq<char> {
        match self {
            StoreError::WrongType => "WRONGTYPE Operation against a key holding the wrong kind of value"@,
            StoreError::NotInteger => "value is not an integer or out of range"@,
            StoreError::Overflow => "increment or decrement would overflow"@,
            StoreError::NoSuchKey => "no such key"@,
        }
    }
}

pub proof fn lemma_key_pos(s: Seq<EntryView>, k: Seq<char>)
    ensures
        -1 <= key_pos(s, k) < s.len(),
        0 <= key_pos(s, k) ==> s[key_pos(s, k)].key == k,
        key_pos(s, k) == -1 ==> forall|j: int| 0 <= j < s.len() ==> (#[trigger] s[j]).key != k,
    decreases s.len(),
{
    if s.len() > 0 {
        lemma_key_pos(s.drop_last(), k);
        if s.last().key != k {
            assert forall|j: int| 0 <= j < s.len() && key_pos(s, k) == -1 implies (#[trigger] s[j]).key != k by {
                if j < s.len() - 1 {
                    assert(s[j] == s.drop_last()[j]);
                }
            }
        }
    }
}

pub proof fn lemma_version_pos(s: Seq<(Seq<char>, u64)>, k: Seq<char>)
    ensures
        -1 <= version_pos(s, k) < s.len(),
        0 <= version_pos(s, k) ==> s[version_pos(s, k)].0 == k,
    decreases s.len(),
{
    if s.len() > 0 {
        lemma_version_pos(s.drop_last(), k);
    }
}

/// Replacing an entry by one with the same key moves no key.
pub proof fn lemma_key_pos_update(s: Seq<EntryView>, i: int, e: EntryView, k: Seq<char>)
    requires
        0 <= i < s.len(),
        s[i].key == e.key,
    ensures
        key_pos(s.update(i, e), k) == key_pos(s, k),
    decreases s.len(),
{
    if i < s.len() - 1 {
        assert(s.update(i, e).drop_last() =~= s.drop_last().update(i, e));
        lemma_key_pos_update(s.drop_last(), i, e, k);
    } else {
        assert(s.update(i, e).drop_last() =~= s.drop_last());
    }
}

pub proof fn lemma_key_pos_push(s: Seq<EntryView>, e: EntryView, k: Seq<char>)
    ensures
        key_pos(s.push(e), k) == if e.key == k { s.len() as int } else { key_pos(s, k) },
{
    assert(s.push(e).drop_last() =~= s);
}

/// With distinct keys, an entry's slot is its own index.
pub proof fn lemma_distinct_slot(s: Seq<EntryView>, j: int)
    requires
        keys_distinct(s),
        0 <= j < s.len(),
    ensures
        key_pos(s, s[j].key) == j,
    decreases s.len(),
{
    if j < s.len() - 1 {
        assert(s.last().key != s[j].key);
        assert(s.drop_last()[j] == s[j]);
        lemma_distinct_slot(s.drop_last(), j);
    }
}

/// Storing an entry keeps the keys distinct.
pub proof fn lemma_distinct_with_entry(st: StoreView, e: EntryView)
    requires
        keys_distinct(st.entries),
    ensures
        keys_distinct(st.with_entry(e).entries),
{
    lemma_key_pos(st.entries, e.key);
    let s = st.with_entry(e).entries;
    let i = st.slot(e.key);
    assert forall|a: int, b: int| 0 <= a < b < s.len() implies #[trigger] s[a].key != #[trigger] s[b].key by {
        if 0 <= i < st.entries.len() {
            assert(st.entries[i].key == e.key);
        } else {
            if b == st.entries.len() {
                assert(st.entries[a].key != e.key);
            }
        }
    }
}

/// Removing an entry keeps the keys distinct.
pub proof fn lemma_distinct_without(st: StoreView, k: Seq<char>)
    requires
        keys_distinct(st.entries),
    ensures
        keys_distinct(st.without(k).entries),
{
    let s = st.without(k).entries;
    let i = st.slot(k);
    assert forall|a: int, b: int| 0 <= a < b < s.len() implies #[trigger] s[a].key != #[trigger] s[b].key by {
        if 0 <= i < st.entries.len() {
            let a0 = if a < i { a } else { a + 1 };
            let b0 = if b < i { b } else { b + 1 };
            assert(s[a] == st.entries[a0]);
            assert(s[b] == st.entries[b0]);
            assert(st.entries[a0].key != st.entries[b0].key);
        }
    }
}

/// Storing a value that keeps its shape keeps every value's shape.
pub proof fn lemma_values_ok_with_entry(st: StoreView, e: EntryView)
    requires
        values_ok(st.entries),
        value_ok(e.value),
    ensures
        values_ok(st.with_entry(e).entries),
{
    let s = st.with_entry(e).entries;
    assert forall|j: int| 0 <= j < s.len() implies value_ok(#[trigger] s[j].value) by {
        if j < st.entries.len() && s[j] != e {
            assert(s[j] == st.entries[j]);
        }
    }
}

/// Removing an entry keeps every other value's shape.
pub proof fn lemma_values_ok_without(st: StoreView, k: Seq<char>)
    requires
        values_ok(st.entries),
    ensures
        values_ok(st.without(k).entries),
{
    let s = st.without(k).entries;
    let i = st.slot(k);
    assert forall|j: int| 0 <= j < s.len() implies value_ok(#[trigger] s[j].value) by {
        if 0 <= i < st.entries.len() {
            let j0 = if j < i { j } else { j + 1 };
            assert(s[j] == st.entries[j0]);
        }
    }
}

/// In a well-formed store, every live value keeps its shape.
pub proof fn lemma_live_value_ok(st: StoreView, k: Seq<char>, now: u64)
    requires
        st.wf(),
    ensures
        st.value_of(k, now) matches Some(v) ==> value_ok(v),
{
}

/// Storing an entry makes it the live entry of its key (when it has not expired).
pub proof fn lemma_with_entry_lookup(st: StoreView, e: EntryView, k: Seq<char>, now: u64)
    ensures
        st.with_entry(e).lookup(k, now) == if k == e.key {
            if is_live(e, now) { Some(e) } else { None }
        } else {
            st.lookup(k, now)
        },
{
    let i = st.slot(e.key);
    lemma_key_pos(st.entries, e.key);
    lemma_key_pos(st.entries, k);
    if 0 <= i < st.entries.len() {
        lemma_key_pos_update(st.entries, i, e, k);
        if k == e.key {
            assert(st.with_entry(e).entries[i] == e);
        } else {
            let j = st.slot(k);
            if 0 <= j {
                assert(j != i);
            }
        }
    } else {
        lemma_key_pos_push(st.entries, e, k);
    }
}

/// A write to `k` gives it the new clock value; every other key keeps its version.
pub proof fn lemma_touched_version(st: StoreView, k: Seq<char>, other: Seq<char>)
    ensures
        st.touched(k).version(k) == next_clock(st.clock),
        other != k ==> st.touched(k).version(other) == st.version(other),
{
    lemma_version_pos(st.versions, k);
    lemma_version_pos(st.versions, other);
    let i = version_pos(st.versions, k);
    let c = next_clock(st.clock);
    if 0 <= i < st.versions.len() {
        let s2 = st.versions.update(i, (k, c));
        assert(version_pos(s2, k) == i) by {
            lemma_version_pos_update(st.versions, i, (k, c), k);
        }
        lemma_version_pos_update(st.versions, i, (k, c), other);
    } else {
        assert(st.versions.push((k, c)).drop_last() =~= st.versions);
    }
}

pub proof fn lemma_version_pos_update(s: Seq<(Seq<char>, u64)>, i: int, p: (Seq<char>, u64), k: Seq<char>)
    requires
        0 <= i < s.len(),
        s[i].0 == p.0,
    ensures
        version_pos(s.update(i, p), k) == version_pos(s, k),
    decreases s.len(),
{
    if i < s.len() - 1 {
        assert(s.update(i, p).drop_last() =~= s.drop_last().update(i, p));
        lemma_version_pos_update(s.drop_last(), i, p, k);
    } else {
        assert(s.update(i, p).drop_last() =~= s.drop_last());
    }
}

/// A copy of the strings of `v`.
pub(crate) fn copy_texts(v: &Vec<String>) -> (r: Vec<String>)
    ensures
        texts_view(r@) == texts_view(v@),
{
    let mut r: Vec<String> = Vec::new();
    let mut i: usize = 0;
    while i < v.len()
        invariant
            i <= v@.len(),
            r@.len() == i,
            texts_view(r@) == texts_view(v@).take(i as int),
        decreases v@.len() - i,
    {
        let ghost before = r@;
        r.push(crate::text::copy_text(&v[i]));
        assert(texts_view(r@) =~= texts_view(v@).take(i as int + 1));
        i = i + 1;
    }
    assert(texts_view(v@).take(v@.len() as int) =~= texts_view(v@));
    r
}

/// A copy of the string pairs of `v`.
pub(crate) fn copy_text_pairs(v: &Vec<(String, String)>) -> (r: Vec<(String, String)>)
    ensures
        text_pairs_view(r@) == text_pairs_view(v@),
{
    let mut r: Vec<(String, String)> = Vec::new();
    let mut i: usize = 0;
    while i < v.len()
        invariant
            i <= v@.len(),
            r@.len() == i,
            text_pairs_view(r@) == text_pairs_view(v@).take(i as int),
        decreases v@.len() - i,
    {
        let ghost before = r@;
        r.push((crate::text::copy_text(&v[i].0), crate::text::copy_text(&v[i].1)));
        assert(text_pairs_view(r@) =~= text_pairs_view(v@).take(i as int + 1));
        i = i + 1;
    }
    assert(text_pairs_view(v@).take(v@.len() as int) =~= text_pairs_view(v@));
    r
}

/// A copy of `z`.
pub(crate) fn copy_ranked(z: &Vec<(String, u64)>) -> (r: Vec<(String, u64)>)
    ensures
        ranked_view(r@) == ranked_view(z@),
{
    let mut r: Vec<(String, u64)> = Vec::new();
    let mut i: usize = 0;
    while i < z.len()
        invariant
            i <= z@.len(),
            r@.len() == i,
            ranked_view(r@) == ranked_view(z@).take(i as int),
        decreases z@.len() - i,
    {
        let ghost before = r@;
        let x = crate::text::copy_text(&z[i].0);
        r.push((x, z[i].1));
        assert(ranked_view(r@) =~= ranked_view(before).push((x@, z@[i as int].1)));
        assert(ranked_view(r@) =~= ranked_view(z@).take(i as int + 1));
        i = i + 1;
    }
    assert(ranked_view(z@).take(z@.len() as int) =~= ranked_view(z@));
    r
}

/// A copy of `v`.
pub(crate) fn clone_value(v: &Value) -> (r: Value)
    ensures
        r@ == v@,
{
    match v {
        Value::Str(s) => Value::Str(crate::text::copy_text(s)),
        Value::List(l) => Value::List(copy_texts(l)),
        Value::Hash(h) => Value::Hash(copy_text_pairs(h)),
        Value::Members(m) => Value::Members(copy_texts(m)),
        Value::Ranked(z) => Value::Ranked(copy_ranked(z)),
    }
}

impl Store {
    pub fn new() -> (s: Store)
        ensures
            s@.entries == Seq::<EntryView>::empty(),
            s@.versions == Seq::<(Seq<char>, u64)>::empty(),
            s@.clock == 0,
            s@.pubsub.channels.len() == 0,
            s@.pubsub.patterns.len() == 0,
            s@.wf(),
    {
        let s = Store { entries: Vec::new(), versions: Vec::new(), clock: 0, pubsub: PubSub::new() };
        assert(s@.entries =~= Seq::<EntryView>::empty());
        assert(s@.versions =~= Seq::<(Seq<char>, u64)>::empty());
        s
    }

    /// The publish/subscribe registry.
    pub fn pubsub(&self) -> (r: &PubSub)
        ensures
            r@ == self@.pubsub,
    {
        &self.pubsub
    }

    /// A connection subscribes to `channel`.
    pub fn subscribe(&mut self, channel: &str)
        ensures
            final(self)@ == (StoreView {
                pubsub: PubSubView { channels: crate::pubsub::with_added(old(self)@.pubsub.channels, channel@), ..old(self)@.pubsub },
                ..old(self)@
            }),
    {
        self.pubsub.subscribe(channel);
    }

    /// A connection unsubscribes from `channel`.
    pub fn unsubscribe(&mut self, channel: &str)
        ensures
            final(self)@ == (StoreView {
                pubsub: PubSubView { channels: crate::pubsub::with_removed(old(self)@.pubsub.channels, channel@), ..old(self)@.pubsub },
                ..old(self)@
            }),
    {
        self.pubsub.unsubscribe(channel);
    }

    /// A connection subscribes to the channels matching `pattern`.
    pub fn psubscribe(&mut self, pattern: &str)
        ensures
            final(self)@ == (StoreView {
                pubsub: PubSubView { patterns: crate::pubsub::with_added(old(self)@.pubsub.patterns, pattern@), ..old(self)@.pubsub },
                ..old(self)@
            }),
    {
        self.pubsub.psubscribe(pattern);
    }

    /// A connection drops its subscription to `pattern`.
    pub fn punsubscribe(&mut self, pattern: &str)
        ensures
            final(self)@ == (StoreView {
                pubsub: PubSubView { patterns: crate::pubsub::with_removed(old(self)@.pubsub.patterns, pattern@), ..old(self)@.pubsub },
                ..old(self)@
            }),
    {
        self.pubsub.punsubscribe(pattern);
    }

    /// Slot of the entry for `key`, live or not.
    pub(crate) fn find(&self, key: &str) -> (r: Option<usize>)
        ensures
            match r {
                Some(i) => i == self@.slot(key@) && i < self@.entries.len(),
                None => self@.slot(key@) == -1,
            },
    {
        let mut i = self.entries.len();
        assert(self@.entries.take(i as int) =~= self@.entries);
        while i > 0
            invariant
                i <= self@.entries.len(),
                key_pos(self@.entries, key@) == key_pos(self@.entries.take(i as int), key@),
            decreases i,
        {
            let e = &self.entries[i - 1];
            proof {
                let t = self@.entries.take(i as int);
                assert(t.drop_last() =~= self@.entries.take(i as int - 1));
                assert(t.last() == e@);
                assert(self@.entries[i - 1] == e@);
            }
            if text_eq(e.key.as_str(), key) {
                return Some(i - 1);
            }
            i = i - 1;
        }
        None
    }

    /// Slot of the live entry for `key` at time `now`.
    pub(crate) fn find_live(&self, key: &str, now: u64) -> (r: Option<usize>)
        ensures
            match r {
                Some(i) => self@.lookup(key@, now) == Some(self@.entries[i as int]) && i == self@.slot(key@)
                    && i < self@.entries.len(),
                None => self@.lookup(key@, now) is None,
            },
    {
        match self.find(key) {
            Some(i) => {
                let live = match self.entries[i].expires_at {
                    None => true,
                    Some(t) => now < t,
                };
                assert(self@.entries[i as int] == self.entries@[i as int]@);
                if live {
                    Some(i)
                } else {
                    None
                }
            },
            None => None,
        }
    }

    /// Stores `e` under its key (in place or appended) and records the write.
    pub(crate) fn store_entry(&mut self, e: Entry)
        ensures
            final(self)@ == old(self)@.with_entry(e@).touched(e@.key),
            old(self)@.wf() && value_ok(e@.value) ==> final(self)@.wf(),
    {
        let ghost ev = e@;
        let key = crate::text::copy_text(&e.key);
        match self.find(e.key.as_str()) {
            Some(i) => {
                let ghost before = self.entries@;
                self.entries.set(i, e);
                assert(entries_view(self.entries@) =~= entries_view(before).update(i as int, ev));
            },
            None => {
                let ghost before = self.entries@;
                self.entries.push(e);
                assert(entries_view(self.entries@) =~= entries_view(before).push(ev));
            },
        }
        assert(self@.versions == old(self)@.versions);
        proof {
            if old(self)@.wf() && value_ok(ev.value) {
                lemma_distinct_with_entry(old(self)@, ev);
                lemma_values_ok_with_entry(old(self)@, ev);
            }
        }
        self.touch(&key);
    }

    /// Removes the entry in slot `i`, records a write to its key, and returns it.
    pub(crate) fn remove_slot(&mut self, i: usize) -> (e: Entry)
        requires
            i < old(self)@.entries.len(),
            i == old(self)@.slot(old(self)@.entries[i as int].key),
        ensures
            e@ == old(self)@.entries[i as int],
            final(self)@ == old(self)@.without(e@.key).touched(e@.key),
            old(self)@.wf() ==> final(self)@.wf(),
    {
        let ghost before = self.entries@;
        let e = self.entries.remove(i);
        assert(entries_view(self.entries@) =~= entries_view(before).remove(i as int));
        assert(self@.versions == old(self)@.versions);
        proof {
            if old(self)@.wf() {
                lemma_distinct_without(old(self)@, e@.key);
                lemma_values_ok_without(old(self)@, e@.key);
            }
        }
        self.touch(e.key.as_str());
        e
    }

    /// Records a write to `key`.
    pub(crate) fn touch(&mut self, key: &str)
        ensures
            final(self)@ == old(self)@.touched(key@),
            old(self)@.wf() ==> final(self)@.wf(),
    {
        let c = if self.clock == u64::MAX { self.clock } else { self.clock + 1 };
        self.clock = c;
        let ghost vs = self@.versions;
        let mut i = self.versions.len();
        assert(vs.take(i as int) =~= vs);
        while i > 0
            invariant
                i <= self.versions@.len(),
                vs == self.versions@.map_values(|p: (String, u64)| (p.0@, p.1)),
                vs == old(self)@.versions,
                self.entries == old(self).entries,
                self.pubsub == old(self).pubsub,
                self.clock == c,
                c == next_clock(old(self)@.clock),
                version_pos(vs, key@) == version_pos(vs.take(i as int), key@),
            decreases i,
        {
            proof {
                let t = vs.take(i as int);
                assert(t.drop_last() =~= vs.take(i as int - 1));
                assert(t.last() == vs[i - 1]);
            }
            if text_eq(self.versions[i - 1].0.as_str(), key) {
                let ghost before = self.versions@;
                self.versions.set(i - 1, (key.to_owned(), c));
                assert(self.versions@.map_values(|p: (String, u64)| (p.0@, p.1)) =~= vs.update(i - 1, (key@, c)));
                return;
            }
            i = i - 1;
        }
        let ghost before = self.versions@;
        self.versions.push((key.to_owned(), c));
        assert(self.versions@.map_values(|p: (String, u64)| (p.0@, p.1)) =~= vs.push((key@, c)));
    }

    /// The version of `key`: the clock value of its last write, or 0.
    pub fn get_key_version(&self, key: &str) -> (r: u64)
        ensures
            r == self@.version(key@),
    {
        let ghost vs = self@.versions;
        let mut i = self.versions.len();
        assert(vs.take(i as int) =~= vs);
        while i > 0
            invariant
                i <= self.versions@.len(),
                vs == self.versions@.map_values(|p: (String, u64)| (p.0@, p.1)),
                version_pos(vs, key@) == version_pos(vs.take(i as int), key@),
            decreases i,
        {
            proof {
                let t = vs.take(i as int);
                assert(t.drop_last() =~= vs.take(i as int - 1));
                assert(t.last() == vs[i - 1]);
            }
            if text_eq(self.versions[i - 1].0.as_str(), key) {
                return self.versions[i - 1].1;
            }
            i = i - 1;
        }
        0
    }

    /// The version of each of `keys`, in order.
    pub fn get_keys_versions(&self, keys: &[&str]) -> (r: Vec<(String, u64)>)
        ensures
            r@.len() == keys@.len(),
            forall|i: int| 0 <= i < keys@.len() ==> (#[trigger] r@[i]).0@ == keys@[i]@ && r@[i].1 == self@.version(keys@[i]@),
    {
        let mut r: Vec<(String, u64)> = Vec::new();
        let mut i: usize = 0;
        while i < keys.len()
            invariant
                i <= keys@.len(),
                r@.len() == i,
                forall|j: int| 0 <= j < i ==> (#[trigger] r@[j]).0@ == keys@[j]@ && r@[j].1 == self@.version(keys@[j]@),
            decreases keys@.len() - i,
        {
            let k = keys[i];
            r.push((k.to_owned(), self.get_key_version(k)));
            i = i + 1;
        }
        r
    }
}

} // verus!
