use vstd::prelude::*;

use crate::buf::copy_bytes;
use crate::lexical::{bytes_eq, by_key, pairs_view, sort_pairs, sorted_by, stable_sorted, with_key,
    law_stable_sort_is_sorted, law_stable_sort_keeps_each_key};

verus! {

/// The value of the most recent entry for `key`.
pub open spec fn latest(entries: Seq<(Seq<u8>, Seq<u8>)>, key: Seq<u8>) -> Option<Seq<u8>>
    decreases entries.len(),
{
    if entries.len() == 0 {
        None
    } else if entries.last().0 == key {
        Some(entries.last().1)
    } else {
        latest(entries.drop_last(), key)
    }
}

/// The put counter after one more put; it wraps around like an atomic `fetch_add`.
pub open spec fn next_count(size: usize) -> usize {
    if size == usize::MAX {
        0
    } else {
        (size + 1) as usize
    }
}

pub struct MemTableView {
    pub size: usize,
    pub max_size: usize,
    pub entries: Seq<(Seq<u8>, Seq<u8>)>,
}

/// An append-only in-memory write buffer: every put is kept, reads see the latest.
pub struct MemTable {
    size: usize,
    max_size: usize,
    data: Vec<(Vec<u8>, Vec<u8>)>,
}

impl View for MemTable {
    type V = MemTableView;

    closed spec fn view(&self) -> MemTableView {
        MemTableView { size: self.size, max_size: self.max_size, entries: pairs_view(self.data@) }
    }
}

fn clone_pair(p: &(Vec<u8>, Vec<u8>)) -> (r: (Vec<u8>, Vec<u8>))
    ensures
        r.0@ == p.0@,
        r.1@ == p.1@,
{
    (copy_bytes(p.0.as_slice()), copy_bytes(p.1.as_slice()))
}

fn clone_pairs(v: &Vec<(Vec<u8>, Vec<u8>)>) -> (r: Vec<(Vec<u8>, Vec<u8>)>)
    ensures
        pairs_view(r@) == pairs_view(v@),
{
    let mut r: Vec<(Vec<u8>, Vec<u8>)> = Vec::new();
    let mut i: usize = 0;
    while i < v.len()
        invariant
            i <= v@.len(),
            r@.len() == i,
            pairs_view(r@) == pairs_view(v@).take(i as int),
        decreases v@.len() - i,
    {
        let p = clone_pair(&v[i]);
        let ghost pv = (p.0@, p.1@);
        assert(pv == pairs_view(v@)[i as int]);
        let ghost before = r@;
        r.push(p);
        assert(r@ == before.push(p));
        assert(pairs_view(r@) =~= pairs_view(before).push(pv));
        assert(pairs_view(r@) =~= pairs_view(v@).take(i as int + 1));
        i = i + 1;
    }
    assert(pairs_view(v@).take(v@.len() as int) =~= pairs_view(v@));
    r
}

impl MemTable {
    pub fn new(max_size: usize) -> (mt: MemTable)
        ensures
            mt@.size == 0,
            mt@.max_size == max_size,
            mt@.entries == Seq::<(Seq<u8>, Seq<u8>)>::empty(),
    {
        let mt = MemTable { size: 0, max_size, data: Vec::new() };
        assert(mt@.entries =~= Seq::<(Seq<u8>, Seq<u8>)>::empty());
        mt
    }

    /// Records `value` for `key` after every earlier entry.
    pub fn put(&mut self, key: Vec<u8>, value: Vec<u8>)
        ensures
            final(self)@.entries == old(self)@.entries.push((key@, value@)),
            final(self)@.size == next_count(old(self)@.size),
            final(self)@.max_size == old(self)@.max_size,
    {
        let ghost before = self.data@;
        self.data.push((key, value));
        assert(pairs_view(self.data@) =~= pairs_view(before).push((key@, value@)));
        self.size = self.size.wrapping_add(1);
    }

    /// The value of the most recent put of `key`.
    pub fn get(&self, key: &[u8]) -> (r: Option<Vec<u8>>)
        ensures
            match r {
                Some(v) => latest(self@.entries, key@) == Some(v@),
                None => latest(self@.entries, key@) is None,
            },
    {
        let mut i = self.data.len();
        assert(self@.entries.take(i as int) =~= self@.entries);
        while i > 0
            invariant
                i <= self@.entries.len(),
                latest(self@.entries, key@) == latest(self@.entries.take(i as int), key@),
            decreases i,
        {
            let e = &self.data[i - 1];
            proof {
                let t = self@.entries.take(i as int);
                assert(t.drop_last() =~= self@.entries.take(i as int - 1));
                assert(t.last() == (e.0@, e.1@));
            }
            if bytes_eq(e.0.as_slice(), key) {
                return Some(copy_bytes(e.1.as_slice()));
            }
            i = i - 1;
        }
        None
    }

    /// Whether the put counter has reached the size limit.
    pub fn is_full(&self) -> (r: bool)
        ensures
            r == (self@.size >= self@.max_size),
    {
        self.size >= self.max_size
    }

    /// Empties the table and returns its entries stably sorted by key.
    pub fn flush(&mut self) -> (r: Vec<(Vec<u8>, Vec<u8>)>)
        ensures
            pairs_view(r@) == stable_sorted(old(self)@.entries, by_key()),
            final(self)@.entries == Seq::<(Seq<u8>, Seq<u8>)>::empty(),
            final(self)@.size == 0,
            final(self)@.max_size == old(self)@.max_size,
    {
        let mut result: Vec<(Vec<u8>, Vec<u8>)> = Vec::new();
        std::mem::swap(&mut result, &mut self.data);
        self.size = 0;
        assert(pairs_view(self.data@) =~= Seq::<(Seq<u8>, Seq<u8>)>::empty());
        sort_pairs(result)
    }

    /// The put counter.
    pub fn len(&self) -> (r: usize)
        ensures
            r == self@.size,
    {
        self.size
    }

    pub fn is_empty(&self) -> (r: bool)
        ensures
            r == (self@.size == 0),
    {
        self.len() == 0
    }

    /// A cursor over a copy of the entries, in put order.
    pub fn iter(&self) -> (it: MemTableIterator)
        ensures
            it@.entries == self@.entries,
            it@.index == 0,
    {
        MemTableIterator { data: clone_pairs(&self.data), index: 0 }
    }
}

pub struct MemTableIteratorView {
    pub entries: Seq<(Seq<u8>, Seq<u8>)>,
    pub index: usize,
}

/// A cursor over a snapshot of a memtable's entries.
pub struct MemTableIterator {
    data: Vec<(Vec<u8>, Vec<u8>)>,
    index: usize,
}

impl View for MemTableIterator {
    type V = MemTableIteratorView;

    closed spec fn view(&self) -> MemTableIteratorView {
        MemTableIteratorView { entries: pairs_view(self.data@), index: self.index }
    }
}

impl MemTableIterator {
    /// The next entry, or `None` once every entry has been returned.
    pub fn next(&mut self) -> (r: Option<(Vec<u8>, Vec<u8>)>)
        ensures
            final(self)@.entries == old(self)@.entries,
            old(self)@.index < old(self)@.entries.len() ==> {
                &&& r is Some
                &&& (r->Some_0.0@, r->Some_0.1@) == old(self)@.entries[old(self)@.index as int]
                &&& final(self)@.index == old(self)@.index + 1
            },
            old(self)@.index >= old(self)@.entries.len() ==> r is None && final(self)@.index == old(self)@.index,
    {
        if self.index < self.data.len() {
            let item = clone_pair(&self.data[self.index]);
            self.index = self.index + 1;
            Some(item)
        } else {
            None
        }
    }
}

/// Reading a key right after writing it gives the value written.
pub proof fn law_read_your_write(entries: Seq<(Seq<u8>, Seq<u8>)>, key: Seq<u8>, value: Seq<u8>)
    ensures
        latest(entries.push((key, value)), key) == Some(value),
{
    assert(entries.push((key, value)).last() == (key, value));
}

/// Writing one key leaves the value read for every other key unchanged.
pub proof fn law_put_keeps_other_keys(entries: Seq<(Seq<u8>, Seq<u8>)>, key: Seq<u8>, value: Seq<u8>, other: Seq<u8>)
    requires
        other != key,
    ensures
        latest(entries.push((key, value)), other) == latest(entries, other),
{
    assert(entries.push((key, value)).drop_last() =~= entries);
}


/// A put counts once more (a repeated key counts again), makes its key read
/// back the value put, leaves every other key's value, and the table is full
/// once the count reaches the limit. The count wraps at the largest `usize`,
/// so that value is left out.
pub proof fn law_put_counts_and_reads(t: MemTableView, key: Seq<u8>, value: Seq<u8>, other: Seq<u8>)
    requires
        t.size < usize::MAX,
    ensures
        ({
            let after = MemTableView { size: next_count(t.size), max_size: t.max_size, entries: t.entries.push((key, value)) };
            &&& after.size == t.size + 1
            &&& latest(after.entries, key) == Some(value)
            &&& other != key ==> latest(after.entries, other) == latest(t.entries, other)
            &&& (after.size >= after.max_size) == (t.size + 1 >= t.max_size)
        }),
{
    law_read_your_write(t.entries, key, value);
    if other != key {
        law_put_keeps_other_keys(t.entries, key, value, other);
    }
}

/// A flush returns the pairs put since the last flush, sorted by key, with,
/// for every key, its pairs in put order (none lost, added or merged); the
/// table is then empty: no key reads back, and a second flush returns nothing.
pub proof fn law_flush_sorts_and_empties(entries: Seq<(Seq<u8>, Seq<u8>)>, k: Seq<u8>)
    ensures
        sorted_by(stable_sorted(entries, by_key()), by_key()),
        with_key(stable_sorted(entries, by_key()), k, by_key()) == with_key(entries, k, by_key()),
        latest(Seq::<(Seq<u8>, Seq<u8>)>::empty(), k) is None,
        stable_sorted(Seq::<(Seq<u8>, Seq<u8>)>::empty(), by_key()) == Seq::<(Seq<u8>, Seq<u8>)>::empty(),
{
    law_stable_sort_is_sorted(entries, by_key());
    law_stable_sort_keeps_each_key(entries, by_key(), k);
}

} // verus!
