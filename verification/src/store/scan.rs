//! Cursor-based iteration over keys, set members and hash fields.
use vstd::prelude::*;

use super::{EntryView, Store, is_live, text_pairs_view};
use super::hashes::hash_of;
use super::sets::members_of;
use crate::text::{copy_text, glob, glob_match, texts_view, lemma_texts_push};

verus! {

/// The live keys, in insertion order.
pub open spec fn live_all(entries: Seq<EntryView>, now: u64) -> Seq<Seq<char>>
    decreases entries.len(),
{
    if entries.len() == 0 {
        Seq::empty()
    } else {
        let prev = live_all(entries.drop_last(), now);
        if is_live(entries.last(), now) {
            prev.push(entries.last().key)
        } else {
            prev
        }
    }
}

/// The names of `s` that match `pattern` (all of them without a pattern).
pub open spec fn filter_glob(s: Seq<Seq<char>>, pattern: Option<Seq<char>>) -> Seq<Seq<char>>
    decreases s.len(),
{
    if s.len() == 0 {
        Seq::empty()
    } else {
        let prev = filter_glob(s.drop_last(), pattern);
        match pattern {
            Some(p) => if glob(p, s.last()) {
                prev.push(s.last())
            } else {
                prev
            },
            None => prev.push(s.last()),
        }
    }
}

/// One page of a scan over `all`: the names at positions `cursor..cursor+count`
/// that match `pattern`, and the cursor of the next page (0 after the last).
pub open spec fn scan_page(all: Seq<Seq<char>>, cursor: usize, pattern: Option<Seq<char>>, count: usize) -> (usize, Seq<Seq<char>>) {
    let n = all.len();
    let end = if cursor + count < n { cursor + count } else { n as int };
    let chunk = if cursor < n { all.subrange(cursor as int, end) } else { Seq::empty() };
    (if cursor + count < n { (cursor + count) as usize } else { 0 }, filter_glob(chunk, pattern))
}

pub open spec fn opt_view(p: Option<&str>) -> Option<Seq<char>> {
    match p {
        Some(s) => Some(s@),
        None => None,
    }
}

pub(crate) fn page(all: &Vec<String>, cursor: usize, pattern: Option<&str>, count: usize) -> (r: (usize, Vec<String>))
    ensures
        r.0 == scan_page(texts_view(all@), cursor, opt_view(pattern), count).0,
        texts_view(r.1@) == scan_page(texts_view(all@), cursor, opt_view(pattern), count).1,
{
    let ghost s = texts_view(all@);
    let n = all.len();
    let end: usize = if cursor < n && count < n - cursor { cursor + count } else { n };
    let next: usize = if cursor < n && count < n - cursor { cursor + count } else { 0 };
    let mut r: Vec<String> = Vec::new();
    if cursor >= n {
        assert(texts_view(r@) =~= filter_glob(Seq::empty(), opt_view(pattern)));
        return (next, r);
    }
    let ghost chunk = s.subrange(cursor as int, end as int);
    let mut i = cursor;
    assert(chunk.take(0) =~= Seq::<Seq<char>>::empty());
    while i < end
        invariant
            cursor <= i <= end,
            end <= n,
            n == all@.len(),
            s == texts_view(all@),
            chunk == s.subrange(cursor as int, end as int),
            texts_view(r@) == filter_glob(chunk.take(i - cursor), opt_view(pattern)),
        decreases end - i,
    {
        proof {
            let t = chunk.take(i - cursor + 1);
            assert(t.drop_last() =~= chunk.take(i - cursor));
            assert(t.last() == s[i as int]);
        }
        let keep = match pattern {
            Some(p) => glob_match(p, all[i].as_str()),
            None => true,
        };
        if keep {
            let ghost before = r@;
            let x = copy_text(&all[i]);
            r.push(x);
            proof {
                lemma_texts_push(before, x);
            }
        }
        i = i + 1;
    }
    assert(chunk.take(end - cursor) =~= chunk);
    (next, r)
}

impl Store {
    /// The live keys, in insertion order.
    pub fn live_key_list(&self, now: u64) -> (r: Vec<String>)
        ensures
            texts_view(r@) == live_all(self@.entries, now),
    {
        let ghost es = self@.entries;
        let mut r: Vec<String> = Vec::new();
        let mut i: usize = 0;
        assert(texts_view(r@) =~= live_all(es.take(0), now));
        while i < self.entries.len()
            invariant
                i <= es.len(),
                es == self@.entries,
                texts_view(r@) == live_all(es.take(i as int), now),
            decreases es.len() - i,
        {
            let e = &self.entries[i];
            proof {
                let t = es.take(i as int + 1);
                assert(t.drop_last() =~= es.take(i as int));
                assert(t.last() == e@);
            }
            let live = match e.expires_at {
                None => true,
                Some(t) => now < t,
            };
            if live {
                let ghost before = r@;
                let x = copy_text(&e.key);
                r.push(x);
                proof {
                    lemma_texts_push(before, x);
                }
            }
            i = i + 1;
        }
        assert(es.take(es.len() as int) =~= es);
        r
    }

    /// One page of live keys.
    pub fn scan(&self, cursor: usize, pattern: Option<&str>, count: usize, now: u64) -> (r: (usize, Vec<String>))
        ensures
            r.0 == scan_page(live_all(self@.entries, now), cursor, opt_view(pattern), count).0,
            texts_view(r.1@) == scan_page(live_all(self@.entries, now), cursor, opt_view(pattern), count).1,
    {
        let all = self.live_key_list(now);
        page(&all, cursor, pattern, count)
    }

    /// One page of the members of the set at `key`.
    pub fn sscan(&self, key: &str, cursor: usize, pattern: Option<&str>, count: usize, now: u64) -> (r: (usize, Vec<String>))
        ensures
            r.0 == scan_page(members_of(self@.value_of(key@, now)), cursor, opt_view(pattern), count).0,
            texts_view(r.1@) == scan_page(members_of(self@.value_of(key@, now)), cursor, opt_view(pattern), count).1,
    {
        let all = self.smembers(key, now);
        page(&all, cursor, pattern, count)
    }

    /// One page of the field names of the hash at `key`.
    pub fn hscan(&self, key: &str, cursor: usize, pattern: Option<&str>, count: usize, now: u64) -> (r: (usize, Vec<String>))
        ensures
            r.0 == scan_page(
                hash_of(self@.value_of(key@, now)).map_values(|p: (Seq<char>, Seq<char>)| p.0),
                cursor,
                opt_view(pattern),
                count,
            ).0,
            texts_view(r.1@) == scan_page(
                hash_of(self@.value_of(key@, now)).map_values(|p: (Seq<char>, Seq<char>)| p.0),
                cursor,
                opt_view(pattern),
                count,
            ).1,
    {
        let all = self.hkeys(key, now);
        page(&all, cursor, pattern, count)
    }
}

} // verus!
