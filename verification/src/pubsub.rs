//! Subscription counts per channel and per channel pattern. Connections
//! subscribe and unsubscribe; publishing counts the receivers.
use vstd::prelude::*;

use crate::text::{copy_text, glob, glob_match, text_eq, texts_view};

verus! {

/// Index of the last record for `name`, or -1.
pub open spec fn name_pos(s: Seq<(Seq<char>, usize)>, name: Seq<char>) -> int
    decreases s.len(),
{
    if s.len() == 0 {
        -1
    } else if s.last().0 == name {
        s.len() - 1
    } else {
        name_pos(s.drop_last(), name)
    }
}

/// The subscriber count recorded for `name`.
pub open spec fn count_of(s: Seq<(Seq<char>, usize)>, name: Seq<char>) -> nat {
    let i = name_pos(s, name);
    if 0 <= i < s.len() {
        s[i].1 as nat
    } else {
        0
    }
}

/// Sum of the counts of the patterns of `s` that match `channel`.
pub open spec fn pattern_receivers(s: Seq<(Seq<char>, usize)>, channel: Seq<char>) -> nat
    decreases s.len(),
{
    if s.len() == 0 {
        0
    } else {
        pattern_receivers(s.drop_last(), channel) + if glob(s.last().0, channel) {
            s.last().1 as nat
        } else {
            0
        }
    }
}

/// The names with a record, optionally only those matching `pattern`.
pub open spec fn names_matching(s: Seq<(Seq<char>, usize)>, pattern: Option<Seq<char>>) -> Seq<Seq<char>>
    decreases s.len(),
{
    if s.len() == 0 {
        Seq::empty()
    } else {
        let prev = names_matching(s.drop_last(), pattern);
        match pattern {
            Some(p) => if glob(p, s.last().0) {
                prev.push(s.last().0)
            } else {
                prev
            },
            None => prev.push(s.last().0),
        }
    }
}

pub open spec fn records_view(s: Seq<(String, usize)>) -> Seq<(Seq<char>, usize)> {
    s.map_values(|p: (String, usize)| (p.0@, p.1))
}

pub struct PubSubView {
    pub channels: Seq<(Seq<char>, usize)>,
    pub patterns: Seq<(Seq<char>, usize)>,
}

pub struct PubSub {
    channels: Vec<(String, usize)>,
    patterns: Vec<(String, usize)>,
}

impl View for PubSub {
    type V = PubSubView;

    closed spec fn view(&self) -> PubSubView {
        PubSubView { channels: records_view(self.channels@), patterns: records_view(self.patterns@) }
    }
}

fn find_record(v: &Vec<(String, usize)>, name: &str) -> (r: Option<usize>)
    ensures
        match r {
            Some(i) => i == name_pos(records_view(v@), name@) && i < v@.len(),
            None => name_pos(records_view(v@), name@) == -1,
        },
{
    let ghost s = records_view(v@);
    let mut i = v.len();
    assert(s.take(i as int) =~= s);
    while i > 0
        invariant
            i <= v@.len(),
            s == records_view(v@),
            name_pos(s, name@) == name_pos(s.take(i as int), name@),
        decreases i,
    {
        proof {
            let t = s.take(i as int);
            assert(t.drop_last() =~= s.take(i as int - 1));
            assert(t.last() == s[i - 1]);
        }
        if text_eq(v[i - 1].0.as_str(), name) {
            return Some(i - 1);
        }
        i = i - 1;
    }
    None
}

proof fn lemma_name_pos(s: Seq<(Seq<char>, usize)>, name: Seq<char>)
    ensures
        -1 <= name_pos(s, name) < s.len(),
        0 <= name_pos(s, name) ==> s[name_pos(s, name)].0 == name,
    decreases s.len(),
{
    if s.len() > 0 {
        lemma_name_pos(s.drop_last(), name);
    }
}

/// One more subscriber for `name`.
pub open spec fn with_added(s: Seq<(Seq<char>, usize)>, name: Seq<char>) -> Seq<(Seq<char>, usize)> {
    let i = name_pos(s, name);
    if 0 <= i < s.len() {
        s.update(i, (name, if s[i].1 == usize::MAX { s[i].1 } else { (s[i].1 + 1) as usize }))
    } else {
        s.push((name, 1))
    }
}

/// One subscriber fewer for `name`; the record goes when none is left.
pub open spec fn with_removed(s: Seq<(Seq<char>, usize)>, name: Seq<char>) -> Seq<(Seq<char>, usize)> {
    let i = name_pos(s, name);
    if 0 <= i < s.len() {
        if s[i].1 <= 1 {
            s.remove(i)
        } else {
            s.update(i, (name, (s[i].1 - 1) as usize))
        }
    } else {
        s
    }
}

fn add_record(v: &mut Vec<(String, usize)>, name: &str)
    ensures
        records_view(final(v)@) == with_added(records_view(old(v)@), name@),
{
    proof {
        lemma_name_pos(records_view(v@), name@);
    }
    let ghost before = v@;
    match find_record(v, name) {
        Some(i) => {
            let c = v[i].1;
            let n = if c == usize::MAX { c } else { c + 1 };
            v.set(i, (name.to_owned(), n));
            assert(records_view(v@) =~= with_added(records_view(before), name@));
        },
        None => {
            v.push((name.to_owned(), 1));
            assert(records_view(v@) =~= with_added(records_view(before), name@));
        },
    }
}

fn remove_record(v: &mut Vec<(String, usize)>, name: &str)
    ensures
        records_view(final(v)@) == with_removed(records_view(old(v)@), name@),
{
    proof {
        lemma_name_pos(records_view(v@), name@);
    }
    let ghost before = v@;
    match find_record(v, name) {
        Some(i) => {
            let c = v[i].1;
            if c <= 1 {
                v.remove(i);
            } else {
                v.set(i, (name.to_owned(), c - 1));
            }
            assert(records_view(v@) =~= with_removed(records_view(before), name@));
        },
        None => {},
    }
}

fn names_of(v: &Vec<(String, usize)>, pattern: Option<&str>) -> (r: Vec<String>)
    ensures
        texts_view(r@) == names_matching(records_view(v@), match pattern {
            Some(p) => Some(p@),
            None => None,
        }),
{
    let ghost s = records_view(v@);
    let ghost pat = match pattern {
        Some(p) => Some(p@),
        None => None::<Seq<char>>,
    };
    let mut r: Vec<String> = Vec::new();
    let mut i: usize = 0;
    assert(texts_view(r@) =~= names_matching(s.take(0), pat));
    while i < v.len()
        invariant
            i <= v@.len(),
            s == records_view(v@),
            pat == match pattern {
                Some(p) => Some(p@),
                None => None::<Seq<char>>,
            },
            texts_view(r@) == names_matching(s.take(i as int), pat),
        decreases v@.len() - i,
    {
        proof {
            let t = s.take(i as int + 1);
            assert(t.drop_last() =~= s.take(i as int));
            assert(t.last() == s[i as int]);
        }
        let keep = match pattern {
            Some(p) => glob_match(p, v[i].0.as_str()),
            None => true,
        };
        if keep {
            let ghost before = r@;
            r.push(copy_text(&v[i].0));
            assert(texts_view(r@) =~= texts_view(before).push(s[i as int].0));
        }
        i = i + 1;
    }
    assert(s.take(v@.len() as int) =~= s);
    r
}

impl PubSub {
    pub fn new() -> (p: PubSub)
        ensures
            p@.channels == Seq::<(Seq<char>, usize)>::empty(),
            p@.patterns == Seq::<(Seq<char>, usize)>::empty(),
    {
        let p = PubSub { channels: Vec::new(), patterns: Vec::new() };
        assert(p@.channels =~= Seq::<(Seq<char>, usize)>::empty());
        assert(p@.patterns =~= Seq::<(Seq<char>, usize)>::empty());
        p
    }

    /// A connection subscribes to `channel`.
    pub fn subscribe(&mut self, channel: &str)
        ensures
            final(self)@.channels == with_added(old(self)@.channels, channel@),
            final(self)@.patterns == old(self)@.patterns,
    {
        add_record(&mut self.channels, channel);
    }

    /// A connection unsubscribes from `channel`.
    pub fn unsubscribe(&mut self, channel: &str)
        ensures
            final(self)@.channels == with_removed(old(self)@.channels, channel@),
            final(self)@.patterns == old(self)@.patterns,
    {
        remove_record(&mut self.channels, channel);
    }

    /// A connection subscribes to the channels matching `pattern`.
    pub fn psubscribe(&mut self, pattern: &str)
        ensures
            final(self)@.patterns == with_added(old(self)@.patterns, pattern@),
            final(self)@.channels == old(self)@.channels,
    {
        add_record(&mut self.patterns, pattern);
    }

    /// A connection drops its subscription to `pattern`.
    pub fn punsubscribe(&mut self, pattern: &str)
        ensures
            final(self)@.patterns == with_removed(old(self)@.patterns, pattern@),
            final(self)@.channels == old(self)@.channels,
    {
        remove_record(&mut self.patterns, pattern);
    }

    /// The number of receivers of a message on `channel`: its subscribers and the
    /// subscribers of every matching pattern (capped at the largest `usize`).
    pub fn publish(&self, channel: &str, message: &str) -> (r: usize)
        ensures
            r == if count_of(self@.channels, channel@) + pattern_receivers(self@.patterns, channel@) > usize::MAX {
                usize::MAX as nat
            } else {
                count_of(self@.channels, channel@) + pattern_receivers(self@.patterns, channel@)
            },
    {
        proof {
            lemma_name_pos(self@.channels, channel@);
        }
        let mut total: usize = match find_record(&self.channels, channel) {
            Some(i) => self.channels[i].1,
            None => 0,
        };
        let ghost base = count_of(self@.channels, channel@);
        let ghost ps = self@.patterns;
        let mut i: usize = 0;
        while i < self.patterns.len()
            invariant
                i <= self.patterns@.len(),
                ps == records_view(self.patterns@),
                total == if base + pattern_receivers(ps.take(i as int), channel@) > usize::MAX {
                    usize::MAX as nat
                } else {
                    base + pattern_receivers(ps.take(i as int), channel@)
                },
            decreases self.patterns@.len() - i,
        {
            proof {
                let t = ps.take(i as int + 1);
                assert(t.drop_last() =~= ps.take(i as int));
                assert(t.last() == ps[i as int]);
            }
            if glob_match(self.patterns[i].0.as_str(), channel) {
                total = total.saturating_add(self.patterns[i].1);
            }
            i = i + 1;
        }
        assert(ps.take(self.patterns@.len() as int) =~= ps);
        total
    }

    /// The number of channels with subscribers.
    pub fn channels_count(&self) -> (r: usize)
        ensures
            r == self@.channels.len(),
    {
        self.channels.len()
    }

    /// The number of patterns with subscribers.
    pub fn patterns_count(&self) -> (r: usize)
        ensures
            r == self@.patterns.len(),
    {
        self.patterns.len()
    }

    /// The channels with subscribers, optionally only those matching `pattern`.
    pub fn channels(&self, pattern: Option<&str>) -> (r: Vec<String>)
        ensures
            texts_view(r@) == names_matching(self@.channels, match pattern {
                Some(p) => Some(p@),
                None => None,
            }),
    {
        names_of(&self.channels, pattern)
    }

    /// Each of `channels` with its subscriber count.
    pub fn numsub(&self, channels: &[&str]) -> (r: Vec<(String, usize)>)
        ensures
            r@.len() == channels@.len(),
            forall|i: int| 0 <= i < channels@.len() ==> (#[trigger] r@[i]).0@ == channels@[i]@
                && r@[i].1 == count_of(self@.channels, channels@[i]@),
    {
        let mut r: Vec<(String, usize)> = Vec::new();
        let mut i: usize = 0;
        while i < channels.len()
            invariant
                i <= channels@.len(),
                r@.len() == i,
                forall|j: int| 0 <= j < i ==> (#[trigger] r@[j]).0@ == channels@[j]@
                    && r@[j].1 == count_of(self@.channels, channels@[j]@),
            decreases channels@.len() - i,
        {
            let ch = channels[i];
            proof {
                lemma_name_pos(self@.channels, ch@);
            }
            let n = match find_record(&self.channels, ch) {
                Some(k) => self.channels[k].1,
                None => 0,
            };
            r.push((ch.to_owned(), n));
            i = i + 1;
        }
        r
    }

    /// The number of patterns with subscribers.
    pub fn numpat(&self) -> (r: usize)
        ensures
            r == self@.patterns.len(),
    {
        self.patterns.len()
    }
}

proof fn lemma_name_pos_update(s: Seq<(Seq<char>, usize)>, i: int, p: (Seq<char>, usize), g: Seq<char>)
    requires
        0 <= i < s.len(),
        p.0 == s[i].0,
    ensures
        name_pos(s.update(i, p), g) == name_pos(s, g),
    decreases s.len(),
{
    if i < s.len() - 1 {
        assert(s.update(i, p).drop_last() =~= s.drop_last().update(i, p));
        lemma_name_pos_update(s.drop_last(), i, p, g);
    } else {
        assert(s.update(i, p).drop_last() =~= s.drop_last());
    }
}

/// A subscription adds one subscriber to its name (short of the largest
/// count) and leaves every other name's count alone.
pub proof fn law_subscribe_counts(s: Seq<(Seq<char>, usize)>, name: Seq<char>, other: Seq<char>)
    ensures
        count_of(with_added(s, name), name) == if count_of(s, name) == usize::MAX {
            count_of(s, name)
        } else {
            count_of(s, name) + 1
        },
        other != name ==> count_of(with_added(s, name), other) == count_of(s, other),
{
    lemma_name_pos(s, name);
    lemma_name_pos(s, other);
    let i = name_pos(s, name);
    if 0 <= i < s.len() {
        let p = (name, if s[i].1 == usize::MAX { s[i].1 } else { (s[i].1 + 1) as usize });
        lemma_name_pos_update(s, i, p, name);
        lemma_name_pos_update(s, i, p, other);
        let j = name_pos(s, other);
        if other != name && 0 <= j < s.len() {
            assert(j != i);
            assert(s.update(i, p)[j] == s[j]);
        }
    } else {
        assert(s.push((name, 1)).drop_last() =~= s);
        let j = name_pos(s, other);
        if other != name && 0 <= j < s.len() {
            assert(s.push((name, 1))[j] == s[j]);
        }
    }
}

} // verus!
