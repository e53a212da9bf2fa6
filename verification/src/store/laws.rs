//! What the key space promises across operations: a read gives back the last
//! write, a deleted key is gone, every write advances the key's version, and
//! the list, hash, set, rename, expiry and counter operations keep their words.
use vstd::prelude::*;

use super::{EntryView, StoreView, ValueView, is_live, key_pos, keys_distinct, lemma_distinct_slot,
    lemma_distinct_without, lemma_key_pos, lemma_touched_version, lemma_version_pos, lemma_with_entry_lookup,
    version_pos, add_ms};
use super::keys::live_count;
use super::lists::{list_of, list_or_empty, pushed_front};
use super::strings::incr_outcome;
use crate::text::{all_digits, decimal_digits, decimal_text, decimal_value, digits_value, is_digit, parsed_int};

verus! {

/// Writing a value makes it the value read back while the entry lives.
pub proof fn law_set_then_get(st: StoreView, k: Seq<char>, v: ValueView, exp: Option<u64>, now: u64)
    requires
        exp matches Some(t) ==> now < t,
    ensures
        st.stored(k, v, exp).value_of(k, now) == Some(v),
{
    let e = EntryView { key: k, value: v, expires_at: exp };
    lemma_with_entry_lookup(st, e, k, now);
}

/// Writing a key leaves every other key as it was.
pub proof fn law_set_keeps_others(st: StoreView, k: Seq<char>, v: ValueView, exp: Option<u64>, other: Seq<char>, now: u64)
    requires
        other != k,
    ensures
        st.stored(k, v, exp).value_of(other, now) == st.value_of(other, now),
{
    let e = EntryView { key: k, value: v, expires_at: exp };
    lemma_with_entry_lookup(st, e, other, now);
}

/// The entry left for `k` after removing its slot: none.
proof fn lemma_without_lookup(st: StoreView, k: Seq<char>, other: Seq<char>, now: u64)
    requires
        keys_distinct(st.entries),
    ensures
        st.without(k).lookup(k, now) is None,
        other != k ==> st.without(k).lookup(other, now) == st.lookup(other, now),
{
    let s = st.entries;
    let i = st.slot(k);
    let t = st.without(k).entries;
    lemma_key_pos(s, k);
    lemma_key_pos(s, other);
    lemma_distinct_without(st, k);
    lemma_key_pos(t, k);
    lemma_key_pos(t, other);
    if 0 <= i < s.len() {
        assert forall|j: int| 0 <= j < t.len() implies (#[trigger] t[j]).key != k by {
            let j0 = if j < i { j } else { j + 1 };
            assert(t[j] == s[j0]);
            if s[j0].key == k {
                lemma_distinct_slot(s, j0);
            }
        }
        if other != k {
            let jo = st.slot(other);
            if 0 <= jo < s.len() {
                let jt = if jo < i { jo } else { jo - 1 };
                assert(jo != i);
                assert(t[jt] == s[jo]);
                lemma_distinct_slot(t, jt);
            } else {
                assert forall|j: int| 0 <= j < t.len() implies (#[trigger] t[j]).key != other by {
                    let j0 = if j < i { j } else { j + 1 };
                    assert(t[j] == s[j0]);
                }
            }
        }
    }
}

/// A deleted key reads as absent, and the other keys stay as they were.
pub proof fn law_deleted_is_absent(st: StoreView, k: Seq<char>, other: Seq<char>, now: u64)
    requires
        st.wf(),
    ensures
        st.deleted(k).lookup(k, now) is None,
        other != k ==> st.deleted(k).lookup(other, now) == st.lookup(other, now),
{
    lemma_without_lookup(st, k, other, now);
}

/// A version never passes the clock.
proof fn lemma_version_bound(st: StoreView, k: Seq<char>)
    requires
        st.wf(),
    ensures
        st.version(k) <= st.clock,
{
    lemma_version_pos(st.versions, k);
}

/// Every write to a key (a store or a delete) gives it a greater version, as
/// long as the clock has room.
pub proof fn law_write_advances_version(st: StoreView, k: Seq<char>, v: ValueView, exp: Option<u64>)
    requires
        st.wf(),
        st.clock < u64::MAX,
    ensures
        st.stored(k, v, exp).version(k) > st.version(k),
        st.deleted(k).version(k) > st.version(k),
{
    let e = EntryView { key: k, value: v, expires_at: exp };
    lemma_version_bound(st, k);
    lemma_touched_version(st.with_entry(e), k, k);
    lemma_touched_version(st.without(k), k, k);
}

/// A write to one key leaves the version of every other key alone.
pub proof fn law_write_keeps_other_versions(st: StoreView, k: Seq<char>, v: ValueView, exp: Option<u64>, other: Seq<char>)
    requires
        other != k,
    ensures
        st.stored(k, v, exp).version(other) == st.version(other),
        st.deleted(k).version(other) == st.version(other),
{
    let e = EntryView { key: k, value: v, expires_at: exp };
    lemma_touched_version(st.with_entry(e), k, other);
    lemma_touched_version(st.without(k), k, other);
}

/// After a push at the head and a pop from the head, the pop gives back what
/// was pushed and the list is as before.
pub proof fn law_push_then_pop(st: StoreView, k: Seq<char>, x: Seq<char>, now: u64)
    requires
        st.wf(),
        list_or_empty(st.value_of(k, now)) is Some,
    ensures
        ({
            let l = list_or_empty(st.value_of(k, now))->Some_0;
            let st1 = st.stored(k, ValueView::List(pushed_front(l, seq![x])), st.expiry_of(k, now));
            &&& st1.value_of(k, now) == Some(ValueView::List(seq![x] + l))
            &&& list_of(st1.with_list(k, (seq![x] + l).drop_first(), now).value_of(k, now)) == l
        }),
{
    let l = list_or_empty(st.value_of(k, now))->Some_0;
    let exp = st.expiry_of(k, now);
    assert(pushed_front(l, seq![x]) =~= seq![x] + l) by {
        let none = seq![x].drop_last();
        assert(none =~= Seq::<Seq<char>>::empty());
        assert(pushed_front(l, none) == l);
    }
    law_set_then_get(st, k, ValueView::List(seq![x] + l), exp, now);
    let st1 = st.stored(k, ValueView::List(seq![x] + l), exp);
    assert((seq![x] + l).drop_first() =~= l);
    if l.len() == 0 {
        lemma_distinct_with_entry_wf(st, EntryView { key: k, value: ValueView::List(seq![x] + l), expires_at: exp });
        lemma_without_lookup(st1, k, k, now);
    } else {
        lemma_with_entry_lookup(st, EntryView { key: k, value: ValueView::List(seq![x] + l), expires_at: exp }, k, now);
        assert(st1.expiry_of(k, now) == exp);
        law_set_then_get(st1, k, ValueView::List(l), exp, now);
    }
}

/// A store keeps the keys distinct.
proof fn lemma_distinct_with_entry_wf(st: StoreView, e: EntryView)
    requires
        st.wf(),
    ensures
        keys_distinct(st.with_entry(e).touched(e.key).entries),
{
    super::lemma_distinct_with_entry(st, e);
}

/// Renaming a live key moves its value and expiry to the new name; the old
/// name reads as absent.
pub proof fn law_rename_moves(st: StoreView, a: Seq<char>, b: Seq<char>, now: u64)
    requires
        st.wf(),
        a != b,
        st.lookup(a, now) is Some,
    ensures
        ({
            let e = st.lookup(a, now)->Some_0;
            let st2 = st.deleted(a).stored(b, e.value, e.expires_at);
            &&& st2.value_of(b, now) == Some(e.value)
            &&& st2.lookup(a, now) is None
        }),
{
    let e = st.lookup(a, now)->Some_0;
    let st1 = st.deleted(a);
    lemma_without_lookup(st, a, a, now);
    law_set_then_get(st1, b, e.value, e.expires_at, now);
    law_set_keeps_others(st1, b, e.value, e.expires_at, a, now);
}

/// After FLUSHDB no key is left.
pub proof fn law_flush_empties(st: StoreView, k: Seq<char>, now: u64)
    ensures
        st.flushed().lookup(k, now) is None,
        live_count(st.flushed().entries, now) == 0,
{
}

/// A key given an expiry `ms` milliseconds after `now` keeps its value until
/// then and reads as absent from then on.
pub proof fn law_expiry_takes_effect(st: StoreView, k: Seq<char>, ms: u64, now: u64, later: u64)
    requires
        st.wf(),
        st.lookup(k, now) is Some,
    ensures
        ({
            let st2 = st.reexpired(st.slot(k), Some(add_ms(now, ms)));
            &&& later < add_ms(now, ms) ==> st2.value_of(k, later) == st.value_of(k, now)
            &&& later >= add_ms(now, ms) ==> st2.lookup(k, later) is None
        }),
{
    lemma_key_pos(st.entries, k);
    let e = st.entries[st.slot(k)];
    let ne = EntryView { expires_at: Some(add_ms(now, ms)), ..e };
    lemma_with_entry_lookup(st, ne, k, later);
}

/// A key whose expiry is removed never expires.
pub proof fn law_persist_keeps_key(st: StoreView, k: Seq<char>, now: u64, later: u64)
    requires
        st.wf(),
        st.lookup(k, now) is Some,
    ensures
        st.reexpired(st.slot(k), None).value_of(k, later) == st.value_of(k, now),
{
    lemma_key_pos(st.entries, k);
    let e = st.entries[st.slot(k)];
    let ne = EntryView { expires_at: None, ..e };
    lemma_with_entry_lookup(st, ne, k, later);
}

pub(crate) proof fn lemma_digits(n: nat)
    ensures
        all_digits(decimal_digits(n)),
        digits_value(decimal_digits(n)) == n,
        decimal_digits(n)[0] != '+' && decimal_digits(n)[0] != '-',
    decreases n,
{
    let d = decimal_digits(n);
    if n >= 10 {
        lemma_digits(n / 10);
        let p = decimal_digits(n / 10);
        let c = (((n % 10) + 48) as u32) as char;
        assert(d == p.push(c));
        assert(d.drop_last() =~= p);
        assert((c as u32) == (n % 10) + 48);
        assert(digits_value(d) == digits_value(p) * 10 + ((c as u32) - 48));
        assert((n / 10) * 10 + n % 10 == n);
        assert(is_digit(c));
        assert forall|i: int| 0 <= i < d.len() implies is_digit(#[trigger] d[i]) by {
            if i < p.len() {
                assert(d[i] == p[i]);
            }
        }
        assert(d[0] == p[0]);
    } else {
        assert(d.drop_last() =~= Seq::<char>::empty());
        assert((d[0] as u32) == n + 48);
        assert(digits_value(d) == digits_value(d.drop_last()) * 10 + ((d.last() as u32) - 48));
    }
}

/// Reading a number written in decimal gives the number back.
pub proof fn law_decimal_roundtrip(n: int)
    ensures
        decimal_value(decimal_text(n), true) == Some(n),
{
    if n < 0 {
        lemma_digits((-n) as nat);
        let s = decimal_text(n);
        assert(s.drop_first() =~= decimal_digits((-n) as nat));
        assert(s[0] == '-');
        assert(!all_digits(s)) by {
            assert(!is_digit(s[0]));
        }
    } else {
        lemma_digits(n as nat);
    }
}

/// Adding to a counter that an earlier addition wrote starts from that
/// number: INCRBY then DECRBY by the same amount gives the first number back.
pub proof fn law_incr_reads_back(n: i64, d: i64)
    requires
        i64::MIN <= n + d <= i64::MAX,
    ensures
        incr_outcome(Some(ValueView::Str(decimal_text(n as int))), d) == Ok::<i64, super::StoreError>((n + d) as i64),
{
    law_decimal_roundtrip(n as int);
}

} // verus!
