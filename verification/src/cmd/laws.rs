//! What the range, read-back, pattern and paging commands answer, stated over
//! the stored values themselves.
use vstd::prelude::*;

use super::keys::{keys_reply, scan_options, scan_reply};
use super::lists::lrange_reply;
use super::reply::bulks;
use super::strings::{bitcount_reply, getset_cmd, pi64, pusize};
use crate::lexical::{by_utf8, law_stable_sort_keeps_elements, stable_sorted};
use crate::resp::Reply;
use crate::store::{EntryView, StoreView, ValueView, is_live, key_pos, lemma_distinct_slot, lemma_key_pos};
use crate::store::bits::{ones, ones_below, value_bytes};
use crate::store::keys::live_keys;
use crate::store::laws::law_set_then_get;
use crate::store::lists::list_of;
use crate::store::scan::live_all;
use crate::text::{decimal_text, glob, upper_case};

verus! {

/// BITCOUNT with a start and an end byte counts the set bits of exactly the
/// bytes from `start` to `end`, both included; with the same byte for both, it
/// counts the set bits of that one byte.
pub proof fn law_bitcount_counts_range(st: StoreView, args: Seq<Seq<char>>, now: u64, start: i64, end: i64)
    requires
        args.len() >= 4,
        pi64(args[2]) == Some(start),
        pi64(args[3]) == Some(end),
        0 <= start <= end < value_bytes(st.value_of(args[1], now)).len(),
    ensures
        ({
            let b = value_bytes(st.value_of(args[1], now));
            &&& bitcount_reply(st, args, now) == Reply::Number(ones(b.subrange(start as int, end + 1)) as i64 as int)
            &&& start == end ==> bitcount_reply(st, args, now) == Reply::Number(ones_below(b[start as int], 8) as i64 as int)
        }),
{
    let b = value_bytes(st.value_of(args[1], now));
    assert(crate::store::bits::opt_int(super::strings::opt_i64_arg(args, 2), 0) == start);
    assert(crate::store::bits::opt_int(super::strings::opt_i64_arg(args, 3), -1) == end);
    assert(crate::store::lists::clamp_range(b.len() as int, start as int, end as int) == (start as int, end + 1));
    let one = b.subrange(start as int, start + 1);
    assert(one.drop_last() =~= Seq::<u8>::empty());
    assert(one.last() == b[start as int]);
    assert(ones(Seq::<u8>::empty()) == 0);
}

/// GETSET answers the string the key held before the call (nil when it held
/// none) and leaves the key holding the value given.
pub proof fn law_getset_returns_previous(st: StoreView, args: Seq<Seq<char>>, now: u64)
    requires
        args.len() >= 3,
    ensures
        st.value_of(args[1], now) matches Some(ValueView::Str(v)) ==> getset_cmd(st, args, now).0 == Reply::Bulk(
            Some(v),
        ),
        st.value_of(args[1], now) is None ==> getset_cmd(st, args, now).0 == Reply::Bulk(None),
        getset_cmd(st, args, now).1.value_of(args[1], now) == Some(ValueView::Str(args[2])),
{
    law_set_then_get(st, args[1], ValueView::Str(args[2]), None, now);
}

proof fn lemma_live_keys(es: Seq<EntryView>, p: Seq<char>, now: u64, k: Seq<char>)
    ensures
        live_keys(es, p, now).contains(k) <==> exists|j: int|
            0 <= j < es.len() && (#[trigger] es[j]).key == k && is_live(es[j], now) && glob(p, k),
    decreases es.len(),
{
    if es.len() > 0 {
        let d = es.drop_last();
        lemma_live_keys(d, p, now, k);
        let prev = live_keys(d, p, now);
        let e = es.last();
        if live_keys(es, p, now).contains(k) {
            if prev.contains(k) {
                let j = choose|j: int| 0 <= j < d.len() && (#[trigger] d[j]).key == k && is_live(d[j], now) && glob(p, k);
                assert(es[j] == d[j]);
            } else {
                let i = choose|i: int| 0 <= i < live_keys(es, p, now).len() && live_keys(es, p, now)[i] == k;
                assert(is_live(e, now) && glob(p, e.key));
                assert(i == prev.len());
                assert(es[es.len() - 1] == e);
            }
        }
        if exists|j: int| 0 <= j < es.len() && (#[trigger] es[j]).key == k && is_live(es[j], now) && glob(p, k) {
            let j = choose|j: int| 0 <= j < es.len() && (#[trigger] es[j]).key == k && is_live(es[j], now) && glob(p, k);
            if j < d.len() {
                assert(d[j] == es[j]);
                assert(prev.contains(k));
                if is_live(e, now) && glob(p, e.key) {
                    let i = choose|i: int| 0 <= i < prev.len() && prev[i] == k;
                    assert(prev.push(e.key)[i] == k);
                }
            } else {
                assert(e == es[j]);
                assert(prev.push(e.key)[prev.len() as int] == k);
            }
        }
    }
}

/// KEYS lists, as bulk strings, only live keys that match the pattern, and
/// every live key that matches it.
pub proof fn law_keys_lists_matching(st: StoreView, args: Seq<Seq<char>>, now: u64, k: Seq<char>)
    requires
        st.wf(),
        args.len() > 1,
    ensures
        keys_reply(st, args, now) is List,
        keys_reply(st, args, now)->List_0 is Some,
        forall|i: int|
            0 <= i < keys_reply(st, args, now)->List_0->Some_0.len() ==> ((#[trigger] keys_reply(
                st,
                args,
                now,
            )->List_0->Some_0[i]) matches Reply::Bulk(Some(x)) && glob(args[1], x) && st.lookup(x, now) is Some),
        st.lookup(k, now) is Some && glob(args[1], k) ==> keys_reply(st, args, now)->List_0->Some_0.contains(
            Reply::Bulk(Some(k)),
        ),
{
    let es = st.entries;
    let p = args[1];
    let xs = stable_sorted(live_keys(es, p, now), by_utf8());
    let items = xs.map_values(|s: Seq<char>| Reply::Bulk(Some(s)));
    assert(keys_reply(st, args, now) == bulks(xs));
    assert forall|i: int| 0 <= i < items.len() implies ((#[trigger] items[i]) matches Reply::Bulk(Some(x)) && glob(
        p,
        x,
    ) && st.lookup(x, now) is Some) by {
        let x = xs[i];
        assert(items[i] == Reply::Bulk(Some(x)));
        assert(xs.contains(x));
        law_stable_sort_keeps_elements(live_keys(es, p, now), by_utf8(), x);
        lemma_live_keys(es, p, now, x);
        let j = choose|j: int| 0 <= j < es.len() && (#[trigger] es[j]).key == x && is_live(es[j], now) && glob(p, x);
        lemma_distinct_slot(es, j);
    }
    if st.lookup(k, now) is Some && glob(p, k) {
        lemma_key_pos(es, k);
        let j = key_pos(es, k);
        assert(es[j].key == k && is_live(es[j], now));
        lemma_live_keys(es, p, now, k);
        law_stable_sort_keeps_elements(live_keys(es, p, now), by_utf8(), k);
        let i = choose|i: int| 0 <= i < xs.len() && xs[i] == k;
        assert(items[i] == Reply::Bulk(Some(k)));
    }
}

/// LRANGE from a `start` inside the list up to a `stop` at or after it (or to
/// the end, with -1) answers the elements from `start` on, in list order: the
/// first one is the element at `start`.
pub proof fn law_lrange_from_start(st: StoreView, args: Seq<Seq<char>>, now: u64, start: i64, stop: i64)
    requires
        args.len() >= 4,
        pi64(args[2]) == Some(start),
        pi64(args[3]) == Some(stop),
        0 <= start < list_of(st.value_of(args[1], now)).len(),
        start <= stop < list_of(st.value_of(args[1], now)).len() || stop == -1,
    ensures
        ({
            let l = list_of(st.value_of(args[1], now));
            let end = if stop == -1 { l.len() as int } else { stop + 1 };
            &&& lrange_reply(st, args, now) == bulks(l.subrange(start as int, end))
            &&& lrange_reply(st, args, now)->List_0->Some_0[0] == Reply::Bulk(Some(l[start as int]))
        }),
{
}

/// A COUNT option followed by a number sets the page size to that number.
pub proof fn law_count_option(args: Seq<Seq<char>>, i: int, pattern: Option<Seq<char>>, count: usize, n: usize)
    requires
        0 <= i,
        args.len() == i + 2,
        upper_case(args[i]) == "COUNT"@,
        pusize(args[i + 1]) == Some(n),
    ensures
        scan_options(args, i, pattern, count) == (pattern, n),
{
    reveal_strlit("COUNT");
    reveal_strlit("MATCH");
    assert("COUNT"@[0] != "MATCH"@[0]);
    assert("COUNT"@ != "MATCH"@);
    assert(scan_options(args, i + 2, pattern, n) == (pattern, n));
}

/// SCAN from cursor `c` with COUNT `n` answers the live keys at positions
/// `c` up to `c + n` (or to the last), and the cursor `c + n`, or 0 once the
/// page reaches the last key.
pub proof fn law_scan_count_page(st: StoreView, args: Seq<Seq<char>>, now: u64, c: usize, n: usize)
    requires
        args.len() == 4,
        pusize(args[1]) == Some(c),
        upper_case(args[2]) == "COUNT"@,
        pusize(args[3]) == Some(n),
        c <= live_all(st.entries, now).len() <= usize::MAX,
    ensures
        ({
            let all = live_all(st.entries, now);
            let end = if c + n < all.len() { c + n } else { all.len() as int };
            let next = if c + n < all.len() { c + n } else { 0 };
            scan_reply(st, args, now) == Reply::List(
                Some(seq![Reply::Bulk(Some(decimal_text(next))), bulks(all.subrange(c as int, end))]),
            )
        }),
{
    law_count_option(args, 2, None, 10, n);
    let all = live_all(st.entries, now);
    let end = if c + n < all.len() { c + n } else { all.len() as int };
    let chunk = if c < all.len() { all.subrange(c as int, end) } else { Seq::empty() };
    lemma_filter_none(chunk);
    assert(chunk =~= all.subrange(c as int, end));
    assert(super::keys::cursor_arg(args, 1) == c);
    let pg = crate::store::scan::scan_page(all, c, None, n);
    assert(pg.1 == all.subrange(c as int, end));
    assert(pg.0 as int == if c + n < all.len() { c + n } else { 0 });
}

proof fn lemma_filter_none(s: Seq<Seq<char>>)
    ensures
        crate::store::scan::filter_glob(s, None) == s,
    decreases s.len(),
{
    if s.len() > 0 {
        lemma_filter_none(s.drop_last());
        assert(s.drop_last().push(s.last()) =~= s);
    }
}


/// BITCOUNT without a range counts the set bits of the whole string.
pub proof fn law_bitcount_whole(st: StoreView, args: Seq<Seq<char>>, now: u64)
    requires
        args.len() == 2,
    ensures
        bitcount_reply(st, args, now) == Reply::Number(ones(value_bytes(st.value_of(args[1], now))) as i64 as int),
{
    let b = value_bytes(st.value_of(args[1], now));
    assert(b.subrange(0, b.len() as int) =~= b);
}

/// LRANGE from `-k` to -1 answers the last `k` elements of the list, in list
/// order.
pub proof fn law_lrange_tail(st: StoreView, args: Seq<Seq<char>>, now: u64, k: i64)
    requires
        args.len() >= 4,
        pi64(args[2]) == Some((-k) as i64),
        pi64(args[3]) == Some(-1i64),
        1 <= k <= list_of(st.value_of(args[1], now)).len(),
    ensures
        ({
            let l = list_of(st.value_of(args[1], now));
            lrange_reply(st, args, now) == bulks(l.subrange(l.len() - k, l.len() as int))
        }),
{
}

/// A MATCH option followed by a pattern sets the pattern to it.
pub proof fn law_match_option(args: Seq<Seq<char>>, i: int, pattern: Option<Seq<char>>, count: usize)
    requires
        0 <= i,
        args.len() == i + 2,
        upper_case(args[i]) == "MATCH"@,
    ensures
        scan_options(args, i, pattern, count) == (Some(args[i + 1]), count),
{
    assert(scan_options(args, i + 2, Some(args[i + 1]), count) == (Some(args[i + 1]), count));
}

} // verus!
