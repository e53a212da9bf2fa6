//! Lexicographic order on byte strings, and a stable insertion sort by a byte key.
use vstd::prelude::*;
use vstd::utf8::encode_utf8;

use crate::text::{texts_view, lemma_texts_push};

verus! {

/// `a` sorts strictly before `b` in lexicographic byte order (the order of `[u8]`).
pub open spec fn lex_lt(a: Seq<u8>, b: Seq<u8>) -> bool
    decreases a.len(),
{
    if a.len() == 0 {
        b.len() > 0
    } else if b.len() == 0 {
        false
    } else if a[0] != b[0] {
        a[0] < b[0]
    } else {
        lex_lt(a.drop_first(), b.drop_first())
    }
}

/// `a` sorts before or equal to `b`.
pub open spec fn lex_le(a: Seq<u8>, b: Seq<u8>) -> bool {
    !lex_lt(b, a)
}

pub proof fn lemma_lex_irreflexive(a: Seq<u8>)
    ensures
        !lex_lt(a, a),
    decreases a.len(),
{
    if a.len() > 0 {
        lemma_lex_irreflexive(a.drop_first());
    }
}

pub proof fn lemma_lex_asymmetric(a: Seq<u8>, b: Seq<u8>)
    ensures
        lex_lt(a, b) ==> !lex_lt(b, a),
    decreases a.len(),
{
    if a.len() > 0 && b.len() > 0 && a[0] == b[0] {
        lemma_lex_asymmetric(a.drop_first(), b.drop_first());
    }
}

pub proof fn lemma_lex_total(a: Seq<u8>, b: Seq<u8>)
    ensures
        a != b ==> lex_lt(a, b) || lex_lt(b, a),
    decreases a.len(),
{
    if a.len() > 0 && b.len() > 0 && a[0] == b[0] {
        lemma_lex_total(a.drop_first(), b.drop_first());
        if a.drop_first() == b.drop_first() {
            assert forall|i: int| 0 <= i < a.len() implies a[i] == b[i] by {
                if i > 0 {
                    assert(a[i] == a.drop_first()[i - 1]);
                    assert(b[i] == b.drop_first()[i - 1]);
                }
            }
            assert(a =~= b);
        }
    } else if a.len() == 0 && b.len() == 0 {
        assert(a =~= b);
    }
}

pub proof fn lemma_lex_transitive(a: Seq<u8>, b: Seq<u8>, c: Seq<u8>)
    ensures
        lex_lt(a, b) && lex_lt(b, c) ==> lex_lt(a, c),
    decreases a.len(),
{
    if a.len() > 0 && b.len() > 0 && c.len() > 0 && a[0] == b[0] && b[0] == c[0] {
        lemma_lex_transitive(a.drop_first(), b.drop_first(), c.drop_first());
    }
}

proof fn lemma_lex_step(a: Seq<u8>, b: Seq<u8>, i: int)
    requires
        0 <= i < a.len(),
        i < b.len(),
        a[i] == b[i],
    ensures
        lex_lt(a.subrange(i, a.len() as int), b.subrange(i, b.len() as int)) == lex_lt(
            a.subrange(i + 1, a.len() as int),
            b.subrange(i + 1, b.len() as int),
        ),
{
    assert(a.subrange(i, a.len() as int).drop_first() =~= a.subrange(i + 1, a.len() as int));
    assert(b.subrange(i, b.len() as int).drop_first() =~= b.subrange(i + 1, b.len() as int));
}

/// Whether `a` sorts strictly before `b`.
pub fn bytes_lt(a: &[u8], b: &[u8]) -> (r: bool)
    ensures
        r == lex_lt(a@, b@),
{
    let mut i: usize = 0;
    assert(a@.subrange(0, a@.len() as int) =~= a@);
    assert(b@.subrange(0, b@.len() as int) =~= b@);
    while i < a.len() && i < b.len()
        invariant
            i <= a@.len(),
            i <= b@.len(),
            lex_lt(a@, b@) == lex_lt(a@.subrange(i as int, a@.len() as int), b@.subrange(i as int, b@.len() as int)),
        decreases a@.len() - i,
    {
        if a[i] != b[i] {
            return a[i] < b[i];
        }
        proof {
            lemma_lex_step(a@, b@, i as int);
        }
        i = i + 1;
    }
    i == a.len() && i < b.len()
}

/// Whether `a` and `b` hold the same bytes.
pub fn bytes_eq(a: &[u8], b: &[u8]) -> (r: bool)
    ensures
        r == (a@ == b@),
{
    if a.len() != b.len() {
        return false;
    }
    let mut i: usize = 0;
    while i < a.len()
        invariant
            a@.len() == b@.len(),
            i <= a@.len(),
            forall|j: int| 0 <= j < i ==> a@[j] == b@[j],
        decreases a@.len() - i,
    {
        if a[i] != b[i] {
            return false;
        }
        i = i + 1;
    }
    assert(a@ =~= b@);
    true
}

/// `x` inserted into `s` after every element whose key is not greater than `x`'s,
/// scanning from the end: the step of a stable insertion sort.
pub open spec fn sorted_insert<T>(s: Seq<T>, x: T, key: spec_fn(T) -> Seq<u8>) -> Seq<T>
    decreases s.len(),
{
    if s.len() == 0 {
        seq![x]
    } else if lex_lt(key(x), key(s.last())) {
        sorted_insert(s.drop_last(), x, key).push(s.last())
    } else {
        s.push(x)
    }
}

/// `s` stably sorted by `key` in lexicographic byte order.
pub open spec fn stable_sorted<T>(s: Seq<T>, key: spec_fn(T) -> Seq<u8>) -> Seq<T>
    decreases s.len(),
{
    if s.len() == 0 {
        s
    } else {
        sorted_insert(stable_sorted(s.drop_last(), key), s.last(), key)
    }
}

/// Every element's key is not greater than the key of any later element.
pub open spec fn sorted_by<T>(s: Seq<T>, key: spec_fn(T) -> Seq<u8>) -> bool {
    forall|i: int, j: int| 0 <= i < j < s.len() ==> lex_le(#[trigger] key(s[i]), #[trigger] key(s[j]))
}

proof fn lemma_insert_at<T>(s: Seq<T>, x: T, key: spec_fn(T) -> Seq<u8>, j: int)
    requires
        0 <= j <= s.len(),
        forall|t: int| j <= t < s.len() ==> lex_lt(key(x), #[trigger] key(s[t])),
        j == 0 || !lex_lt(key(x), key(s[j - 1])),
    ensures
        sorted_insert(s, x, key) == s.take(j).push(x) + s.skip(j),
    decreases s.len(),
{
    if s.len() == 0 {
        assert(s.take(j).push(x) + s.skip(j) =~= seq![x]);
    } else if j == s.len() {
        assert(s.take(j).push(x) + s.skip(j) =~= s.push(x));
    } else {
        assert(lex_lt(key(x), key(s.last())));
        let p = s.drop_last();
        assert forall|t: int| j <= t < p.len() implies lex_lt(key(x), #[trigger] key(p[t])) by {
            assert(p[t] == s[t]);
        }
        lemma_insert_at(p, x, key, j);
        assert(p.take(j).push(x) + p.skip(j) + seq![s.last()] =~= s.take(j).push(x) + s.skip(j));
    }
}

proof fn lemma_lex_le_transitive(a: Seq<u8>, b: Seq<u8>, c: Seq<u8>)
    requires
        lex_le(a, b),
        lex_le(b, c),
    ensures
        lex_le(a, c),
{
    lemma_lex_total(a, b);
    lemma_lex_total(b, c);
    lemma_lex_transitive(a, b, c);
    lemma_lex_asymmetric(a, c);
    lemma_lex_irreflexive(a);
}

/// What `sorted_insert` returns holds `x` and the elements of `s`, nothing else.
proof fn lemma_insert_elements<T>(s: Seq<T>, x: T, key: spec_fn(T) -> Seq<u8>)
    ensures
        sorted_insert(s, x, key).len() == s.len() + 1,
        forall|i: int| 0 <= i < sorted_insert(s, x, key).len() ==> #[trigger] sorted_insert(s, x, key)[i] == x
            || s.contains(sorted_insert(s, x, key)[i]),
    decreases s.len(),
{
    if s.len() > 0 && lex_lt(key(x), key(s.last())) {
        let p = s.drop_last();
        lemma_insert_elements(p, x, key);
        let r = sorted_insert(s, x, key);
        let q = sorted_insert(p, x, key);
        assert forall|i: int| 0 <= i < r.len() implies #[trigger] r[i] == x || s.contains(r[i]) by {
            if i < q.len() {
                assert(r[i] == q[i]);
                if q[i] != x {
                    let j = choose|j: int| 0 <= j < p.len() && p[j] == q[i];
                    assert(s[j] == p[j]);
                }
            } else {
                assert(r[i] == s.last());
                assert(s[s.len() - 1] == s.last());
            }
        }
    } else if s.len() > 0 {
        let r = sorted_insert(s, x, key);
        assert forall|i: int| 0 <= i < r.len() implies #[trigger] r[i] == x || s.contains(r[i]) by {
            if i < s.len() {
                assert(r[i] == s[i]);
            }
        }
    }
}

/// Inserting into a sorted sequence keeps it sorted.
proof fn lemma_insert_sorted<T>(s: Seq<T>, x: T, key: spec_fn(T) -> Seq<u8>)
    requires
        sorted_by(s, key),
    ensures
        sorted_by(sorted_insert(s, x, key), key),
    decreases s.len(),
{
    let r = sorted_insert(s, x, key);
    if s.len() == 0 {
    } else if lex_lt(key(x), key(s.last())) {
        let p = s.drop_last();
        assert(sorted_by(p, key)) by {
            assert forall|i: int, j: int| 0 <= i < j < p.len() implies lex_le(#[trigger] key(p[i]), #[trigger] key(p[j])) by {
                assert(p[i] == s[i] && p[j] == s[j]);
            }
        }
        lemma_insert_sorted(p, x, key);
        lemma_insert_elements(p, x, key);
        let q = sorted_insert(p, x, key);
        assert forall|i: int, j: int| 0 <= i < j < r.len() implies lex_le(#[trigger] key(r[i]), #[trigger] key(r[j])) by {
            if j < q.len() {
                assert(r[i] == q[i] && r[j] == q[j]);
            } else {
                assert(r[j] == s.last());
                assert(r[i] == q[i]);
                if q[i] == x {
                    lemma_lex_asymmetric(key(x), key(s.last()));
                } else {
                    let t = choose|t: int| 0 <= t < p.len() && p[t] == q[i];
                    assert(s[t] == p[t]);
                    assert(s[s.len() - 1] == s.last());
                }
            }
        }
    } else {
        assert forall|i: int, j: int| 0 <= i < j < r.len() implies lex_le(#[trigger] key(r[i]), #[trigger] key(r[j])) by {
            if j < s.len() {
                assert(r[i] == s[i] && r[j] == s[j]);
            } else {
                assert(r[j] == x);
                assert(r[i] == s[i]);
                assert(s[s.len() - 1] == s.last());
                if i < s.len() - 1 {
                    lemma_lex_le_transitive(key(s[i]), key(s.last()), key(x));
                }
            }
        }
    }
}

/// A stable sort's result is in order of its keys.
pub proof fn law_stable_sort_is_sorted<T>(s: Seq<T>, key: spec_fn(T) -> Seq<u8>)
    ensures
        sorted_by(stable_sorted(s, key), key),
        stable_sorted(s, key).len() == s.len(),
    decreases s.len(),
{
    if s.len() > 0 {
        law_stable_sort_is_sorted(s.drop_last(), key);
        lemma_insert_sorted(stable_sorted(s.drop_last(), key), s.last(), key);
        lemma_insert_elements(stable_sorted(s.drop_last(), key), s.last(), key);
    }
}

/// The elements of `s` whose key is `k`, in the order of `s`.
pub open spec fn with_key<T>(s: Seq<T>, k: Seq<u8>, key: spec_fn(T) -> Seq<u8>) -> Seq<T>
    decreases s.len(),
{
    if s.len() == 0 {
        Seq::empty()
    } else if key(s.last()) == k {
        with_key(s.drop_last(), k, key).push(s.last())
    } else {
        with_key(s.drop_last(), k, key)
    }
}

proof fn lemma_with_key_push<T>(s: Seq<T>, x: T, k: Seq<u8>, key: spec_fn(T) -> Seq<u8>)
    ensures
        with_key(s.push(x), k, key) == if key(x) == k { with_key(s, k, key).push(x) } else { with_key(s, k, key) },
{
    assert(s.push(x).drop_last() =~= s);
}

/// Inserting `x` adds it to the elements of its own key, after the ones there.
proof fn lemma_insert_with_key<T>(s: Seq<T>, x: T, k: Seq<u8>, key: spec_fn(T) -> Seq<u8>)
    ensures
        with_key(sorted_insert(s, x, key), k, key) == if key(x) == k {
            with_key(s, k, key).push(x)
        } else {
            with_key(s, k, key)
        },
    decreases s.len(),
{
    if s.len() == 0 {
        lemma_with_key_push(s, x, k, key);
        assert(seq![x] =~= s.push(x));
    } else if lex_lt(key(x), key(s.last())) {
        let p = s.drop_last();
        let l = s.last();
        lemma_insert_with_key(p, x, k, key);
        lemma_with_key_push(sorted_insert(p, x, key), l, k, key);
        assert(p.push(l) =~= s);
        lemma_with_key_push(p, l, k, key);
        if key(x) == k && key(l) == k {
            lemma_lex_irreflexive(key(x));
        }
    } else {
        lemma_with_key_push(s, x, k, key);
    }
}

/// A stable sort keeps, for every key, the elements with that key and their
/// order: nothing is lost or added, and equal keys come out in the order they
/// went in.
pub proof fn law_stable_sort_keeps_each_key<T>(s: Seq<T>, key: spec_fn(T) -> Seq<u8>, k: Seq<u8>)
    ensures
        with_key(stable_sorted(s, key), k, key) == with_key(s, k, key),
    decreases s.len(),
{
    if s.len() > 0 {
        law_stable_sort_keeps_each_key(s.drop_last(), key, k);
        lemma_insert_with_key(stable_sorted(s.drop_last(), key), s.last(), k, key);
    }
}

proof fn lemma_with_key_contains<T>(s: Seq<T>, y: T, key: spec_fn(T) -> Seq<u8>)
    ensures
        with_key(s, key(y), key).contains(y) <==> s.contains(y),
    decreases s.len(),
{
    if s.len() > 0 {
        let p = s.drop_last();
        lemma_with_key_contains(p, y, key);
        let w = with_key(p, key(y), key);
        if s.contains(y) && s.last() != y {
            let j = choose|j: int| 0 <= j < s.len() && s[j] == y;
            assert(p[j] == y);
        }
        if p.contains(y) {
            let j = choose|j: int| 0 <= j < p.len() && p[j] == y;
            assert(s[j] == y);
        }
        if key(s.last()) == key(y) {
            if w.push(s.last()).contains(y) && s.last() != y {
                let j = choose|j: int| 0 <= j < w.len() + 1 && w.push(s.last())[j] == y;
                assert(w[j] == y);
            }
            if w.contains(y) {
                let j = choose|j: int| 0 <= j < w.len() && w[j] == y;
                assert(w.push(s.last())[j] == y);
            }
            assert(w.push(s.last())[w.len() as int] == s.last());
        }
        assert(s[s.len() - 1] == s.last());
    }
}

/// A stable sort keeps exactly the elements it was given.
pub proof fn law_stable_sort_keeps_elements<T>(s: Seq<T>, key: spec_fn(T) -> Seq<u8>, y: T)
    ensures
        stable_sorted(s, key).contains(y) <==> s.contains(y),
{
    law_stable_sort_keeps_each_key(s, key, key(y));
    lemma_with_key_contains(s, y, key);
    lemma_with_key_contains(stable_sorted(s, key), y, key);
}

/// Sorting a sequence that is already sorted changes nothing.
pub proof fn law_sorting_sorted_is_identity<T>(s: Seq<T>, key: spec_fn(T) -> Seq<u8>)
    requires
        sorted_by(s, key),
    ensures
        stable_sorted(s, key) == s,
    decreases s.len(),
{
    if s.len() > 0 {
        let p = s.drop_last();
        assert(sorted_by(p, key)) by {
            assert forall|i: int, j: int| 0 <= i < j < p.len() implies lex_le(#[trigger] key(p[i]), #[trigger] key(p[j])) by {
                assert(p[i] == s[i] && p[j] == s[j]);
            }
        }
        law_sorting_sorted_is_identity(p, key);
        if p.len() > 0 {
            assert(p.last() == s[s.len() - 2]);
            assert(lex_le(key(s[s.len() - 2]), key(s[s.len() - 1])));
        }
        assert(p.push(s.last()) =~= s);
    }
}

/// Sorting `a` followed by `b` gives what sorting the sorted `a` followed by
/// `b` gives: the pairs of `b` are sorted in after the already sorted `a`.
pub proof fn law_sort_after_sorted_prefix<T>(a: Seq<T>, b: Seq<T>, key: spec_fn(T) -> Seq<u8>)
    ensures
        stable_sorted(a + b, key) == stable_sorted(stable_sorted(a, key) + b, key),
    decreases b.len(),
{
    if b.len() == 0 {
        assert(a + b =~= a);
        assert(stable_sorted(a, key) + b =~= stable_sorted(a, key));
        law_stable_sort_is_sorted(a, key);
        law_sorting_sorted_is_identity(stable_sorted(a, key), key);
    } else {
        let p = b.drop_last();
        law_sort_after_sorted_prefix(a, p, key);
        assert((a + b).drop_last() =~= a + p);
        assert((a + b).last() == b.last());
        let sa = stable_sorted(a, key);
        assert((sa + b).drop_last() =~= sa + p);
        assert((sa + b).last() == b.last());
    }
}

/// The abstract value of a key-value pair.
pub open spec fn pair_view(p: (Vec<u8>, Vec<u8>)) -> (Seq<u8>, Seq<u8>) {
    (p.0@, p.1@)
}

/// The abstract values of a sequence of key-value pairs.
pub open spec fn pairs_view(s: Seq<(Vec<u8>, Vec<u8>)>) -> Seq<(Seq<u8>, Seq<u8>)> {
    s.map_values(|p: (Vec<u8>, Vec<u8>)| pair_view(p))
}

/// Orders abstract key-value pairs by key.
pub open spec fn by_key() -> spec_fn((Seq<u8>, Seq<u8>)) -> Seq<u8> {
    |p: (Seq<u8>, Seq<u8>)| p.0
}

/// Stable sort of key-value pairs by key (equal keys keep their order).
pub fn sort_pairs(v: Vec<(Vec<u8>, Vec<u8>)>) -> (r: Vec<(Vec<u8>, Vec<u8>)>)
    ensures
        pairs_view(r@) == stable_sorted(pairs_view(v@), by_key()),
{
    let mut v = v;
    let ghost orig = v@;
    let ghost key = by_key();
    let n = v.len();
    let mut out: Vec<(Vec<u8>, Vec<u8>)> = Vec::new();
    let mut i: usize = 0;
    assert(pairs_view(orig).take(0) =~= pairs_view(out@));
    while i < n
        invariant
            n == orig.len(),
            i <= n,
            v@ == orig.skip(i as int),
            key == by_key(),
            pairs_view(out@) == stable_sorted(pairs_view(orig).take(i as int), key),
        decreases n - i,
    {
        let x = v.remove(0);
        assert(x == orig[i as int]);
        assert(v@ =~= orig.skip(i as int + 1));
        let ghost xv = pair_view(x);
        let mut j = out.len();
        while j > 0 && bytes_lt(x.0.as_slice(), out[j - 1].0.as_slice())
            invariant
                j <= out@.len(),
                key == by_key(),
                xv == pair_view(x),
                forall|t: int| j <= t < out@.len() ==> lex_lt(key(xv), #[trigger] key(pairs_view(out@)[t])),
            decreases j,
        {
            j = j - 1;
        }
        proof {
            lemma_insert_at(pairs_view(out@), xv, key, j as int);
            let t = pairs_view(orig).take(i as int + 1);
            assert(t.drop_last() =~= pairs_view(orig).take(i as int));
            assert(t.last() == xv);
        }
        let ghost before = out@;
        out.insert(j, x);
        assert(pairs_view(out@) =~= pairs_view(before).take(j as int).push(xv) + pairs_view(before).skip(j as int));
        i = i + 1;
    }
    assert(pairs_view(orig).take(n as int) =~= pairs_view(orig));
    out
}

/// Orders strings as `String`'s `Ord` does: by their UTF-8 bytes.
pub open spec fn by_utf8() -> spec_fn(Seq<char>) -> Seq<u8> {
    |s: Seq<char>| encode_utf8(s)
}

/// Stable sort of strings in byte order, as `Vec<String>::sort` does.
pub fn sort_texts(v: Vec<String>) -> (r: Vec<String>)
    ensures
        texts_view(r@) == stable_sorted(texts_view(v@), by_utf8()),
{
    let mut v = v;
    let ghost orig = v@;
    let ghost key = by_utf8();
    let n = v.len();
    let mut out: Vec<String> = Vec::new();
    let mut i: usize = 0;
    assert(texts_view(orig).take(0) =~= texts_view(out@));
    while i < n
        invariant
            n == orig.len(),
            i <= n,
            v@ == orig.skip(i as int),
            key == by_utf8(),
            texts_view(out@) == stable_sorted(texts_view(orig).take(i as int), key),
        decreases n - i,
    {
        let x = v.remove(0);
        assert(x == orig[i as int]);
        assert(v@ =~= orig.skip(i as int + 1));
        let ghost xv = x@;
        let mut j = out.len();
        while j > 0 && bytes_lt(x.as_str().as_bytes(), out[j - 1].as_str().as_bytes())
            invariant
                j <= out@.len(),
                key == by_utf8(),
                xv == x@,
                forall|t: int| j <= t < out@.len() ==> lex_lt(key(xv), #[trigger] key(texts_view(out@)[t])),
            decreases j,
        {
            j = j - 1;
        }
        proof {
            lemma_insert_at(texts_view(out@), xv, key, j as int);
            let t = texts_view(orig).take(i as int + 1);
            assert(t.drop_last() =~= texts_view(orig).take(i as int));
            assert(t.last() == xv);
        }
        let ghost before = out@;
        out.insert(j, x);
        assert(texts_view(out@) =~= texts_view(before).take(j as int).push(xv) + texts_view(before).skip(j as int));
        i = i + 1;
    }
    assert(texts_view(orig).take(n as int) =~= texts_view(orig));
    out
}

} // verus!
