//! The RESP wire format: how a value is written as bytes, and how bytes are
//! read back as a value (a line that starts with none of the type bytes is an
//! inline command: its words).
use vstd::prelude::*;
use vstd::utf8::{encode_scalar, encode_utf8};

use crate::buf::append_bytes;
use crate::resp::{Reply, RespValue, reply_of};
use crate::text::{decimal_text, i64_text, split_words, text_from_bytes, u64_text, utf8_text, words};

verus! {

pub open spec fn crlf() -> Seq<u8> {
    seq![13u8, 10u8]
}

/// A line: the type byte, the text in UTF-8, and CR LF.
pub open spec fn line(tag: u8, s: Seq<char>) -> Seq<u8> {
    seq![tag] + encode_utf8(s) + crlf()
}

/// The bytes that stand for `r`: `+` status, `-` error, `:` integer, `$` bulk
/// string (its byte length, then the bytes; `-1` for none), `*` array (its
/// length, then the items; `-1` for none).
pub open spec fn wire(r: Reply) -> Seq<u8>
    decreases r, 1nat,
{
    match r {
        Reply::Status(s) => line(43u8, s),
        Reply::Failure(s) => line(45u8, s),
        Reply::Number(n) => line(58u8, decimal_text(n)),
        Reply::Bulk(None) => line(36u8, seq!['-', '1']),
        Reply::Bulk(Some(s)) => line(36u8, decimal_text(encode_utf8(s).len() as int)) + encode_utf8(s) + crlf(),
        Reply::List(None) => line(42u8, seq!['-', '1']),
        Reply::List(Some(items)) => line(42u8, decimal_text(items.len() as int)) + wire_all(items),
    }
}

/// The items written one after the other.
pub open spec fn wire_all(items: Seq<Reply>) -> Seq<u8>
    decreases items, 0nat,
{
    if items.len() == 0 {
        Seq::empty()
    } else {
        wire_all(items.subrange(0, items.len() - 1)) + wire(items[items.len() - 1])
    }
}

/// Appends a line: `tag`, the bytes of `s`, CR LF.
fn push_line(out: &mut Vec<u8>, tag: u8, s: &str)
    ensures
        final(out)@ == old(out)@ + line(tag, s@),
{
    out.push(tag);
    append_bytes(out, s.as_bytes());
    out.push(13u8);
    out.push(10u8);
    assert(out@ =~= old(out)@ + line(tag, s@));
}

/// Appends the bytes of `value`.
#[verifier::spinoff_prover]
#[verifier::rlimit(40)]
pub fn encode_into(value: &RespValue, out: &mut Vec<u8>)
    ensures
        final(out)@ == old(out)@ + wire(value@),
    decreases value,
{
    match value {
        RespValue::SimpleString(s) => {
            push_line(out, 43u8, s.as_str());
            assert(out@ == old(out)@ + wire(value@));
        },
        RespValue::Error(s) => {
            push_line(out, 45u8, s.as_str());
            assert(out@ == old(out)@ + wire(value@));
        },
        RespValue::Integer(n) => {
            push_line(out, 58u8, i64_text(*n).as_str());
            assert(out@ == old(out)@ + wire(value@));
        },
        RespValue::BulkString(None) => {
            proof {
                reveal_strlit("-1");
                assert("-1"@ =~= seq!['-', '1']);
            }
            push_line(out, 36u8, "-1");
            assert(out@ == old(out)@ + wire(value@));
        },
        RespValue::BulkString(Some(s)) => {
            let bytes = s.as_str().as_bytes();
            push_line(out, 36u8, u64_text(bytes.len() as u64).as_str());
            let ghost start = out@;
            append_bytes(out, bytes);
            out.push(13u8);
            out.push(10u8);
            assert(out@ =~= old(out)@ + wire(value@));
        },
        RespValue::Array(None) => {
            proof {
                reveal_strlit("-1");
                assert("-1"@ =~= seq!['-', '1']);
            }
            push_line(out, 42u8, "-1");
            assert(out@ == old(out)@ + wire(value@));
        },
        RespValue::Array(Some(items)) => {
            let ghost start = out@;
            let ghost iv = Seq::new(items@.len(), |i: int| reply_of(items@[i]));
            assert(value@ == Reply::List(Some(iv))) by {
                let got = value@;
                assert(got matches Reply::List(Some(s)) && s =~= iv);
            }
            push_line(out, 42u8, u64_text(items.len() as u64).as_str());
            let ghost head = out@;
            let mut i: usize = 0;
            assert(iv.subrange(0, 0) =~= Seq::<Reply>::empty());
            while i < items.len()
                invariant
                    *value == RespValue::Array(Some(*items)),
                    i <= items@.len(),
                    iv == Seq::new(items@.len(), |i: int| reply_of(items@[i])),
                    out@ == head + wire_all(iv.subrange(0, i as int)),
                decreases items@.len() - i,
            {
                proof {
                    assert(decreases_to!(*value => (*value)->Array_0));
                    assert(decreases_to!((*value)->Array_0 => (*value)->Array_0->Some_0));
                    assert(decreases_to!(items => items@));
                    assert(decreases_to!(items@ => items@[i as int]));
                    assert(decreases_to!(value => items@[i as int]));
                }
                encode_into(&items[i], out);
                proof {
                    let t = iv.subrange(0, i as int + 1);
                    assert(t.subrange(0, t.len() - 1) =~= iv.subrange(0, i as int));
                    assert(t[t.len() - 1] == items@[i as int]@);
                }
                i = i + 1;
            }
            assert(iv.subrange(0, items@.len() as int) =~= iv);
            assert(out@ =~= start + wire(value@));
        },
    }
}

/// The bytes of `value`.
pub fn encode(value: &RespValue) -> (r: Vec<u8>)
    ensures
        r@ == wire(value@),
{
    let mut out: Vec<u8> = Vec::new();
    encode_into(value, &mut out);
    assert(out@ =~= wire(value@));
    out
}

/// What the bytes from a position on come to.
pub enum Parsed {
    /// A value, and the position just past it.
    Done(Reply, int),
    /// The bytes end before the value does.
    More,
    /// The bytes break the format.
    Bad,
}

/// Index of the first CR LF at or after `from`, or -1.
pub open spec fn line_end(b: Seq<u8>, from: int) -> int
    decreases b.len() - from,
{
    if from < 0 || from + 1 >= b.len() {
        -1
    } else if b[from] == 13 && b[from + 1] == 10 {
        from
    } else {
        line_end(b, from + 1)
    }
}

pub proof fn lemma_line_end(b: Seq<u8>, from: int)
    ensures
        line_end(b, from) == -1 || (from <= line_end(b, from) && line_end(b, from) + 1 < b.len()),
    decreases b.len() - from,
{
    if !(from < 0 || from + 1 >= b.len()) && !(b[from] == 13 && b[from + 1] == 10) {
        lemma_line_end(b, from + 1);
    }
}

pub open spec fn is_digit_byte(c: u8) -> bool {
    48 <= c <= 57
}

/// One or more decimal digits.
pub open spec fn digit_bytes(h: Seq<u8>) -> bool {
    h.len() > 0 && forall|i: int| 0 <= i < h.len() ==> is_digit_byte(#[trigger] h[i])
}

/// The number that the decimal digits `h` spell.
pub open spec fn digits_num(h: Seq<u8>) -> int
    decreases h.len(),
{
    if h.len() == 0 {
        0
    } else {
        digits_num(h.drop_last()) * 10 + (h.last() - 48)
    }
}

/// The integer written in `h`: an optional `-`, then decimal digits.
pub open spec fn int_of(h: Seq<u8>) -> Option<int> {
    if h.len() > 0 && h[0] == 45 && digit_bytes(h.drop_first()) {
        Some(-digits_num(h.drop_first()))
    } else if digit_bytes(h) {
        Some(digits_num(h))
    } else {
        None
    }
}

/// What the bytes of `b` from `pos` on come to.
pub open spec fn parse_at(b: Seq<u8>, pos: int) -> Parsed
    decreases b.len() - pos, 0nat,
{
    if pos < 0 || pos >= b.len() {
        Parsed::More
    } else {
        let e = line_end(b, pos + 1);
        if e < 0 {
            Parsed::More
        } else {
            let h = b.subrange(pos + 1, e);
            let next = e + 2;
            let tag = b[pos];
            if tag == 43 {
                Parsed::Done(Reply::Status(utf8_text(h)), next)
            } else if tag == 45 {
                Parsed::Done(Reply::Failure(utf8_text(h)), next)
            } else if tag == 58 {
                match int_of(h) {
                    Some(n) => if i64::MIN <= n <= i64::MAX {
                        Parsed::Done(Reply::Number(n), next)
                    } else {
                        Parsed::Bad
                    },
                    None => Parsed::Bad,
                }
            } else if tag == 36 {
                match int_of(h) {
                    Some(n) => if n == -1 {
                        Parsed::Done(Reply::Bulk(None), next)
                    } else if n < -1 || n > i64::MAX {
                        Parsed::Bad
                    } else if next + n + 2 > b.len() {
                        Parsed::More
                    } else if b[next + n] == 13 && b[next + n + 1] == 10 {
                        Parsed::Done(Reply::Bulk(Some(utf8_text(b.subrange(next, next + n)))), next + n + 2)
                    } else {
                        Parsed::Bad
                    },
                    None => Parsed::Bad,
                }
            } else if tag == 42 {
                match int_of(h) {
                    Some(n) => if n == -1 {
                        Parsed::Done(Reply::List(None), next)
                    } else if n < -1 || n > i64::MAX {
                        Parsed::Bad
                    } else {
                        proof {
                            lemma_line_end(b, pos + 1);
                        }
                        parse_items(b, next, n)
                    },
                    None => Parsed::Bad,
                }
            } else {
                Parsed::Done(
                    Reply::List(
                        Some(words(utf8_text(b.subrange(pos, e))).map_values(|w: Seq<char>| Reply::Bulk(Some(w)))),
                    ),
                    next,
                )
            }
        }
    }
}

/// `k` values one after the other from `pos` on, as an array.
pub open spec fn parse_items(b: Seq<u8>, pos: int, k: int) -> Parsed
    decreases b.len() - pos, 1nat,
{
    if k <= 0 {
        Parsed::Done(Reply::List(Some(Seq::empty())), pos)
    } else if pos < 0 || pos > b.len() {
        Parsed::More
    } else {
        match parse_at(b, pos) {
            Parsed::Done(r, p2) => if p2 <= pos || p2 > b.len() {
                Parsed::Bad
            } else {
                prepend(r, parse_items(b, p2, k - 1))
            },
            Parsed::More => Parsed::More,
            Parsed::Bad => Parsed::Bad,
        }
    }
}

/// `r` put before the items of an array that was read, if it was.
pub open spec fn prepend(r: Reply, rest: Parsed) -> Parsed {
    match rest {
        Parsed::Done(Reply::List(Some(items)), e) => Parsed::Done(Reply::List(Some(seq![r] + items)), e),
        other => other,
    }
}

/// What came of reading a value.
pub enum Decoded {
    /// A value, and the number of bytes up to its end.
    Complete(RespValue, usize),
    /// More bytes are needed.
    Incomplete,
    /// The bytes break the format.
    Invalid,
}

pub open spec fn decoded_view(d: Decoded) -> Parsed {
    match d {
        Decoded::Complete(v, n) => Parsed::Done(v@, n as int),
        Decoded::Incomplete => Parsed::More,
        Decoded::Invalid => Parsed::Bad,
    }
}

/// The first CR LF at or after `from`.
fn find_line_end(b: &[u8], from: usize) -> (r: Option<usize>)
    ensures
        match r {
            Some(e) => e == line_end(b@, from as int) && from <= e && e + 1 < b@.len(),
            None => line_end(b@, from as int) == -1,
        },
{
    if from >= b.len() {
        return None;
    }
    let mut i = from;
    while i < b.len() - 1
        invariant
            from <= i < b@.len(),
            line_end(b@, from as int) == line_end(b@, i as int),
        decreases b@.len() - i,
    {
        if b[i] == 13u8 && b[i + 1] == 10u8 {
            return Some(i);
        }
        i = i + 1;
    }
    None
}

proof fn lemma_digits_grow(h: Seq<u8>, i: int)
    requires
        0 <= i <= h.len(),
        forall|j: int| 0 <= j < h.len() ==> is_digit_byte(#[trigger] h[j]),
    ensures
        digits_num(h.subrange(0, i)) <= digits_num(h),
        0 <= digits_num(h.subrange(0, i)),
    decreases h.len() - i,
{
    if i < h.len() {
        lemma_digits_grow(h, i + 1);
        let t = h.subrange(0, i + 1);
        assert(t.drop_last() =~= h.subrange(0, i));
        assert(t.last() == h[i]);
    } else {
        assert(h.subrange(0, i) =~= h);
        lemma_digits_nonneg(h);
    }
}

proof fn lemma_digits_nonneg(h: Seq<u8>)
    requires
        forall|j: int| 0 <= j < h.len() ==> is_digit_byte(#[trigger] h[j]),
    ensures
        0 <= digits_num(h),
    decreases h.len(),
{
    if h.len() > 0 {
        assert(is_digit_byte(h.last()));
        lemma_digits_nonneg(h.drop_last());
    }
}

/// The digits `b[from..to]` as a number, or `None` when one is not a digit or
/// the number passes the largest `u64`.
fn digits_in(b: &[u8], from: usize, to: usize) -> (r: Option<u64>)
    requires
        from <= to <= b@.len(),
    ensures
        match r {
            Some(v) => {
                &&& forall|j: int| from <= j < to ==> is_digit_byte(#[trigger] b@[j])
                &&& v == digits_num(b@.subrange(from as int, to as int))
            },
            None => (forall|j: int| from <= j < to ==> is_digit_byte(#[trigger] b@[j])) ==> digits_num(
                b@.subrange(from as int, to as int),
            ) > u64::MAX,
        },
{
    let ghost h = b@.subrange(from as int, to as int);
    let mut acc: u64 = 0;
    let mut i = from;
    assert(h.subrange(0, 0) =~= Seq::<u8>::empty());
    while i < to
        invariant
            from <= i <= to <= b@.len(),
            h == b@.subrange(from as int, to as int),
            forall|j: int| from <= j < i ==> is_digit_byte(#[trigger] b@[j]),
            acc == digits_num(h.subrange(0, i - from)),
        decreases to - i,
    {
        let c = b[i];
        if c < 48u8 || c > 57u8 {
            assert(!is_digit_byte(b@[i as int]));
            return None;
        }
        let d = (c - 48u8) as u64;
        proof {
            let t = h.subrange(0, i - from + 1);
            assert(t.drop_last() =~= h.subrange(0, i - from));
            assert(t.last() == c);
        }
        if acc > (u64::MAX - d) / 10 {
            proof {
                assert(acc * 10 + d > u64::MAX) by (nonlinear_arith)
                    requires
                        acc > (u64::MAX - d) / 10,
                        d <= 9,
                ;
                if forall|j: int| from <= j < to ==> is_digit_byte(#[trigger] b@[j]) {
                    assert forall|j: int| 0 <= j < h.len() implies is_digit_byte(#[trigger] h[j]) by {
                        assert(h[j] == b@[from + j]);
                    }
                    lemma_digits_grow(h, i - from + 1);
                }
            }
            return None;
        }
        assert(acc * 10 + d <= u64::MAX) by (nonlinear_arith)
            requires
                acc <= (u64::MAX - d) / 10,
                d <= 9,
        ;
        acc = acc * 10 + d;
        i = i + 1;
    }
    assert(h.subrange(0, to - from) =~= h);
    Some(acc)
}

/// The integer written in `b[from..to]`, when it fits an `i64`.
fn int_in(b: &[u8], from: usize, to: usize) -> (r: Option<i64>)
    requires
        from <= to <= b@.len(),
    ensures
        r == match int_of(b@.subrange(from as int, to as int)) {
            Some(n) => if i64::MIN <= n <= i64::MAX {
                Some(n as i64)
            } else {
                None::<i64>
            },
            None => None::<i64>,
        },
{
    let ghost h = b@.subrange(from as int, to as int);
    if from < to && b[from] == 45u8 {
        assert(h[0] == 45);
        assert(h.drop_first() =~= b@.subrange(from + 1, to as int));
        if from + 1 == to {
            return None;
        }
        assert(!digit_bytes(h)) by {
            assert(!is_digit_byte(h[0]));
        }
        match digits_in(b, from + 1, to) {
            Some(v) => {
                assert(digit_bytes(h.drop_first())) by {
                    assert forall|j: int| 0 <= j < h.drop_first().len() implies is_digit_byte(
                        #[trigger] h.drop_first()[j],
                    ) by {
                        assert(h.drop_first()[j] == b@[from + 1 + j]);
                    }
                }
                if v <= 9223372036854775808u64 {
                    Some((0i128 - v as i128) as i64)
                } else {
                    None
                }
            },
            None => {
                proof {
                    if digit_bytes(h.drop_first()) {
                        assert forall|j: int| from + 1 <= j < to implies is_digit_byte(#[trigger] b@[j]) by {
                            assert(b@[j] == h.drop_first()[j - from - 1]);
                        }
                    }
                }
                None
            },
        }
    } else {
        if from == to {
            return None;
        }
        assert(!(h.len() > 0 && h[0] == 45));
        match digits_in(b, from, to) {
            Some(v) => {
                assert(digit_bytes(h)) by {
                    assert forall|j: int| 0 <= j < h.len() implies is_digit_byte(#[trigger] h[j]) by {
                        assert(h[j] == b@[from + j]);
                    }
                }
                if v <= 9223372036854775807u64 {
                    Some(v as i64)
                } else {
                    None
                }
            },
            None => {
                proof {
                    if digit_bytes(h) {
                        assert forall|j: int| from <= j < to implies is_digit_byte(#[trigger] b@[j]) by {
                            assert(b@[j] == h[j - from]);
                        }
                    }
                }
                None
            },
        }
    }
}

/// Reads the value of `b` that starts at `pos`.
pub fn decode_at(b: &[u8], pos: usize) -> (r: Decoded)
    ensures
        decoded_view(r) == parse_at(b@, pos as int),
        r matches Decoded::Complete(_, n) ==> pos < n <= b@.len(),
    decreases b@.len() - pos,
{
    if pos >= b.len() {
        return Decoded::Incomplete;
    }
    let e = match find_line_end(b, pos + 1) {
        Some(e) => e,
        None => {
            return Decoded::Incomplete;
        },
    };
    let next = e + 2;
    let tag = b[pos];
    let ghost h = b@.subrange(pos + 1, e as int);
    if tag == 43u8 || tag == 45u8 {
        let text = text_from_bytes(crate::buf::copy_range(b, pos + 1, e).as_slice());
        if tag == 43u8 {
            Decoded::Complete(RespValue::SimpleString(text), next)
        } else {
            Decoded::Complete(RespValue::Error(text), next)
        }
    } else if tag == 58u8 {
        match int_in(b, pos + 1, e) {
            Some(n) => Decoded::Complete(RespValue::Integer(n), next),
            None => Decoded::Invalid,
        }
    } else if tag == 36u8 {
        let n = match int_in(b, pos + 1, e) {
            Some(n) => n,
            None => {
                return Decoded::Invalid;
            },
        };
        if n == -1 {
            return Decoded::Complete(RespValue::BulkString(None), next);
        }
        if n < -1 {
            return Decoded::Invalid;
        }
        if n as u64 > (b.len() - next) as u64 || b.len() - next - (n as usize) < 2 {
            return Decoded::Incomplete;
        }
        let end = next + n as usize;
        if b[end] == 13u8 && b[end + 1] == 10u8 {
            let text = text_from_bytes(crate::buf::copy_range(b, next, end).as_slice());
            Decoded::Complete(RespValue::BulkString(Some(text)), end + 2)
        } else {
            Decoded::Invalid
        }
    } else if tag == 42u8 {
        let n = match int_in(b, pos + 1, e) {
            Some(n) => n,
            None => {
                return Decoded::Invalid;
            },
        };
        if n == -1 {
            return Decoded::Complete(RespValue::Array(None), next);
        }
        if n < -1 {
            return Decoded::Invalid;
        }
        let mut items: Vec<RespValue> = Vec::new();
        let mut p = next;
        let mut k: i64 = n;
        let ghost whole = parse_items(b@, next as int, n as int);
        while k > 0
            invariant
                pos < next <= p <= b@.len(),
                0 <= k <= n,
                whole == parse_items(b@, next as int, n as int),
                whole == parse_at(b@, pos as int),
                whole == prepend_all(items@.map_values(|v: RespValue| v@), parse_items(b@, p as int, k as int)),
            decreases k,
        {
            let ghost items_before = items@.map_values(|v: RespValue| v@);
            match decode_at(b, p) {
                Decoded::Complete(v, p2) => {
                    let ghost vv = v@;
                    items.push(v);
                    proof {
                        assert(items@.map_values(|v: RespValue| v@) =~= items_before.push(vv));
                        lemma_prepend_all_push(items_before, vv, parse_items(b@, p2 as int, k - 1));
                    }
                    p = p2;
                    k = k - 1;
                },
                Decoded::Incomplete => {
                    assert(parse_items(b@, p as int, k as int) == Parsed::More);
                    return Decoded::Incomplete;
                },
                Decoded::Invalid => {
                    assert(parse_items(b@, p as int, k as int) == Parsed::Bad);
                    return Decoded::Invalid;
                },
            }
        }
        proof {
            lemma_array_of(items, p as int);
        }
        Decoded::Complete(RespValue::Array(Some(items)), p)
    } else {
        let line = text_from_bytes(crate::buf::copy_range(b, pos, e).as_slice());
        let ws = split_words(line.as_str());
        let mut items: Vec<RespValue> = Vec::new();
        let mut i: usize = 0;
        let ghost target = words(line@).map_values(|w: Seq<char>| Reply::Bulk(Some(w)));
        while i < ws.len()
            invariant
                i <= ws@.len(),
                crate::text::texts_view(ws@) == words(line@),
                target == words(line@).map_values(|w: Seq<char>| Reply::Bulk(Some(w))),
                items@.len() == i,
                forall|j: int| 0 <= j < i ==> reply_of(#[trigger] items@[j]) == target[j],
            decreases ws@.len() - i,
        {
            items.push(RespValue::BulkString(Some(crate::text::copy_text(&ws[i]))));
            i = i + 1;
        }
        proof {
            crate::cmd::reply::lemma_array_view(items, target);
        }
        Decoded::Complete(RespValue::Array(Some(items)), next)
    }
}

/// `xs` put before the items of an array that was read, if it was.
pub open spec fn prepend_all(xs: Seq<Reply>, rest: Parsed) -> Parsed {
    match rest {
        Parsed::Done(Reply::List(Some(items)), e) => Parsed::Done(Reply::List(Some(xs + items)), e),
        other => other,
    }
}

proof fn lemma_prepend_all_push(xs: Seq<Reply>, r: Reply, rest: Parsed)
    ensures
        prepend_all(xs.push(r), rest) == prepend_all(xs, prepend(r, rest)),
{
    match rest {
        Parsed::Done(Reply::List(Some(items)), e) => {
            assert(xs.push(r) + items =~= xs + (seq![r] + items));
        },
        _ => {},
    }
}

proof fn lemma_array_of(items: Vec<RespValue>, p: int)
    ensures
        prepend_all(items@.map_values(|v: RespValue| v@), Parsed::Done(Reply::List(Some(Seq::empty())), p))
            == Parsed::Done(RespValue::Array(Some(items))@, p),
{
    let xs = items@.map_values(|v: RespValue| v@);
    assert(xs + Seq::<Reply>::empty() =~= xs);
    crate::cmd::reply::lemma_array_view(items, xs);
}

/// Reads the value at the start of `b`.
pub fn decode(b: &[u8]) -> (r: Decoded)
    ensures
        decoded_view(r) == parse_at(b@, 0),
        r matches Decoded::Complete(_, n) ==> 0 < n <= b@.len(),
{
    decode_at(b, 0)
}

/// A value that reads back as itself: no status or error text holds a line
/// feed, and every length fits an `i64`.
pub open spec fn wire_ok(r: Reply) -> bool
    decreases r, 1nat,
{
    match r {
        Reply::Status(s) => !s.contains('\n'),
        Reply::Failure(s) => !s.contains('\n'),
        Reply::Number(n) => i64::MIN <= n <= i64::MAX,
        Reply::Bulk(Some(s)) => encode_utf8(s).len() <= i64::MAX,
        Reply::List(Some(items)) => items.len() <= i64::MAX && wire_ok_all(items),
        _ => true,
    }
}

pub open spec fn wire_ok_all(items: Seq<Reply>) -> bool
    decreases items, 0nat,
{
    if items.len() == 0 {
        true
    } else {
        wire_ok_all(items.subrange(0, items.len() - 1)) && wire_ok(items[items.len() - 1])
    }
}

proof fn lemma_scalar_not_lf(v: u32)
    by (bit_vector)
    requires
        v != 10,
    ensures
        (v & 0x7F) as u8 != 10 || v > 0x7F,
        (0xC0 | ((v >> 6) & 0x1F) as u8) != 10u8,
        (0xE0 | ((v >> 12) & 0x0F) as u8) != 10u8,
        (0xF0 | ((v >> 18) & 0x7) as u8) != 10u8,
        (0x80 | (v & 0x3F) as u8) != 10u8,
        (0x80 | ((v >> 6) & 0x3F) as u8) != 10u8,
        (0x80 | ((v >> 12) & 0x3F) as u8) != 10u8,
{
}

proof fn lemma_ascii_byte(v: u32)
    by (bit_vector)
    requires
        v <= 0x7F,
    ensures
        (v & 0x7F) as u8 == v as u8,
{
}

/// An ASCII character encodes to its own code as one byte.
proof fn lemma_encode_ascii(c: char)
    requires
        (c as u32) <= 0x7F,
    ensures
        encode_utf8(seq![c]) == seq![(c as u32) as u8],
{
    let s = seq![c];
    assert(s.drop_first() =~= Seq::<char>::empty());
    assert(encode_utf8(s.drop_first()) =~= Seq::<u8>::empty());
    lemma_ascii_byte(c as u32);
    assert(encode_utf8(s) =~= seq![(c as u32) as u8]);
}

/// Text without a line feed encodes to bytes without one.
proof fn lemma_no_lf(s: Seq<char>)
    requires
        !s.contains('\n'),
    ensures
        !encode_utf8(s).contains(10u8),
    decreases s.len(),
{
    if s.len() > 0 {
        assert(s[0] != '\n');
        assert(!s.drop_first().contains('\n')) by {
            if s.drop_first().contains('\n') {
                let j = choose|j: int| 0 <= j < s.drop_first().len() && s.drop_first()[j] == '\n';
                assert(s[j + 1] == '\n');
            }
        }
        lemma_no_lf(s.drop_first());
        let v = s[0] as u32;
        assert(v != 10) by {
            vstd::utf8::char_u32_cast(s[0], v);
        }
        lemma_scalar_not_lf(v);
        let e = encode_scalar(v);
        assert(!e.contains(10u8));
        let all = encode_utf8(s);
        assert(all == e + encode_utf8(s.drop_first()));
        if all.contains(10u8) {
            let j = choose|j: int| 0 <= j < all.len() && all[j] == 10u8;
            if j < e.len() {
                assert(e[j] == 10u8);
            } else {
                assert(encode_utf8(s.drop_first())[j - e.len()] == 10u8);
            }
        }
    }
}

proof fn lemma_encode_concat(a: Seq<char>, b: Seq<char>)
    ensures
        encode_utf8(a + b) == encode_utf8(a) + encode_utf8(b),
    decreases a.len(),
{
    if a.len() > 0 {
        assert((a + b).drop_first() =~= a.drop_first() + b);
        assert((a + b)[0] == a[0]);
        lemma_encode_concat(a.drop_first(), b);
        assert(encode_utf8(a + b) =~= encode_utf8(a) + encode_utf8(b));
    } else {
        assert(a + b =~= b);
        assert(encode_utf8(a) =~= Seq::<u8>::empty());
        assert(encode_utf8(a) + encode_utf8(b) =~= encode_utf8(b));
    }
}

/// The digits of `n` encode to one digit byte each, and spell `n`.
proof fn lemma_digit_bytes(n: nat)
    ensures
        digit_bytes(encode_utf8(crate::text::decimal_digits(n))),
        digits_num(encode_utf8(crate::text::decimal_digits(n))) == n,
        !encode_utf8(crate::text::decimal_digits(n)).contains(10u8),
        encode_utf8(crate::text::decimal_digits(n))[0] != 45u8,
    decreases n,
{
    let d = crate::text::decimal_digits(n);
    if n < 10 {
        let c = ((n + 48) as u32) as char;
        assert(d == seq![c]);
        assert((c as u32) == n + 48);
        assert(d.drop_first() =~= Seq::<char>::empty());
        let e = encode_utf8(d);
        lemma_encode_ascii(c);
        assert(e =~= seq![(n + 48) as u8]);
        assert(e.drop_last() =~= Seq::<u8>::empty());
        assert(digits_num(e.drop_last()) == 0);
        assert(e.last() - 48 == n);
        assert(digits_num(e) == digits_num(e.drop_last()) * 10 + (e.last() - 48));
        if e.contains(10u8) {
            let j = choose|j: int| 0 <= j < e.len() && e[j] == 10u8;
            assert(j == 0);
        }
    } else {
        lemma_digit_bytes(n / 10);
        let p = crate::text::decimal_digits(n / 10);
        let c = (((n % 10) + 48) as u32) as char;
        assert(d == p.push(c));
        assert(d == p + seq![c]);
        lemma_encode_concat(p, seq![c]);
        assert((c as u32) == (n % 10) + 48);
        assert(seq![c].drop_first() =~= Seq::<char>::empty());
        let ec = encode_utf8(seq![c]);
        lemma_encode_ascii(c);
        assert(ec =~= seq![((n % 10) + 48) as u8]);
        let ep = encode_utf8(p);
        let e = encode_utf8(d);
        assert(e == ep + ec);
        assert(e.drop_last() =~= ep);
        assert(e.last() == ((n % 10) + 48) as u8);
        assert((n / 10) * 10 + n % 10 == n);
        assert(digits_num(e) == digits_num(e.drop_last()) * 10 + (e.last() - 48));
        assert(digits_num(ep) == n / 10);
        assert(e.last() - 48 == n % 10);
        assert forall|i: int| 0 <= i < e.len() implies is_digit_byte(#[trigger] e[i]) by {
            if i < ep.len() {
                assert(e[i] == ep[i]);
            }
        }
        if e.contains(10u8) {
            let j = choose|j: int| 0 <= j < e.len() && e[j] == 10u8;
            if j < ep.len() {
                assert(e[j] == ep[j]);
            }
        }
        assert(e[0] == ep[0]);
    }
}

/// The decimal text of an integer reads back as that integer.
proof fn lemma_int_text(n: int)
    ensures
        int_of(encode_utf8(decimal_text(n))) == Some(n),
        !encode_utf8(decimal_text(n)).contains(10u8),
{
    if n < 0 {
        let d = crate::text::decimal_digits((-n) as nat);
        lemma_digit_bytes((-n) as nat);
        lemma_encode_concat(seq!['-'], d);
        assert(seq!['-'].drop_first() =~= Seq::<char>::empty());
        let em = encode_utf8(seq!['-']);
        assert(('-' as u32) == 45);
        lemma_encode_ascii('-');
        assert(em =~= seq![45u8]);
        let e = encode_utf8(decimal_text(n));
        assert(e == em + encode_utf8(d));
        assert(e.drop_first() =~= encode_utf8(d));
        assert(e[0] == 45u8);
        if e.contains(10u8) {
            let j = choose|j: int| 0 <= j < e.len() && e[j] == 10u8;
            if j > 0 {
                assert(encode_utf8(d)[j - 1] == 10u8);
            }
        }
    } else {
        lemma_digit_bytes(n as nat);
    }
}

/// The first CR LF of a line at `pos` is the one that ends it.
proof fn lemma_line_at(b: Seq<u8>, pos: int, t: Seq<u8>, j: int)
    requires
        0 <= pos,
        pos + t.len() + 3 <= b.len(),
        forall|i: int| 0 <= i < t.len() ==> b[pos + 1 + i] == #[trigger] t[i],
        !t.contains(10u8),
        b[pos + 1 + t.len()] == 13,
        b[pos + 2 + t.len()] == 10,
        pos + 1 <= j <= pos + 1 + t.len(),
    ensures
        line_end(b, j) == pos + 1 + t.len(),
    decreases pos + 1 + t.len() - j,
{
    if j < pos + 1 + t.len() {
        lemma_line_at(b, pos, t, j + 1);
        if j + 1 < pos + 1 + t.len() {
            let i = j - pos;
            assert(b[j + 1] == t[i]);
            if t[i] == 10u8 {
                assert(t.contains(10u8));
            }
        }
    }
}

proof fn lemma_wire_all_front(x: Reply, rest: Seq<Reply>)
    ensures
        wire_all(seq![x] + rest) == wire(x) + wire_all(rest),
        wire_ok_all(seq![x] + rest) == (wire_ok(x) && wire_ok_all(rest)),
    decreases rest.len(),
{
    let all = seq![x] + rest;
    if rest.len() == 0 {
        assert(all.subrange(0, 0) =~= Seq::<Reply>::empty());
        assert(all[0] == x);
        assert(wire_ok_all(all.subrange(0, 0)));
        assert(wire_ok_all(rest));
        assert(wire(x) + wire_all(rest) =~= wire_all(Seq::<Reply>::empty()) + wire(x));
    } else {
        let front = rest.subrange(0, rest.len() - 1);
        lemma_wire_all_front(x, front);
        assert(all.subrange(0, all.len() - 1) =~= seq![x] + front);
        assert(all[all.len() - 1] == rest[rest.len() - 1]);
        assert(wire_all(all) =~= wire(x) + wire_all(rest));
        assert(wire_ok_all(all) == (wire_ok_all(seq![x] + front) && wire_ok(rest[rest.len() - 1])));
        assert(wire_ok_all(rest) == (wire_ok_all(front) && wire_ok(rest[rest.len() - 1])));
    }
}

/// A value written from `pos` on reads back as itself, ending where it ends.
pub proof fn law_value_reads_back(b: Seq<u8>, pos: int, r: Reply)
    requires
        wire_ok(r),
        0 <= pos,
        pos + wire(r).len() <= b.len(),
        b.subrange(pos, pos + wire(r).len()) == wire(r),
    ensures
        parse_at(b, pos) == Parsed::Done(r, pos + wire(r).len()),
    decreases r, 1nat,
{
    let w = wire(r);
    assert forall|i: int| 0 <= i < w.len() implies b[pos + i] == #[trigger] w[i] by {
        assert(b.subrange(pos, pos + w.len())[i] == b[pos + i]);
    }
    match r {
        Reply::Status(s) => {
            lemma_no_lf(s);
            lemma_text_line(b, pos, 43u8, encode_utf8(s));
            vstd::utf8::encode_utf8_valid_utf8(s);
            vstd::utf8::encode_utf8_decode_utf8(s);
        },
        Reply::Failure(s) => {
            lemma_no_lf(s);
            lemma_text_line(b, pos, 45u8, encode_utf8(s));
            vstd::utf8::encode_utf8_valid_utf8(s);
            vstd::utf8::encode_utf8_decode_utf8(s);
        },
        Reply::Number(n) => {
            lemma_int_text(n);
            lemma_text_line(b, pos, 58u8, encode_utf8(decimal_text(n)));
        },
        Reply::Bulk(None) => {
            lemma_minus_one();
            lemma_text_line(b, pos, 36u8, encode_utf8(seq!['-', '1']));
        },
        Reply::Bulk(Some(s)) => {
            let body = encode_utf8(s);
            let l = body.len();
            lemma_int_text(l as int);
            let hd = encode_utf8(decimal_text(l as int));
            let head = line(36u8, decimal_text(l as int));
            assert(w == head + body + crlf());
            assert(b.subrange(pos, pos + head.len()) =~= head) by {
                assert forall|i: int| 0 <= i < head.len() implies b.subrange(pos, pos + head.len())[i] == head[i] by {
                    assert(w[i] == head[i]);
                }
            }
            lemma_text_line(b, pos, 36u8, hd);
            let next = pos + head.len();
            assert(b.subrange(next, next + l) =~= body) by {
                assert forall|i: int| 0 <= i < l implies b.subrange(next, next + l)[i] == body[i] by {
                    assert(w[head.len() + i] == body[i]);
                }
            }
            assert(b[next + l] == w[(head.len() + l) as int]);
            assert(b[next + l + 1] == w[(head.len() + l + 1) as int]);
            vstd::utf8::encode_utf8_valid_utf8(s);
            vstd::utf8::encode_utf8_decode_utf8(s);
        },
        Reply::List(None) => {
            lemma_minus_one();
            lemma_text_line(b, pos, 42u8, encode_utf8(seq!['-', '1']));
        },
        Reply::List(Some(items)) => {
            let n = items.len();
            lemma_int_text(n as int);
            let hd = encode_utf8(decimal_text(n as int));
            let head = line(42u8, decimal_text(n as int));
            assert(w == head + wire_all(items));
            assert(b.subrange(pos, pos + head.len()) =~= head) by {
                assert forall|i: int| 0 <= i < head.len() implies b.subrange(pos, pos + head.len())[i] == head[i] by {
                    assert(w[i] == head[i]);
                }
            }
            lemma_text_line(b, pos, 42u8, hd);
            let next = pos + head.len();
            let rest = wire_all(items);
            assert(b.subrange(next, next + rest.len()) =~= rest) by {
                assert forall|i: int| 0 <= i < rest.len() implies b.subrange(next, next + rest.len())[i] == rest[i] by {
                    assert(w[head.len() + i] == rest[i]);
                }
            }
            assert(decreases_to!(r => r->List_0));
            assert(decreases_to!(r->List_0 => r->List_0->Some_0));
            law_items_read_back(b, next, items);
        },
    }
}

/// Decoding what `encode` wrote gives the value back, whatever follows it.
pub proof fn law_decode_after_encode(r: Reply, rest: Seq<u8>)
    requires
        wire_ok(r),
    ensures
        parse_at(wire(r) + rest, 0) == Parsed::Done(r, wire(r).len() as int),
{
    let b = wire(r) + rest;
    assert(b.subrange(0, wire(r).len() as int) =~= wire(r));
    law_value_reads_back(b, 0, r);
}

/// Values written one after the other from `pos` on read back as an array of
/// them.
pub proof fn law_items_read_back(b: Seq<u8>, pos: int, items: Seq<Reply>)
    requires
        wire_ok_all(items),
        0 <= pos,
        pos + wire_all(items).len() <= b.len(),
        b.subrange(pos, pos + wire_all(items).len()) == wire_all(items),
    ensures
        parse_items(b, pos, items.len() as int) == Parsed::Done(Reply::List(Some(items)), pos + wire_all(items).len()),
    decreases items, 0nat,
{
    if items.len() > 0 {
        let x = items[0];
        let rest = items.subrange(1, items.len() as int);
        assert(items =~= seq![x] + rest);
        lemma_wire_all_front(x, rest);
        let wx = wire(x);
        let wr = wire_all(rest);
        let all = wire_all(items);
        assert(all == wx + wr);
        assert(b.subrange(pos, pos + wx.len()) =~= wx) by {
            assert forall|i: int| 0 <= i < wx.len() implies b.subrange(pos, pos + wx.len())[i] == wx[i] by {
                assert(b.subrange(pos, pos + all.len())[i] == all[i]);
            }
        }
        assert(b.subrange(pos + wx.len(), pos + wx.len() + wr.len()) =~= wr) by {
            assert forall|i: int| 0 <= i < wr.len() implies b.subrange(pos + wx.len(), pos + wx.len() + wr.len())[i]
                == wr[i] by {
                assert(b.subrange(pos, pos + all.len())[wx.len() + i] == all[wx.len() + i]);
            }
        }
        assert(decreases_to!(items => items[0]));
        law_value_reads_back(b, pos, x);
        law_items_read_back(b, pos + wx.len(), rest);
        lemma_wire_nonempty(x);
        assert(seq![x] + rest =~= items);
    } else {
        assert(items =~= Seq::<Reply>::empty());
    }
}

proof fn lemma_wire_nonempty(r: Reply)
    ensures
        wire(r).len() > 0,
{
    match r {
        Reply::List(Some(items)) => {
            assert(wire(r)[0] == 42u8);
        },
        _ => {},
    }
}

proof fn lemma_minus_one()
    ensures
        int_of(encode_utf8(seq!['-', '1'])) == Some(-1int),
        !encode_utf8(seq!['-', '1']).contains(10u8),
{
    let d = crate::text::decimal_digits(1);
    assert(d =~= seq!['1']) by {
        assert(((1 + 48) as u32) as char == '1');
    }
    assert(seq!['-', '1'] =~= decimal_text(-1));
    lemma_int_text(-1);
}

/// A line of `t` at `pos`: the type byte is there, and the first CR LF ends
/// the text.
proof fn lemma_text_line(b: Seq<u8>, pos: int, tag: u8, t: Seq<u8>)
    requires
        0 <= pos,
        pos + t.len() + 3 <= b.len(),
        b.subrange(pos, pos + t.len() + 3) == seq![tag] + t + crlf(),
        !t.contains(10u8),
    ensures
        b[pos] == tag,
        line_end(b, pos + 1) == pos + 1 + t.len(),
        b.subrange(pos + 1, pos + 1 + t.len()) == t,
{
    let l = seq![tag] + t + crlf();
    assert forall|i: int| 0 <= i < l.len() implies b[pos + i] == #[trigger] l[i] by {
        assert(b.subrange(pos, pos + t.len() + 3)[i] == b[pos + i]);
    }
    assert(b[pos] == l[0]);
    assert forall|i: int| 0 <= i < t.len() implies b[pos + 1 + i] == #[trigger] t[i] by {
        assert(l[1 + i] == t[i]);
    }
    assert(b[pos + 1 + t.len()] == l[(1 + t.len()) as int]);
    assert(b[pos + 2 + t.len()] == l[(2 + t.len()) as int]);
    lemma_line_at(b, pos, t, pos + 1);
    assert(b.subrange(pos + 1, pos + 1 + t.len()) =~= t);
}

} // verus!
