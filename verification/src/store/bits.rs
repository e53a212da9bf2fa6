//! Bit operations on string values (bit 0 is the high bit of the first byte).
use vstd::prelude::*;
use vstd::string::*;
use vstd::utf8::*;

use super::{Entry, Store, StoreView, Value, ValueView};
use super::lists::clamp_range;
use crate::text::{text_eq, text_from_bytes, to_upper, upper_case, utf8_text};

verus! {

/// The bytes of a (live) string value; empty for anything else.
pub open spec fn value_bytes(v: Option<ValueView>) -> Seq<u8> {
    match v {
        Some(ValueView::Str(s)) => encode_utf8(s),
        _ => Seq::empty(),
    }
}

/// Bit `off` of `b` (0 beyond the end).
pub open spec fn bit_in(b: Seq<u8>, off: int) -> int {
    if 0 <= off && off / 8 < b.len() {
        ((b[off / 8] >> ((7 - off % 8) as u8)) & 1u8) as int
    } else {
        0
    }
}

/// `b` extended with zero bytes to at least `n` bytes.
pub open spec fn padded(b: Seq<u8>, n: nat) -> Seq<u8> {
    if b.len() >= n {
        b
    } else {
        b + Seq::new((n - b.len()) as nat, |i: int| 0u8)
    }
}

/// `b` with bit `off` set (or cleared), extended as needed.
pub open spec fn with_bit(b: Seq<u8>, off: nat, on: bool) -> Seq<u8> {
    let p = padded(b, off / 8 + 1);
    let i = (off / 8) as int;
    let mask = 1u8 << ((7 - off % 8) as u8);
    p.update(i, if on { p[i] | mask } else { p[i] & !mask })
}

/// Number of set bits among the low `j` bits of `x`.
pub open spec fn ones_below(x: u8, j: nat) -> nat
    decreases j,
{
    if j == 0 {
        0
    } else {
        ones_below(x, (j - 1) as nat) + ((x >> ((j - 1) as u8)) & 1u8) as nat
    }
}

/// Number of set bits in `b`.
pub open spec fn ones(b: Seq<u8>) -> nat
    decreases b.len(),
{
    if b.len() == 0 {
        0
    } else {
        ones(b.drop_last()) + ones_below(b.last(), 8)
    }
}

/// The byte at `i`, or 0 beyond the end.
pub open spec fn byte_at(b: Seq<u8>, i: int) -> u8 {
    if 0 <= i < b.len() {
        b[i]
    } else {
        0
    }
}

pub enum BitOp {
    And,
    Or,
    Xor,
    Not,
}

/// The operation `op` names, upper-cased.
pub open spec fn bitop_code(op: Seq<char>) -> Option<BitOp> {
    let u = upper_case(op);
    if u == "AND"@ {
        Some(BitOp::And)
    } else if u == "OR"@ {
        Some(BitOp::Or)
    } else if u == "XOR"@ {
        Some(BitOp::Xor)
    } else if u == "NOT"@ {
        Some(BitOp::Not)
    } else {
        None
    }
}

pub open spec fn apply_op(op: BitOp, a: u8, b: u8) -> u8 {
    match op {
        BitOp::And => a & b,
        BitOp::Or => a | b,
        BitOp::Xor => a ^ b,
        BitOp::Not => !a,
    }
}

/// Byte `i` of the combination of `bs` (each zero-padded) by `op`.
pub open spec fn fold_bytes(op: BitOp, bs: Seq<Seq<u8>>, i: int) -> u8
    decreases bs.len(),
{
    if bs.len() <= 1 {
        byte_at(bs[0], i)
    } else {
        apply_op(op, fold_bytes(op, bs.drop_last(), i), byte_at(bs.last(), i))
    }
}

/// The longest length among `bs`.
pub open spec fn max_len(bs: Seq<Seq<u8>>) -> nat
    decreases bs.len(),
{
    if bs.len() == 0 {
        0
    } else {
        let m = max_len(bs.drop_last());
        if bs.last().len() > m {
            bs.last().len()
        } else {
            m
        }
    }
}

/// The result of `op` over the sources `bs`.
pub open spec fn bitop_result(op: BitOp, bs: Seq<Seq<u8>>) -> Seq<u8> {
    Seq::new(
        max_len(bs),
        |i: int|
            match op {
                BitOp::Not => !byte_at(bs[0], i),
                _ => fold_bytes(op, bs, i),
            },
    )
}

/// First position in `from..to` whose bit is `target`, or -1.
pub open spec fn first_bit(b: Seq<u8>, from: int, to: int, target: int) -> int
    decreases to - from,
{
    if from >= to {
        -1
    } else if bit_in(b, from) == target {
        from
    } else {
        first_bit(b, from + 1, to, target)
    }
}

pub open spec fn opt_int(o: Option<i64>, default: int) -> int {
    match o {
        Some(v) => v as int,
        None => default,
    }
}

impl StoreView {
    /// The bytes of the source keys of a bit operation.
    pub open spec fn sources(self, keys: Seq<Seq<char>>, now: u64) -> Seq<Seq<u8>> {
        keys.map_values(|k: Seq<char>| value_bytes(self.value_of(k, now)))
    }
}

fn byte_or_zero(b: &Vec<u8>, i: usize) -> (r: u8)
    ensures
        r == byte_at(b@, i as int),
{
    if i < b.len() {
        b[i]
    } else {
        0
    }
}

fn bit_of(b: &[u8], off: u128) -> (r: u8)
    requires
        off / 8 < b@.len(),
    ensures
        r as int == bit_in(b@, off as int),
{
    let byte = b[(off / 8) as usize];
    let sh = (7 - off % 8) as u8;
    (byte >> sh) & 1u8
}

fn count_ones(x: u8) -> (r: u64)
    ensures
        r == ones_below(x, 8),
{
    let mut c: u64 = 0;
    let mut j: u8 = 0;
    while j < 8
        invariant
            j <= 8,
            c == ones_below(x, j as nat),
            c <= j,
        decreases 8 - j,
    {
        if (x >> j) & 1u8 == 1u8 {
            c = c + 1;
        } else {
            assert((x >> j) & 1u8 == 0u8) by (bit_vector)
                requires
                    (x >> j) & 1u8 != 1u8,
            ;
        }
        j = j + 1;
    }
    c
}

impl Store {
    /// The bytes of the live string at `key` (empty when absent) with its expiry,
    /// or `None` when the key holds another type.
    fn bytes_at(&self, key: &str, now: u64) -> (r: Option<(Vec<u8>, Option<u64>)>)
        ensures
            match r {
                Some((b, exp)) => b@ == value_bytes(self@.value_of(key@, now)) && exp
                    == self@.expiry_of(key@, now) && (self@.value_of(key@, now) is None || self@.value_of(
                    key@,
                    now,
                ) is Some && self@.value_of(key@, now)->Some_0 is Str),
                None => self@.value_of(key@, now) is Some && !(self@.value_of(key@, now)->Some_0 is Str),
            },
    {
        match self.find_live(key, now) {
            Some(i) => match &self.entries[i].value {
                Value::Str(s) => Some((crate::buf::copy_bytes(s.as_str().as_bytes()), self.entries[i].expires_at)),
                _ => None,
            },
            None => Some((Vec::new(), None)),
        }
    }

    /// Bit `offset` of the string at `key` (0 beyond its end or when absent).
    pub fn getbit(&self, key: &str, offset: usize, now: u64) -> (r: i64)
        ensures
            r == bit_in(value_bytes(self@.value_of(key@, now)), offset as int),
    {
        match self.bytes_at(key, now) {
            Some((b, _)) => {
                if offset / 8 < b.len() {
                    bit_of(b.as_slice(), offset as u128) as i64
                } else {
                    0
                }
            },
            None => 0,
        }
    }

    /// Sets bit `offset` of the string at `key` to `value != 0` (creating or
    /// extending the string with zero bytes); returns the bit's old value. A key
    /// of another type is left alone (0).
    pub fn setbit(&mut self, key: &str, offset: usize, value: u8, now: u64) -> (r: i64)
        ensures
            match old(self)@.value_of(key@, now) {
                Some(v) if !(v is Str) => r == 0 && final(self)@ == old(self)@,
                _ => {
                    let b = value_bytes(old(self)@.value_of(key@, now));
                    &&& r == bit_in(b, offset as int)
                    &&& final(self)@ == old(self)@.stored(
                        key@,
                        ValueView::Str(utf8_text(with_bit(b, offset as nat, value != 0))),
                        old(self)@.expiry_of(key@, now),
                    )
                },
            },
            old(self)@.wf() ==> final(self)@.wf(),
    {
        let (mut b, exp) = match self.bytes_at(key, now) {
            Some(p) => p,
            None => {
                return 0;
            },
        };
        let ghost b0 = b@;
        let idx = offset / 8;
        let old_bit: i64 = if idx < b.len() {
            bit_of(b.as_slice(), offset as u128) as i64
        } else {
            0
        };
        while b.len() <= idx
            invariant
                b0.len() <= b@.len(),
                b@.len() <= if b0.len() > idx + 1 { b0.len() } else { (idx + 1) as nat },
                b@ == b0 + Seq::new((b@.len() - b0.len()) as nat, |i: int| 0u8),
            decreases idx + 1 - b@.len(),
        {
            let ghost before = b@;
            b.push(0u8);
            assert(b@ =~= b0 + Seq::new((b@.len() - b0.len()) as nat, |i: int| 0u8));
        }
        proof {
            if b0.len() >= idx + 1 {
                assert(b@ =~= b0);
            }
            assert(b@ =~= padded(b0, offset as nat / 8 + 1));
        }
        let mask: u8 = 1u8 << ((7 - offset % 8) as u8);
        let cur = b[idx];
        let nb = if value != 0 { cur | mask } else { cur & !mask };
        b.set(idx, nb);
        let s = text_from_bytes(b.as_slice());
        self.store_entry(Entry { key: key.to_owned(), value: Value::Str(s), expires_at: exp });
        old_bit
    }

    /// Number of set bits in bytes `start..=end` of the string at `key` (negative
    /// positions count from the end; the range is clamped).
    pub fn bitcount(&self, key: &str, start: Option<i64>, end: Option<i64>, now: u64) -> (r: i64)
        ensures
            ({
                let b = value_bytes(self@.value_of(key@, now));
                let (lo, hi) = clamp_range(b.len() as int, opt_int(start, 0), opt_int(end, -1));
                r == ones(b.subrange(lo, hi)) as i64
            }),
    {
        let b = match self.bytes_at(key, now) {
            Some((b, _)) => b,
            None => Vec::new(),
        };
        let n = b.len() as i128;
        let st: i128 = match start {
            Some(v) => v as i128,
            None => 0,
        };
        let en: i128 = match end {
            Some(v) => v as i128,
            None => -1,
        };
        let s0: i128 = if st < 0 { st + n } else { st };
        let s: i128 = if s0 < 0 { 0 } else { s0 };
        let e0: i128 = if en < 0 { en + n } else { en };
        let e: i128 = if e0 >= n { n - 1 } else { e0 };
        if s > e || s >= n {
            assert(b@.subrange(0, 0) =~= Seq::<u8>::empty());
            return 0;
        }
        let lo = s as usize;
        let hi = (e + 1) as usize;
        let mut c: u128 = 0;
        let mut i = lo;
        assert(b@.subrange(lo as int, lo as int) =~= Seq::<u8>::empty());
        while i < hi
            invariant
                lo <= i <= hi,
                hi <= b@.len(),
                c == ones(b@.subrange(lo as int, i as int)),
                c <= 8 * (i - lo),
            decreases hi - i,
        {
            let k = count_ones(b[i]);
            proof {
                assert(b@.subrange(lo as int, i as int + 1).drop_last() =~= b@.subrange(lo as int, i as int));
                assert(k <= 8) by {
                    lemma_ones_below_bound(b@[i as int], 8);
                }
            }
            c = c + k as u128;
            i = i + 1;
        }
        c as i64
    }

    /// Combines the strings at `keys` byte by byte with `op` (AND, OR, XOR, or NOT
    /// of a single key; any case), zero-padding shorter ones, and stores the
    /// result at `dest`; returns its length. An empty result deletes `dest`.
    pub fn bitop(&mut self, op: &str, dest: &str, keys: &[&str], now: u64) -> (r: i64)
        ensures
            match bitop_code(op@) {
                None => r == 0 && final(self)@ == old(self)@,
                Some(code) => if keys@.len() == 0 || (code is Not && keys@.len() != 1) {
                    r == 0 && final(self)@ == old(self)@
                } else {
                    let res = bitop_result(code, old(self)@.sources(keys@.map_values(|k: &str| k@), now));
                    if res.len() == 0 {
                        r == 0 && final(self)@ == if old(self)@.lookup(dest@, now) is Some {
                            old(self)@.deleted(dest@)
                        } else {
                            old(self)@
                        }
                    } else {
                        r == res.len() as i64 && final(self)@ == old(self)@.stored(
                            dest@,
                            ValueView::Str(utf8_text(res)),
                            None,
                        )
                    }
                },
            },
            old(self)@.wf() ==> final(self)@.wf(),
    {
        let u = to_upper(op);
        let code = if text_eq(u.as_str(), "AND") {
            BitOp::And
        } else if text_eq(u.as_str(), "OR") {
            BitOp::Or
        } else if text_eq(u.as_str(), "XOR") {
            BitOp::Xor
        } else if text_eq(u.as_str(), "NOT") {
            BitOp::Not
        } else {
            return 0;
        };
        let is_not = match code {
            BitOp::Not => true,
            _ => false,
        };
        if keys.len() == 0 || (is_not && keys.len() != 1) {
            return 0;
        }
        let ghost ks = keys@.map_values(|k: &str| k@);
        let ghost bs = self@.sources(ks, now);
        let mut srcs: Vec<Vec<u8>> = Vec::new();
        let mut maxlen: usize = 0;
        let mut i: usize = 0;
        assert(bs.take(0) =~= Seq::<Seq<u8>>::empty());
        while i < keys.len()
            invariant
                i <= keys@.len(),
                ks == keys@.map_values(|k: &str| k@),
                bs == self@.sources(ks, now),
                srcs@.len() == i,
                forall|j: int| 0 <= j < i ==> (#[trigger] srcs@[j])@ == bs[j],
                maxlen == max_len(bs.take(i as int)),
            decreases keys@.len() - i,
        {
            let b = match self.bytes_at(keys[i], now) {
                Some((b, _)) => b,
                None => Vec::new(),
            };
            proof {
                let t = bs.take(i as int + 1);
                assert(t.drop_last() =~= bs.take(i as int));
                assert(t.last() == bs[i as int]);
            }
            if b.len() > maxlen {
                maxlen = b.len();
            }
            srcs.push(b);
            i = i + 1;
        }
        assert(bs.take(keys@.len() as int) =~= bs);
        let ghost res = bitop_result(code, bs);
        let mut out: Vec<u8> = Vec::new();
        let mut p: usize = 0;
        while p < maxlen
            invariant
                p <= maxlen,
                maxlen == max_len(bs),
                bs.len() == keys@.len(),
                bs.len() >= 1,
                srcs@.len() == bs.len(),
                forall|j: int| 0 <= j < bs.len() ==> (#[trigger] srcs@[j])@ == bs[j],
                res == bitop_result(code, bs),
                is_not == (code is Not),
                out@ == res.take(p as int),
            decreases maxlen - p,
        {
            let byte = if is_not {
                !byte_or_zero(&srcs[0], p)
            } else {
                let mut acc = byte_or_zero(&srcs[0], p);
                let mut j: usize = 1;
                assert(bs.take(1).drop_last() =~= Seq::<Seq<u8>>::empty());
                while j < srcs.len()
                    invariant
                        1 <= j <= srcs@.len(),
                        srcs@.len() == bs.len(),
                        forall|q: int| 0 <= q < bs.len() ==> (#[trigger] srcs@[q])@ == bs[q],
                        acc == fold_bytes(code, bs.take(j as int), p as int),
                    decreases srcs@.len() - j,
                {
                    proof {
                        let t = bs.take(j as int + 1);
                        assert(t.drop_last() =~= bs.take(j as int));
                        assert(t.last() == bs[j as int]);
                    }
                    let nb = byte_or_zero(&srcs[j], p);
                    acc = match code {
                        BitOp::And => acc & nb,
                        BitOp::Or => acc | nb,
                        BitOp::Xor => acc ^ nb,
                        BitOp::Not => !acc,
                    };
                    j = j + 1;
                }
                assert(bs.take(srcs@.len() as int) =~= bs);
                acc
            };
            out.push(byte);
            assert(out@ =~= res.take(p as int + 1));
            p = p + 1;
        }
        assert(res.take(maxlen as int) =~= res);
        if maxlen == 0 {
            match self.find_live(dest, now) {
                Some(slot) => {
                    proof {
                        super::lemma_key_pos(self@.entries, dest@);
                    }
                    self.remove_slot(slot);
                },
                None => {},
            }
            return 0;
        }
        let s = text_from_bytes(out.as_slice());
        self.store_entry(Entry { key: dest.to_owned(), value: Value::Str(s), expires_at: None });
        maxlen as i64
    }

    /// Position of the first bit equal to `bit != 0` in bytes `start..=end` of the
    /// string at `key`. When none is found: -1, except that a search for a clear
    /// bit without an end gives the position just past the range.
    pub fn bitpos(&self, key: &str, bit: u8, start: Option<i64>, end: Option<i64>, now: u64) -> (r: i64)
        ensures
            ({
                let b = value_bytes(self@.value_of(key@, now));
                let (lo, hi) = clamp_range(b.len() as int, opt_int(start, 0), opt_int(end, -1));
                let pos = first_bit(b, lo * 8, hi * 8, if bit != 0 { 1 } else { 0 });
                r == if pos >= 0 {
                    pos as i64
                } else if bit == 0 && end is None {
                    (hi * 8) as i64
                } else {
                    -1i64
                }
            }),
    {
        let b = match self.bytes_at(key, now) {
            Some((b, _)) => b,
            None => Vec::new(),
        };
        let n = b.len() as i128;
        let st: i128 = match start {
            Some(v) => v as i128,
            None => 0,
        };
        let en: i128 = match end {
            Some(v) => v as i128,
            None => -1,
        };
        let s0: i128 = if st < 0 { st + n } else { st };
        let s: i128 = if s0 < 0 { 0 } else { s0 };
        let e0: i128 = if en < 0 { en + n } else { en };
        let e: i128 = if e0 >= n { n - 1 } else { e0 };
        let (lo, hi): (u128, u128) = if s > e || s >= n { (0, 0) } else { (s as u128, (e + 1) as u128) };
        let target: u8 = if bit != 0 { 1 } else { 0 };
        let hi8: u128 = hi * 8;
        let mut p: u128 = lo * 8;
        while p < hi8
            invariant
                hi8 == hi * 8,
                target == (if bit != 0 { 1u8 } else { 0u8 }),
                b@ == value_bytes(self@.value_of(key@, now)),
                (lo as int, hi as int) == clamp_range(b@.len() as int, opt_int(start, 0), opt_int(end, -1)),
                lo * 8 <= p <= hi * 8,
                hi <= b@.len(),
                first_bit(b@, lo * 8, hi * 8, target as int) == first_bit(b@, p as int, hi * 8, target as int),
            decreases hi * 8 - p,
        {
            if bit_of(b.as_slice(), p) == target {
                assert(first_bit(b@, p as int, hi * 8, target as int) == p as int);
                return p as i64;
            }
            p = p + 1;
        }
        if bit == 0 && end.is_none() {
            hi8 as i64
        } else {
            -1
        }
    }
}

proof fn lemma_ones_below_bound(x: u8, j: nat)
    requires
        j <= 8,
    ensures
        ones_below(x, j) <= j,
    decreases j,
{
    if j > 0 {
        lemma_ones_below_bound(x, (j - 1) as nat);
        let sh = (j - 1) as u8;
        assert((x >> sh) & 1u8 <= 1u8) by (bit_vector);
    }
}


proof fn lemma_mask_bits(x: u8, a: u8, c: u8)
    by (bit_vector)
    requires
        a < 8,
        c < 8,
    ensures
        ((x | (1u8 << a)) >> a) & 1u8 == 1u8,
        ((x & !(1u8 << a)) >> a) & 1u8 == 0u8,
        a != c ==> ((x | (1u8 << a)) >> c) & 1u8 == (x >> c) & 1u8,
        a != c ==> ((x & !(1u8 << a)) >> c) & 1u8 == (x >> c) & 1u8,
        (0u8 >> c) & 1u8 == 0u8,
{
}

/// `with_bit` sets bit `off` as asked and leaves every other bit.
proof fn lemma_with_bit(b: Seq<u8>, off: nat, on: bool, j: int)
    ensures
        bit_in(with_bit(b, off, on), off as int) == if on { 1int } else { 0int },
        0 <= j && j != off ==> bit_in(with_bit(b, off, on), j) == bit_in(b, j),
{
    let p = padded(b, off / 8 + 1);
    let i = (off / 8) as int;
    let w = with_bit(b, off, on);
    let a = (7 - off % 8) as u8;
    assert(p.len() >= i + 1);
    assert(forall|t: int| 0 <= t < p.len() ==> #[trigger] p[t] == if t < b.len() { b[t] } else { 0u8 });
    lemma_mask_bits(p[i], a, a);
    if 0 <= j && j != off {
        let c = (7 - j % 8) as u8;
        let jb = j / 8;
        lemma_mask_bits(p[i], a, c);
        lemma_mask_bits(0u8, a, c);
        if jb == i {
            assert(j % 8 != off % 8);
        } else if jb < w.len() {
            assert(w[jb] == p[jb]);
        }
    }
}

/// SETBIT then GETBIT: the bit set reads back, and every other bit of the
/// string stays as it was. This holds when the bytes that SETBIT makes are
/// valid UTF-8: a string value holds text, and other bytes are stored through
/// lossy decoding.
pub proof fn law_setbit_then_getbit(st: StoreView, k: Seq<char>, off: nat, on: bool, j: int, now: u64)
    requires
        !(st.value_of(k, now) matches Some(v) && !(v is Str)),
        valid_utf8(with_bit(value_bytes(st.value_of(k, now)), off, on)),
    ensures
        ({
            let b = value_bytes(st.value_of(k, now));
            let after = st.stored(k, ValueView::Str(utf8_text(with_bit(b, off, on))), st.expiry_of(k, now));
            &&& bit_in(value_bytes(after.value_of(k, now)), off as int) == if on { 1int } else { 0int }
            &&& 0 <= j && j != off ==> bit_in(value_bytes(after.value_of(k, now)), j) == bit_in(b, j)
        }),
{
    let b = value_bytes(st.value_of(k, now));
    let w = with_bit(b, off, on);
    let v = ValueView::Str(utf8_text(w));
    super::laws::law_set_then_get(st, k, v, st.expiry_of(k, now), now);
    decode_utf8_encode_utf8(w);
    lemma_with_bit(b, off, on, j);
}

} // verus!
