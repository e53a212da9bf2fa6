use vstd::bytes::*;
use vstd::prelude::*;
use crate::buf::append_bytes;
use vstd::slice::slice_subrange;

verus! {

/// Mixed into every probe hash.
pub const MURMUR_MIX: u64 = 0xc6a4a7935bd1e995;

/// Bit count of the filter that `BloomFilter::default` builds (the sizing rule
/// applied to 10000 expected items at a 1% false-positive rate).
pub const DEFAULT_BITS: usize = 95851;

/// Probe count of the filter that `BloomFilter::default` builds.
pub const DEFAULT_PROBES: usize = 7;

/// The 64-bit digest that a fresh `DefaultHasher` yields after hashing the byte
/// slice `key` and then the `usize` `seed`.
pub uninterp spec fn default_hasher_digest(key: Seq<u8>, seed: usize) -> u64;

/// Calls `BuildHasher::hash_one` of `BuildHasherDefault<DefaultHasher>` on the
/// pair `(key, seed)`: a fresh `DefaultHasher` hashes the key slice, then the
/// seed, and finishes. `DefaultHasher` starts from fixed keys, so the digest
/// depends on the two arguments alone; the contract claims that and nothing
/// about the hash function itself.
#[verifier::external_body]
fn digest_of(key: &[u8], seed: usize) -> (h: u64)
    ensures
        h == default_hasher_digest(key@, seed),
{
    std::hash::BuildHasher::hash_one(
        &std::hash::BuildHasherDefault::<std::collections::hash_map::DefaultHasher>::default(),
        (key, seed),
    )
}

/// The hash of probe number `seed` for `key`.
pub open spec fn probe_hash(key: Seq<u8>, seed: usize) -> usize {
    (default_hasher_digest(key, seed) as usize) ^ (MURMUR_MIX as usize)
}

/// The bit that probe number `seed` of `key` lands on, in a filter of `m` bits.
pub open spec fn probe_index(key: Seq<u8>, seed: usize, m: usize) -> usize
    recommends
        m > 0,
{
    (probe_hash(key, seed) % m) as usize
}

/// Number of 64-bit words that hold `m` bits.
pub open spec fn words_for(m: nat) -> nat {
    if m % 64 == 0 {
        m / 64
    } else {
        m / 64 + 1
    }
}

/// Bit `b` (0 = least significant) of `word`.
pub open spec fn bit_of(word: u64, b: nat) -> bool {
    (word >> (b as u64)) & 1u64 == 1u64
}

/// Bit `i` of a word array, bit 0 being the low bit of word 0.
pub open spec fn bit_at(bits: Seq<u64>, i: nat) -> bool {
    bit_of(bits[(i / 64) as int], i % 64)
}

/// The word array with bit `i` set.
pub open spec fn set_bit(bits: Seq<u64>, i: nat) -> Seq<u64> {
    bits.update((i / 64) as int, bits[(i / 64) as int] | (1u64 << ((i % 64) as u64)))
}

/// The word array after setting the bits of the first `n` probes of `key`.
pub open spec fn add_probes(bits: Seq<u64>, key: Seq<u8>, n: nat, m: usize) -> Seq<u64>
    decreases n,
{
    if n == 0 {
        bits
    } else {
        set_bit(
            add_probes(bits, key, (n - 1) as nat, m),
            probe_index(key, (n - 1) as usize, m) as nat,
        )
    }
}

/// Little-endian bytes of a word array, word after word.
pub open spec fn words_le(words: Seq<u64>) -> Seq<u8>
    decreases words.len(),
{
    if words.len() == 0 {
        Seq::empty()
    } else {
        words_le(words.drop_last()) + spec_u64_to_le_bytes(words.last())
    }
}

/// The abstract state of a filter: its bit count, probe count and words.
pub struct BloomView {
    pub m: usize,
    pub k: usize,
    pub bits: Seq<u64>,
}

impl BloomView {
    /// The word array is exactly large enough for `m` bits.
    pub open spec fn wf(self) -> bool {
        self.bits.len() == words_for(self.m as nat)
    }

    /// Probing is defined: there is a bit to land on, or no probe at all.
    pub open spec fn probeable(self) -> bool {
        self.m > 0 || self.k == 0
    }

    /// The filter after `add(key)`.
    pub open spec fn added(self, key: Seq<u8>) -> BloomView {
        BloomView { m: self.m, k: self.k, bits: add_probes(self.bits, key, self.k as nat, self.m) }
    }

    /// What `might_contain(key)` answers: every probe of `key` finds its bit set.
    pub open spec fn contains(self, key: Seq<u8>) -> bool {
        forall|i: nat| i < self.k ==> #[trigger] bit_at(self.bits, probe_index(key, i as usize, self.m) as nat)
    }

    /// The serialized form: `m` and `k` as little-endian `u32`, then the words.
    pub open spec fn encoded(self) -> Seq<u8> {
        spec_u32_to_le_bytes(self.m as u32) + spec_u32_to_le_bytes(self.k as u32) + words_le(self.bits)
    }
}

/// The word at index `i` of a serialized filter.
pub open spec fn word_at(data: Seq<u8>, i: int) -> u64 {
    spec_u64_from_le_bytes(data.subrange(8 + 8 * i, 16 + 8 * i))
}

/// What `from_bytes` makes of `data`.
pub open spec fn decode_bloom(data: Seq<u8>) -> Option<BloomView> {
    if data.len() < 8 {
        None
    } else {
        let m = spec_u32_from_le_bytes(data.subrange(0, 4)) as usize;
        let k = spec_u32_from_le_bytes(data.subrange(4, 8)) as usize;
        let n = words_for(m as nat);
        if data.len() < 8 + n * 8 {
            None
        } else {
            Some(BloomView { m, k, bits: Seq::new(n, |i: int| word_at(data, i)) })
        }
    }
}

pub struct BloomFilter {
    bits: Vec<u64>,
    m: usize,
    k: usize,
}

impl View for BloomFilter {
    type V = BloomView;

    closed spec fn view(&self) -> BloomView {
        BloomView { m: self.m, k: self.k, bits: self.bits@ }
    }
}

proof fn lemma_word_bit_set(w: u64, b: u64, c: u64)
    by (bit_vector)
    requires
        b < 64,
        c < 64,
    ensures
        ((w | (1u64 << b)) >> c) & 1u64 == 1u64 <==> (((w >> c) & 1u64 == 1u64) || c == b),
{
}

proof fn lemma_word_bit_test(w: u64, b: u64)
    by (bit_vector)
    requires
        b < 64,
    ensures
        (w & (1u64 << b)) == 0u64 <==> !((w >> b) & 1u64 == 1u64),
{
}

proof fn lemma_words_for_covers(m: nat)
    ensures
        m <= 64 * words_for(m),
        words_for(m) * 64 < m + 64,
{
}

/// Setting bit `i` sets bit `i` and leaves every other bit of the array as it was.
proof fn lemma_set_bit(bits: Seq<u64>, i: nat, j: nat)
    requires
        i < 64 * bits.len(),
        j < 64 * bits.len(),
    ensures
        set_bit(bits, i).len() == bits.len(),
        bit_at(set_bit(bits, i), j) == (bit_at(bits, j) || i == j),
{
    let wi = (i / 64) as int;
    let wj = (j / 64) as int;
    if wi == wj {
        lemma_word_bit_set(bits[wi], (i % 64) as u64, (j % 64) as u64);
    }
}

/// Each bit after adding a key's probes is the old bit, or a probe landed on it.
proof fn lemma_add_probes_bits(bits: Seq<u64>, key: Seq<u8>, n: nat, m: usize, j: nat)
    requires
        m > 0,
        m <= 64 * bits.len(),
        n <= usize::MAX + 1,
        j < 64 * bits.len(),
    ensures
        add_probes(bits, key, n, m).len() == bits.len(),
        bit_at(add_probes(bits, key, n, m), j) == (bit_at(bits, j) || exists|i: nat|
            i < n && #[trigger] probe_index(key, i as usize, m) == j),
    decreases n,
{
    if n > 0 {
        let prev = add_probes(bits, key, (n - 1) as nat, m);
        lemma_add_probes_bits(bits, key, (n - 1) as nat, m, j);
        let idx = probe_index(key, (n - 1) as usize, m) as nat;
        lemma_set_bit(prev, idx, j);
        if bit_at(add_probes(bits, key, n, m), j) && !bit_at(bits, j) {
            if idx != j {
                let w = choose|i: nat| i < n - 1 && #[trigger] probe_index(key, i as usize, m) == j;
                assert(w < n && probe_index(key, w as usize, m) == j);
            }
        }
        if exists|i: nat| i < n && #[trigger] probe_index(key, i as usize, m) == j {
            let w = choose|i: nat| i < n && #[trigger] probe_index(key, i as usize, m) == j;
            if w < n - 1 {
                assert(exists|i: nat| i < n - 1 && #[trigger] probe_index(key, i as usize, m) == j);
            }
        }
    } else {
        assert(!exists|i: nat| i < n && #[trigger] probe_index(key, i as usize, m) == j);
    }
}

/// No false negatives: once a key has been added, the filter reports it.
pub proof fn law_added_key_is_reported(bf: BloomView, key: Seq<u8>)
    requires
        bf.wf(),
        bf.probeable(),
    ensures
        bf.added(key).contains(key),
{
    assert forall|i: nat| i < bf.k implies #[trigger] bit_at(
        bf.added(key).bits,
        probe_index(key, i as usize, bf.m) as nat,
    ) by {
        lemma_words_for_covers(bf.m as nat);
        let j = probe_index(key, i as usize, bf.m) as nat;
        lemma_add_probes_bits(bf.bits, key, bf.k as nat, bf.m, j);
        assert(i < bf.k && probe_index(key, i as usize, bf.m) == j);
    }
}

/// Adding a key never makes the filter forget a key it reported before.
pub proof fn law_add_keeps_reported(bf: BloomView, key: Seq<u8>, other: Seq<u8>)
    requires
        bf.wf(),
        bf.probeable(),
        bf.contains(other),
    ensures
        bf.added(key).contains(other),
        bf.added(key).wf(),
{
    lemma_words_for_covers(bf.m as nat);
    if bf.k > 0 {
        lemma_add_probes_bits(bf.bits, key, bf.k as nat, bf.m, 0);
    }
    assert forall|i: nat| i < bf.k implies #[trigger] bit_at(
        bf.added(key).bits,
        probe_index(other, i as usize, bf.m) as nat,
    ) by {
        let j = probe_index(other, i as usize, bf.m) as nat;
        lemma_add_probes_bits(bf.bits, key, bf.k as nat, bf.m, j);
    }
}

proof fn lemma_words_le(words: Seq<u64>, i: int)
    requires
        0 <= i < words.len(),
    ensures
        words_le(words).len() == 8 * words.len(),
        words_le(words).subrange(8 * i, 8 * i + 8) == spec_u64_to_le_bytes(words[i]),
    decreases words.len(),
{
    lemma_auto_spec_u64_to_from_le_bytes();
    let pre = words.drop_last();
    if i < words.len() - 1 {
        lemma_words_le(pre, i);
        assert(words_le(words).subrange(8 * i, 8 * i + 8) =~= words_le(pre).subrange(8 * i, 8 * i + 8));
    } else {
        if pre.len() > 0 {
            lemma_words_le(pre, 0);
        }
        assert(words_le(words).subrange(8 * i, 8 * i + 8) =~= spec_u64_to_le_bytes(words[i]));
    }
}

pub proof fn lemma_words_le_len(words: Seq<u64>)
    ensures
        words_le(words).len() == 8 * words.len(),
    decreases words.len(),
{
    lemma_auto_spec_u64_to_from_le_bytes();
    if words.len() > 0 {
        lemma_words_le_len(words.drop_last());
    }
}

/// Adding a key keeps the sizes of a filter.
pub proof fn lemma_added_keeps_shape(bf: BloomView, key: Seq<u8>)
    requires
        bf.wf(),
        bf.probeable(),
    ensures
        bf.added(key).wf(),
        bf.added(key).bits.len() == bf.bits.len(),
        bf.added(key).m == bf.m,
        bf.added(key).k == bf.k,
{
    lemma_words_for_covers(bf.m as nat);
    if bf.k > 0 && bf.bits.len() > 0 {
        lemma_add_probes_bits(bf.bits, key, bf.k as nat, bf.m, 0);
    }
}

/// The serialized form takes 8 header bytes and 8 bytes per word.
pub proof fn lemma_encoded_len(bf: BloomView)
    ensures
        bf.encoded().len() == 8 + 8 * bf.bits.len(),
{
    lemma_auto_spec_u32_to_from_le_bytes();
    lemma_words_le_len(bf.bits);
}

/// Serializing a filter and reading it back gives the same filter, for every
/// well-formed filter whose sizes fit the 32-bit header fields.
pub proof fn law_bytes_roundtrip(bf: BloomView)
    requires
        bf.wf(),
        bf.m <= u32::MAX,
        bf.k <= u32::MAX,
    ensures
        decode_bloom(bf.encoded()) == Some(bf),
{
    lemma_auto_spec_u32_to_from_le_bytes();
    lemma_auto_spec_u64_to_from_le_bytes();
    lemma_words_le_len(bf.bits);
    let d = bf.encoded();
    let head = spec_u32_to_le_bytes(bf.m as u32) + spec_u32_to_le_bytes(bf.k as u32);
    assert(d.subrange(0, 4) =~= spec_u32_to_le_bytes(bf.m as u32));
    assert(d.subrange(4, 8) =~= spec_u32_to_le_bytes(bf.k as u32));
    let n = words_for(bf.m as nat);
    assert forall|i: int| 0 <= i < n implies #[trigger] word_at(d, i) == bf.bits[i] by {
        lemma_words_le(bf.bits, i);
        assert(d.subrange(8 + 8 * i, 16 + 8 * i) =~= words_le(bf.bits).subrange(8 * i, 8 * i + 8));
    }
    let got = decode_bloom(d).unwrap();
    assert(got.bits =~= bf.bits);
}


impl BloomFilter {
    /// A filter of `m` bits probed `k` times per key, with every bit clear.
    pub fn with_size(m: usize, k: usize) -> (bf: BloomFilter)
        ensures
            bf@.m == m,
            bf@.k == k,
            bf@.wf(),
            forall|i: int| 0 <= i < bf@.bits.len() ==> bf@.bits[i] == 0u64,
    {
        let n: usize = m / 64 + if m % 64 == 0 { 0 } else { 1 };
        let mut bits: Vec<u64> = Vec::new();
        let mut i: usize = 0;
        while i < n
            invariant
                i <= n,
                bits@.len() == i,
                forall|j: int| 0 <= j < i ==> bits@[j] == 0u64,
            decreases n - i,
        {
            bits.push(0u64);
            i = i + 1;
        }
        BloomFilter { bits, m, k }
    }

    /// Number of 64-bit words that hold the bits.
    pub fn word_count(&self) -> (r: usize)
        ensures
            r == self@.bits.len(),
    {
        self.bits.len()
    }

    fn hash(&self, key: &[u8], seed: usize) -> (h: usize)
        ensures
            h == probe_hash(key@, seed),
    {
        (digest_of(key, seed) as usize) ^ (MURMUR_MIX as usize)
    }

    /// Sets the bit of every probe of `key`.
    pub fn add(&mut self, key: &[u8])
        requires
            old(self)@.wf(),
            old(self)@.probeable(),
        ensures
            final(self)@ == old(self)@.added(key@),
            final(self)@.wf(),
    {
        proof {
            lemma_words_for_covers(self@.m as nat);
        }
        let mut i: usize = 0;
        while i < self.k
            invariant
                self@.m == old(self)@.m,
                self@.k == old(self)@.k,
                self@.probeable(),
                self@.bits.len() == old(self)@.bits.len(),
                old(self)@.wf(),
                self@.m <= 64 * self@.bits.len(),
                i <= self@.k,
                self@.bits == add_probes(old(self)@.bits, key@, i as nat, self@.m),
            decreases self@.k - i,
        {
            let hash = self.hash(key, i);
            let idx = hash % self.m;
            let w = idx / 64;
            let word = self.bits[w] | (1u64 << ((idx % 64) as u64));
            self.bits.set(w, word);
            i = i + 1;
        }
    }

    /// Whether keys can be probed: the filter has bits, or probes none.
    pub fn can_probe(&self) -> (r: bool)
        ensures
            r == self@.probeable(),
    {
        self.m > 0 || self.k == 0
    }

    /// Whether every probe of `key` finds its bit set.
    pub fn might_contain(&self, key: &[u8]) -> (r: bool)
        requires
            self@.wf(),
            self@.probeable(),
        ensures
            r == self@.contains(key@),
    {
        proof {
            lemma_words_for_covers(self@.m as nat);
        }
        let mut i: usize = 0;
        while i < self.k
            invariant
                self@.wf(),
                self@.probeable(),
                self@.m <= 64 * self@.bits.len(),
                i <= self@.k,
                forall|j: nat| j < i ==> #[trigger] bit_at(self@.bits, probe_index(key@, j as usize, self@.m) as nat),
            decreases self@.k - i,
        {
            let hash = self.hash(key, i);
            let idx = hash % self.m;
            proof {
                lemma_word_bit_test(self@.bits[(idx / 64) as int], (idx % 64) as u64);
            }
            if self.bits[idx / 64] & (1u64 << ((idx % 64) as u64)) == 0 {
                assert(!bit_at(self@.bits, probe_index(key@, i as usize, self@.m) as nat));
                return false;
            }
            i = i + 1;
        }
        true
    }

    /// `m` and `k` as little-endian `u32`, then each word as little-endian `u64`.
    pub fn to_bytes(&self) -> (data: Vec<u8>)
        ensures
            data@ == self@.encoded(),
    {
        let mut data: Vec<u8> = Vec::new();
        let mb = u32_to_le_bytes(self.m as u32);
        append_bytes(&mut data, mb.as_slice());
        let kb = u32_to_le_bytes(self.k as u32);
        append_bytes(&mut data, kb.as_slice());
        let ghost head = data@;
        let mut i: usize = 0;
        while i < self.bits.len()
            invariant
                i <= self@.bits.len(),
                head == spec_u32_to_le_bytes(self@.m as u32) + spec_u32_to_le_bytes(self@.k as u32),
                data@ == head + words_le(self@.bits.subrange(0, i as int)),
            decreases self@.bits.len() - i,
        {
            let wb = u64_to_le_bytes(self.bits[i]);
            append_bytes(&mut data, wb.as_slice());
            proof {
                let s = self@.bits.subrange(0, i as int + 1);
                assert(s.drop_last() =~= self@.bits.subrange(0, i as int));
                assert(data@ =~= head + words_le(s));
            }
            i = i + 1;
        }
        assert(self@.bits.subrange(0, self@.bits.len() as int) =~= self@.bits);
        data
    }

    /// Reads a filter back from `to_bytes` output; `None` when `data` is too short
    /// for its header or for the words that the header announces.
    pub fn from_bytes(data: &[u8]) -> (r: Option<BloomFilter>)
        ensures
            match r {
                None => decode_bloom(data@) is None,
                Some(bf) => decode_bloom(data@) == Some(bf@) && bf@.wf(),
            },
    {
        if data.len() < 8 {
            return None;
        }
        let m = u32_from_le_bytes(slice_subrange(data, 0, 4)) as usize;
        let k = u32_from_le_bytes(slice_subrange(data, 4, 8)) as usize;
        let bits_len: usize = m / 64 + if m % 64 == 0 { 0 } else { 1 };
        if data.len() < 8 + bits_len * 8 {
            return None;
        }
        let mut bits: Vec<u64> = Vec::with_capacity(bits_len);
        let mut i: usize = 0;
        while i < bits_len
            invariant
                i <= bits_len,
                bits_len == words_for(m as nat),
                8 + bits_len * 8 <= data@.len(),
                bits@.len() == i,
                forall|j: int| 0 <= j < i ==> bits@[j] == word_at(data@, j),
            decreases bits_len - i,
        {
            let offset = 8 + i * 8;
            let w = u64_from_le_bytes(slice_subrange(data, offset, offset + 8));
            bits.push(w);
            i = i + 1;
        }
        let bf = BloomFilter { bits, m, k };
        assert(bf@.bits =~= decode_bloom(data@).unwrap().bits);
        Some(bf)
    }
}

impl Default for BloomFilter {
    fn default() -> (bf: BloomFilter)
        ensures
            bf@.m == DEFAULT_BITS,
            bf@.k == DEFAULT_PROBES,
            bf@.wf(),
            forall|i: int| 0 <= i < bf@.bits.len() ==> bf@.bits[i] == 0u64,
    {
        BloomFilter::with_size(DEFAULT_BITS, DEFAULT_PROBES)
    }
}


proof fn lemma_low_bits_base(x: u64, y: u64)
    by (bit_vector)
    ensures
        (x & (((1u64 << 0u64) - 1u64) as u64)) == (y & (((1u64 << 0u64) - 1u64) as u64)),
{
}

proof fn lemma_low_bits_step(x: u64, y: u64, n: u64)
    by (bit_vector)
    requires
        n < 64,
        (x & (((1u64 << n) - 1u64) as u64)) == (y & (((1u64 << n) - 1u64) as u64)),
        (((x >> n) & 1u64) == 1u64) == (((y >> n) & 1u64) == 1u64),
    ensures
        n < 63 ==> (x & (((1u64 << ((n + 1) as u64)) - 1u64) as u64)) == (y & (((1u64 << ((n + 1) as u64)) - 1u64)
            as u64)),
        n == 63 ==> x == y,
{
}

/// Two words that agree on their low `n` bits agree below bit `n`; agreeing
/// on all 64, they are equal.
proof fn lemma_word_eq(x: u64, y: u64, n: nat)
    requires
        n <= 64,
        forall|b: nat| b < 64 ==> bit_of(x, b) == bit_of(y, b),
    ensures
        n < 64 ==> (x & (((1u64 << (n as u64)) - 1u64) as u64)) == (y & (((1u64 << (n as u64)) - 1u64) as u64)),
        n == 64 ==> x == y,
    decreases n,
{
    if n == 0 {
        lemma_low_bits_base(x, y);
    } else {
        lemma_word_eq(x, y, (n - 1) as nat);
        assert(bit_of(x, (n - 1) as nat) == bit_of(y, (n - 1) as nat));
        lemma_low_bits_step(x, y, (n - 1) as u64);
    }
}

/// Word arrays of one length that agree on every bit are equal.
proof fn lemma_bits_eq(p: Seq<u64>, q: Seq<u64>)
    requires
        p.len() == q.len(),
        forall|j: nat| j < 64 * p.len() ==> #[trigger] bit_at(p, j) == bit_at(q, j),
    ensures
        p == q,
{
    assert forall|w: int| 0 <= w < p.len() implies p[w] == q[w] by {
        assert forall|b: nat| b < 64 implies bit_of(p[w], b) == bit_of(q[w], b) by {
            let j = (64 * w + b) as nat;
            assert(j / 64 == w && j % 64 == b);
            assert(bit_at(p, j) == bit_at(q, j));
        }
        lemma_word_eq(p[w], q[w], 64);
    }
    assert(p =~= q);
}

/// Adds commute and repeat to no effect: adding `a` then `b` gives the same
/// filter as adding `b` then `a`, and adding `a` twice the same as once. The
/// sizes `m` and `k` never change.
pub proof fn law_adds_commute_and_repeat(bf: BloomView, a: Seq<u8>, b: Seq<u8>)
    requires
        bf.wf(),
        bf.probeable(),
    ensures
        bf.added(a).added(b) == bf.added(b).added(a),
        bf.added(a).added(a) == bf.added(a),
        bf.added(a).m == bf.m && bf.added(a).k == bf.k,
{
    let m = bf.m;
    let k = bf.k as nat;
    if m == 0 {
        assert(k == 0);
    } else {
        lemma_words_for_covers(m as nat);
        let pa = add_probes(bf.bits, a, k, m);
        let pb = add_probes(bf.bits, b, k, m);
        let pab = add_probes(pa, b, k, m);
        let pba = add_probes(pb, a, k, m);
        let paa = add_probes(pa, a, k, m);
        if k > 0 {
            lemma_add_probes_bits(bf.bits, a, k, m, 0);
            lemma_add_probes_bits(bf.bits, b, k, m, 0);
            lemma_add_probes_bits(pa, b, k, m, 0);
            lemma_add_probes_bits(pb, a, k, m, 0);
            lemma_add_probes_bits(pa, a, k, m, 0);
        }
        assert forall|j: nat| j < 64 * pab.len() implies #[trigger] bit_at(pab, j) == bit_at(pba, j) by {
            lemma_add_probes_bits(bf.bits, a, k, m, j);
            lemma_add_probes_bits(bf.bits, b, k, m, j);
            lemma_add_probes_bits(pa, b, k, m, j);
            lemma_add_probes_bits(pb, a, k, m, j);
        }
        lemma_bits_eq(pab, pba);
        assert forall|j: nat| j < 64 * paa.len() implies #[trigger] bit_at(paa, j) == bit_at(pa, j) by {
            lemma_add_probes_bits(bf.bits, a, k, m, j);
            lemma_add_probes_bits(pa, a, k, m, j);
        }
        lemma_bits_eq(paa, pa);
    }
}

} // verus!
