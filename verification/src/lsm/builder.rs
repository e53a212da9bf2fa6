use vstd::bytes::*;
use vstd::prelude::*;
use crate::buf::append_bytes;

use super::bloom::{BloomFilter, BloomView, DEFAULT_BITS, DEFAULT_PROBES, decode_bloom,
    law_added_key_is_reported, law_add_keeps_reported, law_bytes_roundtrip, lemma_added_keeps_shape,
    lemma_encoded_len};
use super::sstable::{IndexEntry, IndexEntryView, SSTableView, decode_table, entry_value, parse_index,
    scan_entries, strictly_sorted, table_get, u32_at, trailer, law_sorted_index_lookup};
use crate::lexical::{lex_le, lex_lt, pairs_view, lemma_lex_irreflexive};

verus! {

/// Sum of the value lengths of `d`.
pub open spec fn value_total(d: Seq<(Seq<u8>, Seq<u8>)>) -> nat
    decreases d.len(),
{
    if d.len() == 0 {
        0
    } else {
        value_total(d.drop_last()) + d.last().1.len()
    }
}

/// The values of `d`, one after the other.
pub open spec fn values_bytes(d: Seq<(Seq<u8>, Seq<u8>)>) -> Seq<u8>
    decreases d.len(),
{
    if d.len() == 0 {
        Seq::empty()
    } else {
        values_bytes(d.drop_last()) + d.last().1
    }
}

/// One index record: the key length as a little-endian `u16` (truncated), the
/// key, then the value's offset and size as little-endian `u32`.
pub open spec fn index_record(key: Seq<u8>, offset: u32, size: u32) -> Seq<u8> {
    spec_u16_to_le_bytes((key.len() % 65536) as u16) + key + spec_u32_to_le_bytes(offset)
        + spec_u32_to_le_bytes(size)
}

/// The index records of `d` when its values start at file offset `base`.
pub open spec fn index_bytes(d: Seq<(Seq<u8>, Seq<u8>)>, base: nat) -> Seq<u8>
    decreases d.len(),
{
    if d.len() == 0 {
        Seq::empty()
    } else {
        index_bytes(d.drop_last(), base) + index_record(
            d.last().0,
            (base + value_total(d.drop_last())) as u32,
            d.last().1.len() as u32,
        )
    }
}

/// The index records that decoding `index_bytes(d, base)` gives.
pub open spec fn index_entries(d: Seq<(Seq<u8>, Seq<u8>)>, base: nat) -> Seq<IndexEntryView>
    decreases d.len(),
{
    if d.len() == 0 {
        Seq::empty()
    } else {
        index_entries(d.drop_last(), base).push(
            IndexEntryView {
                key: d.last().0,
                offset: (base + value_total(d.drop_last())) as u32,
                size: d.last().1.len() as u32,
            },
        )
    }
}

/// The filter after adding every key of `d` in order.
pub open spec fn bloom_after(bf: BloomView, d: Seq<(Seq<u8>, Seq<u8>)>) -> BloomView
    decreases d.len(),
{
    if d.len() == 0 {
        bf
    } else {
        bloom_after(bf, d.drop_last()).added(d.last().0)
    }
}

/// The 16-byte trailer.
pub open spec fn header_bytes(index_offset: u32, index_size: u32, bloom_offset: u32, bloom_size: u32) -> Seq<u8> {
    spec_u32_to_le_bytes(index_offset) + spec_u32_to_le_bytes(index_size) + spec_u32_to_le_bytes(bloom_offset)
        + spec_u32_to_le_bytes(bloom_size)
}

/// The bytes that `build` appends to the file: values, index, filter, trailer.
/// Offsets count from `base`, the number of bytes earlier calls accounted for.
pub open spec fn build_output(base: nat, bf: BloomView, d: Seq<(Seq<u8>, Seq<u8>)>) -> Seq<u8> {
    let io = base + value_total(d);
    let ib = index_bytes(d, base);
    let bb = bloom_after(bf, d).encoded();
    values_bytes(d) + ib + bb + header_bytes(io as u32, ib.len() as u32, (io + ib.len()) as u32, bb.len() as u32)
}

/// Every offset `build` computes fits its 32-bit field.
pub open spec fn build_fits(base: nat, bf: BloomView, d: Seq<(Seq<u8>, Seq<u8>)>) -> bool {
    base + value_total(d) + index_bytes(d, base).len() + bf.encoded().len() <= u32::MAX
}

pub struct BuilderView {
    pub path: Seq<char>,
    pub bloom: BloomView,
    pub current_offset: u32,
}

pub struct SSTableBuilder {
    path: String,
    index: Vec<IndexEntry>,
    bloom_filter: BloomFilter,
    current_offset: u32,
}

impl View for SSTableBuilder {
    type V = BuilderView;

    closed spec fn view(&self) -> BuilderView {
        BuilderView { path: self.path@, bloom: self.bloom_filter@, current_offset: self.current_offset }
    }
}

proof fn lemma_prefix_bounds(d: Seq<(Seq<u8>, Seq<u8>)>, base: nat, i: int)
    requires
        0 <= i <= d.len(),
    ensures
        value_total(d.take(i)) <= value_total(d),
        index_bytes(d.take(i), base).len() <= index_bytes(d, base).len(),
    decreases d.len(),
{
    if i < d.len() {
        let p = d.drop_last();
        assert(d.take(i) =~= p.take(i));
        lemma_prefix_bounds(p, base, i);
    } else {
        assert(d.take(i) =~= d);
    }
}

proof fn lemma_take_step<T>(d: Seq<T>, i: int)
    requires
        0 <= i < d.len(),
    ensures
        d.take(i + 1).drop_last() == d.take(i),
        d.take(i + 1).last() == d[i],
        d.take(i + 1).len() == i + 1,
{
    assert(d.take(i + 1).drop_last() =~= d.take(i));
}

proof fn lemma_bloom_after_shape(bf: BloomView, d: Seq<(Seq<u8>, Seq<u8>)>)
    requires
        bf.wf(),
        bf.probeable(),
    ensures
        bloom_after(bf, d).wf(),
        bloom_after(bf, d).probeable(),
        bloom_after(bf, d).m == bf.m,
        bloom_after(bf, d).k == bf.k,
        bloom_after(bf, d).bits.len() == bf.bits.len(),
        bloom_after(bf, d).encoded().len() == bf.encoded().len(),
    decreases d.len(),
{
    if d.len() > 0 {
        lemma_bloom_after_shape(bf, d.drop_last());
        lemma_added_keeps_shape(bloom_after(bf, d.drop_last()), d.last().0);
    }
    lemma_encoded_len(bf);
    lemma_encoded_len(bloom_after(bf, d));
}



proof fn lemma_values(d: Seq<(Seq<u8>, Seq<u8>)>)
    ensures
        values_bytes(d).len() == value_total(d),
        forall|i: int| 0 <= i < d.len() ==> {
            &&& value_total(#[trigger] d.take(i)) + d[i].1.len() <= value_total(d)
            &&& values_bytes(d).subrange(value_total(d.take(i)) as int, value_total(d.take(i)) + d[i].1.len() as int) == d[i].1
        },
    decreases d.len(),
{
    if d.len() > 0 {
        let p = d.drop_last();
        lemma_values(p);
        assert forall|i: int| 0 <= i < d.len() implies {
            &&& value_total(#[trigger] d.take(i)) + d[i].1.len() <= value_total(d)
            &&& values_bytes(d).subrange(value_total(d.take(i)) as int, value_total(d.take(i)) + d[i].1.len() as int) == d[i].1
        } by {
            if i < p.len() {
                assert(d.take(i) =~= p.take(i));
                assert(p.take(i) == p.take(i));
                let lo = value_total(p.take(i)) as int;
                assert(values_bytes(d).subrange(lo, lo + d[i].1.len() as int) =~= values_bytes(p).subrange(lo, lo + p[i].1.len() as int));
            } else {
                assert(d.take(i) =~= p);
                assert(values_bytes(d).subrange(value_total(p) as int, value_total(p) + d[i].1.len() as int) =~= d.last().1);
            }
        }
    }
}

proof fn lemma_index_entries(d: Seq<(Seq<u8>, Seq<u8>)>, base: nat)
    ensures
        index_entries(d, base).len() == d.len(),
        forall|i: int| 0 <= i < d.len() ==> #[trigger] index_entries(d, base)[i] == (IndexEntryView {
            key: d[i].0,
            offset: (base + value_total(d.take(i))) as u32,
            size: d[i].1.len() as u32,
        }),
    decreases d.len(),
{
    if d.len() > 0 {
        let p = d.drop_last();
        lemma_index_entries(p, base);
        assert forall|i: int| 0 <= i < d.len() implies #[trigger] index_entries(d, base)[i] == (IndexEntryView {
            key: d[i].0,
            offset: (base + value_total(d.take(i))) as u32,
            size: d[i].1.len() as u32,
        }) by {
            if i < p.len() {
                assert(d.take(i) =~= p.take(i));
            } else {
                assert(d.take(i) =~= p);
            }
        }
    }
}

proof fn lemma_parse_record(key: Seq<u8>, offset: u32, size: u32, rest: Seq<u8>)
    requires
        key.len() < 65536,
    ensures
        parse_index(index_record(key, offset, size) + rest) == match parse_index(rest) {
            Some(r) => Some(seq![IndexEntryView { key, offset, size }] + r),
            None => None::<Seq<IndexEntryView>>,
        },
{
    lemma_auto_spec_u16_to_from_le_bytes();
    lemma_auto_spec_u32_to_from_le_bytes();
    let d = index_record(key, offset, size) + rest;
    let kl = key.len() as int;
    assert(d.subrange(0, 2) =~= spec_u16_to_le_bytes((key.len() % 65536) as u16));
    assert(spec_u16_from_le_bytes(d.subrange(0, 2)) as int == kl);
    assert(d.subrange(2, 2 + kl) =~= key);
    assert(d.subrange(2 + kl, 6 + kl) =~= spec_u32_to_le_bytes(offset));
    assert(d.subrange(6 + kl, 10 + kl) =~= spec_u32_to_le_bytes(size));
    assert(d.subrange(10 + kl, d.len() as int) =~= rest);
}

proof fn lemma_parse_index_bytes(d: Seq<(Seq<u8>, Seq<u8>)>, base: nat, rest: Seq<u8>)
    requires
        forall|i: int| 0 <= i < d.len() ==> (#[trigger] d[i]).0.len() < 65536,
    ensures
        parse_index(index_bytes(d, base) + rest) == match parse_index(rest) {
            Some(r) => Some(index_entries(d, base) + r),
            None => None::<Seq<IndexEntryView>>,
        },
    decreases d.len(),
{
    if d.len() == 0 {
        assert(index_bytes(d, base) + rest =~= rest);
        match parse_index(rest) {
            Some(r) => {
                assert(index_entries(d, base) + r =~= r);
            },
            None => {},
        }
    } else {
        let p = d.drop_last();
        let rec = index_record(
            d.last().0,
            (base + value_total(p)) as u32,
            d.last().1.len() as u32,
        );
        assert(forall|i: int| 0 <= i < p.len() ==> (#[trigger] p[i]).0.len() < 65536) by {
            assert forall|i: int| 0 <= i < p.len() implies (#[trigger] p[i]).0.len() < 65536 by {
                assert(p[i] == d[i]);
            }
        }
        assert(d[d.len() - 1] == d.last());
        lemma_parse_index_bytes(p, base, rec + rest);
        lemma_parse_record(d.last().0, (base + value_total(p)) as u32, d.last().1.len() as u32, rest);
        assert(index_bytes(d, base) + rest =~= index_bytes(p, base) + (rec + rest));
        match parse_index(rest) {
            Some(r) => {
                let e = IndexEntryView {
                    key: d.last().0,
                    offset: (base + value_total(p)) as u32,
                    size: d.last().1.len() as u32,
                };
                assert(index_entries(p, base) + (seq![e] + r) =~= index_entries(d, base) + r);
            },
            None => {},
        }
    }
}

proof fn lemma_bloom_after_contains(bf: BloomView, d: Seq<(Seq<u8>, Seq<u8>)>)
    requires
        bf.wf(),
        bf.probeable(),
    ensures
        forall|i: int| 0 <= i < d.len() ==> bloom_after(bf, d).contains(#[trigger] d[i].0),
    decreases d.len(),
{
    if d.len() > 0 {
        let p = d.drop_last();
        lemma_bloom_after_contains(bf, p);
        lemma_bloom_after_shape(bf, p);
        let prev = bloom_after(bf, p);
        law_added_key_is_reported(prev, d.last().0);
        assert forall|i: int| 0 <= i < d.len() implies bloom_after(bf, d).contains(#[trigger] d[i].0) by {
            if i < p.len() {
                assert(p[i] == d[i]);
                law_add_keeps_reported(prev, d.last().0, d[i].0);
            } else {
                assert(d[i] == d.last());
            }
        }
    }
}

/// The pairs of `d` whose key lies in `start..=end`, in the order of `d`.
pub open spec fn pairs_in_range(d: Seq<(Seq<u8>, Seq<u8>)>, start: Seq<u8>, end: Seq<u8>) -> Seq<(Seq<u8>, Seq<u8>)>
    decreases d.len(),
{
    if d.len() == 0 {
        Seq::empty()
    } else {
        let prev = pairs_in_range(d.drop_last(), start, end);
        if lex_le(start, d.last().0) && lex_le(d.last().0, end) {
            prev.push(d.last())
        } else {
            prev
        }
    }
}

proof fn lemma_scan_prefix(file: Seq<u8>, entries: Seq<IndexEntryView>, d: Seq<(Seq<u8>, Seq<u8>)>, start: Seq<u8>, end: Seq<u8>, n: int)
    requires
        0 <= n <= d.len(),
        entries.len() == d.len(),
        forall|i: int| 0 <= i < d.len() ==> (#[trigger] entries[i]).key == d[i].0 && entry_value(file, entries[i])
            == Some(d[i].1),
    ensures
        scan_entries(file, entries.take(n), start, end) == pairs_in_range(d.take(n), start, end),
    decreases n,
{
    if n > 0 {
        lemma_scan_prefix(file, entries, d, start, end, n - 1);
        assert(entries.take(n).drop_last() =~= entries.take(n - 1));
        assert(d.take(n).drop_last() =~= d.take(n - 1));
        assert(entries.take(n).last() == entries[n - 1]);
        assert(d.take(n).last() == d[n - 1]);
    }
}

/// A table built in one call by a fresh builder reads back what was written:
/// its index holds the written keys in the order written,
/// every key gives its value, a key that was not written gives nothing, the
/// table's filter reports every key written, and a scan of `start..=end` gives
/// the written pairs whose key lies in that range, in the order written.
/// Holds for keys given in strictly increasing order, each shorter than the
/// 16-bit length field, with every offset within 32 bits.
#[verifier::rlimit(60)]
pub proof fn law_build_then_read(
    path: Seq<char>,
    bf: BloomView,
    d: Seq<(Seq<u8>, Seq<u8>)>,
    key: Seq<u8>,
    start: Seq<u8>,
    end: Seq<u8>,
)
    requires
        bf.wf(),
        bf.probeable(),
        bf.m <= u32::MAX,
        bf.k <= u32::MAX,
        build_fits(0, bf, d),
        forall|i: int| 0 <= i < d.len() ==> (#[trigger] d[i]).0.len() < 65536,
        forall|i: int, j: int| 0 <= i < j < d.len() ==> lex_lt(#[trigger] d[i].0, #[trigger] d[j].0),
    ensures
        decode_table(path, build_output(0, bf, d)) is Ok,
        forall|i: int| 0 <= i < d.len() && d[i].0 == key ==> table_get(
            decode_table(path, build_output(0, bf, d))->Ok_0,
            build_output(0, bf, d),
            key,
        ) == Some(d[i].1),
        (forall|i: int| 0 <= i < d.len() ==> d[i].0 != key) ==> table_get(
            decode_table(path, build_output(0, bf, d))->Ok_0,
            build_output(0, bf, d),
            key,
        ) is None,
        (decode_table(path, build_output(0, bf, d))->Ok_0).index.len() == d.len(),
        forall|i: int| 0 <= i < d.len() ==> (decode_table(path, build_output(0, bf, d))->Ok_0).index[i].key == (
        #[trigger] d[i]).0,
        forall|i: int| 0 <= i < d.len() ==> (decode_table(path, build_output(0, bf, d))->Ok_0).bloom.contains(
            #[trigger] d[i].0,
        ),
        ({
            let t = decode_table(path, build_output(0, bf, d))->Ok_0;
            scan_entries(build_output(0, bf, d), t.index, start, end) == pairs_in_range(d, start, end)
        }),
{
    lemma_auto_spec_u32_to_from_le_bytes();
    let file = build_output(0, bf, d);
    let vb = values_bytes(d);
    let ib = index_bytes(d, 0);
    let ba = bloom_after(bf, d);
    let bb = ba.encoded();
    let io = value_total(d) as int;
    lemma_values(d);
    lemma_bloom_after_shape(bf, d);
    lemma_prefix_bounds(d, 0, 0);
    let hb = header_bytes(io as u32, ib.len() as u32, (io + ib.len()) as u32, bb.len() as u32);
    assert(hb == header_bytes((0 + value_total(d)) as u32, ib.len() as u32, (0 + value_total(d) + ib.len()) as u32, bb.len() as u32));
    assert(file =~= vb + ib + bb + hb);
    let h = file.len() - 16;
    assert(h == vb.len() + ib.len() + bb.len());
    assert(file.subrange(h, h + 4) =~= spec_u32_to_le_bytes(io as u32));
    assert(file.subrange(h + 4, h + 8) =~= spec_u32_to_le_bytes(ib.len() as u32));
    assert(file.subrange(h + 8, h + 12) =~= spec_u32_to_le_bytes((io + ib.len()) as u32));
    assert(file.subrange(h + 12, h + 16) =~= spec_u32_to_le_bytes(bb.len() as u32));
    assert(trailer(file) == (io as u32, ib.len() as u32, (io + ib.len()) as u32, bb.len() as u32));
    assert(file.subrange(io as int, io + ib.len()) =~= ib);
    lemma_parse_index_bytes(d, 0, Seq::empty());
    assert(ib + Seq::<u8>::empty() =~= ib);
    let entries = index_entries(d, 0);
    assert(entries + Seq::<IndexEntryView>::empty() =~= entries);
    assert(parse_index(ib) == Some(entries));
    assert(file.subrange(io + ib.len(), io + ib.len() + bb.len()) =~= bb);
    law_bytes_roundtrip(ba);
    assert(decode_bloom(bb) == Some(ba));
    let t = decode_table(path, file)->Ok_0;
    assert(t.index == entries);
    assert(t.bloom == ba);
    lemma_index_entries(d, 0);
    lemma_bloom_after_contains(bf, d);
    assert(strictly_sorted(t.index)) by {
        assert forall|i: int, j: int| 0 <= i < j < t.index.len() implies lex_lt(
            #[trigger] t.index[i].key,
            #[trigger] t.index[j].key,
        ) by {
            assert(entries[i].key == d[i].0);
            assert(entries[j].key == d[j].0);
        }
    }
    law_sorted_index_lookup(t, file, key);
    assert forall|i: int| 0 <= i < d.len() && d[i].0 == key implies table_get(t, file, key) == Some(d[i].1) by {
        assert(entries[i].key == d[i].0);
        assert(t.index[i].key == key);
        let c = choose|c: int| 0 <= c < t.index.len() && t.index[c].key == key;
        if c != i {
            if c < i {
                assert(lex_lt(t.index[c].key, t.index[i].key));
            } else {
                assert(lex_lt(t.index[i].key, t.index[c].key));
            }
            lemma_lex_irreflexive(key);
        }
        assert(bloom_after(bf, d).contains(d[i].0));
        let off = value_total(d.take(i));
        assert(entries[i].offset as int == off);
        assert(entries[i].size as int == d[i].1.len());
        assert(file.subrange(off as int, off + d[i].1.len() as int) =~= vb.subrange(off as int, off + d[i].1.len() as int));
    }
    assert((forall|i: int| 0 <= i < d.len() ==> d[i].0 != key) ==> (forall|i: int| 0 <= i < t.index.len() ==> t.index[i].key != key)) by {
        if forall|i: int| 0 <= i < d.len() ==> d[i].0 != key {
            assert forall|i: int| 0 <= i < t.index.len() implies t.index[i].key != key by {
                assert(entries[i].key == d[i].0);
            }
        }
    }
    assert forall|i: int| 0 <= i < d.len() implies (#[trigger] entries[i]).key == d[i].0 && entry_value(
        file,
        entries[i],
    ) == Some(d[i].1) by {
        let off = value_total(d.take(i));
        assert(entries[i].offset as int == off);
        assert(entries[i].size as int == d[i].1.len());
        assert(file.subrange(off as int, off + d[i].1.len() as int) =~= vb.subrange(off as int, off + d[i].1.len() as int));
    }
    lemma_scan_prefix(file, entries, d, start, end, d.len() as int);
    assert(entries.take(d.len() as int) =~= entries);
    assert(d.take(d.len() as int) =~= d);
}

impl SSTableBuilder {
    /// A builder for the table at `path`, with an empty default filter and no
    /// bytes accounted for yet.
    pub fn new(path: &str) -> (b: SSTableBuilder)
        ensures
            b@.path == path@,
            b@.current_offset == 0,
            b@.bloom.m == DEFAULT_BITS,
            b@.bloom.k == DEFAULT_PROBES,
            b@.bloom.wf(),
            forall|i: int| 0 <= i < b@.bloom.bits.len() ==> b@.bloom.bits[i] == 0u64,
    {
        SSTableBuilder {
            path: path.to_owned(),
            index: Vec::new(),
            bloom_filter: BloomFilter::with_size(DEFAULT_BITS, DEFAULT_PROBES),
            current_offset: 0,
        }
    }

    /// Whether `build(data)` keeps every offset within 32 bits.
    pub fn fits(&self, data: &[(Vec<u8>, Vec<u8>)]) -> (r: bool)
        requires
            self@.bloom.wf(),
        ensures
            r == build_fits(self@.current_offset as nat, self@.bloom, pairs_view(data@)),
    {
        let ghost d = pairs_view(data@);
        let ghost base = self.current_offset as nat;
        let mut total: u64 = self.current_offset as u64;
        let mut i: usize = 0;
        proof {
            lemma_encoded_len(self@.bloom);
            assert(d.take(0) =~= Seq::<(Seq<u8>, Seq<u8>)>::empty());
        }
        while i < data.len()
            invariant
                i <= data@.len(),
                d == pairs_view(data@),
                base == self@.current_offset,
                total == base + value_total(d.take(i as int)) + index_bytes(d.take(i as int), base).len(),
                total <= u32::MAX,
            decreases data@.len() - i,
        {
            proof {
                lemma_take_step(d, i as int);
                lemma_prefix_bounds(d, base, i as int + 1);
                lemma_auto_spec_u16_to_from_le_bytes();
                lemma_auto_spec_u32_to_from_le_bytes();
            }
            let key_len = data[i].0.len();
            let value_len = data[i].1.len();
            if key_len as u64 > u32::MAX as u64 || value_len as u64 > u32::MAX as u64 {
                proof {
                    lemma_prefix_bounds(d, base, i as int + 1);
                }
                return false;
            }
            total = total + value_len as u64 + key_len as u64 + 10;
            if total > u32::MAX as u64 {
                proof {
                    lemma_prefix_bounds(d, base, i as int + 1);
                }
                return false;
            }
            i = i + 1;
        }
        assert(d.take(data@.len() as int) =~= d);
        let words = self.bloom_filter.word_count();
        if words as u64 > u32::MAX as u64 {
            return false;
        }
        let bloom_len = 8 + 8 * (words as u64);
        total + bloom_len <= u32::MAX as u64
    }

    /// Lays out `data` as a table: the values, then the index records, then the
    /// filter (with every key added), then the trailer. Returns the bytes to
    /// append to the file.
    pub fn build(&mut self, data: &[(Vec<u8>, Vec<u8>)]) -> (out: Vec<u8>)
        requires
            old(self)@.bloom.wf(),
            old(self)@.bloom.probeable(),
            build_fits(old(self)@.current_offset as nat, old(self)@.bloom, pairs_view(data@)),
        ensures
            out@ == build_output(old(self)@.current_offset as nat, old(self)@.bloom, pairs_view(data@)),
            final(self)@.path == old(self)@.path,
            final(self)@.bloom == bloom_after(old(self)@.bloom, pairs_view(data@)),
            final(self)@.current_offset == old(self)@.current_offset + value_total(pairs_view(data@))
                + index_bytes(pairs_view(data@), old(self)@.current_offset as nat).len()
                + old(self)@.bloom.encoded().len(),
    {
        let ghost d = pairs_view(data@);
        let ghost base = self.current_offset as nat;
        let ghost bf0 = self@.bloom;
        let mut values: Vec<u8> = Vec::new();
        let mut index_data: Vec<u8> = Vec::new();
        let mut i: usize = 0;
        proof {
            assert(d.take(0) =~= Seq::<(Seq<u8>, Seq<u8>)>::empty());
            lemma_bloom_after_shape(bf0, d);
        }
        while i < data.len()
            invariant
                i <= data@.len(),
                d == pairs_view(data@),
                bf0.wf(),
                bf0.probeable(),
                build_fits(base, bf0, d),
                self@.path == old(self)@.path,
                values@ == values_bytes(d.take(i as int)),
                index_data@ == index_bytes(d.take(i as int), base),
                self@.current_offset == base + value_total(d.take(i as int)),
                self@.bloom == bloom_after(bf0, d.take(i as int)),
                self@.bloom.wf(),
                self@.bloom.probeable(),
            decreases data@.len() - i,
        {
            proof {
                lemma_take_step(d, i as int);
                lemma_prefix_bounds(d, base, i as int + 1);
                lemma_bloom_after_shape(bf0, d.take(i as int + 1));
            }
            let key = &data[i].0;
            let value = &data[i].1;
            assert(d[i as int] == (key@, value@));
            let value_offset = self.current_offset;
            let value_size = value.len() as u32;
            append_bytes(&mut values, value.as_slice());
            self.current_offset = self.current_offset + value_size;
            let klen = u16_to_le_bytes((key.len() % 65536) as u16);
            append_bytes(&mut index_data, klen.as_slice());
            append_bytes(&mut index_data, key.as_slice());
            let ob = u32_to_le_bytes(value_offset);
            append_bytes(&mut index_data, ob.as_slice());
            let sb = u32_to_le_bytes(value_size);
            append_bytes(&mut index_data, sb.as_slice());
            self.bloom_filter.add(key.as_slice());
            proof {
                let t = d.take(i as int + 1);
                assert(values@ =~= values_bytes(t));
                assert(index_data@ =~= index_bytes(t, base));
            }
            i = i + 1;
        }
        proof {
            assert(d.take(data@.len() as int) =~= d);
            lemma_encoded_len(bf0);
        }
        let index_offset = self.current_offset;
        let index_size = index_data.len() as u32;
        self.current_offset = self.current_offset + index_size;
        let bloom_offset = self.current_offset;
        let bloom_data = self.bloom_filter.to_bytes();
        let bloom_size = bloom_data.len() as u32;
        self.current_offset = self.current_offset + bloom_size;
        let mut out = values;
        append_bytes(&mut out, index_data.as_slice());
        append_bytes(&mut out, bloom_data.as_slice());
        let h0 = u32_to_le_bytes(index_offset);
        append_bytes(&mut out, h0.as_slice());
        let h1 = u32_to_le_bytes(index_size);
        append_bytes(&mut out, h1.as_slice());
        let h2 = u32_to_le_bytes(bloom_offset);
        append_bytes(&mut out, h2.as_slice());
        let h3 = u32_to_le_bytes(bloom_size);
        append_bytes(&mut out, h3.as_slice());
        proof {
            assert(out@ =~= build_output(base, bf0, d));
        }
        out
    }

    /// The path the table is written to.
    pub fn path(&self) -> (r: &String)
        ensures
            r@ == self@.path,
    {
        &self.path
    }
}

} // verus!
