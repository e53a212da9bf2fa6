use vstd::bytes::*;
use vstd::prelude::*;
use crate::buf::{copy_range, copy_bytes};
use vstd::slice::slice_subrange;

use super::bloom::{BloomFilter, BloomView, decode_bloom, DEFAULT_BITS, DEFAULT_PROBES};
use crate::lexical::{bytes_eq, bytes_lt, lex_lt, lex_le, lemma_lex_total, lemma_lex_asymmetric,
    lemma_lex_transitive, lemma_lex_irreflexive, pairs_view, stable_sorted, sort_pairs, by_key, sorted_by, with_key, law_stable_sort_is_sorted,
    law_stable_sort_keeps_each_key, law_sort_after_sorted_prefix};

verus! {

/// Size of the trailer that closes every table file.
pub const HEADER_SIZE: usize = 16;

/// One index record: a key and where its value lies in the file.
pub struct IndexEntry {
    pub key: Vec<u8>,
    pub offset: u32,
    pub size: u32,
}

pub struct IndexEntryView {
    pub key: Seq<u8>,
    pub offset: u32,
    pub size: u32,
}

impl View for IndexEntry {
    type V = IndexEntryView;

    open spec fn view(&self) -> IndexEntryView {
        IndexEntryView { key: self.key@, offset: self.offset, size: self.size }
    }
}

pub open spec fn entries_view(s: Seq<IndexEntry>) -> Seq<IndexEntryView> {
    s.map_values(|e: IndexEntry| e@)
}

/// Little-endian `u32` stored at `pos` of `d`.
pub open spec fn u32_at(d: Seq<u8>, pos: int) -> u32 {
    spec_u32_from_le_bytes(d.subrange(pos, pos + 4))
}

/// The index records encoded in `d`, in order; `None` when the records do not
/// exactly fill `d` (a record whose length prefix or body runs past the end).
pub open spec fn parse_index(d: Seq<u8>) -> Option<Seq<IndexEntryView>>
    decreases d.len(),
{
    if d.len() == 0 {
        Some(Seq::empty())
    } else if d.len() < 2 {
        None
    } else {
        let kl = spec_u16_from_le_bytes(d.subrange(0, 2)) as int;
        if d.len() < 2 + kl + 8 {
            None
        } else {
            let e = IndexEntryView {
                key: d.subrange(2, 2 + kl),
                offset: u32_at(d, 2 + kl),
                size: u32_at(d, 6 + kl),
            };
            match parse_index(d.subrange(10 + kl, d.len() as int)) {
                Some(rest) => Some(seq![e] + rest),
                None => None,
            }
        }
    }
}

/// The four trailer fields of a file: index offset and size, filter offset and size.
pub open spec fn trailer(file: Seq<u8>) -> (u32, u32, u32, u32) {
    let h = file.len() - 16;
    (u32_at(file, h), u32_at(file, h + 4), u32_at(file, h + 8), u32_at(file, h + 12))
}

/// Why a file could not be opened as a table.
#[derive(Debug, Clone, Copy, PartialEq, Eq, Structural)]
pub enum OpenError {
    /// The file is shorter than its trailer.
    TooShort,
    /// The index region named by the trailer runs past the end of the file.
    IndexOutOfBounds,
    /// The filter region named by the trailer runs past the end of the file.
    BloomOutOfBounds,
    /// The index region holds a record that runs past its end.
    MalformedIndex,
}

/// An opened table: its path, index and filter. The values stay in the file,
/// which is read again at each lookup.
pub struct SSTableView {
    pub path: Seq<char>,
    pub index: Seq<IndexEntryView>,
    pub bloom: BloomView,
}

/// The filter that a table uses: the one stored in the file, or the default one
/// when the stored bytes do not decode.
pub open spec fn stored_or_default_bloom(bytes: Seq<u8>) -> BloomView {
    match decode_bloom(bytes) {
        Some(b) => b,
        None => BloomView {
            m: DEFAULT_BITS,
            k: DEFAULT_PROBES,
            bits: Seq::new(super::bloom::words_for(DEFAULT_BITS as nat), |i: int| 0u64),
        },
    }
}

/// The `s` bytes of `file` from offset `o`; nothing when `s` is 0, wherever `o`
/// lies (reading no bytes succeeds at any offset).
pub open spec fn region(file: Seq<u8>, o: u32, s: u32) -> Seq<u8> {
    if s == 0 {
        Seq::empty()
    } else {
        file.subrange(o as int, o + s)
    }
}

/// What opening `file` (the whole content of the file at `path`) gives. A
/// region of no bytes is read at any offset; a region with bytes must lie in
/// the file.
pub open spec fn decode_table(path: Seq<char>, file: Seq<u8>) -> Result<SSTableView, OpenError> {
    if file.len() < 16 {
        Err(OpenError::TooShort)
    } else {
        let (io, is, bo, bs) = trailer(file);
        if is > 0 && io as int + is as int > file.len() {
            Err(OpenError::IndexOutOfBounds)
        } else {
            match parse_index(region(file, io, is)) {
                None => Err(OpenError::MalformedIndex),
                Some(index) => {
                    if bs > 0 && bo as int + bs as int > file.len() {
                        Err(OpenError::BloomOutOfBounds)
                    } else {
                        Ok(SSTableView {
                            path,
                            index,
                            bloom: stored_or_default_bloom(region(file, bo, bs)),
                        })
                    }
                }
            }
        }
    }
}

/// The bytes of the value that index record `e` points at, if they lie in the file.
pub open spec fn entry_value(data: Seq<u8>, e: IndexEntryView) -> Option<Seq<u8>> {
    if e.offset as int + e.size as int <= data.len() {
        Some(data.subrange(e.offset as int, e.offset + e.size))
    } else {
        None
    }
}

/// Binary search for `key` among index records `lo..hi`.
pub open spec fn bsearch(idx: Seq<IndexEntryView>, key: Seq<u8>, lo: int, hi: int) -> Option<int>
    decreases hi - lo,
{
    if lo >= hi || lo < 0 || hi > idx.len() {
        None
    } else {
        let mid = lo + (hi - lo) / 2;
        if lex_lt(idx[mid].key, key) {
            bsearch(idx, key, mid + 1, hi)
        } else if lex_lt(key, idx[mid].key) {
            bsearch(idx, key, lo, mid)
        } else {
            Some(mid)
        }
    }
}

/// The keys of the index strictly increase.
pub open spec fn strictly_sorted(idx: Seq<IndexEntryView>) -> bool {
    forall|i: int, j: int| 0 <= i < j < idx.len() ==> lex_lt(#[trigger] idx[i].key, #[trigger] idx[j].key)
}

/// What `get(key)` returns: nothing when the filter rules the key out, else the
/// value of the record that binary search finds, if its bytes lie in the file.
pub open spec fn table_get(t: SSTableView, file: Seq<u8>, key: Seq<u8>) -> Option<Seq<u8>> {
    if !t.bloom.contains(key) {
        None
    } else {
        match bsearch(t.index, key, 0, t.index.len() as int) {
            Some(i) => entry_value(file, t.index[i]),
            None => None,
        }
    }
}

/// The records of `idx` whose key lies in `start..=end` and whose value lies in
/// the file, as key-value pairs in index order.
pub open spec fn scan_entries(data: Seq<u8>, idx: Seq<IndexEntryView>, start: Seq<u8>, end: Seq<u8>) -> Seq<(Seq<u8>, Seq<u8>)>
    decreases idx.len(),
{
    if idx.len() == 0 {
        Seq::empty()
    } else {
        let prev = scan_entries(data, idx.drop_last(), start, end);
        let e = idx.last();
        if lex_le(start, e.key) && lex_le(e.key, end) && entry_value(data, e) is Some {
            prev.push((e.key, entry_value(data, e).unwrap()))
        } else {
            prev
        }
    }
}

pub struct SSTable {
    path: String,
    file_size: u64,
    index: Vec<IndexEntry>,
    bloom_filter: BloomFilter,
}

impl View for SSTable {
    type V = SSTableView;

    closed spec fn view(&self) -> SSTableView {
        SSTableView {
            path: self.path@,
            index: entries_view(self.index@),
            bloom: self.bloom_filter@,
        }
    }
}

proof fn lemma_parse_step(d: Seq<u8>, pos: int)
    requires
        0 <= pos < d.len(),
    ensures
        ({
            let r = d.subrange(pos, d.len() as int);
            r.len() >= 2 ==> {
                let kl = spec_u16_from_le_bytes(r.subrange(0, 2)) as int;
                &&& kl == spec_u16_from_le_bytes(d.subrange(pos, pos + 2)) as int
                &&& r.len() >= 2 + kl + 8 ==> {
                    &&& r.subrange(2, 2 + kl) == d.subrange(pos + 2, pos + 2 + kl)
                    &&& u32_at(r, 2 + kl) == u32_at(d, pos + 2 + kl)
                    &&& u32_at(r, 6 + kl) == u32_at(d, pos + 6 + kl)
                    &&& r.subrange(10 + kl, r.len() as int) == d.subrange(pos + 10 + kl, d.len() as int)
                }
            }
        }),
{
    let r = d.subrange(pos, d.len() as int);
    if r.len() >= 2 {
        assert(r.subrange(0, 2) =~= d.subrange(pos, pos + 2));
        let kl = spec_u16_from_le_bytes(r.subrange(0, 2)) as int;
        if r.len() >= 2 + kl + 8 {
            assert(r.subrange(2, 2 + kl) =~= d.subrange(pos + 2, pos + 2 + kl));
            assert(r.subrange(2 + kl, 6 + kl) =~= d.subrange(pos + 2 + kl, pos + 6 + kl));
            assert(r.subrange(6 + kl, 10 + kl) =~= d.subrange(pos + 6 + kl, pos + 10 + kl));
            assert(r.subrange(10 + kl, r.len() as int) =~= d.subrange(pos + 10 + kl, d.len() as int));
        }
    }
}


fn read_u32(d: &[u8], pos: usize) -> (x: u32)
    requires
        pos + 4 <= d@.len(),
    ensures
        x == u32_at(d@, pos as int),
{
    let n = d.len();
    assert(pos + 4 <= n);
    u32_from_le_bytes(slice_subrange(d, pos, pos + 4))
}

/// Decodes the index region of a table file.
pub fn decode_index(data: &[u8]) -> (r: Option<Vec<IndexEntry>>)
    ensures
        match r {
            None => parse_index(data@) is None,
            Some(v) => parse_index(data@) == Some(entries_view(v@)),
        },
{
    let mut index: Vec<IndexEntry> = Vec::new();
    let mut pos: usize = 0;
    assert(data@.subrange(0, data@.len() as int) =~= data@);
    while pos < data.len()
        invariant
            pos <= data@.len(),
            match parse_index(data@.subrange(pos as int, data@.len() as int)) {
                Some(rest) => parse_index(data@) == Some(entries_view(index@) + rest),
                None => parse_index(data@) is None,
            },
        decreases data@.len() - pos,
    {
        proof {
            lemma_parse_step(data@, pos as int);
        }
        if data.len() - pos < 2 {
            return None;
        }
        let key_len = u16_from_le_bytes(slice_subrange(data, pos, pos + 2)) as usize;
        if data.len() - pos - 2 < key_len + 8 {
            return None;
        }
        let key = copy_range(data, pos + 2, pos + 2 + key_len);
        let offset = read_u32(data, pos + 2 + key_len);
        let size = read_u32(data, pos + 6 + key_len);
        let ghost before = entries_view(index@);
        let entry = IndexEntry { key, offset, size };
        index.push(entry);
        proof {
            let r = data@.subrange(pos as int, data@.len() as int);
            assert(entries_view(index@) =~= before.push(entry@));
            match parse_index(data@.subrange(pos + 10 + key_len, data@.len() as int)) {
                Some(rest) => {
                    assert(before + (seq![entry@] + rest) =~= entries_view(index@) + rest);
                },
                None => {},
            }
        }
        pos = pos + 10 + key_len;
    }
    assert(data@.subrange(pos as int, data@.len() as int) =~= Seq::<u8>::empty());
    assert(entries_view(index@) + Seq::<IndexEntryView>::empty() =~= entries_view(index@));
    Some(index)
}

proof fn lemma_bsearch_sorted(idx: Seq<IndexEntryView>, key: Seq<u8>, lo: int, hi: int)
    requires
        strictly_sorted(idx),
        0 <= lo <= hi <= idx.len(),
    ensures
        match bsearch(idx, key, lo, hi) {
            Some(i) => lo <= i < hi && idx[i].key == key,
            None => forall|t: int| lo <= t < hi ==> idx[t].key != key,
        },
    decreases hi - lo,
{
    if lo < hi {
        let mid = lo + (hi - lo) / 2;
        lemma_lex_total(idx[mid].key, key);
        if lex_lt(idx[mid].key, key) {
            lemma_bsearch_sorted(idx, key, mid + 1, hi);
            assert forall|t: int| lo <= t <= mid implies idx[t].key != key by {
                if t < mid {
                    lemma_lex_transitive(idx[t].key, idx[mid].key, key);
                }
                lemma_lex_irreflexive(key);
            }
        } else if lex_lt(key, idx[mid].key) {
            lemma_bsearch_sorted(idx, key, lo, mid);
            assert forall|t: int| mid <= t < hi implies idx[t].key != key by {
                if t > mid {
                    lemma_lex_transitive(key, idx[mid].key, idx[t].key);
                }
                lemma_lex_irreflexive(key);
            }
        }
    }
}

/// With strictly increasing keys, `get` finds exactly the records whose key it is given.
pub proof fn law_sorted_index_lookup(t: SSTableView, file: Seq<u8>, key: Seq<u8>)
    requires
        strictly_sorted(t.index),
    ensures
        (exists|i: int| 0 <= i < t.index.len() && t.index[i].key == key) ==> {
            let i = choose|i: int| 0 <= i < t.index.len() && t.index[i].key == key;
            table_get(t, file, key) == if t.bloom.contains(key) { entry_value(file, t.index[i]) } else { None }
        },
        (forall|i: int| 0 <= i < t.index.len() ==> t.index[i].key != key) ==> table_get(t, file, key) is None,
{
    lemma_bsearch_sorted(t.index, key, 0, t.index.len() as int);
    if exists|i: int| 0 <= i < t.index.len() && t.index[i].key == key {
        let i = choose|i: int| 0 <= i < t.index.len() && t.index[i].key == key;
        match bsearch(t.index, key, 0, t.index.len() as int) {
            Some(j) => {
                if i != j {
                    if i < j {
                        assert(lex_lt(t.index[i].key, t.index[j].key));
                    } else {
                        assert(lex_lt(t.index[j].key, t.index[i].key));
                    }
                    lemma_lex_irreflexive(key);
                }
            },
            None => {},
        }
    }
}

impl SSTable {
    /// Opens a table from the whole content of the file at `path`.
    pub fn from_file_bytes(path: String, file: Vec<u8>) -> (r: Result<SSTable, OpenError>)
        ensures
            match r {
                Ok(t) => decode_table(path@, file@) == Ok::<SSTableView, OpenError>(t@) && t@.bloom.wf(),
                Err(e) => decode_table(path@, file@) == Err::<SSTableView, OpenError>(e),
            },
    {
        let file_size = file.len();
        if file_size < HEADER_SIZE {
            return Err(OpenError::TooShort);
        }
        let h = file_size - HEADER_SIZE;
        let index_offset = read_u32(file.as_slice(), h);
        let index_size = read_u32(file.as_slice(), h + 4);
        let bloom_offset = read_u32(file.as_slice(), h + 8);
        let bloom_size = read_u32(file.as_slice(), h + 12);
        if index_size > 0 && (index_offset as usize > file_size || index_size as usize > file_size
            - index_offset as usize) {
            return Err(OpenError::IndexOutOfBounds);
        }
        let empty: Vec<u8> = Vec::new();
        let index_region = if index_size == 0 {
            empty.as_slice()
        } else {
            slice_subrange(file.as_slice(), index_offset as usize, index_offset as usize + index_size as usize)
        };
        assert(index_region@ == region(file@, index_offset, index_size));
        let index = match decode_index(index_region) {
            Some(ix) => ix,
            None => {
                return Err(OpenError::MalformedIndex);
            },
        };
        if bloom_size > 0 && (bloom_offset as usize > file_size || bloom_size as usize > file_size
            - bloom_offset as usize) {
            return Err(OpenError::BloomOutOfBounds);
        }
        let bloom_region = if bloom_size == 0 {
            empty.as_slice()
        } else {
            slice_subrange(file.as_slice(), bloom_offset as usize, bloom_offset as usize + bloom_size as usize)
        };
        assert(bloom_region@ == region(file@, bloom_offset, bloom_size));
        let bloom_filter = match BloomFilter::from_bytes(bloom_region) {
            Some(bf) => bf,
            None => BloomFilter::default(),
        };
        proof {
            if decode_bloom(bloom_region@) is None {
                assert(bloom_filter@.bits =~= stored_or_default_bloom(bloom_region@).bits);
            }
        }
        Ok(SSTable { path, file_size: file_size as u64, index, bloom_filter })
    }

    /// The value of index record `i` in `file`, if it lies there.
    fn entry_bytes(&self, file: &[u8], i: usize) -> (r: Option<Vec<u8>>)
        requires
            i < self@.index.len(),
        ensures
            match r {
                Some(v) => entry_value(file@, self@.index[i as int]) == Some(v@),
                None => entry_value(file@, self@.index[i as int]) is None,
            },
    {
        let e = &self.index[i];
        assert(e@ == self@.index[i as int]);
        let off = e.offset as usize;
        let size = e.size as usize;
        if off <= file.len() && size <= file.len() - off {
            Some(copy_range(file, off, off + size))
        } else {
            None
        }
    }

    /// Binary search for `key` among the index records.
    fn find(&self, key: &[u8]) -> (r: Option<usize>)
        ensures
            match r {
                Some(i) => bsearch(self@.index, key@, 0, self@.index.len() as int) == Some(i as int)
                    && i < self@.index.len(),
                None => bsearch(self@.index, key@, 0, self@.index.len() as int) is None,
            },
    {
        let mut lo: usize = 0;
        let mut hi: usize = self.index.len();
        while lo < hi
            invariant
                lo <= hi <= self@.index.len(),
                bsearch(self@.index, key@, 0, self@.index.len() as int) == bsearch(self@.index, key@, lo as int, hi as int),
            decreases hi - lo,
        {
            let mid = lo + (hi - lo) / 2;
            let e = &self.index[mid];
            assert(e@ == self@.index[mid as int]);
            if bytes_lt(e.key.as_slice(), key) {
                lo = mid + 1;
            } else if bytes_lt(key, e.key.as_slice()) {
                hi = mid;
            } else {
                return Some(mid);
            }
        }
        None
    }

    /// The value stored for `key`, if the filter admits the key, the index holds it
    /// and its bytes lie in `file`, the table's file as it reads now.
    pub fn get(&self, key: &[u8], file: &[u8]) -> (r: Option<Vec<u8>>)
        requires
            self@.bloom.wf(),
            self@.bloom.probeable(),
        ensures
            match r {
                Some(v) => table_get(self@, file@, key@) == Some(v@),
                None => table_get(self@, file@, key@) is None,
            },
    {
        if !self.bloom_filter.might_contain(key) {
            return None;
        }
        match self.find(key) {
            Some(i) => self.entry_bytes(file, i),
            None => None,
        }
    }

    /// The key-value pairs whose key lies in `start..=end` and whose value lies in
    /// `file`, the table's file as it reads now, in index order.
    pub fn range_scan(&self, start: &[u8], end: &[u8], file: &[u8]) -> (r: Vec<(Vec<u8>, Vec<u8>)>)
        ensures
            pairs_view(r@) == scan_entries(file@, self@.index, start@, end@),
    {
        let mut results: Vec<(Vec<u8>, Vec<u8>)> = Vec::new();
        let mut i: usize = 0;
        assert(self@.index.take(0) =~= Seq::<IndexEntryView>::empty());
        while i < self.index.len()
            invariant
                i <= self@.index.len(),
                pairs_view(results@) == scan_entries(file@, self@.index.take(i as int), start@, end@),
            decreases self@.index.len() - i,
        {
            let e = &self.index[i];
            assert(e@ == self@.index[i as int]);
            let ghost before = results@;
            proof {
                let t = self@.index.take(i as int + 1);
                assert(t.drop_last() =~= self@.index.take(i as int));
                assert(t.last() == e@);
            }
            if !bytes_lt(e.key.as_slice(), start) && !bytes_lt(end, e.key.as_slice()) {
                match self.entry_bytes(file, i) {
                    Some(v) => {
                        let k = copy_range(e.key.as_slice(), 0, e.key.len());
                        assert(e.key@.subrange(0, e.key@.len() as int) =~= e.key@);
                        results.push((k, v));
                        assert(pairs_view(results@) =~= pairs_view(before).push((e@.key, v@)));
                    },
                    None => {},
                }
            }
            i = i + 1;
        }
        assert(self@.index.take(self@.index.len() as int) =~= self@.index);
        results
    }

    /// The filter of this table.
    pub fn get_bloom_filter(&self) -> (r: &BloomFilter)
        ensures
            r@ == self@.bloom,
    {
        &self.bloom_filter
    }

    /// The keys of the index, in index order.
    pub fn get_all_keys(&self) -> (r: Vec<Vec<u8>>)
        ensures
            r@.len() == self@.index.len(),
            forall|i: int| 0 <= i < r@.len() ==> #[trigger] r@[i]@ == self@.index[i].key,
    {
        let mut keys: Vec<Vec<u8>> = Vec::new();
        let mut i: usize = 0;
        while i < self.index.len()
            invariant
                i <= self@.index.len(),
                keys@.len() == i,
                forall|j: int| 0 <= j < i ==> #[trigger] keys@[j]@ == self@.index[j].key,
            decreases self@.index.len() - i,
        {
            let e = &self.index[i];
            assert(e@ == self@.index[i as int]);
            let k = copy_range(e.key.as_slice(), 0, e.key.len());
            assert(e.key@.subrange(0, e.key@.len() as int) =~= e.key@);
            keys.push(k);
            i = i + 1;
        }
        keys
    }

    /// The path this table was opened from.
    pub fn path(&self) -> (r: &String)
        ensures
            r@ == self@.path,
    {
        &self.path
    }
}

/// A table's answer for `key` when its file reads `file`, or nothing when
/// the file cannot be read.
pub open spec fn table_answer(t: SSTableView, file: Option<Seq<u8>>, key: Seq<u8>) -> Option<Seq<u8>> {
    match file {
        Some(f) => table_get(t, f, key),
        None => None,
    }
}

/// A table's scan of `start..=end` when its file reads `file`, or nothing when
/// the file cannot be read.
pub open spec fn table_scan(t: SSTableView, file: Option<Seq<u8>>, start: Seq<u8>, end: Seq<u8>) -> Seq<(Seq<u8>, Seq<u8>)> {
    match file {
        Some(f) => scan_entries(f, t.index, start, end),
        None => Seq::empty(),
    }
}

/// What `SSTableReader::get` returns, the tables' files reading `files`: the
/// newest table's answer that is not `None`.
pub open spec fn reader_get(tables: Seq<SSTableView>, files: Seq<Option<Seq<u8>>>, key: Seq<u8>) -> Option<Seq<u8>>
    decreases tables.len(),
{
    if tables.len() == 0 || files.len() == 0 {
        None
    } else {
        match table_answer(tables.last(), files.last(), key) {
            Some(v) => Some(v),
            None => reader_get(tables.drop_last(), files.drop_last(), key),
        }
    }
}

/// Every table's scan of `start..=end`, oldest table first, the tables' files
/// reading `files`.
pub open spec fn reader_scan(tables: Seq<SSTableView>, files: Seq<Option<Seq<u8>>>, start: Seq<u8>, end: Seq<u8>) -> Seq<
    (Seq<u8>, Seq<u8>),
>
    decreases tables.len(),
{
    if tables.len() == 0 || files.len() == 0 {
        Seq::empty()
    } else {
        reader_scan(tables.drop_last(), files.drop_last(), start, end) + table_scan(tables.last(), files.last(), start, end)
    }
}

/// The contents of the tables' files, `None` for one that cannot be read.
pub open spec fn files_view(files: Seq<Option<Vec<u8>>>) -> Seq<Option<Seq<u8>>> {
    files.map_values(|f: Option<Vec<u8>>| match f {
        Some(b) => Some(b@),
        None => None,
    })
}

/// Every table can answer lookups.
pub open spec fn tables_usable(tables: Seq<SSTableView>) -> bool {
    forall|i: int| 0 <= i < tables.len() ==> (#[trigger] tables[i]).bloom.wf() && tables[i].bloom.probeable()
}

/// A stack of tables, oldest first.
pub struct SSTableReader {
    ss_tables: Vec<SSTable>,
}

impl View for SSTableReader {
    type V = Seq<SSTableView>;

    closed spec fn view(&self) -> Seq<SSTableView> {
        self.ss_tables@.map_values(|t: SSTable| t@)
    }
}

impl SSTableReader {
    pub fn new() -> (r: SSTableReader)
        ensures
            r@ == Seq::<SSTableView>::empty(),
    {
        let r = SSTableReader { ss_tables: Vec::new() };
        assert(r@ =~= Seq::<SSTableView>::empty());
        r
    }

    /// Puts `ss_table` on top: it is now the newest table.
    pub fn add_sstable(&mut self, ss_table: SSTable)
        ensures
            final(self)@ == old(self)@.push(ss_table@),
    {
        let ghost t = ss_table@;
        self.ss_tables.push(ss_table);
        assert(self@ =~= old(self)@.push(t));
    }

    /// The value of `key` in the newest table that has one, the tables' files
    /// reading `files` (oldest table first; `None` for a file that cannot be
    /// read).
    pub fn get(&self, key: &[u8], files: &Vec<Option<Vec<u8>>>) -> (r: Option<Vec<u8>>)
        requires
            tables_usable(self@),
            files@.len() == self@.len(),
        ensures
            match r {
                Some(v) => reader_get(self@, files_view(files@), key@) == Some(v@),
                None => reader_get(self@, files_view(files@), key@) is None,
            },
    {
        let ghost fv = files_view(files@);
        let mut i = self.ss_tables.len();
        assert(self@.take(i as int) =~= self@);
        assert(fv.take(i as int) =~= fv);
        while i > 0
            invariant
                i <= self@.len(),
                files@.len() == self@.len(),
                fv == files_view(files@),
                tables_usable(self@),
                reader_get(self@, fv, key@) == reader_get(self@.take(i as int), fv.take(i as int), key@),
            decreases i,
        {
            let t = &self.ss_tables[i - 1];
            proof {
                let s = self@.take(i as int);
                let f = fv.take(i as int);
                assert(s.drop_last() =~= self@.take(i as int - 1));
                assert(f.drop_last() =~= fv.take(i as int - 1));
                assert(s.last() == t@);
                assert(self@[i - 1] == t@);
                assert(f.last() == fv[i - 1]);
            }
            match &files[i - 1] {
                Some(f) => {
                    match t.get(key, f.as_slice()) {
                        Some(v) => {
                            return Some(v);
                        },
                        None => {},
                    }
                },
                None => {},
            }
            i = i - 1;
        }
        None
    }

    /// The pairs of every table whose key lies in `start..=end`, stably sorted by
    /// key (for equal keys, older tables first), the tables' files reading
    /// `files` (oldest table first; `None` for a file that cannot be read).
    pub fn range_scan(&self, start: &[u8], end: &[u8], files: &Vec<Option<Vec<u8>>>) -> (r: Vec<(Vec<u8>, Vec<u8>)>)
        requires
            files@.len() == self@.len(),
        ensures
            pairs_view(r@) == stable_sorted(reader_scan(self@, files_view(files@), start@, end@), by_key()),
    {
        let ghost fv = files_view(files@);
        let mut results: Vec<(Vec<u8>, Vec<u8>)> = Vec::new();
        let mut i: usize = 0;
        assert(pairs_view(results@) =~= reader_scan(self@.take(0), fv.take(0), start@, end@));
        while i < self.ss_tables.len()
            invariant
                i <= self@.len(),
                files@.len() == self@.len(),
                fv == files_view(files@),
                pairs_view(results@) == reader_scan(self@.take(i as int), fv.take(i as int), start@, end@),
            decreases self@.len() - i,
        {
            let t = &self.ss_tables[i];
            let mut part = match &files[i] {
                Some(f) => t.range_scan(start, end, f.as_slice()),
                None => {
                    let v: Vec<(Vec<u8>, Vec<u8>)> = Vec::new();
                    assert(pairs_view(v@) =~= Seq::<(Seq<u8>, Seq<u8>)>::empty());
                    v
                },
            };
            let ghost before = results@;
            let ghost pv = part@;
            results.append(&mut part);
            proof {
                let s = self@.take(i as int + 1);
                let f = fv.take(i as int + 1);
                assert(s.drop_last() =~= self@.take(i as int));
                assert(f.drop_last() =~= fv.take(i as int));
                assert(s.last() == t@);
                assert(self@[i as int] == t@);
                assert(f.last() == fv[i as int]);
                assert(pairs_view(results@) =~= pairs_view(before) + pairs_view(pv));
            }
            i = i + 1;
        }
        assert(self@.take(self@.len() as int) =~= self@);
        assert(fv.take(fv.len() as int) =~= fv);
        sort_pairs(results)
    }

    /// The paths of the tables, oldest first.
    pub fn paths(&self) -> (r: Vec<String>)
        ensures
            r@.len() == self@.len(),
            forall|i: int| 0 <= i < r@.len() ==> #[trigger] r@[i]@ == self@[i].path,
    {
        let mut r: Vec<String> = Vec::new();
        let mut i: usize = 0;
        while i < self.ss_tables.len()
            invariant
                i <= self@.len(),
                r@.len() == i,
                forall|j: int| 0 <= j < i ==> #[trigger] r@[j]@ == self@[j].path,
            decreases self@.len() - i,
        {
            let p = self.ss_tables[i].path();
            assert(self@[i as int] == self.ss_tables@[i as int]@);
            r.push(crate::text::copy_text(p));
            i = i + 1;
        }
        r
    }
}

impl Default for SSTableReader {
    fn default() -> (r: SSTableReader)
        ensures
            r@ == Seq::<SSTableView>::empty(),
    {
        SSTableReader::new()
    }
}

/// A newer table that has a value for a key hides every older table's value.
pub proof fn law_newest_table_wins(
    tables: Seq<SSTableView>,
    files: Seq<Option<Seq<u8>>>,
    t: SSTableView,
    f: Option<Seq<u8>>,
    key: Seq<u8>,
)
    requires
        table_answer(t, f, key) is Some,
    ensures
        reader_get(tables.push(t), files.push(f), key) == table_answer(t, f, key),
{
    assert(tables.push(t).last() == t);
    assert(files.push(f).last() == f);
}

/// A table that has no value for a key leaves the answer of the older tables.
pub proof fn law_missing_key_falls_through(
    tables: Seq<SSTableView>,
    files: Seq<Option<Seq<u8>>>,
    t: SSTableView,
    f: Option<Seq<u8>>,
    key: Seq<u8>,
)
    requires
        table_answer(t, f, key) is None,
    ensures
        reader_get(tables.push(t), files.push(f), key) == reader_get(tables, files, key),
{
    assert(tables.push(t).drop_last() =~= tables);
    assert(files.push(f).drop_last() =~= files);
}

/// Adding a table on top: a key that the new table answers gets its answer,
/// any other key the answer of the older tables; a scan gives the older
/// tables' pairs followed by the new table's, and once sorted it is the older
/// tables' sorted scan with the new table's pairs sorted in after it.
pub proof fn law_add_table(
    tables: Seq<SSTableView>,
    files: Seq<Option<Seq<u8>>>,
    t: SSTableView,
    f: Option<Seq<u8>>,
    key: Seq<u8>,
    start: Seq<u8>,
    end: Seq<u8>,
)
    ensures
        reader_get(tables.push(t), files.push(f), key) == match table_answer(t, f, key) {
            Some(v) => Some(v),
            None => reader_get(tables, files, key),
        },
        reader_scan(tables.push(t), files.push(f), start, end) == reader_scan(tables, files, start, end) + table_scan(
            t,
            f,
            start,
            end,
        ),
        stable_sorted(reader_scan(tables.push(t), files.push(f), start, end), by_key()) == stable_sorted(
            stable_sorted(reader_scan(tables, files, start, end), by_key()) + table_scan(t, f, start, end),
            by_key(),
        ),
{
    assert(tables.push(t).drop_last() =~= tables);
    assert(tables.push(t).last() == t);
    assert(files.push(f).drop_last() =~= files);
    assert(files.push(f).last() == f);
    law_sort_after_sorted_prefix(reader_scan(tables, files, start, end), table_scan(t, f, start, end), by_key());
}

/// A reader's answer for a key is that of the newest table that answers it,
/// and there is none exactly when no table answers it.
pub proof fn law_reader_get_newest(tables: Seq<SSTableView>, files: Seq<Option<Seq<u8>>>, key: Seq<u8>)
    requires
        files.len() == tables.len(),
    ensures
        reader_get(tables, files, key) is None <==> forall|i: int|
            0 <= i < tables.len() ==> table_answer(#[trigger] tables[i], files[i], key) is None,
        reader_get(tables, files, key) is Some ==> exists|j: int|
            0 <= j < tables.len() && reader_get(tables, files, key) == table_answer(#[trigger] tables[j], files[j], key)
                && forall|i: int| j < i < tables.len() ==> table_answer(#[trigger] tables[i], files[i], key) is None,
    decreases tables.len(),
{
    if tables.len() > 0 {
        let p = tables.drop_last();
        let q = files.drop_last();
        let n = tables.len() - 1;
        law_reader_get_newest(p, q, key);
        assert(tables[n] == tables.last());
        assert(files[n] == files.last());
        assert forall|i: int| 0 <= i < p.len() implies #[trigger] p[i] == tables[i] && q[i] == files[i] by {}
        match table_answer(tables.last(), files.last(), key) {
            Some(v) => {
                assert(table_answer(tables[n], files[n], key) is Some);
            },
            None => {
                if reader_get(p, q, key) is Some {
                    let j = choose|j: int|
                        0 <= j < p.len() && reader_get(p, q, key) == table_answer(#[trigger] p[j], q[j], key) && forall|i: int|
                            j < i < p.len() ==> table_answer(#[trigger] p[i], q[i], key) is None;
                    assert(p[j] == tables[j] && q[j] == files[j]);
                    assert forall|i: int| j < i < tables.len() implies table_answer(#[trigger] tables[i], files[i], key) is None by {
                        if i < n {
                            assert(p[i] == tables[i] && q[i] == files[i]);
                        }
                    }
                } else {
                    assert forall|i: int| 0 <= i < tables.len() implies table_answer(#[trigger] tables[i], files[i], key) is None by {
                        if i < n {
                            assert(p[i] == tables[i] && q[i] == files[i]);
                        }
                    }
                }
            },
        }
    }
}

/// What a reader's range scan gives: the pairs of every table's scan, sorted
/// by key, with, for every key, its pairs in table order (oldest table first),
/// none lost, added or merged.
pub proof fn law_reader_scan_sorted(
    tables: Seq<SSTableView>,
    files: Seq<Option<Seq<u8>>>,
    start: Seq<u8>,
    end: Seq<u8>,
    k: Seq<u8>,
)
    ensures
        sorted_by(stable_sorted(reader_scan(tables, files, start, end), by_key()), by_key()),
        with_key(stable_sorted(reader_scan(tables, files, start, end), by_key()), k, by_key()) == with_key(
            reader_scan(tables, files, start, end),
            k,
            by_key(),
        ),
{
    law_stable_sort_is_sorted(reader_scan(tables, files, start, end), by_key());
    law_stable_sort_keeps_each_key(reader_scan(tables, files, start, end), by_key(), k);
}

} // verus!
