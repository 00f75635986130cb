//! The store facade: couples the directory to the data buffer's byte layout.
//!
//! The store owns the invariant that the bytes at each entry's range are
//! exactly that key's current value: its abstract content is the map from
//! every live key to the byte slice its range claims.  Every mutating
//! operation first lets the directory compute or update the byte range for a
//! key, then performs the corresponding write on the buffer.

use vstd::prelude::*;
use vstd::utf8::{decode_utf8, encode_utf8, valid_utf8};

use crate::errors::DbError;
use crate::index::{
    check_entries, entries_wf, entry_for, has_key, key_at, lemma_compact_props, lemma_end_bound,
    lemma_insert_props, lemma_remove_props, lemma_size_sum_le_start, lemma_wf_disjoint, seq_end,
    size_sum, spec_compact, spec_insert, views_of, valid_key, EntryView, Index, IndexEntry,
};

verus! {

broadcast use vstd::utf8::encode_utf8_valid_utf8, vstd::utf8::encode_utf8_decode_utf8;

/// The store's abstract content: each live key maps to the bytes its
/// directory range claims in the buffer.
pub open spec fn store_map(dir: Seq<EntryView>, buf: Seq<u8>) -> Map<Seq<char>, Seq<u8>> {
    Map::new(
        |k: Seq<char>| has_key(dir, k),
        |k: Seq<char>| buf.subrange(entry_for(dir, k).start, entry_for(dir, k).end),
    )
}

/// Relies on String::from_utf8_lossy: on valid UTF-8 input it returns
/// exactly the decoded string (invalid sequences are replaced, and nothing
/// is claimed of them here).
#[verifier::external_body]
pub(crate) fn bytes_to_string_lossy(v: &Vec<u8>) -> (r: String)
    ensures
        valid_utf8(v@) ==> r@ == decode_utf8(v@),
{
    String::from_utf8_lossy(v.as_slice()).into_owned()
}

/// Writes `data` at offset `start` of the buffer, zero-filling any gap
/// between the buffer's old end and `start`, and growing it as needed.
fn splice(buf: &mut Vec<u8>, start: usize, data: &[u8])
    requires
        start + data@.len() <= usize::MAX,
    ensures
        final(buf)@.len() == if start + data@.len() > old(buf)@.len() {
            start as int + data@.len()
        } else {
            old(buf)@.len() as int
        },
        forall|m: int|
            0 <= m < final(buf)@.len() ==> final(buf)@[m] == (if start <= m < start + data@.len() {
                data@[m - start]
            } else if m < old(buf)@.len() {
                old(buf)@[m]
            } else {
                0u8
            }),
{
    let ghost ol = old(buf)@.len() as int;
    while buf.len() < start
        invariant
            0 <= ol,
            buf@.len() >= ol,
            buf@.len() <= ol || buf@.len() <= start,
            forall|m: int| 0 <= m < ol ==> buf@[m] == old(buf)@[m],
            forall|m: int| ol <= m < buf@.len() ==> buf@[m] == 0u8,
        decreases start - buf.len(),
    {
        let ghost prev = buf@;
        buf.push(0u8);
        proof {
            assert(buf@ == prev.push(0u8));
            assert forall|m: int| ol <= m < buf@.len() implies buf@[m] == 0u8 by {
                if m < prev.len() {
                    assert(prev.push(0u8)[m] == prev[m]);
                    assert(prev[m] == 0u8);
                } else {
                    assert(m == prev.len());
                    assert(prev.push(0u8)[m] == 0u8);
                }
            }
            assert forall|m: int| 0 <= m < ol implies buf@[m] == old(buf)@[m] by {
                assert(prev.push(0u8)[m] == prev[m]);
                assert(prev[m] == old(buf)@[m]);
            }
        }
    }
    let ghost l1 = buf@.len() as int;
    proof {
        assert(l1 == if start > ol { start as int } else { ol });
    }
    let n = data.len();
    let mut j: usize = 0;
    while j < n
        invariant
            start + n <= usize::MAX,
            n == data@.len(),
            0 <= j <= n,
            0 <= ol,
            l1 == if start > ol { start as int } else { ol },
            buf@.len() == if start + j > l1 { start as int + j } else { l1 },
            forall|m: int|
                0 <= m < buf@.len() ==> buf@[m] == (if start <= m < start + j {
                    data@[m - start]
                } else if m < ol {
                    old(buf)@[m]
                } else {
                    0u8
                }),
        decreases n - j,
    {
        let pos = start + j;
        let ghost prev = buf@;
        if pos < buf.len() {
            buf[pos] = data[j];
            proof {
                assert(buf@ == prev.update(pos as int, data@[j as int]));
                assert forall|m: int| #![trigger buf@[m]] 0 <= m < prev.len() && m != pos
                    implies buf@[m] == prev[m] by {
                    assert(prev.update(pos as int, data@[j as int])[m] == prev[m]);
                }
                assert(buf@[pos as int] == data@[j as int]);
            }
        } else {
            proof {
                assert(pos == buf@.len());
            }
            buf.push(data[j]);
            proof {
                assert(buf@ == prev.push(data@[j as int]));
                assert forall|m: int| #![trigger buf@[m]] 0 <= m < prev.len() implies buf@[m]
                    == prev[m] by {
                    assert(prev.push(data@[j as int])[m] == prev[m]);
                }
                assert(buf@[pos as int] == data@[j as int]);
            }
        }
        j += 1;
    }
}

/// Copies `size` bytes starting at `start` out of the buffer.
fn read_range(buf: &Vec<u8>, start: usize, size: usize) -> (r: Vec<u8>)
    requires
        start + size <= buf@.len(),
    ensures
        r@ == buf@.subrange(start as int, start as int + size as int),
{
    let bl = buf.len();
    let mut r: Vec<u8> = Vec::new();
    let mut j: usize = 0;
    while j < size
        invariant
            start + size <= bl,
            bl == buf@.len(),
            0 <= j <= size,
            r@.len() == j,
            forall|x: int| 0 <= x < j ==> r@[x] == buf@[start + x],
        decreases size - j,
    {
        r.push(buf[start + j]);
        j += 1;
    }
    proof {
        assert(r@ =~= buf@.subrange(start as int, start as int + size as int));
    }
    r
}

/// Moves `len` bytes from offset `src` down to offset `dst` (`dst <= src`),
/// copying in ascending order.
fn copy_within(buf: &mut Vec<u8>, src: usize, dst: usize, len: usize)
    requires
        dst <= src,
        src + len <= old(buf)@.len(),
    ensures
        final(buf)@.len() == old(buf)@.len(),
        final(buf)@.subrange(dst as int, dst as int + len as int) == old(buf)@.subrange(
            src as int,
            src as int + len as int,
        ),
        forall|m: int|
            0 <= m < final(buf)@.len() && !(dst <= m < dst + len) ==> final(buf)@[m] == old(
                buf,
            )@[m],
{
    let bl = buf.len();
    let mut k: usize = 0;
    while k < len
        invariant
            dst <= src,
            src + len <= bl,
            bl == buf@.len(),
            buf@.len() == old(buf)@.len(),
            0 <= k <= len,
            forall|m: int| 0 <= m < buf@.len() && !(dst <= m < dst + k) ==> buf@[m] == old(buf)@[m],
            forall|x: int| 0 <= x < k ==> #[trigger] buf@[dst + x] == old(buf)@[src + x],
        decreases len - k,
    {
        proof {
            assert(buf@[src as int + k] == old(buf)@[src as int + k]);
        }
        let b = buf[src + k];
        let ghost prev = buf@;
        buf[dst + k] = b;
        proof {
            assert(buf@ == prev.update(dst as int + k, b));
            assert forall|m: int| #![trigger buf@[m]] 0 <= m < prev.len() && m != dst + k
                implies buf@[m] == prev[m] by {
                assert(prev.update(dst as int + k, b)[m] == prev[m]);
            }
            assert(buf@[dst as int + k] == b);
        }
        k += 1;
    }
    proof {
        let s1 = buf@.subrange(dst as int, dst as int + len as int);
        let s2 = old(buf)@.subrange(src as int, src as int + len as int);
        assert forall|x: int| 0 <= x < len implies s1[x] == s2[x] by {
            assert(buf@[dst + x] == old(buf)@[src + x]);
        }
        assert(s1 =~= s2);
    }
}

proof fn lemma_subrange_unchanged(b0: Seq<u8>, b1: Seq<u8>, lo: int, hi: int)
    requires
        0 <= lo <= hi <= b0.len(),
        hi <= b1.len(),
        forall|m: int| lo <= m < hi ==> b1[m] == b0[m],
    ensures
        b1.subrange(lo, hi) == b0.subrange(lo, hi),
{
    assert(b1.subrange(lo, hi) =~= b0.subrange(lo, hi));
}

proof fn lemma_store_insert_map(
    dir0: Seq<EntryView>,
    buf0: Seq<u8>,
    buf1: Seq<u8>,
    k: Seq<char>,
    data: Seq<u8>,
)
    requires
        entries_wf(dir0),
        valid_key(k),
        seq_end(dir0) <= buf0.len(),
        ({
            let e = spec_insert(dir0, data.len() as int, k).1;
            &&& buf1.len() == if e.end > buf0.len() {
                e.end
            } else {
                buf0.len() as int
            }
            &&& forall|m: int|
                0 <= m < buf1.len() ==> buf1[m] == (if e.start <= m < e.end {
                    data[m - e.start]
                } else if m < buf0.len() {
                    buf0[m]
                } else {
                    0u8
                })
        }),
    ensures
        store_map(spec_insert(dir0, data.len() as int, k).0, buf1) == store_map(
            dir0,
            buf0,
        ).insert(k, data),
{
    lemma_insert_props(dir0, data.len() as int, k);
    let dir1 = spec_insert(dir0, data.len() as int, k).0;
    let e = spec_insert(dir0, data.len() as int, k).1;
    let m1 = store_map(dir1, buf1);
    let m2 = store_map(dir0, buf0).insert(k, data);
    assert(e.end <= buf1.len());
    assert forall|k2: Seq<char>| #[trigger] m1.contains_key(k2) implies m2.contains_key(k2)
        && m1[k2] == m2[k2] by {
        if k2 == k {
            assert(entry_for(dir1, k) == e);
            assert forall|x: int| 0 <= x < data.len() implies buf1.subrange(e.start, e.end)[x]
                == data[x] by {
                assert(buf1[e.start + x] == data[x]);
            }
            assert(buf1.subrange(e.start, e.end) =~= data);
        } else {
            assert(has_key(dir0, k2));
            let f = entry_for(dir0, k2);
            assert(entry_for(dir1, k2) == f);
            let i0 = key_at(dir0, k2);
            assert(0 <= i0 < dir0.len() && dir0[i0].key == k2);
            lemma_end_bound(dir0, i0);
            assert(f.end <= buf0.len());
            let i1 = key_at(dir1, k2);
            assert(0 <= i1 < dir1.len() && dir1[i1].key == k2);
            let ik = key_at(dir1, k);
            assert(0 <= ik < dir1.len() && dir1[ik].key == k);
            assert(i1 != ik);
            lemma_wf_disjoint(dir1, i1, ik);
            assert(dir1[i1] == f && dir1[ik] == e);
            assert(0 <= f.start <= f.end);
            assert forall|x: int| 0 <= x < f.end - f.start implies buf1.subrange(
                f.start,
                f.end,
            )[x] == buf0.subrange(f.start, f.end)[x] by {
                assert(!(e.start <= f.start + x < e.end));
                assert(buf1[f.start + x] == buf0[f.start + x]);
            }
            assert(buf1.subrange(f.start, f.end) =~= buf0.subrange(f.start, f.end));
        }
    }
    assert forall|k2: Seq<char>| #[trigger] m2.contains_key(k2) implies m1.contains_key(k2) by {
        if k2 != k {
            assert(has_key(dir0, k2));
        }
    }
    assert(m1 =~= m2);
}

proof fn lemma_store_remove_map(dir0: Seq<EntryView>, buf: Seq<u8>, k: Seq<char>)
    requires
        entries_wf(dir0),
        has_key(dir0, k),
    ensures
        store_map(dir0.remove(key_at(dir0, k)), buf) == store_map(dir0, buf).remove(k),
{
    let i = key_at(dir0, k);
    assert(0 <= i < dir0.len() && dir0[i].key == k);
    lemma_remove_props(dir0, i);
    let dir1 = dir0.remove(i);
    let m1 = store_map(dir1, buf);
    let m2 = store_map(dir0, buf).remove(k);
    assert forall|k2: Seq<char>| #[trigger] m1.contains_key(k2) implies m2.contains_key(k2)
        && m1[k2] == m2[k2] by {
        assert(k2 != k);
        assert(has_key(dir0, k2));
        assert(entry_for(dir1, k2) == entry_for(dir0, k2));
    }
    assert forall|k2: Seq<char>| #[trigger] m2.contains_key(k2) implies m1.contains_key(k2) by {
        assert(k2 != k && has_key(dir0, k2));
    }
    assert(m1 =~= m2);
}

proof fn lemma_store_compact_map(dir0: Seq<EntryView>, buf0: Seq<u8>, buf1: Seq<u8>)
    requires
        entries_wf(dir0),
        seq_end(dir0) <= buf0.len(),
        size_sum(dir0, dir0.len() as int) <= buf1.len(),
        forall|j: int|
            #![trigger spec_compact(dir0)[j]]
            0 <= j < dir0.len() ==> buf1.subrange(
                spec_compact(dir0)[j].start,
                spec_compact(dir0)[j].end,
            ) == buf0.subrange(dir0[j].start, dir0[j].end),
    ensures
        store_map(spec_compact(dir0), buf1) == store_map(dir0, buf0),
{
    lemma_compact_props(dir0);
    let c = spec_compact(dir0);
    let m1 = store_map(c, buf1);
    let m2 = store_map(dir0, buf0);
    assert forall|k: Seq<char>| #[trigger] m1.contains_key(k) implies m2.contains_key(k) && m1[k]
        == m2[k] by {
        assert(has_key(dir0, k));
        let i = key_at(dir0, k);
        assert(0 <= i < dir0.len() && dir0[i].key == k);
        assert(key_at(c, k) == i);
        assert(entry_for(c, k) == c[i] && entry_for(dir0, k) == dir0[i]);
        assert(buf1.subrange(c[i].start, c[i].end) == buf0.subrange(dir0[i].start, dir0[i].end));
    }
    assert forall|k: Seq<char>| #[trigger] m2.contains_key(k) implies m1.contains_key(k) by {}
    assert(m1 =~= m2);
}

/// Round trip at the level of the store's content: after an insert of
/// `value` under `key`, the store maps `key` to bytes that are valid UTF-8
/// and decode exactly to `value`.
pub proof fn lemma_insert_get_round_trip(
    m: Map<Seq<char>, Seq<u8>>,
    key: Seq<char>,
    value: Seq<char>,
)
    ensures
        m.insert(key, encode_utf8(value)).contains_key(key),
        valid_utf8(m.insert(key, encode_utf8(value))[key]),
        decode_utf8(m.insert(key, encode_utf8(value))[key]) == value,
{
    assert(valid_utf8(encode_utf8(value)));
    assert(decode_utf8(encode_utf8(value)) == value);
}

/// The store: a directory plus the flat data buffer it describes.
#[derive(Debug)]
pub struct DataBase {
    index: Index,
    buf: Vec<u8>,
}

impl View for DataBase {
    type V = Map<Seq<char>, Seq<u8>>;

    closed spec fn view(&self) -> Map<Seq<char>, Seq<u8>> {
        store_map(self.directory(), self.buffer())
    }
}

/// The store's content is exactly what its directory and buffer determine.
pub proof fn lemma_store_view(db: &DataBase)
    ensures
        db@ == store_map(db.directory(), db.buffer()),
{
}

impl DataBase {
    /// The directory's abstract entries.
    pub closed spec fn directory(&self) -> Seq<EntryView> {
        self.index@
    }

    /// The data buffer's bytes.
    pub closed spec fn buffer(&self) -> Seq<u8> {
        self.buf@
    }

    /// Well-formedness: the directory is well-formed and claims no byte past
    /// the end of the buffer.
    pub open spec fn wf(&self) -> bool {
        entries_wf(self.directory()) && seq_end(self.directory()) <= self.buffer().len()
    }

    /// An empty store: no entries, no bytes.
    pub fn new() -> (r: DataBase)
        ensures
            r.wf(),
            r@ == Map::<Seq<char>, Seq<u8>>::empty(),
            r.directory() == Seq::<EntryView>::empty(),
            r.buffer() == Seq::<u8>::empty(),
    {
        let r = DataBase { index: Index::new(), buf: Vec::new() };
        proof {
            assert(r.buffer() =~= Seq::<u8>::empty());
            assert(r@ =~= Map::<Seq<char>, Seq<u8>>::empty());
        }
        r
    }

    /// Assembles a store from parsed entries and raw buffer bytes, rejecting
    /// entries that do not form a well-formed directory over the buffer.
    /// Assembles a store from parsed entries and raw buffer bytes, rejecting
    /// entries that do not form a well-formed directory over the buffer.
    #[verifier::rlimit(100)]
    #[verifier::spinoff_prover]
    pub fn from_parts(entries: Vec<IndexEntry>, data: Vec<u8>) -> (r: Result<DataBase, DbError>)
        ensures
            r is Ok <==> entries_wf(views_of(entries@)) && seq_end(views_of(entries@))
                <= data@.len(),
            r is Ok ==> r->Ok_0.wf() && r->Ok_0.directory() == views_of(entries@)
                && r->Ok_0.buffer() == data@,
            r is Err ==> r->Err_0 == DbError::InvalidLayout,
    {
        let ghost vs = views_of(entries@);
        if !check_entries(&entries) {
            return Err(DbError::InvalidLayout);
        }
        let n = entries.len();
        let end: usize = if n > 0 {
            entries[n - 1].end()
        } else {
            0
        };
        proof {
            assert(end as int == seq_end(vs));
        }
        if end > data.len() {
            return Err(DbError::InvalidLayout);
        }
        let mut index = Index::new();
        index.set_all_entries(entries);
        Ok(DataBase { index, buf: data })
    }

    /// A borrow of the directory, for callers that persist its textual form.
    pub fn index_ref(&self) -> (r: &Index)
        ensures
            r@ == self.directory(),
    {
        &self.index
    }

    /// A copy of the directory's entries.
    pub fn directory_entries(&self) -> (r: Vec<IndexEntry>)
        ensures
            views_of(r@) == self.directory(),
    {
        self.index.get_all_entries()
    }

    /// True iff the directory has no entries (the buffer may still hold
    /// bytes; see `is_buf_empty`).
    pub fn is_empty(&self) -> (r: bool)
        ensures
            r == (self.directory().len() == 0),
    {
        self.index.is_empty()
    }

    /// True iff the data buffer holds no bytes.
    pub fn is_buf_empty(&self) -> (r: bool)
        ensures
            r == (self.buffer().len() == 0),
    {
        self.buf.len() == 0
    }

    /// The data buffer's physical length.
    pub fn buf_len(&self) -> (r: usize)
        ensures
            r == self.buffer().len(),
    {
        self.buf.len()
    }

    /// Sets the buffer's length outright, truncating or zero-extending.
    pub fn set_buf_len(&mut self, len: usize)
        ensures
            final(self).buffer().len() == len,
            forall|m: int|
                0 <= m < len ==> final(self).buffer()[m] == (if m < old(self).buffer().len() {
                    old(self).buffer()[m]
                } else {
                    0u8
                }),
            final(self).directory() == old(self).directory(),
            old(self).wf() && seq_end(old(self).directory()) <= len ==> final(self).wf(),
    {
        if len <= self.buf.len() {
            self.buf.truncate(len);
        } else {
            while self.buf.len() < len
                invariant
                    old(self).buf@.len() <= self.buf@.len() <= len,
                    self.index == old(self).index,
                    forall|m: int| 0 <= m < old(self).buf@.len() ==> self.buf@[m] == old(self).buf@[m],
                    forall|m: int|
                        old(self).buf@.len() <= m < self.buf@.len() ==> self.buf@[m] == 0u8,
                decreases len - self.buf.len(),
            {
                self.buf.push(0u8);
            }
        }
    }

    /// Reads `size` bytes at `start` and decodes them as text, lossily.
    pub fn read_at(&self, start: usize, size: usize) -> (r: Result<String, DbError>)
        ensures
            r is Ok <==> start + size <= self.buffer().len(),
            r is Err ==> r->Err_0 == DbError::ReadOutOfBounds,
            r is Ok && valid_utf8(self.buffer().subrange(start as int, start as int + size as int))
                ==> r->Ok_0@ == decode_utf8(
                self.buffer().subrange(start as int, start as int + size as int),
            ),
    {
        if size > self.buf.len() || start > self.buf.len() - size {
            return Err(DbError::ReadOutOfBounds);
        }
        let bytes = read_range(&self.buf, start, size);
        Ok(bytes_to_string_lossy(&bytes))
    }

    /// Copies `size` raw bytes at `start` out of the buffer.
    pub fn read_bytes_at(&self, start: usize, size: usize) -> (r: Result<Vec<u8>, DbError>)
        ensures
            r is Ok <==> start + size <= self.buffer().len(),
            r is Err ==> r->Err_0 == DbError::ReadOutOfBounds,
            r is Ok ==> r->Ok_0@ == self.buffer().subrange(start as int, start as int + size as int),
    {
        if size > self.buf.len() || start > self.buf.len() - size {
            return Err(DbError::ReadOutOfBounds);
        }
        Ok(read_range(&self.buf, start, size))
    }

    /// Writes the value's bytes at `start`, zero-filling any gap past the
    /// buffer's old end; the directory is not consulted, so live ranges may
    /// be overwritten.
    pub fn write_at(&mut self, start: usize, content: &str)
        requires
            start + encode_utf8(content@).len() <= usize::MAX,
        ensures
            final(self).directory() == old(self).directory(),
            final(self).buffer().len() == (if start + encode_utf8(content@).len() > old(
                self,
            ).buffer().len() {
                start as int + encode_utf8(content@).len()
            } else {
                old(self).buffer().len() as int
            }),
            forall|m: int|
                0 <= m < final(self).buffer().len() ==> final(self).buffer()[m] == (if start <= m
                    < start + encode_utf8(content@).len() {
                    encode_utf8(content@)[m - start]
                } else if m < old(self).buffer().len() {
                    old(self).buffer()[m]
                } else {
                    0u8
                }),
            old(self).wf() ==> final(self).wf(),
    {
        splice(&mut self.buf, start, content.as_bytes());
    }

    /// Inserts or replaces the value for `key`: the directory computes the
    /// byte range (narrow in place, or first-fit allocation) and the value's
    /// bytes are written there.  Every other key keeps its value.
    pub fn insert(&mut self, key: &str, value: &str) -> (r: Result<(), DbError>)
        requires
            old(self).wf(),
            seq_end(old(self).directory()) + encode_utf8(value@).len() <= usize::MAX,
        ensures
            final(self).wf(),
            r is Ok <==> valid_key(key@),
            r is Err ==> r->Err_0 == DbError::InvalidKey && final(self)@ == old(self)@
                && final(self).directory() == old(self).directory() && final(self).buffer()
                == old(self).buffer(),
            r is Ok ==> final(self)@ == old(self)@.insert(key@, encode_utf8(value@))
                && final(self).directory() == spec_insert(
                old(self).directory(),
                encode_utf8(value@).len() as int,
                key@,
            ).0 && final(self).buffer().len() == ({
                let e = spec_insert(old(self).directory(), encode_utf8(value@).len() as int, key@).1;
                if e.end > old(self).buffer().len() {
                    e.end
                } else {
                    old(self).buffer().len() as int
                }
            }),
    {
        let ghost dir0 = self.index@;
        let ghost buf0 = self.buf@;
        let ghost data = encode_utf8(value@);
        let n = value.len();
        let e = match self.index.insert_entry(n, key) {
            Ok(e) => e,
            Err(err) => {
                return Err(err);
            },
        };
        proof {
            lemma_insert_props(dir0, n as int, key@);
            assert(e@ == spec_insert(dir0, n as int, key@).1);
            assert(e@.start + data.len() == e@.end <= usize::MAX);
        }
        let bytes = value.as_bytes();
        splice(&mut self.buf, e.start(), bytes);
        proof {
            lemma_store_insert_map(dir0, buf0, self.buf@, key@, data);
            assert(seq_end(self.index@) <= self.buf@.len());
        }
        Ok(())
    }

    /// Looks `key` up in the directory and reads its range from the buffer,
    /// decoding lossily.
    pub fn get(&self, key: &str) -> (r: Option<String>)
        requires
            self.wf(),
        ensures
            r is Some <==> self@.contains_key(key@),
            r is Some && valid_utf8(self@[key@]) ==> r->Some_0@ == decode_utf8(self@[key@]),
    {
        match self.index.get_entry(key) {
            None => None,
            Some(e) => {
                proof {
                    let i = key_at(self.index@, key@);
                    assert(0 <= i < self.index@.len() && self.index@[i].key == key@);
                    lemma_end_bound(self.index@, i);
                }
                let bytes = read_range(&self.buf, e.start(), e.size());
                Some(bytes_to_string_lossy(&bytes))
            },
        }
    }

    /// Deletes `key` from the directory; the buffer's bytes stay as they
    /// are, so disk space is only reclaimed by `shrink`.
    pub fn remove(&mut self, key: &str)
        requires
            old(self).wf(),
        ensures
            final(self).wf(),
            final(self)@ == old(self)@.remove(key@),
            final(self).buffer() == old(self).buffer(),
            has_key(old(self).directory(), key@) ==> final(self).directory() == old(
                self,
            ).directory().remove(key_at(old(self).directory(), key@)),
            !has_key(old(self).directory(), key@) ==> final(self).directory() == old(
                self,
            ).directory(),
    {
        let ghost dir0 = self.index@;
        let ghost buf0 = self.buf@;
        self.index.remove_entry(key);
        proof {
            if has_key(dir0, key@) {
                lemma_remove_props(dir0, key_at(dir0, key@));
                lemma_store_remove_map(dir0, buf0, key@);
            } else {
                assert(!store_map(dir0, buf0).contains_key(key@));
                assert(self@ =~= old(self)@.remove(key@));
            }
        }
    }

    /// Empties both the directory and the buffer.
    pub fn clear_all(&mut self)
        ensures
            final(self).wf(),
            final(self)@ == Map::<Seq<char>, Seq<u8>>::empty(),
            final(self).directory() == Seq::<EntryView>::empty(),
            final(self).buffer() == Seq::<u8>::empty(),
    {
        self.buf.clear();
        self.index.clear_all();
        proof {
            assert(self.buf@ =~= Seq::<u8>::empty());
            assert(self@ =~= Map::<Seq<char>, Seq<u8>>::empty());
        }
    }

    /// Compaction: an empty directory clears everything; otherwise every
    /// entry's bytes slide toward offset zero in ascending order (a later
    /// entry's bytes are never overwritten before they are read, because its
    /// new range never reaches past its old start), and the buffer is
    /// truncated to the sum of all live sizes.  Every key keeps its value.
    pub fn shrink(&mut self)
        requires
            old(self).wf(),
        ensures
            final(self).wf(),
            final(self)@ == old(self)@,
            final(self).directory() == spec_compact(old(self).directory()),
            final(self).buffer().len() == size_sum(
                old(self).directory(),
                old(self).directory().len() as int,
            ),
    {
        let ghost dir0 = self.index@;
        let ghost buf0 = self.buf@;
        proof {
            lemma_compact_props(dir0);
        }
        if self.index.is_empty() {
            self.clear_all();
            proof {
                assert(spec_compact(dir0) =~= Seq::<EntryView>::empty());
                assert(store_map(dir0, buf0) =~= Map::<Seq<char>, Seq<u8>>::empty());
            }
            return;
        }
        let pre = self.index.shrink_entries();
        let news = self.index.get_all_entries();
        let n = pre.len();
        let ghost c = spec_compact(dir0);
        proof {
            assert(views_of(pre@) == dir0);
            assert(views_of(news@) == c);
            assert(n == dir0.len());
        }
        let mut i: usize = 0;
        while i < n
            invariant
                entries_wf(dir0),
                entries_wf(c),
                c == spec_compact(dir0),
                n == dir0.len(),
                views_of(pre@) == dir0,
                views_of(news@) == c,
                pre@.len() == n,
                news@.len() == n,
                self.index@ == c,
                self.buf@.len() == buf0.len(),
                seq_end(dir0) <= buf0.len(),
                c.len() == n,
                forall|j: int|
                    #![trigger c[j]]
                    0 <= j < n ==> c[j].size() == dir0[j].size() && c[j].start <= dir0[j].start
                        && c[j].end <= dir0[j].end,
                0 <= i <= n,
                forall|j: int|
                    #![trigger c[j]]
                    0 <= j < i ==> self.buf@.subrange(c[j].start, c[j].end) == buf0.subrange(
                        dir0[j].start,
                        dir0[j].end,
                    ),
                forall|j: int|
                    #![trigger dir0[j]]
                    i <= j < n ==> self.buf@.subrange(dir0[j].start, dir0[j].end) == buf0.subrange(
                        dir0[j].start,
                        dir0[j].end,
                    ),
            decreases n - i,
        {
            proof {
                lemma_end_bound(dir0, i as int);
                assert(pre@[i as int]@ == dir0[i as int]);
                assert(news@[i as int]@ == c[i as int]);
                assert(0 <= dir0[i as int].start <= dir0[i as int].end);
                assert(0 <= c[i as int].start <= c[i as int].end);
            }
            let ps = pre[i].start();
            let pe = pre[i].end();
            let ns = news[i].start();
            if ps != ns {
                let len = pe - ps;
                let ghost bprev = self.buf@;
                copy_within(&mut self.buf, ps, ns, len);
                proof {
                    assert forall|j: int|
                        #![trigger c[j]]
                        0 <= j < i + 1 implies self.buf@.subrange(c[j].start, c[j].end)
                        == buf0.subrange(dir0[j].start, dir0[j].end) by {
                        if j < i {
                            assert(c[j].end <= c[i as int].start);
                            lemma_subrange_unchanged(bprev, self.buf@, c[j].start, c[j].end);
                            assert(bprev.subrange(c[j].start, c[j].end) == buf0.subrange(
                                dir0[j].start,
                                dir0[j].end,
                            ));
                        } else {
                            assert(self.buf@.subrange(c[j].start, c[j].end) == bprev.subrange(
                                dir0[j].start,
                                dir0[j].end,
                            ));
                            assert(bprev.subrange(dir0[j].start, dir0[j].end) == buf0.subrange(
                                dir0[j].start,
                                dir0[j].end,
                            ));
                        }
                    }
                    assert forall|j: int|
                        #![trigger dir0[j]]
                        i + 1 <= j < n implies self.buf@.subrange(dir0[j].start, dir0[j].end)
                        == buf0.subrange(dir0[j].start, dir0[j].end) by {
                        assert(dir0[i as int].end <= dir0[j].start);
                        assert(c[i as int].end <= dir0[i as int].end);
                        lemma_end_bound(dir0, j);
                        lemma_subrange_unchanged(bprev, self.buf@, dir0[j].start, dir0[j].end);
                        assert(bprev.subrange(dir0[j].start, dir0[j].end) == buf0.subrange(
                            dir0[j].start,
                            dir0[j].end,
                        ));
                    }
                }
            } else {
                proof {
                    assert(c[i as int].start == dir0[i as int].start);
                    assert(c[i as int].end == dir0[i as int].end);
                    assert forall|j: int|
                        #![trigger c[j]]
                        0 <= j < i + 1 implies self.buf@.subrange(c[j].start, c[j].end)
                        == buf0.subrange(dir0[j].start, dir0[j].end) by {
                        if j == i {
                            assert(self.buf@.subrange(dir0[j].start, dir0[j].end) == buf0.subrange(
                                dir0[j].start,
                                dir0[j].end,
                            ));
                        }
                    }
                }
            }
            i += 1;
        }
        let new_end = news[n - 1].end();
        proof {
            assert(new_end as int == c[n as int - 1].end);
            lemma_size_sum_le_start(dir0, n as int);
            lemma_end_bound(dir0, n as int - 1);
            assert(new_end as int == size_sum(dir0, n as int));
            assert(new_end as int <= self.buf@.len());
        }
        let ghost btrunc = self.buf@;
        self.buf.truncate(new_end);
        proof {
            assert(self.buf@ == btrunc.subrange(0, new_end as int));
            assert forall|j: int|
                #![trigger c[j]]
                0 <= j < n implies self.buf@.subrange(c[j].start, c[j].end) == buf0.subrange(
                    dir0[j].start,
                    dir0[j].end,
                ) by {
                lemma_end_bound(c, j);
                assert(c[j].end <= seq_end(c) == new_end as int);
                assert(0 <= c[j].start <= c[j].end);
                lemma_subrange_unchanged(btrunc, self.buf@, c[j].start, c[j].end);
                assert(btrunc.subrange(c[j].start, c[j].end) == buf0.subrange(
                    dir0[j].start,
                    dir0[j].end,
                ));
            }
            lemma_store_compact_map(dir0, buf0, self.buf@);
            assert(seq_end(self.index@) <= self.buf@.len());
        }
    }
}

} // verus!
