//! The directory: an ordered catalog of `key -> byte range` entries.
//!
//! Entries are kept sorted by range start, with pairwise-disjoint ranges and
//! unique keys.  The space between two adjacent ranges is a gap; gaps are
//! never stored, always derived.  Allocation is strictly first-fit over the
//! gaps, and compaction slides every entry toward offset zero, preserving
//! order and sizes.

use vstd::prelude::*;
use vstd::string::StrSliceExecFns;

use crate::errors::DbError;

verus! {

/// Abstract value of one directory entry: a key together with the half-open
/// byte range `[start, end)` that holds the key's value.
pub ghost struct EntryView {
    pub key: Seq<char>,
    pub start: int,
    pub end: int,
}

impl EntryView {
    /// Number of bytes the entry claims.
    pub open spec fn size(self) -> int {
        self.end - self.start
    }
}

/// Keys may not hold the separators of the persisted directory form.
pub open spec fn valid_key(k: Seq<char>) -> bool {
    forall|i: int| 0 <= i < k.len() ==> #[trigger] k[i] != '=' && k[i] != '_' && k[i] != '\n'
}

/// The views of a sequence of concrete entries.
pub open spec fn views_of(v: Seq<IndexEntry>) -> Seq<EntryView> {
    Seq::new(v.len(), |i: int| v[i]@)
}

/// Directory well-formedness: every range is valid and starts at a
/// non-negative offset under a separator-free key, ranges are ascending and
/// pairwise disjoint, and keys are unique.
pub open spec fn entries_wf(s: Seq<EntryView>) -> bool {
    &&& forall|i: int|
        0 <= i < s.len() ==> {
            &&& 0 <= (#[trigger] s[i]).start <= s[i].end
            &&& valid_key(s[i].key)
        }
    &&& forall|i: int, j: int|
        0 <= i < j < s.len() ==> (#[trigger] s[i]).end <= (#[trigger] s[j]).start
    &&& forall|i: int, j: int|
        0 <= i < j < s.len() ==> (#[trigger] s[i]).key != (#[trigger] s[j]).key
}

/// Whether some entry carries the key.
pub open spec fn has_key(s: Seq<EntryView>, k: Seq<char>) -> bool {
    exists|i: int| 0 <= i < s.len() && (#[trigger] s[i]).key == k
}

/// The position of the entry carrying the key (unique in a well-formed
/// directory).
pub open spec fn key_at(s: Seq<EntryView>, k: Seq<char>) -> int {
    choose|i: int| 0 <= i < s.len() && (#[trigger] s[i]).key == k
}

/// The entry carrying the key.
pub open spec fn entry_for(s: Seq<EntryView>, k: Seq<char>) -> EntryView {
    s[key_at(s, k)]
}

/// One byte past the last claimed range, or zero for an empty directory.
pub open spec fn seq_end(s: Seq<EntryView>) -> int {
    if s.len() == 0 {
        0
    } else {
        s[s.len() - 1].end
    }
}

/// Whether a fresh range of `size` bytes fits in the gap just before
/// position `p`: before the first entry for `p == 0`, between two adjacent
/// entries for interior `p`, and always at the end for `p == s.len()`.
pub open spec fn gap_fits(s: Seq<EntryView>, p: int, size: int) -> bool
    recommends
        0 <= p <= s.len(),
{
    if p == s.len() {
        true
    } else if p == 0 {
        size <= s[0].start
    } else {
        s[p - 1].end + size <= s[p].start
    }
}

/// The first position at or after `p` whose gap fits `size` bytes.
pub open spec fn first_fit_from(s: Seq<EntryView>, size: int, p: int) -> int
    recommends
        0 <= p <= s.len(),
    decreases s.len() - p,
{
    if p < 0 || p >= s.len() {
        s.len() as int
    } else if gap_fits(s, p, size) {
        p
    } else {
        first_fit_from(s, size, p + 1)
    }
}

/// The position where first-fit allocation of `size` bytes inserts.
pub open spec fn first_fit_pos(s: Seq<EntryView>, size: int) -> int {
    first_fit_from(s, size, 0)
}

/// The byte offset where first-fit allocation of `size` bytes places the new
/// range.
pub open spec fn alloc_start(s: Seq<EntryView>, size: int) -> int {
    if first_fit_pos(s, size) == 0 {
        0
    } else {
        s[first_fit_pos(s, size) - 1].end
    }
}

/// First-fit allocation: the directory after inserting a fresh entry for `k`
/// of `size` bytes, together with that entry.
pub open spec fn spec_alloc(s: Seq<EntryView>, size: int, k: Seq<char>) -> (Seq<EntryView>, EntryView) {
    let st = alloc_start(s, size);
    let e = EntryView { key: k, start: st, end: st + size };
    (s.insert(first_fit_pos(s, size), e), e)
}

/// Update-or-allocate: an existing entry is narrowed in place when the new
/// size fits its range, and otherwise removed and reallocated first-fit; an
/// absent key is allocated first-fit.
pub open spec fn spec_insert(s: Seq<EntryView>, size: int, k: Seq<char>) -> (Seq<EntryView>, EntryView) {
    if has_key(s, k) {
        let i = key_at(s, k);
        if size <= s[i].size() {
            let e = EntryView { key: k, start: s[i].start, end: s[i].start + size };
            (s.update(i, e), e)
        } else {
            spec_alloc(s.remove(i), size, k)
        }
    } else {
        spec_alloc(s, size, k)
    }
}

/// The total size of the first `i` entries.
pub open spec fn size_sum(s: Seq<EntryView>, i: int) -> int
    decreases i,
{
    if i <= 0 {
        0
    } else {
        size_sum(s, i - 1) + s[i - 1].size()
    }
}

/// The compacted directory: every entry keeps its key and size, and the
/// ranges are slid toward offset zero until no gap is left.
pub open spec fn spec_compact(s: Seq<EntryView>) -> Seq<EntryView> {
    Seq::new(
        s.len(),
        |i: int| EntryView { key: s[i].key, start: size_sum(s, i), end: size_sum(s, i + 1) },
    )
}

/// No gap anywhere: the first entry starts at offset zero and every entry
/// begins exactly where its predecessor ends.
pub open spec fn gap_free(s: Seq<EntryView>) -> bool {
    &&& (s.len() > 0 ==> s[0].start == 0)
    &&& forall|i: int, j: int|
        #![trigger s[i], s[j]]
        0 <= i < s.len() && j == i + 1 && j < s.len() ==> s[i].end == s[j].start
}

/// A key paired with the half-open byte range in the data buffer that holds
/// the key's current value.  Immutable: updates replace the entry wholesale.
#[derive(Debug)]
pub struct IndexEntry {
    key: String,
    start: usize,
    end: usize,
}

impl View for IndexEntry {
    type V = EntryView;

    closed spec fn view(&self) -> EntryView {
        EntryView { key: self.key@, start: self.start as int, end: self.end as int }
    }
}

impl IndexEntry {
    /// Builds an entry for `key` over `[start, end)`.
    pub fn new(key: String, start: usize, end: usize) -> (r: IndexEntry)
        ensures
            r@ == (EntryView { key: key@, start: start as int, end: end as int }),
    {
        IndexEntry { key, start, end }
    }

    /// The entry's key.
    pub fn key(&self) -> (r: &String)
        ensures
            r@ == self@.key,
    {
        &self.key
    }

    /// The first byte offset of the entry's range.
    pub fn start(&self) -> (r: usize)
        ensures
            r as int == self@.start,
    {
        self.start
    }

    /// One past the last byte offset of the entry's range.
    pub fn end(&self) -> (r: usize)
        ensures
            r as int == self@.end,
    {
        self.end
    }

    /// Number of bytes the entry claims.
    pub fn size(&self) -> (r: usize)
        requires
            self@.start <= self@.end,
        ensures
            r as int == self@.size(),
    {
        self.end - self.start
    }

    /// An independent copy of the entry.
    pub fn duplicate(&self) -> (r: IndexEntry)
        ensures
            r@ == self@,
    {
        IndexEntry { key: self.key.clone(), start: self.start, end: self.end }
    }
}

/// The directory: a sequence of entries, ascending by range start, with
/// disjoint ranges and unique keys.
#[derive(Debug)]
pub struct Index {
    entries: Vec<IndexEntry>,
}

impl View for Index {
    type V = Seq<EntryView>;

    closed spec fn view(&self) -> Seq<EntryView> {
        views_of(self.entries@)
    }
}

impl Index {
    /// Directory well-formedness.
    pub open spec fn wf(&self) -> bool {
        entries_wf(self@)
    }

    /// An empty directory.
    pub fn new() -> (r: Index)
        ensures
            r.wf(),
            r@ == Seq::<EntryView>::empty(),
    {
        let r = Index { entries: Vec::new() };
        proof {
            assert(r@ =~= Seq::<EntryView>::empty());
        }
        r
    }

    /// True iff the directory has no entries.
    pub fn is_empty(&self) -> (r: bool)
        ensures
            r == (self@.len() == 0),
    {
        self.entries.is_empty()
    }

    /// The number of entries.
    pub fn len(&self) -> (r: usize)
        ensures
            r == self@.len(),
    {
        self.entries.len()
    }

    /// A borrow of the entry at position `i`.
    pub fn entry_at(&self, i: usize) -> (r: &IndexEntry)
        requires
            i < self@.len(),
        ensures
            r@ == self@[i as int],
    {
        &self.entries[i]
    }

    /// Linear scan for the entry carrying `key`; returns a copy.
    pub fn get_entry(&self, key: &str) -> (r: Option<IndexEntry>)
        requires
            self.wf(),
        ensures
            r is Some <==> has_key(self@, key@),
            r is Some ==> r->Some_0@ == entry_for(self@, key@),
    {
        let key_owned = key.to_owned();
        let n = self.entries.len();
        let mut i: usize = 0;
        while i < n
            invariant
                self.wf(),
                n == self.entries.len(),
                0 <= i <= n,
                key_owned@ == key@,
                forall|j: int| 0 <= j < i ==> self@[j].key != key@,
            decreases n - i,
        {
            if self.entries[i].key == key_owned {
                proof {
                    lemma_key_at(self@, key@, i as int);
                }
                return Some(self.entries[i].duplicate());
            }
            i += 1;
        }
        proof {
            assert(forall|j: int| 0 <= j < self@.len() ==> self@[j].key != key@);
        }
        None
    }

    /// The position at which first-fit allocation of `entry_size` bytes
    /// inserts: the first gap large enough, or the end of the sequence.
    fn find_fit(&self, entry_size: usize) -> (p: usize)
        requires
            self.wf(),
        ensures
            p as int == first_fit_pos(self@, entry_size as int),
            0 <= p <= self@.len(),
    {
        proof {
            lemma_first_fit_minimal(self@, entry_size as int);
        }
        let n = self.entries.len();
        if n == 0 {
            return 0;
        }
        if entry_size <= self.entries[0].start {
            proof {
                lemma_first_fit_char(self@, entry_size as int, 0);
            }
            return 0;
        }
        let mut i: usize = 0;
        while i + 1 < n
            invariant
                self.wf(),
                n == self.entries.len(),
                n > 0,
                0 <= i < n,
                !gap_fits(self@, 0, entry_size as int),
                forall|q: int| 1 <= q <= i ==> !gap_fits(self@, q, entry_size as int),
            decreases n - i,
        {
            proof {
                assert(self@[i as int].end <= self@[i as int + 1].start);
            }
            if self.entries[i + 1].start - self.entries[i].end >= entry_size {
                proof {
                    assert(gap_fits(self@, i as int + 1, entry_size as int));
                    lemma_first_fit_char(self@, entry_size as int, i as int + 1);
                }
                return i + 1;
            }
            proof {
                assert(!gap_fits(self@, i as int + 1, entry_size as int));
            }
            i += 1;
        }
        proof {
            lemma_first_fit_char(self@, entry_size as int, n as int);
        }
        n
    }

    /// First-fit allocation of a fresh entry for `key` spanning `entry_size`
    /// bytes: the first gap large enough wins, and the entry is appended past
    /// the last range when no gap fits.
    pub fn alloc_entry(&mut self, entry_size: usize, key: &str) -> (r: IndexEntry)
        requires
            old(self).wf(),
            valid_key(key@),
            !has_key(old(self)@, key@),
            seq_end(old(self)@) + entry_size <= usize::MAX,
        ensures
            final(self).wf(),
            r@ == spec_alloc(old(self)@, entry_size as int, key@).1,
            final(self)@ == spec_alloc(old(self)@, entry_size as int, key@).0,
    {
        let ghost s = old(self)@;
        proof {
            lemma_alloc_props(s, entry_size as int, key@);
            lemma_first_fit_minimal(s, entry_size as int);
        }
        let p = self.find_fit(entry_size);
        let start: usize = if p == 0 {
            0
        } else {
            self.entries[p - 1].end
        };
        proof {
            assert(start as int == alloc_start(s, entry_size as int));
            assert(start + entry_size <= usize::MAX) by {
                let pp = first_fit_pos(s, entry_size as int);
                if pp < s.len() {
                    assert(gap_fits(s, pp, entry_size as int));
                    assert(start + entry_size <= s[pp].start);
                    assert(s[pp].start <= s[pp].end);
                    assert(s[pp].end == self.entries@[pp].end as int);
                } else {
                    assert(start as int == seq_end(s));
                }
            }
        }
        let e = IndexEntry::new(key.to_owned(), start, start + entry_size);
        let r = e.duplicate();
        let ghost ev = e@;
        self.entries.insert(p, e);
        proof {
            assert(self@ =~= s.insert(p as int, ev));
            assert(ev == spec_alloc(s, entry_size as int, key@).1);
        }
        r
    }

    /// Update-or-allocate for `key` with a value of `entry_size` bytes: an
    /// existing entry at least that large is narrowed in place, a smaller one
    /// is removed and reallocated first-fit, and an absent key is allocated
    /// first-fit.  A key holding a reserved separator is rejected.
    pub fn insert_entry(&mut self, entry_size: usize, key: &str) -> (r: Result<IndexEntry, DbError>)
        requires
            old(self).wf(),
            seq_end(old(self)@) + entry_size <= usize::MAX,
        ensures
            final(self).wf(),
            r is Ok <==> valid_key(key@),
            r is Err ==> r->Err_0 == DbError::InvalidKey && final(self)@ == old(self)@,
            r is Ok ==> r->Ok_0@ == spec_insert(old(self)@, entry_size as int, key@).1
                && final(self)@ == spec_insert(old(self)@, entry_size as int, key@).0,
    {
        if !check_key(key) {
            return Err(DbError::InvalidKey);
        }
        let ghost s = old(self)@;
        let n = self.entries.len();
        let key_owned = key.to_owned();
        let mut i: usize = 0;
        while i < n
            invariant
                old(self).wf(),
                self == old(self),
                s == self@,
                n == self.entries.len(),
                0 <= i <= n,
                seq_end(s) + entry_size <= usize::MAX,
                valid_key(key@),
                key_owned@ == key@,
                forall|j: int| 0 <= j < i ==> (#[trigger] s[j]).key != key@,
            decreases n - i,
        {
            if self.entries[i].key == key_owned {
                proof {
                    lemma_key_at(s, key@, i as int);
                }
                let old_size = self.entries[i].end - self.entries[i].start;
                if old_size < entry_size {
                    self.entries.remove(i);
                    proof {
                        assert(self@ =~= s.remove(i as int));
                        lemma_remove_props(s, i as int);
                        assert(seq_end(self@) + entry_size <= usize::MAX);
                    }
                    let e = self.alloc_entry(entry_size, key);
                    return Ok(e);
                } else {
                    let st = self.entries[i].start;
                    let e = IndexEntry::new(key.to_owned(), st, st + entry_size);
                    let r = e.duplicate();
                    let ghost ev = e@;
                    self.entries[i] = e;
                    proof {
                        assert(self@ =~= s.update(i as int, ev));
                        lemma_update_props(s, i as int, entry_size as int);
                    }
                    return Ok(r);
                }
            }
            i += 1;
        }
        proof {
            assert(!has_key(s, key@));
        }
        let e = self.alloc_entry(entry_size, key);
        Ok(e)
    }

    /// Linear scan for `key`; if found, deletes its entry (the vacated range
    /// becomes an implicit gap) and returns it.
    pub fn remove_entry(&mut self, key: &str) -> (r: Option<IndexEntry>)
        requires
            old(self).wf(),
        ensures
            final(self).wf(),
            r is Some <==> has_key(old(self)@, key@),
            r is Some ==> r->Some_0@ == entry_for(old(self)@, key@)
                && final(self)@ == old(self)@.remove(key_at(old(self)@, key@)),
            r is None ==> final(self)@ == old(self)@,
    {
        let ghost s = old(self)@;
        let n = self.entries.len();
        let key_owned = key.to_owned();
        let mut i: usize = 0;
        while i < n
            invariant
                old(self).wf(),
                self == old(self),
                s == self@,
                n == self.entries.len(),
                0 <= i <= n,
                key_owned@ == key@,
                forall|j: int| 0 <= j < i ==> (#[trigger] s[j]).key != key@,
            decreases n - i,
        {
            if self.entries[i].key == key_owned {
                proof {
                    lemma_key_at(s, key@, i as int);
                }
                let removed = self.entries.remove(i);
                proof {
                    assert(self@ =~= s.remove(i as int));
                    lemma_remove_props(s, i as int);
                }
                return Some(removed);
            }
            i += 1;
        }
        None
    }

    /// Empties the directory.
    pub fn clear_all(&mut self)
        ensures
            final(self).wf(),
            final(self)@ == Seq::<EntryView>::empty(),
    {
        self.entries.clear();
        proof {
            assert(self@ =~= Seq::<EntryView>::empty());
        }
    }

    /// A copy of the whole entry sequence.
    pub fn get_all_entries(&self) -> (r: Vec<IndexEntry>)
        ensures
            views_of(r@) == self@,
    {
        let n = self.entries.len();
        let mut r: Vec<IndexEntry> = Vec::new();
        let mut i: usize = 0;
        while i < n
            invariant
                n == self.entries.len(),
                0 <= i <= n,
                r@.len() == i,
                forall|j: int| 0 <= j < i ==> (#[trigger] r@[j])@ == self@[j],
            decreases n - i,
        {
            r.push(self.entries[i].duplicate());
            i += 1;
        }
        proof {
            assert(views_of(r@) =~= self@);
        }
        r
    }

    /// Installs a whole entry sequence, replacing the current one.
    pub fn set_all_entries(&mut self, entries: Vec<IndexEntry>)
        requires
            entries_wf(views_of(entries@)),
        ensures
            final(self).wf(),
            final(self)@ == views_of(entries@),
    {
        self.entries = entries;
    }

    /// Compaction: slides every entry toward offset zero, in order,
    /// preserving keys and sizes and eliminating every gap; returns the
    /// sequence as it was before, so a caller knows where bytes now live.
    pub fn shrink_entries(&mut self) -> (r: Vec<IndexEntry>)
        requires
            old(self).wf(),
        ensures
            final(self).wf(),
            views_of(r@) == old(self)@,
            final(self)@ == spec_compact(old(self)@),
    {
        let ghost s = old(self)@;
        proof {
            lemma_compact_props(s);
        }
        let r = self.get_all_entries();
        let n = self.entries.len();
        let mut acc: usize = 0;
        let mut i: usize = 0;
        while i < n
            invariant
                entries_wf(s),
                n == self.entries.len(),
                s.len() == n,
                0 <= i <= n,
                acc as int == size_sum(s, i as int),
                forall|j: int| 0 <= j < i ==> self@[j] == spec_compact(s)[j],
                forall|j: int| i <= j < n ==> self@[j] == s[j],
            decreases n - i,
        {
            proof {
                lemma_size_sum_le_start(s, i as int);
                lemma_size_sum_le_start(s, i as int + 1);
                assert(self@[i as int] == s[i as int]);
                assert(s[i as int].end <= usize::MAX);
            }
            let sz = self.entries[i].end - self.entries[i].start;
            let e = IndexEntry::new(self.entries[i].key.clone(), acc, acc + sz);
            let ghost ev = e@;
            self.entries[i] = e;
            proof {
                assert(ev == spec_compact(s)[i as int]);
            }
            acc = acc + sz;
            i += 1;
        }
        proof {
            assert(self@ =~= spec_compact(s));
        }
        r
    }

    /// Builds a directory from parsed entries, rejecting a sequence that is
    /// not uniquely keyed, ascending and disjoint under valid keys.
    pub fn from_entries(entries: Vec<IndexEntry>) -> (r: Result<Index, DbError>)
        ensures
            r is Ok <==> entries_wf(views_of(entries@)),
            r is Ok ==> r->Ok_0.wf() && r->Ok_0@ == views_of(entries@),
            r is Err ==> r->Err_0 == DbError::InvalidLayout,
    {
        if check_entries(&entries) {
            Ok(Index { entries })
        } else {
            Err(DbError::InvalidLayout)
        }
    }
}

/// Prefix sums of sizes are non-negative and stay below the entries they
/// precede.
pub proof fn lemma_size_sum_le_start(s: Seq<EntryView>, i: int)
    requires
        entries_wf(s),
        0 <= i <= s.len(),
    ensures
        0 <= size_sum(s, i),
        i < s.len() ==> size_sum(s, i) <= s[i].start,
        i > 0 ==> size_sum(s, i) <= s[i - 1].end,
    decreases i,
{
    if i > 0 {
        lemma_size_sum_le_start(s, i - 1);
    }
}

/// Prefix sums of sizes grow with the prefix.
pub proof fn lemma_size_sum_mono(s: Seq<EntryView>, i: int, j: int)
    requires
        entries_wf(s),
        0 <= i <= j <= s.len(),
    ensures
        size_sum(s, i) <= size_sum(s, j),
    decreases j - i,
{
    if i < j {
        lemma_size_sum_mono(s, i, j - 1);
        assert(s[j - 1].start <= s[j - 1].end);
    }
}

/// Two directories with pointwise-equal entry sizes have equal prefix sums.
proof fn lemma_size_sum_congruence(a: Seq<EntryView>, b: Seq<EntryView>, i: int)
    requires
        0 <= i <= a.len(),
        i <= b.len(),
        forall|j: int| 0 <= j < i ==> (#[trigger] a[j]).size() == b[j].size(),
    ensures
        size_sum(a, i) == size_sum(b, i),
    decreases i,
{
    if i > 0 {
        lemma_size_sum_congruence(a, b, i - 1);
    }
}

/// Compaction preserves keys, sizes and order, moves no entry toward higher
/// offsets, and leaves a well-formed, gap-free directory whose end is the sum
/// of all sizes.
pub proof fn lemma_compact_props(s: Seq<EntryView>)
    requires
        entries_wf(s),
    ensures
        ({
            let c = spec_compact(s);
            &&& entries_wf(c)
            &&& c.len() == s.len()
            &&& forall|i: int|
                0 <= i < s.len() ==> (#[trigger] c[i]).key == s[i].key && c[i].size() == s[i].size()
                    && c[i].start <= s[i].start && c[i].end <= s[i].end
            &&& gap_free(c)
            &&& seq_end(c) == size_sum(s, s.len() as int)
            &&& forall|k: Seq<char>| has_key(c, k) <==> has_key(s, k)
            &&& forall|k: Seq<char>| has_key(s, k) ==> key_at(c, k) == key_at(s, k)
        }),
{
    let c = spec_compact(s);
    assert forall|i: int| 0 <= i < s.len() implies (#[trigger] c[i]).key == s[i].key
        && c[i].size() == s[i].size() && c[i].start <= s[i].start && c[i].end <= s[i].end by {
        lemma_size_sum_le_start(s, i);
        lemma_size_sum_le_start(s, i + 1);
    }
    assert forall|i: int| 0 <= i < c.len() implies 0 <= (#[trigger] c[i]).start <= c[i].end
        && valid_key(c[i].key) by {
        lemma_size_sum_le_start(s, i);
        assert(s[i].start <= s[i].end);
    }
    assert forall|x: int, y: int| 0 <= x < y < c.len() implies (#[trigger] c[x]).end
        <= (#[trigger] c[y]).start by {
        lemma_size_sum_mono(s, x + 1, y);
    }
    assert forall|i: int, j: int|
        #![trigger c[i], c[j]]
        0 <= i < c.len() && j == i + 1 && j < c.len() implies c[i].end == c[j].start by {}
    assert forall|k: Seq<char>| has_key(c, k) implies has_key(s, k) by {
        let j = key_at(c, k);
        assert(0 <= j < c.len() && c[j].key == k);
        assert(s[j].key == k);
    }
    assert forall|k: Seq<char>| has_key(s, k) implies has_key(c, k) && key_at(c, k) == key_at(s, k) by {
        let j = key_at(s, k);
        lemma_key_at(s, k, j);
        assert(c[j].key == k);
        lemma_key_at(c, k, j);
    }
    if s.len() > 0 {
        assert(seq_end(c) == size_sum(s, s.len() as int));
    }
}

/// Compacting an already compacted directory changes nothing.
pub proof fn lemma_compact_idempotent(s: Seq<EntryView>)
    requires
        entries_wf(s),
    ensures
        spec_compact(spec_compact(s)) == spec_compact(s),
        size_sum(spec_compact(s), spec_compact(s).len() as int) == size_sum(s, s.len() as int),
{
    let c = spec_compact(s);
    lemma_compact_props(s);
    assert forall|i: int| 0 <= i <= s.len() implies size_sum(c, i) == size_sum(s, i) by {
        lemma_size_sum_congruence(c, s, i);
    }
    assert(spec_compact(c) =~= c);
}

/// Everything update-or-allocate guarantees about the directory it returns.
pub open spec fn insert_props(s: Seq<EntryView>, size: int, k: Seq<char>) -> bool {
    let (s2, e) = spec_insert(s, size, k);
    &&& entries_wf(s2)
    &&& e.key == k && 0 <= e.start && e.end == e.start + size
    &&& has_key(s2, k) && entry_for(s2, k) == e
    &&& forall|k2: Seq<char>| k2 != k ==> (has_key(s2, k2) <==> has_key(s, k2))
    &&& forall|k2: Seq<char>|
        k2 != k && has_key(s, k2) ==> entry_for(s2, k2) == entry_for(s, k2)
    &&& seq_end(s2) <= seq_end(s) || seq_end(s2) <= e.end
    &&& e.end <= seq_end(s) + size
}

#[verifier::rlimit(100)]
#[verifier::spinoff_prover]
proof fn lemma_insert_props_update(s: Seq<EntryView>, size: int, k: Seq<char>)
    requires
        entries_wf(s),
        valid_key(k),
        0 <= size,
        has_key(s, k),
        size <= s[key_at(s, k)].size(),
    ensures
        insert_props(s, size, k),
{
    let i = key_at(s, k);
    assert(0 <= i < s.len() && s[i].key == k);
    lemma_update_props(s, i, size);
    let e = EntryView { key: k, start: s[i].start, end: s[i].start + size };
    let s2 = s.update(i, e);
    lemma_end_bound(s, i);
    assert(spec_insert(s, size, k) == (s2, e));
    assert(e.end <= seq_end(s) + size);
}

#[verifier::rlimit(100)]
#[verifier::spinoff_prover]
proof fn lemma_insert_props_grow(s: Seq<EntryView>, size: int, k: Seq<char>)
    requires
        entries_wf(s),
        valid_key(k),
        0 <= size,
        has_key(s, k),
        size > s[key_at(s, k)].size(),
    ensures
        insert_props(s, size, k),
{
    let i = key_at(s, k);
    assert(0 <= i < s.len() && s[i].key == k);
    lemma_remove_props(s, i);
    let s1 = s.remove(i);
    lemma_alloc_props(s1, size, k);
    let (s2, e) = spec_alloc(s1, size, k);
    assert(spec_insert(s, size, k) == (s2, e));
    assert forall|k2: Seq<char>| k2 != k implies (has_key(s2, k2) <==> has_key(s, k2)) by {
        assert(has_key(s2, k2) <==> has_key(s1, k2));
    }
    assert forall|k2: Seq<char>| k2 != k && has_key(s, k2) implies entry_for(s2, k2)
        == entry_for(s, k2) by {
        assert(has_key(s1, k2) && entry_for(s1, k2) == entry_for(s, k2));
    }
    assert(seq_end(s1) <= seq_end(s));
    assert(seq_end(s2) <= seq_end(s) || seq_end(s2) <= e.end);
    assert(e.end <= seq_end(s) + size);
}

/// What update-or-allocate does to a well-formed directory, whichever branch
/// it takes.
pub proof fn lemma_insert_props(s: Seq<EntryView>, size: int, k: Seq<char>)
    requires
        entries_wf(s),
        valid_key(k),
        0 <= size,
    ensures
        insert_props(s, size, k),
{
    if has_key(s, k) {
        if size <= s[key_at(s, k)].size() {
            lemma_insert_props_update(s, size, k);
        } else {
            lemma_insert_props_grow(s, size, k);
        }
    } else {
        lemma_alloc_props(s, size, k);
        assert(spec_insert(s, size, k) == spec_alloc(s, size, k));
    }
}

/// Overwriting a key with a size no larger than its current range narrows
/// the entry in place: the start offset is reused.
pub proof fn lemma_overwrite_reuses_start(s: Seq<EntryView>, size: int, k: Seq<char>)
    requires
        entries_wf(s),
        has_key(s, k),
        0 <= size <= entry_for(s, k).size(),
    ensures
        spec_insert(s, size, k).1.start == entry_for(s, k).start,
        spec_insert(s, size, k).0 == s.update(
            key_at(s, k),
            EntryView { key: k, start: entry_for(s, k).start, end: entry_for(s, k).start + size },
        ),
{
}

/// True iff the key holds none of the reserved separators `=`, `_`, newline.
pub fn check_key(key: &str) -> (r: bool)
    ensures
        r == valid_key(key@),
{
    let n = key.unicode_len();
    let mut i: usize = 0;
    while i < n
        invariant
            0 <= i <= n,
            n as nat == key@.len(),
            forall|j: int| 0 <= j < i ==> #[trigger] key@[j] != '=' && key@[j] != '_' && key@[j] != '\n',
        decreases n - i,
    {
        let c = key.get_char(i);
        if c == '=' || c == '_' || c == '\n' {
            return false;
        }
        i += 1;
    }
    true
}

/// True iff the entries form a well-formed directory: valid ranges under
/// valid keys, ascending disjoint ranges, unique keys.
pub fn check_entries(entries: &Vec<IndexEntry>) -> (r: bool)
    ensures
        r == entries_wf(views_of(entries@)),
{
    let ghost s = views_of(entries@);
    let n = entries.len();
    let mut i: usize = 0;
    while i < n
        invariant
            s == views_of(entries@),
            n == entries.len(),
            0 <= i <= n,
            forall|j: int|
                0 <= j < i ==> 0 <= (#[trigger] s[j]).start <= s[j].end && valid_key(s[j].key),
        decreases n - i,
    {
        if entries[i].end < entries[i].start {
            proof {
                assert(!(0 <= s[i as int].start <= s[i as int].end));
            }
            return false;
        }
        if !check_key(entries[i].key.as_str()) {
            proof {
                assert(!valid_key(s[i as int].key));
            }
            return false;
        }
        i += 1;
    }
    let mut a: usize = 0;
    while a < n
        invariant
            s == views_of(entries@),
            n == entries.len(),
            0 <= a <= n,
            forall|x: int, y: int|
                0 <= x < a && x < y < n ==> (#[trigger] s[x]).key != (#[trigger] s[y]).key,
            forall|x: int, y: int|
                0 <= x < a && x < y < n ==> (#[trigger] s[x]).end <= (#[trigger] s[y]).start,
        decreases n - a,
    {
        let mut b: usize = a + 1;
        while b < n
            invariant
                s == views_of(entries@),
                n == entries.len(),
                0 <= a < n,
                a < b <= n,
                forall|y: int| a < y < b ==> (#[trigger] s[y]).key != s[a as int].key,
                forall|y: int| a < y < b ==> s[a as int].end <= (#[trigger] s[y]).start,
            decreases n - b,
        {
            if entries[a].key == entries[b].key {
                proof {
                    assert(s[a as int].key == s[b as int].key);
                }
                return false;
            }
            if entries[b].start < entries[a].end {
                proof {
                    assert(!((#[trigger] s[a as int]).end <= s[b as int].start));
                }
                return false;
            }
            b += 1;
        }
        a += 1;
    }
    true
}

/// Ranges ascend across any two positions, not only adjacent ones.
pub proof fn lemma_sorted_chain(s: Seq<EntryView>, i: int, j: int)
    requires
        entries_wf(s),
        0 <= i < j < s.len(),
    ensures
        s[i].end <= s[j].start,
{
}

/// Every range lies at or below the directory's end offset.
pub proof fn lemma_end_bound(s: Seq<EntryView>, i: int)
    requires
        entries_wf(s),
        0 <= i < s.len(),
    ensures
        s[i].end <= seq_end(s),
{
    if i < s.len() - 1 {
        assert(s[i].end <= s[s.len() - 1].start);
        assert(s[s.len() - 1].start <= s[s.len() - 1].end);
    }
}

/// Two distinct entries of a well-formed directory claim disjoint ranges.
pub proof fn lemma_wf_disjoint(s: Seq<EntryView>, i: int, j: int)
    requires
        entries_wf(s),
        0 <= i < s.len(),
        0 <= j < s.len(),
        i != j,
    ensures
        s[i].end <= s[j].start || s[j].end <= s[i].start,
{
}

proof fn lemma_first_fit_from_props(s: Seq<EntryView>, size: int, a: int)
    requires
        0 <= a <= s.len(),
    ensures
        a <= first_fit_from(s, size, a) <= s.len(),
        gap_fits(s, first_fit_from(s, size, a), size),
        forall|q: int| a <= q < first_fit_from(s, size, a) ==> !gap_fits(s, q, size),
    decreases s.len() - a,
{
    if a < s.len() && !gap_fits(s, a, size) {
        lemma_first_fit_from_props(s, size, a + 1);
    }
}

/// First-fit, made explicit: the chosen position's gap fits the requested
/// size, and the gap at every earlier position does not.
pub proof fn lemma_first_fit_minimal(s: Seq<EntryView>, size: int)
    ensures
        0 <= first_fit_pos(s, size) <= s.len(),
        gap_fits(s, first_fit_pos(s, size), size),
        forall|q: int| 0 <= q < first_fit_pos(s, size) ==> !gap_fits(s, q, size),
{
    lemma_first_fit_from_props(s, size, 0);
}

proof fn lemma_first_fit_from_char(s: Seq<EntryView>, size: int, a: int, p: int)
    requires
        0 <= a <= p <= s.len(),
        gap_fits(s, p, size),
        forall|q: int| a <= q < p ==> !gap_fits(s, q, size),
    ensures
        first_fit_from(s, size, a) == p,
    decreases p - a,
{
    if a < p {
        lemma_first_fit_from_char(s, size, a + 1, p);
    }
}

/// A position whose gap fits, below which no gap fits, is the first-fit
/// position.
pub proof fn lemma_first_fit_char(s: Seq<EntryView>, size: int, p: int)
    requires
        0 <= p <= s.len(),
        gap_fits(s, p, size),
        forall|q: int| 0 <= q < p ==> !gap_fits(s, q, size),
    ensures
        first_fit_pos(s, size) == p,
{
    lemma_first_fit_from_char(s, size, 0, p);
}





/// What removing position `i` does to a well-formed directory.
#[verifier::rlimit(100)]
#[verifier::spinoff_prover]
pub proof fn lemma_remove_props(s: Seq<EntryView>, i: int)
    requires
        entries_wf(s),
        0 <= i < s.len(),
    ensures
        entries_wf(s.remove(i)),
        seq_end(s.remove(i)) <= seq_end(s),
        !has_key(s.remove(i), s[i].key),
        forall|k2: Seq<char>| k2 != s[i].key ==> (has_key(s.remove(i), k2) <==> has_key(s, k2)),
        forall|k2: Seq<char>|
            k2 != s[i].key && has_key(s, k2) ==> entry_for(s.remove(i), k2) == entry_for(s, k2),
{
    let s2 = s.remove(i);
    assert forall|x: int, y: int| 0 <= x < y < s2.len() implies (#[trigger] s2[x]).end
        <= (#[trigger] s2[y]).start by {
        let x0: int = if x < i { x } else { x + 1 };
        let y0: int = if y < i { y } else { y + 1 };
        assert(s2[x] == s[x0] && s2[y] == s[y0]);
        assert(s[x0].end <= s[y0].start);
    }
    if i == s.len() - 1 && s2.len() > 0 {
        assert(s2[s2.len() - 1] == s[s2.len() - 1]);
        assert(s[s2.len() - 1].end <= s[i].start <= s[i].end);
    }
    assert forall|k2: Seq<char>| k2 != s[i].key && has_key(s, k2) implies has_key(s2, k2)
        && entry_for(s2, k2) == entry_for(s, k2) by {
        let j = key_at(s, k2);
        lemma_key_at(s, k2, j);
        if j < i {
            assert(s2[j] == s[j]);
            lemma_key_at(s2, k2, j);
        } else {
            assert(s2[j - 1] == s[j]);
            lemma_key_at(s2, k2, j - 1);
        }
    }
    assert forall|k2: Seq<char>| has_key(s2, k2) implies k2 == s[i].key || has_key(s, k2) by {
        let j = key_at(s2, k2);
        assert(0 <= j < s2.len() && s2[j].key == k2);
        if j < i {
            assert(s[j].key == k2);
        } else {
            assert(s[j + 1].key == k2);
        }
    }
    assert(!has_key(s2, s[i].key)) by {
        if has_key(s2, s[i].key) {
            let j = key_at(s2, s[i].key);
            assert(0 <= j < s2.len() && s2[j].key == s[i].key);
            if j < i {
                assert(s[j].key == s[i].key);
            } else {
                assert(s[j + 1].key == s[i].key);
            }
        }
    }
}

/// What narrowing the entry at position `i` to `size` bytes does to a
/// well-formed directory.
pub proof fn lemma_update_props(s: Seq<EntryView>, i: int, size: int)
    requires
        entries_wf(s),
        0 <= i < s.len(),
        0 <= size <= s[i].size(),
    ensures
        ({
            let e = EntryView { key: s[i].key, start: s[i].start, end: s[i].start + size };
            let s2 = s.update(i, e);
            &&& entries_wf(s2)
            &&& seq_end(s2) <= seq_end(s)
            &&& has_key(s2, s[i].key) && entry_for(s2, s[i].key) == e
            &&& forall|k2: Seq<char>| has_key(s2, k2) <==> has_key(s, k2)
            &&& forall|k2: Seq<char>|
                k2 != s[i].key && has_key(s, k2) ==> entry_for(s2, k2) == entry_for(s, k2)
        }),
{
    let e = EntryView { key: s[i].key, start: s[i].start, end: s[i].start + size };
    let s2 = s.update(i, e);
    assert forall|x: int, y: int| 0 <= x < y < s2.len() implies (#[trigger] s2[x]).end
        <= (#[trigger] s2[y]).start by {
        assert(s[x].end <= s[y].start);
        if x == i {
            assert(s2[x].end <= s[x].end);
        }
        if y == i {
            assert(s2[y].start == s[y].start);
        }
    }
    lemma_key_at(s2, s[i].key, i);
    assert forall|k2: Seq<char>| has_key(s2, k2) implies has_key(s, k2) by {
        let j = key_at(s2, k2);
        assert(0 <= j < s2.len() && s2[j].key == k2);
        assert(s[j].key == k2);
    }
    assert forall|k2: Seq<char>| has_key(s, k2) implies has_key(s2, k2) by {
        let j = key_at(s, k2);
        lemma_key_at(s, k2, j);
        assert(s2[j].key == k2);
    }
    assert forall|k2: Seq<char>| k2 != s[i].key && has_key(s, k2) implies entry_for(s2, k2)
        == entry_for(s, k2) by {
        let j = key_at(s, k2);
        lemma_key_at(s, k2, j);
        assert(s2[j] == s[j]);
        lemma_key_at(s2, k2, j);
    }
}

#[verifier::rlimit(100)]
#[verifier::spinoff_prover]
proof fn lemma_insert_entry_wf(s: Seq<EntryView>, p: int, e: EntryView)
    requires
        entries_wf(s),
        0 <= p <= s.len(),
        valid_key(e.key),
        !has_key(s, e.key),
        0 <= e.start <= e.end,
        p > 0 ==> s[p - 1].end <= e.start,
        p < s.len() ==> e.end <= s[p].start,
    ensures
        entries_wf(s.insert(p, e)),
{
    let s2 = s.insert(p, e);
    assert forall|x: int| 0 <= x < s2.len() implies 0 <= (#[trigger] s2[x]).start <= s2[x].end
        && valid_key(s2[x].key) by {
        if x < p {
            assert(s2[x] == s[x]);
        } else if x == p {
        } else {
            assert(s2[x] == s[x - 1]);
        }
    }
    assert forall|x: int, y: int| 0 <= x < y < s2.len() implies (#[trigger] s2[x]).end
        <= (#[trigger] s2[y]).start by {
        if x == p {
            assert(s2[x] == e && s2[y] == s[y - 1]);
            if p < y - 1 {
                assert(e.end <= s[p].start <= s[p].end <= s[y - 1].start);
            }
        } else if y == p {
            assert(s2[x] == s[x] && s2[y] == e);
            if x < p - 1 {
                assert(s[x].end <= s[p - 1].start <= s[p - 1].end <= e.start);
            }
        } else {
            let x0: int = if x < p { x } else { x - 1 };
            let y0: int = if y < p { y } else { y - 1 };
            assert(s2[x] == s[x0] && s2[y] == s[y0]);
            assert(x0 < y0);
            assert(s[x0].end <= s[y0].start);
        }
    }
    assert forall|x: int, y: int| 0 <= x < y < s2.len() implies (#[trigger] s2[x]).key
        != (#[trigger] s2[y]).key by {
        if x == p {
            assert(s2[y] == s[y - 1]);
            lemma_key_at_exists(s, y - 1);
        } else if y == p {
            assert(s2[x] == s[x]);
            lemma_key_at_exists(s, x);
        } else {
            let x0: int = if x < p { x } else { x - 1 };
            let y0: int = if y < p { y } else { y - 1 };
            assert(s2[x] == s[x0] && s2[y] == s[y0]);
            assert(x0 < y0);
        }
    }
}

proof fn lemma_key_at_exists(s: Seq<EntryView>, i: int)
    requires
        0 <= i < s.len(),
    ensures
        has_key(s, s[i].key),
{
}

#[verifier::rlimit(100)]
#[verifier::spinoff_prover]
proof fn lemma_insert_entry_frame(s: Seq<EntryView>, p: int, e: EntryView)
    requires
        entries_wf(s),
        0 <= p <= s.len(),
        valid_key(e.key),
        !has_key(s, e.key),
        0 <= e.start <= e.end,
        p > 0 ==> s[p - 1].end <= e.start,
        p < s.len() ==> e.end <= s[p].start,
    ensures
        ({
            let s2 = s.insert(p, e);
            &&& has_key(s2, e.key) && entry_for(s2, e.key) == e
            &&& forall|k2: Seq<char>| k2 != e.key ==> (has_key(s2, k2) <==> has_key(s, k2))
            &&& forall|k2: Seq<char>|
                k2 != e.key && has_key(s, k2) ==> entry_for(s2, k2) == entry_for(s, k2)
            &&& seq_end(s2) == if p == s.len() { e.end } else { seq_end(s) }
        }),
{
    let s2 = s.insert(p, e);
    lemma_insert_entry_wf(s, p, e);
    assert(s2[p] == e);
    lemma_key_at(s2, e.key, p);
    assert forall|k2: Seq<char>| k2 != e.key && has_key(s, k2) implies has_key(s2, k2)
        && entry_for(s2, k2) == entry_for(s, k2) by {
        let j = key_at(s, k2);
        lemma_key_at(s, k2, j);
        if j < p {
            assert(s2[j] == s[j]);
            lemma_key_at(s2, k2, j);
        } else {
            assert(s2[j + 1] == s[j]);
            lemma_key_at(s2, k2, j + 1);
        }
    }
    assert forall|k2: Seq<char>| k2 != e.key && has_key(s2, k2) implies has_key(s, k2) by {
        let j = key_at(s2, k2);
        assert(0 <= j < s2.len() && s2[j].key == k2);
        if j < p {
            assert(s[j].key == k2);
        } else if j == p {
        } else {
            assert(s[j - 1].key == k2);
        }
    }
    assert(seq_end(s2) == if p == s.len() { e.end } else { seq_end(s) }) by {
        if p == s.len() {
            assert(s2[s2.len() - 1] == e);
        } else {
            assert(s2[s2.len() - 1] == s[s.len() - 1]);
        }
    }
}

/// What first-fit allocation of a fresh key does to a well-formed directory.
pub proof fn lemma_alloc_props(s: Seq<EntryView>, size: int, k: Seq<char>)
    requires
        entries_wf(s),
        valid_key(k),
        !has_key(s, k),
        0 <= size,
    ensures
        ({
            let (s2, e) = spec_alloc(s, size, k);
            &&& entries_wf(s2)
            &&& e.key == k && 0 <= e.start && e.end == e.start + size
            &&& has_key(s2, k) && entry_for(s2, k) == e
            &&& forall|k2: Seq<char>| k2 != k ==> (has_key(s2, k2) <==> has_key(s, k2))
            &&& forall|k2: Seq<char>|
                k2 != k && has_key(s, k2) ==> entry_for(s2, k2) == entry_for(s, k2)
            &&& seq_end(s2) == if first_fit_pos(s, size) == s.len() { e.end } else { seq_end(s) }
            &&& e.end <= seq_end(s) + size
        }),
{
    lemma_first_fit_minimal(s, size);
    let p = first_fit_pos(s, size);
    let (s2, e) = spec_alloc(s, size, k);
    assert(0 <= e.start) by {
        if p > 0 {
            assert(s[p - 1].end >= 0);
        }
    }
    assert(p > 0 ==> s[p - 1].end <= e.start);
    assert(p < s.len() ==> e.end <= s[p].start) by {
        if 0 < p < s.len() {
            assert(gap_fits(s, p, size));
        }
    }
    assert(e.end <= seq_end(s) + size) by {
        if p < s.len() {
            lemma_end_bound(s, p);
            assert(s[p].start <= s[p].end);
        }
    }
    lemma_insert_entry_wf(s, p, e);
    lemma_insert_entry_frame(s, p, e);
}

/// In a well-formed directory the position of a key's entry is exactly the
/// position where that key occurs.
pub proof fn lemma_key_at(s: Seq<EntryView>, k: Seq<char>, i: int)
    requires
        entries_wf(s),
        0 <= i < s.len(),
        s[i].key == k,
    ensures
        has_key(s, k),
        key_at(s, k) == i,
        entry_for(s, k) == s[i],
{
    assert(has_key(s, k));
    let j = key_at(s, k);
    assert(0 <= j < s.len() && s[j].key == k);
    if i < j {
        assert(s[i].key != s[j].key);
        assert(false);
    } else if j < i {
        assert(s[j].key != s[i].key);
        assert(false);
    }
}

} // verus!
