//! The partition table as plain values: the usable sector region of the
//! device and its entries, kept in order of their first sector.
use vstd::prelude::*;

verus! {

/// One partition: its 1-based index, the ASCII text of its type GUID, where it
/// starts and how many sectors it spans, and its label.
pub struct Entry {
    pub index: u32,
    pub type_guid: Vec<u8>,
    pub first_lba: u64,
    pub length: u64,
    pub label: String,
}

impl Entry {
    pub open spec fn start(&self) -> int {
        self.first_lba as int
    }

    /// One past the last sector of the entry.
    pub open spec fn end(&self) -> int {
        self.first_lba + self.length
    }

    pub open spec fn covers(&self, s: int) -> bool {
        self.start() <= s < self.end()
    }
}

/// Why an entry or a geometry was refused.
#[derive(Debug, PartialEq, Eq, Structural)]
pub enum TableError {
    /// The sector size is zero or the usable region ends before it starts.
    InvalidGeometry,
    /// The entry is empty or lies partly outside the usable region.
    OutOfBounds,
    /// The entry shares a sector with an entry already in the table.
    Overlap,
    /// The index is zero or already taken.
    BadIndex,
}

/// A device's partition table. The usable region is the half-open sector
/// range `usable_start .. usable_end`; what lies outside it holds the table
/// headers.
pub struct Table {
    pub sector_size: u64,
    pub usable_start: u64,
    pub usable_end: u64,
    pub entries: Vec<Entry>,
}

/// Entries in increasing order of position, no two sharing a sector.
pub open spec fn sorted_disjoint(e: Seq<Entry>) -> bool {
    forall|i: int, j: int| 0 <= i < j < e.len() ==> #[trigger] e[i].end() <= #[trigger] e[j].start()
}

pub open spec fn distinct_indices(e: Seq<Entry>) -> bool {
    forall|i: int, j: int| 0 <= i < e.len() && 0 <= j < e.len() && i != j ==> #[trigger] e[i].index != #[trigger] e[j].index
}

/// The largest index in use, or zero for no entries.
pub open spec fn max_index(e: Seq<Entry>) -> int
    decreases e.len(),
{
    if e.len() == 0 {
        0
    } else {
        let m = max_index(e.drop_last());
        if e.last().index > m {
            e.last().index as int
        } else {
            m
        }
    }
}

/// The sectors `first .. first + length` form a non-empty run inside
/// `lo .. hi` that none of `e` claims.
pub open spec fn run_free(e: Seq<Entry>, lo: int, hi: int, first: int, length: int) -> bool {
    &&& length > 0
    &&& lo <= first
    &&& first + length <= hi
    &&& forall|i: int| 0 <= i < e.len() ==> (#[trigger] e[i]).end() <= first || first + length <= e[i].start()
}

/// Some entry claims sector `s`.
pub open spec fn claimed(e: Seq<Entry>, s: int) -> bool {
    exists|i: int| 0 <= i < e.len() && (#[trigger] e[i]).covers(s)
}

/// Sum of the entries' lengths.
pub open spec fn entries_len(e: Seq<Entry>) -> int
    decreases e.len(),
{
    if e.len() == 0 {
        0
    } else {
        entries_len(e.drop_last()) + e.last().length
    }
}

pub proof fn lemma_max_index_bounds(e: Seq<Entry>)
    ensures
        max_index(e) >= 0,
        forall|i: int| 0 <= i < e.len() ==> (#[trigger] e[i]).index <= max_index(e),
    decreases e.len(),
{
    if e.len() > 0 {
        lemma_max_index_bounds(e.drop_last());
        assert forall|i: int| 0 <= i < e.len() implies (#[trigger] e[i]).index <= max_index(e) by {
            if i < e.len() - 1 {
                assert(e.drop_last()[i] == e[i]);
            }
        }
    }
}

impl Table {
    /// Well-formed: a positive sector size, a usable region, and entries that
    /// are non-empty, inside it, ordered by position, disjoint, and carry
    /// distinct positive indices.
    pub open spec fn wf(&self) -> bool {
        &&& self.sector_size > 0
        &&& self.usable_start <= self.usable_end
        &&& forall|i: int| 0 <= i < self.entries@.len() ==> {
            let e = #[trigger] self.entries@[i];
            &&& e.length > 0
            &&& self.usable_start <= e.first_lba
            &&& e.end() <= self.usable_end
            &&& e.index >= 1
        }
        &&& sorted_disjoint(self.entries@)
        &&& distinct_indices(self.entries@)
    }

    /// The sectors `first .. first + length` form a non-empty run inside the
    /// usable region that no entry claims.
    pub open spec fn fits(&self, first: int, length: int) -> bool {
        run_free(self.entries@, self.usable_start as int, self.usable_end as int, first, length)
    }

    pub open spec fn index_free(&self, index: u32) -> bool {
        &&& index >= 1
        &&& forall|i: int| 0 <= i < self.entries@.len() ==> (#[trigger] self.entries@[i]).index != index
    }

    /// An empty table over the usable region `usable_start .. usable_end`.
    pub fn new(sector_size: u64, usable_start: u64, usable_end: u64) -> (r: Result<Table, TableError>)
        ensures
            sector_size > 0 && usable_start <= usable_end <==> r is Ok,
            r is Err ==> r == Err::<Table, TableError>(TableError::InvalidGeometry),
            r matches Ok(t) ==> {
                &&& t.wf()
                &&& t.sector_size == sector_size
                &&& t.usable_start == usable_start
                &&& t.usable_end == usable_end
                &&& t.entries@.len() == 0
            },
    {
        if sector_size == 0 || usable_start > usable_end {
            return Err(TableError::InvalidGeometry);
        }
        Ok(Table { sector_size, usable_start, usable_end, entries: Vec::new() })
    }

    /// Removes every entry.
    pub fn clear(&mut self)
        requires
            old(self).wf(),
        ensures
            final(self).wf(),
            final(self).entries@.len() == 0,
            final(self).sector_size == old(self).sector_size,
            final(self).usable_start == old(self).usable_start,
            final(self).usable_end == old(self).usable_end,
    {
        self.entries = Vec::new();
    }

    pub fn len(&self) -> (r: usize)
        ensures
            r == self.entries@.len(),
    {
        self.entries.len()
    }

    /// The largest index in use, or zero.
    pub fn max_index(&self) -> (r: u32)
        ensures
            r == max_index(self.entries@),
    {
        let mut m: u32 = 0;
        let mut i: usize = 0;
        while i < self.entries.len()
            invariant
                0 <= i <= self.entries@.len(),
                m == max_index(self.entries@.subrange(0, i as int)),
            decreases self.entries@.len() - i,
        {
            proof {
                let s = self.entries@.subrange(0, i as int + 1);
                assert(s.drop_last() =~= self.entries@.subrange(0, i as int));
            }
            if self.entries[i].index > m {
                m = self.entries[i].index;
            }
            i = i + 1;
        }
        assert(self.entries@.subrange(0, i as int) =~= self.entries@);
        m
    }

    /// Whether `first .. first + length` is a non-empty free run in the usable
    /// region.
    pub fn check_fits(&self, first: u64, length: u64) -> (r: Result<(), TableError>)
        requires
            self.wf(),
        ensures
            r is Ok <==> self.fits(first as int, length as int),
            r matches Err(TableError::OutOfBounds) <==> (length == 0 || first < self.usable_start
                || first + length > self.usable_end),
            !(r matches Err(TableError::BadIndex)),
    {
        if length == 0 || first < self.usable_start || first > self.usable_end
            || length > self.usable_end - first {
            return Err(TableError::OutOfBounds);
        }
        let mut i: usize = 0;
        while i < self.entries.len()
            invariant
                self.wf(),
                0 <= i <= self.entries@.len(),
                length > 0,
                first >= self.usable_start,
                first + length <= self.usable_end,
                forall|k: int| 0 <= k < i ==>
                    (#[trigger] self.entries@[k]).end() <= first || first + length <= self.entries@[k].start(),
            decreases self.entries@.len() - i,
        {
            let e = &self.entries[i];
            if !(e.first_lba + e.length <= first || first + length <= e.first_lba) {
                return Err(TableError::Overlap);
            }
            i = i + 1;
        }
        Ok(())
    }

    /// Puts `e` among the entries at the place its position calls for.
    pub(crate) fn insert_entry(&mut self, e: Entry) -> (pos: usize)
        requires
            old(self).wf(),
            old(self).fits(e.first_lba as int, e.length as int),
            old(self).index_free(e.index),
        ensures
            final(self).wf(),
            pos <= old(self).entries@.len(),
            final(self).entries@ == old(self).entries@.insert(pos as int, e),
            final(self).sector_size == old(self).sector_size,
            final(self).usable_start == old(self).usable_start,
            final(self).usable_end == old(self).usable_end,
    {
        let mut i: usize = 0;
        while i < self.entries.len() && self.entries[i].first_lba < e.first_lba
            invariant
                self.wf(),
                self.fits(e.first_lba as int, e.length as int),
                0 <= i <= self.entries@.len(),
                forall|k: int| 0 <= k < i ==> (#[trigger] self.entries@[k]).end() <= e.first_lba,
            decreases self.entries@.len() - i,
        {
            i = i + 1;
        }
        let ghost s = self.entries@;
        assert(forall|k: int| i <= k < s.len() ==> e.end() <= (#[trigger] s[k]).start()) by {
            assert forall|k: int| i <= k < s.len() implies e.end() <= (#[trigger] s[k]).start() by {
                if k > i {
                    assert(s[i as int].end() <= s[k].start());
                }
            }
        }
        self.entries.insert(i, e);
        let ghost n = self.entries@;
        assert(n == s.insert(i as int, e));
        assert forall|a: int, b: int| 0 <= a < b < n.len() implies #[trigger] n[a].end() <= #[trigger] n[b].start() by {
            if b < i {
            } else if b == i {
            } else if a < i {
                assert(n[a] == s[a]);
                assert(n[b] == s[b - 1]);
                if a < b - 1 {
                    assert(s[a].end() <= s[b - 1].start());
                }
            } else if a == i {
                assert(n[b] == s[b - 1]);
            } else {
                assert(s[a - 1].end() <= s[b - 1].start());
            }
        }
        assert forall|a: int, b: int| 0 <= a < n.len() && 0 <= b < n.len() && a != b
            implies #[trigger] n[a].index != #[trigger] n[b].index by {
            if a != i && b != i {
                let sa = if a < i { a } else { a - 1 };
                let sb = if b < i { b } else { b - 1 };
                assert(n[a] == s[sa]);
                assert(n[b] == s[sb]);
            }
        }
        i
    }

    /// Takes in an entry read from the device, keeping the table well formed:
    /// refused when it is empty or leaves the usable region, when it shares a
    /// sector with an entry already held, or when its index is zero or taken.
    pub fn add_existing(&mut self, e: Entry) -> (r: Result<(), TableError>)
        requires
            old(self).wf(),
        ensures
            final(self).wf(),
            final(self).sector_size == old(self).sector_size,
            final(self).usable_start == old(self).usable_start,
            final(self).usable_end == old(self).usable_end,
            r is Ok <==> old(self).fits(e.first_lba as int, e.length as int) && old(self).index_free(e.index),
            r is Ok ==> exists|p: int| 0 <= p <= old(self).entries@.len()
                && final(self).entries@ == old(self).entries@.insert(p, e),
            r is Err ==> final(self).entries@ == old(self).entries@,
            r matches Err(TableError::BadIndex) <==> old(self).fits(e.first_lba as int, e.length as int)
                && !old(self).index_free(e.index),
    {
        match self.check_fits(e.first_lba, e.length) {
            Err(err) => return Err(err),
            Ok(()) => {},
        }
        if e.index == 0 {
            return Err(TableError::BadIndex);
        }
        let mut i: usize = 0;
        while i < self.entries.len()
            invariant
                self.wf(),
                self.fits(e.first_lba as int, e.length as int),
                e.index >= 1,
                0 <= i <= self.entries@.len(),
                forall|k: int| 0 <= k < i ==> (#[trigger] self.entries@[k]).index != e.index,
            decreases self.entries@.len() - i,
        {
            if self.entries[i].index == e.index {
                return Err(TableError::BadIndex);
            }
            i = i + 1;
        }
        self.insert_entry(e);
        Ok(())
    }
}

} // verus!
