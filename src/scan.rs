//! The free-space scan: the maximal runs of usable sectors that no entry
//! claims, and the choice of the largest of them.
use vstd::prelude::*;
use crate::table::{Table, Entry, claimed, entries_len};

verus! {

/// A free run as `(first sector, length in sectors)`.
pub type Range = (u64, u64);

pub open spec fn range_end(r: Range) -> int {
    r.0 + r.1
}

pub open spec fn in_range(r: Range, s: int) -> bool {
    r.0 <= s < range_end(r)
}

pub open spec fn in_some_range(rs: Seq<Range>, s: int) -> bool {
    exists|k: int| 0 <= k < rs.len() && in_range(#[trigger] rs[k], s)
}

/// Ranges in increasing order with at least one sector between neighbours,
/// so that no two share a sector and none could be extended into another.
pub open spec fn ranges_separated(rs: Seq<Range>) -> bool {
    forall|i: int, j: int| 0 <= i < j < rs.len() ==> range_end(#[trigger] rs[i]) < (#[trigger] rs[j]).0
}

/// Sum of the ranges' lengths.
pub open spec fn ranges_total(rs: Seq<Range>) -> int
    decreases rs.len(),
{
    if rs.len() == 0 {
        0
    } else {
        ranges_total(rs.drop_last()) + rs.last().1
    }
}

/// `rs` is exactly the free space of `t`: non-empty separated runs inside the
/// usable region, holding precisely the usable sectors that no entry claims,
/// whose lengths together with the entries' lengths add up to the usable
/// region's size.
pub open spec fn describes_free_space(t: Table, rs: Seq<Range>) -> bool {
    &&& forall|k: int| 0 <= k < rs.len() ==> {
        &&& (#[trigger] rs[k]).1 > 0
        &&& t.usable_start <= rs[k].0
        &&& range_end(rs[k]) <= t.usable_end
    }
    &&& ranges_separated(rs)
    &&& forall|s: int| t.usable_start <= s < t.usable_end ==> (in_some_range(rs, s) <==> !claimed(t.entries@, s))
    &&& ranges_total(rs) + entries_len(t.entries@) == t.usable_end - t.usable_start
}

/// `k` is the first position of a range of greatest length.
pub open spec fn is_first_largest(rs: Seq<Range>, k: int) -> bool {
    &&& 0 <= k < rs.len()
    &&& forall|j: int| 0 <= j < rs.len() ==> (#[trigger] rs[j]).1 <= rs[k].1
    &&& forall|j: int| 0 <= j < k ==> (#[trigger] rs[j]).1 < rs[k].1
}

proof fn lemma_push_keeps_below(rs: Seq<Range>, x: Range, s: int)
    requires
        s < x.0,
    ensures
        in_some_range(rs.push(x), s) == in_some_range(rs, s),
{
    let n = rs.push(x);
    if in_some_range(n, s) {
        let k = choose|k: int| 0 <= k < n.len() && in_range(#[trigger] n[k], s);
        assert(k < rs.len());
        assert(n[k] == rs[k]);
    }
    if in_some_range(rs, s) {
        let k = choose|k: int| 0 <= k < rs.len() && in_range(#[trigger] rs[k], s);
        assert(n[k] == rs[k]);
    }
}

proof fn lemma_total_push(rs: Seq<Range>, x: Range)
    ensures
        ranges_total(rs.push(x)) == ranges_total(rs) + x.1,
{
    assert(rs.push(x).drop_last() =~= rs);
}

proof fn lemma_entries_len_step(e: Seq<Entry>, i: int)
    requires
        0 <= i < e.len(),
    ensures
        entries_len(e.subrange(0, i + 1)) == entries_len(e.subrange(0, i)) + e[i].length,
{
    assert(e.subrange(0, i + 1).drop_last() =~= e.subrange(0, i));
}

/// Computes the free space of a well-formed table, in order of position.
pub fn free_ranges(t: &Table) -> (r: Vec<Range>)
    requires
        t.wf(),
    ensures
        describes_free_space(*t, r@),
{
    let mut r: Vec<Range> = Vec::new();
    let mut cursor: u64 = t.usable_start;
    let mut i: usize = 0;
    let ghost e = t.entries@;
    while i < t.entries.len()
        invariant
            t.wf(),
            e == t.entries@,
            0 <= i <= e.len(),
            t.usable_start <= cursor <= t.usable_end,
            i == 0 ==> cursor == t.usable_start,
            i > 0 ==> cursor == e[i - 1].end(),
            forall|k: int| 0 <= k < r@.len() ==> {
                &&& (#[trigger] r@[k]).1 > 0
                &&& t.usable_start <= r@[k].0
                &&& range_end(r@[k]) < cursor
            },
            ranges_separated(r@),
            forall|s: int| t.usable_start <= s < cursor ==> (in_some_range(r@, s) <==> !claimed(e, s)),
            ranges_total(r@) + entries_len(e.subrange(0, i as int)) == cursor - t.usable_start,
        decreases e.len() - i,
    {
        let first = t.entries[i].first_lba;
        let length = t.entries[i].length;
        let ghost cur = e[i as int];
        let ghost old_r = r@;
        let ghost old_cursor = cursor as int;
        proof {
            if i > 0 {
                assert(e[i - 1].end() <= e[i as int].start());
            }
        }
        // sectors in cursor .. first are claimed by no entry
        assert forall|s: int| old_cursor <= s < first implies !claimed(e, s) by {
            assert forall|j: int| 0 <= j < e.len() implies !(#[trigger] e[j]).covers(s) by {
                if j < i as int - 1 {
                    assert(e[j].end() <= e[i - 1].start());
                } else if j > i {
                    assert(cur.end() <= e[j].start());
                }
            }
        }
        if first > cursor {
            let x: Range = (cursor, first - cursor);
            proof {
                assert forall|s: int| t.usable_start <= s < old_cursor implies
                    (in_some_range(r@.push(x), s) <==> !claimed(e, s)) by {
                    lemma_push_keeps_below(r@, x, s);
                }
                assert forall|s: int| old_cursor <= s < first implies in_some_range(r@.push(x), s) by {
                    assert(in_range(r@.push(x)[old_r.len() as int], s));
                }
                lemma_total_push(r@, x);
            }
            r.push(x);
        }
        proof {
            lemma_entries_len_step(e, i as int);
        }
        cursor = first + length;
        i = i + 1;
        proof {
            assert forall|s: int| first <= s < cursor implies (in_some_range(r@, s) <==> !claimed(e, s)) by {
                assert(e[i - 1].covers(s));
                if in_some_range(r@, s) {
                    let k = choose|k: int| 0 <= k < r@.len() && in_range(#[trigger] r@[k], s);
                    if k < old_r.len() {
                        assert(r@[k] == old_r[k]);
                    }
                }
            }
        }
    }
    let ghost before = r@;
    let ghost last_cursor = cursor as int;
    assert(e.subrange(0, i as int) =~= e);
    assert forall|s: int| last_cursor <= s < t.usable_end implies !claimed(e, s) by {
        assert forall|j: int| 0 <= j < e.len() implies !(#[trigger] e[j]).covers(s) by {
            if j < e.len() - 1 {
                assert(e[j].end() <= e[e.len() - 1].start());
            }
        }
    }
    if cursor < t.usable_end {
        let x: Range = (cursor, t.usable_end - cursor);
        proof {
            assert forall|s: int| t.usable_start <= s < last_cursor implies
                (in_some_range(r@.push(x), s) <==> !claimed(e, s)) by {
                lemma_push_keeps_below(r@, x, s);
            }
            assert forall|s: int| last_cursor <= s < t.usable_end implies in_some_range(r@.push(x), s) by {
                assert(in_range(r@.push(x)[before.len() as int], s));
            }
            lemma_total_push(r@, x);
        }
        r.push(x);
    }
    r
}

/// The position of the first range of greatest length, or `None` for no
/// ranges.
pub fn largest_range(rs: &Vec<Range>) -> (r: Option<usize>)
    ensures
        r is None <==> rs@.len() == 0,
        r matches Some(k) ==> is_first_largest(rs@, k as int),
{
    if rs.len() == 0 {
        return None;
    }
    let mut best: usize = 0;
    let mut i: usize = 1;
    while i < rs.len()
        invariant
            1 <= i <= rs@.len(),
            0 <= best < i,
            forall|j: int| 0 <= j < i ==> (#[trigger] rs@[j]).1 <= rs@[best as int].1,
            forall|j: int| 0 <= j < best ==> (#[trigger] rs@[j]).1 < rs@[best as int].1,
        decreases rs@.len() - i,
    {
        if rs[i].1 > rs[best].1 {
            best = i;
        }
        i = i + 1;
    }
    Some(best)
}

proof fn lemma_one_range_per_sector(rs: Seq<Range>, j: int, k: int, s: int)
    requires
        ranges_separated(rs),
        0 <= j < rs.len(),
        0 <= k < rs.len(),
        in_range(rs[j], s),
        in_range(rs[k], s),
    ensures
        j == k,
{
    if j < k {
        assert(range_end(rs[j]) < rs[k].0);
    } else if k < j {
        assert(range_end(rs[k]) < rs[j].0);
    }
}

/// A sector of a range that describes the free space lies in some range of
/// any other description.
proof fn lemma_sector_shared(t: Table, rs1: Seq<Range>, rs2: Seq<Range>, k: int, s: int) -> (j: int)
    requires
        describes_free_space(t, rs1),
        describes_free_space(t, rs2),
        0 <= k < rs1.len(),
        in_range(rs1[k], s),
    ensures
        0 <= j < rs2.len(),
        in_range(rs2[j], s),
{
    assert(in_some_range(rs1, s));
    assert(t.usable_start <= rs1[k].0 && range_end(rs1[k]) <= t.usable_end);
    assert(!claimed(t.entries@, s));
    assert(in_some_range(rs2, s));
    choose|j: int| 0 <= j < rs2.len() && in_range(#[trigger] rs2[j], s)
}

proof fn lemma_unique_step(t: Table, rs1: Seq<Range>, rs2: Seq<Range>, k: int)
    requires
        describes_free_space(t, rs1),
        describes_free_space(t, rs2),
        0 <= k < rs1.len(),
        k <= rs2.len(),
        forall|i: int| 0 <= i < k ==> rs1[i] == rs2[i],
    ensures
        k < rs2.len(),
        rs1[k] == rs2[k],
{
    let a = rs1[k].0 as int;
    assert(rs1[k].1 > 0);
    let j = lemma_sector_shared(t, rs1, rs2, k, a);
    if j < k {
        assert(rs2[j] == rs1[j]);
        lemma_one_range_per_sector(rs1, j, k, a);
    }
    let b = rs2[k].0 as int;
    assert(rs2[k].1 > 0);
    let j2 = lemma_sector_shared(t, rs2, rs1, k, b);
    if j2 < k {
        assert(rs1[j2] == rs2[j2]);
        lemma_one_range_per_sector(rs2, j2, k, b);
    }
    if j > k {
        assert(range_end(rs2[k]) < rs2[j].0);
    }
    if j2 > k {
        assert(range_end(rs1[k]) < rs1[j2].0);
    }
    assert(a == b);
    let e1 = range_end(rs1[k]);
    let e2 = range_end(rs2[k]);
    if e1 < e2 {
        let m = lemma_sector_shared(t, rs2, rs1, k, e1);
        if m < k {
            assert(range_end(rs1[m]) < rs1[k].0);
        } else if m > k {
            assert(range_end(rs1[k]) < rs1[m].0);
        }
    }
    if e2 < e1 {
        let m = lemma_sector_shared(t, rs1, rs2, k, e2);
        if m < k {
            assert(range_end(rs2[m]) < rs2[k].0);
        } else if m > k {
            assert(range_end(rs2[k]) < rs2[m].0);
        }
    }
}

proof fn lemma_unique_prefix(t: Table, rs1: Seq<Range>, rs2: Seq<Range>, k: int)
    requires
        describes_free_space(t, rs1),
        describes_free_space(t, rs2),
        0 <= k <= rs1.len(),
        k <= rs2.len(),
    ensures
        forall|i: int| 0 <= i < k ==> rs1[i] == rs2[i],
    decreases k,
{
    if k > 0 {
        lemma_unique_prefix(t, rs1, rs2, k - 1);
        lemma_unique_step(t, rs1, rs2, k - 1);
    }
}

/// The free space of a table has one description: the ordered, separated
/// runs are fixed by the set of free sectors. So the ranges that
/// `free_ranges` returns, and whatever is stated of "the" free space, are
/// determined by the table alone.
pub proof fn lemma_free_space_unique(t: Table, rs1: Seq<Range>, rs2: Seq<Range>)
    requires
        describes_free_space(t, rs1),
        describes_free_space(t, rs2),
    ensures
        rs1 == rs2,
{
    if rs1.len() <= rs2.len() {
        lemma_unique_prefix(t, rs1, rs2, rs1.len() as int);
        if rs1.len() < rs2.len() {
            lemma_unique_prefix(t, rs2, rs1, rs1.len() as int);
            lemma_unique_step(t, rs2, rs1, rs1.len() as int);
        }
    } else {
        lemma_unique_prefix(t, rs2, rs1, rs2.len() as int);
        lemma_unique_step(t, rs1, rs2, rs2.len() as int);
    }
    assert(rs1 =~= rs2);
}

} // verus!
