//! The table committer: applies a plan to the table, giving each new entry the
//! next index.
use vstd::prelude::*;
use vstd::multiset::Multiset;
use crate::catalog::linux_root_guid_text;
use crate::esp::is_esp;
use crate::plan::{Mode, NewEntry, Plan, PlanError, dual_boot_outcome, esp_sectors, first_largest, fresh_install_outcome};
use crate::scan::{Range, describes_free_space};
use crate::table::{Entry, Table, lemma_max_index_bounds, max_index, run_free};

verus! {

broadcast use vstd::seq_lib::group_to_multiset_ensures, vstd::multiset::group_multiset_axioms;

/// The entries a plan keeps: none after the wipe of a fresh install, all of
/// them for a dual-boot install.
pub open spec fn base_entries(t: Table, mode: Mode) -> Seq<Entry> {
    if mode == Mode::FreshInstall {
        Seq::empty()
    } else {
        t.entries@
    }
}

pub open spec fn new_disjoint(a: NewEntry, b: NewEntry) -> bool {
    a.first_lba + a.length <= b.first_lba || b.first_lba + b.length <= a.first_lba
}

/// The plan can be applied to `t`: each new entry is a free run among the kept
/// entries, no two new entries overlap, and the indices to be given out fit in
/// `u32`.
pub open spec fn plan_applies(t: Table, p: Plan) -> bool {
    let base = base_entries(t, p.mode);
    let ns = p.entries@;
    &&& forall|k: int| 0 <= k < ns.len() ==>
        run_free(base, t.usable_start as int, t.usable_end as int, (#[trigger] ns[k]).first_lba as int, ns[k].length as int)
    &&& forall|a: int, b: int| 0 <= a < ns.len() && 0 <= b < ns.len() && a != b ==>
        new_disjoint(#[trigger] ns[a], #[trigger] ns[b])
    &&& max_index(base) + ns.len() <= u32::MAX
}

pub open spec fn entry_from(n: NewEntry, index: int) -> Entry {
    Entry { index: index as u32, type_guid: n.type_guid, first_lba: n.first_lba, length: n.length, label: n.label }
}

/// The new entries as table entries, numbered from `first_index` on.
pub open spec fn added_entries(ns: Seq<NewEntry>, first_index: int) -> Seq<Entry> {
    Seq::new(ns.len(), |k: int| entry_from(ns[k], first_index + k))
}

/// `new` is `old` with plan `p` applied, the new entries having received the
/// indices `r`: the kept entries and the new ones, each new entry numbered one
/// past the largest kept index plus its place in the plan.
pub open spec fn committed(old: Table, p: Plan, new: Table, r: Seq<u32>) -> bool {
    let base = base_entries(old, p.mode);
    let m = max_index(base);
    &&& new.wf()
    &&& new.sector_size == old.sector_size
    &&& new.usable_start == old.usable_start
    &&& new.usable_end == old.usable_end
    &&& r.len() == p.entries@.len()
    &&& forall|k: int| 0 <= k < r.len() ==> #[trigger] r[k] == m + 1 + k
    &&& new.entries@.to_multiset() == base.to_multiset().add(added_entries(p.entries@, m + 1).to_multiset())
}

/// Applies `plan` to the table: wipes it for a fresh install, then adds the
/// planned entries in order, and returns the index each received. Every plan
/// that `plan_fresh_install` returns can be applied to the table it was made
/// for, and so can one from `plan_dual_boot` while the table's largest index
/// is below `u32::MAX`.
pub fn commit(t: &mut Table, plan: Plan) -> (r: Vec<u32>)
    requires
        old(t).wf(),
        plan_applies(*old(t), plan),
    ensures
        committed(*old(t), plan, *final(t), r@),
{
    let ghost base = base_entries(*t, plan.mode);
    let ghost ns = plan.entries@;
    let ghost start = t.usable_start as int;
    let ghost end = t.usable_end as int;
    let ghost size = t.sector_size;
    if plan.mode == Mode::FreshInstall {
        t.clear();
    }
    assert(t.entries@ =~= base);
    let m = t.max_index();
    proof {
        lemma_max_index_bounds(base);
    }
    let ghost added = added_entries(ns, m + 1);
    let mut rest = plan.entries;
    let mut out: Vec<u32> = Vec::new();
    let mut k: usize = 0;
    assert(added.subrange(0, 0).to_multiset() =~= Multiset::empty());
    assert(t.entries@.to_multiset() =~= base.to_multiset().add(Multiset::empty()));
    while k < rest.len() + k
        invariant
            t.wf(),
            t.sector_size == size,
            t.usable_start == start,
            t.usable_end == end,
            m == max_index(base),
            m + ns.len() <= u32::MAX,
            forall|i: int| 0 <= i < base.len() ==> (#[trigger] base[i]).index <= m,
            added == added_entries(ns, m + 1),
            0 <= k <= ns.len(),
            rest@ == ns.subrange(k as int, ns.len() as int),
            out@.len() == k,
            forall|j: int| 0 <= j < k ==> #[trigger] out@[j] == m + 1 + j,
            t.entries@.to_multiset() == base.to_multiset().add(added.subrange(0, k as int).to_multiset()),
            forall|i: int| #![trigger t.entries@[i]] 0 <= i < t.entries@.len() ==> (exists|j: int| 0 <= j < base.len() && t.entries@[i] == #[trigger] base[j])
                || (exists|j: int| 0 <= j < k && t.entries@[i] == #[trigger] added[j]),
            forall|i: int| 0 <= i < t.entries@.len() ==> (#[trigger] t.entries@[i]).index <= m + k,
            forall|j: int| 0 <= j < ns.len() ==>
                run_free(base, start, end, (#[trigger] ns[j]).first_lba as int, ns[j].length as int),
            forall|a: int, b: int| 0 <= a < ns.len() && 0 <= b < ns.len() && a != b ==>
                new_disjoint(#[trigger] ns[a], #[trigger] ns[b]),
        decreases ns.len() - k,
    {
        assert(rest@[0] == ns[k as int]);
        let x = rest.remove(0);
        let idx: u32 = m + 1 + k as u32;
        let ghost e = entry_from(x, idx as int);
        assert(added[k as int] == e);
        let ghost cur = t.entries@;
        assert forall|i: int| 0 <= i < cur.len() implies (#[trigger] cur[i]).end() <= x.first_lba
            || x.first_lba + x.length <= cur[i].start() by {
            if exists|j: int| 0 <= j < base.len() && cur[i] == #[trigger] base[j] {
                let j = choose|j: int| 0 <= j < base.len() && cur[i] == #[trigger] base[j];
                assert(run_free(base, start, end, ns[k as int].first_lba as int, ns[k as int].length as int));
            } else {
                let j = choose|j: int| 0 <= j < k && cur[i] == #[trigger] added[j];
                assert(new_disjoint(ns[j], ns[k as int]));
            }
        }
        let entry = Entry { index: idx, type_guid: x.type_guid, first_lba: x.first_lba, length: x.length, label: x.label };
        assert(entry == e);
        let pos = t.insert_entry(entry);
        proof {
            let n = t.entries@;
            assert(added.subrange(0, k as int + 1) =~= added.subrange(0, k as int).push(e));
            assert(n.to_multiset() =~= base.to_multiset().add(added.subrange(0, k as int + 1).to_multiset()));
            assert forall|i: int| #![trigger n[i]] 0 <= i < n.len() implies (exists|j: int| 0 <= j < base.len() && n[i] == #[trigger] base[j])
                || (exists|j: int| 0 <= j < k + 1 && n[i] == #[trigger] added[j]) by {
                if i < pos {
                    assert(n[i] == cur[i]);
                } else if i == pos {
                    assert(n[i] == added[k as int]);
                } else {
                    assert(n[i] == cur[i - 1]);
                }
            }
            assert forall|i: int| 0 <= i < n.len() implies (#[trigger] n[i]).index <= m + k + 1 by {
                if i < pos {
                    assert(n[i] == cur[i]);
                } else if i > pos {
                    assert(n[i] == cur[i - 1]);
                }
            }
        }
        out.push(idx);
        k = k + 1;
    }
    assert(added.subrange(0, k as int) =~= added);
    out
}

/// A dual-boot commit keeps every entry the table held before.
pub proof fn lemma_dual_boot_keeps_entries(old: Table, p: Plan, new: Table, r: Seq<u32>)
    requires
        p.mode == Mode::DualBoot,
        committed(old, p, new, r),
    ensures
        forall|i: int| 0 <= i < old.entries@.len() ==> new.entries@.contains(#[trigger] old.entries@[i]),
{
    assert forall|i: int| 0 <= i < old.entries@.len() implies new.entries@.contains(#[trigger] old.entries@[i]) by {
        let x = old.entries@[i];
        assert(old.entries@.contains(x));
        assert(old.entries@.to_multiset().count(x) > 0);
        assert(new.entries@.to_multiset().count(x) > 0);
    }
}

/// A fresh install leaves exactly two entries whatever the table held: the
/// EFI system partition first, at index 1, then the root partition, at
/// index 2.
pub proof fn lemma_fresh_install_layout(old: Table, p: Plan, new: Table, r: Seq<u32>)
    requires
        old.wf(),
        fresh_install_outcome(old, Ok::<Plan, PlanError>(p)),
        committed(old, p, new, r),
    ensures
        r == seq![1u32, 2u32],
        new.entries@.len() == 2,
        new.entries@[0] == entry_from(p.entries@[0], 1),
        new.entries@[1] == entry_from(p.entries@[1], 2),
        is_esp(new.entries@[0]),
        new.entries@[1].type_guid@ == linux_root_guid_text(),
{
    let ns = p.entries@;
    let added = added_entries(ns, 1);
    let a = entry_from(ns[0], 1);
    let b = entry_from(ns[1], 2);
    let n = new.entries@;
    assert(max_index(Seq::<Entry>::empty()) == 0);
    assert(Seq::<Entry>::empty().to_multiset() =~= Multiset::empty());
    assert(n.to_multiset() =~= added.to_multiset());
    assert(added[0] == a && added[1] == b);
    assert(added.contains(a) && added.contains(b));
    assert(n.to_multiset().count(a) > 0);
    assert(n.to_multiset().count(b) > 0);
    assert(added.len() == 2);
    assert(added.to_multiset().len() == 2);
    assert(n.to_multiset().len() == n.len());
    assert(n.len() == 2);
    assert(n.contains(a) && n.contains(b));
    assert(n[0].end() <= n[1].start());
    assert(r =~= seq![1u32, 2u32]);
    assert(is_esp(a));
}

/// The root partition of a fresh install takes half, rounded down to a whole
/// sector, of the run behind the new EFI system partition.
pub proof fn lemma_fresh_install_root_size(old: Table, p: Plan, new: Table, r: Seq<u32>)
    requires
        old.wf(),
        fresh_install_outcome(old, Ok::<Plan, PlanError>(p)),
        committed(old, p, new, r),
    ensures
        ({
            let run = old.usable_end - old.usable_start - esp_sectors(old.sector_size as int);
            let root = new.entries@[1];
            &&& 2 * root.length <= run <= 2 * root.length + 1
            &&& root.length <= run
        }),
{
    lemma_fresh_install_layout(old, p, new, r);
}

/// The root partition of a dual-boot install, once committed, takes half,
/// rounded down to a whole sector, of the largest free run: never more than
/// half of it, and never more than the run.
pub proof fn lemma_dual_boot_root_size(
    old: Table,
    rs: Seq<Range>,
    confirmed: bool,
    p: Plan,
    new: Table,
    r: Seq<u32>,
)
    requires
        old.wf(),
        describes_free_space(old, rs),
        dual_boot_outcome(old, rs, confirmed, Ok::<Plan, PlanError>(p)),
        committed(old, p, new, r),
    ensures
        ({
            let run = rs[first_largest(rs)].1 as int;
            let root = entry_from(p.entries@[0], r[0] as int);
            &&& new.entries@.contains(root)
            &&& 2 * root.length <= run <= 2 * root.length + 1
            &&& root.length <= run
        }),
{
    let base = old.entries@;
    let m = max_index(base);
    let added = added_entries(p.entries@, m + 1);
    let root = entry_from(p.entries@[0], r[0] as int);
    assert(added[0] == root);
    assert(added.contains(root));
    assert(added.to_multiset().count(root) > 0);
    assert(new.entries@.to_multiset().count(root) > 0);
}

} // verus!
