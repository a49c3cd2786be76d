//! The layout planner: where the new root partition goes, and for a fresh
//! install the new EFI system partition too.
use vstd::prelude::*;
use crate::catalog::{esp_guid_text, esp_type_guid, linux_root_guid_text, linux_root_type_guid};
use crate::esp::{find_esp, has_esp, is_esp_choice};
use crate::scan::{Range, describes_free_space, free_ranges, is_first_largest, largest_range};
use crate::commit::plan_applies;
use crate::scan::{in_range, in_some_range};
use crate::table::{Table, claimed, max_index};

verus! {

/// Sectors in a GiB, counting 512-byte sectors (1024-based).
pub const GIB_SECTORS: u64 = 1024 * 1024 * 2;

/// Below this many GiB of free space a dual-boot install is refused.
pub const MIN_DUAL_BOOT_GIB: u64 = 16;

/// Below this many GiB of free space a dual-boot install asks first.
pub const CONFIRM_BELOW_GIB: u64 = 64;

/// Size of a freshly made EFI system partition in bytes (1000-based GB).
pub const ESP_BYTES: u64 = 1000 * 1000 * 1000;

pub open spec fn root_label() -> Seq<char> {
    "HoloFork"@
}

pub open spec fn esp_label() -> Seq<char> {
    "ESP"@
}

/// Whole GiB in a run of `len` sectors.
pub open spec fn gib_of(len: int) -> int {
    len / (GIB_SECTORS as int)
}

/// Sectors needed to hold `ESP_BYTES` bytes, rounded up.
pub open spec fn esp_sectors(sector_size: int) -> int {
    (ESP_BYTES - 1) / sector_size + 1
}

/// The root partition takes half of the run it is placed in, rounded down.
pub open spec fn root_sectors(range_len: int) -> int {
    range_len / 2
}

#[derive(Debug, Clone, Copy, PartialEq, Eq, Structural)]
pub enum Mode {
    /// Keep every entry and add a root partition in free space.
    DualBoot,
    /// Wipe the table, then add an EFI system partition and a root partition.
    FreshInstall,
}

#[derive(Debug, Clone, Copy, PartialEq, Eq, Structural)]
pub enum PlanError {
    /// No free run is large enough.
    InsufficientSpace,
    /// The user declined to go on with little free space.
    UserAborted,
    /// A dual-boot install needs an EFI system partition and there is none.
    EspNotFound,
}

/// How a dual-boot install judges the largest free run.
#[derive(Debug, Clone, Copy, PartialEq, Eq, Structural)]
pub enum SpaceVerdict {
    /// Under `MIN_DUAL_BOOT_GIB`: refused.
    Insufficient,
    /// Under `CONFIRM_BELOW_GIB`: the user must confirm.
    Low,
    /// Enough.
    Ample,
}

/// A partition to be added; it gets its index when committed.
pub struct NewEntry {
    pub type_guid: Vec<u8>,
    pub first_lba: u64,
    pub length: u64,
    pub label: String,
}

/// The entries a plan adds, in order, and for a dual-boot install the index
/// of the EFI system partition already there.
pub struct Plan {
    pub mode: Mode,
    pub esp_index: Option<u32>,
    pub entries: Vec<NewEntry>,
}

pub open spec fn is_root_entry(n: NewEntry, first: int, length: int) -> bool {
    &&& n.type_guid@ == linux_root_guid_text()
    &&& n.label@ == root_label()
    &&& n.first_lba == first
    &&& n.length == length
}

pub open spec fn is_esp_entry(n: NewEntry, first: int, length: int) -> bool {
    &&& n.type_guid@ == esp_guid_text()
    &&& n.label@ == esp_label()
    &&& n.first_lba == first
    &&& n.length == length
}

pub open spec fn verdict_of(len: int) -> SpaceVerdict {
    if gib_of(len) < MIN_DUAL_BOOT_GIB {
        SpaceVerdict::Insufficient
    } else if gib_of(len) < CONFIRM_BELOW_GIB {
        SpaceVerdict::Low
    } else {
        SpaceVerdict::Ample
    }
}

/// The verdict on free space `rs`: on its first largest run, or insufficient
/// when there is none.
pub open spec fn space_verdict_of(rs: Seq<Range>) -> SpaceVerdict {
    if rs.len() == 0 {
        SpaceVerdict::Insufficient
    } else {
        verdict_of(rs[first_largest(rs)].1 as int)
    }
}

pub open spec fn first_largest(rs: Seq<Range>) -> int {
    choose|k: int| is_first_largest(rs, k)
}

/// What a dual-boot plan is for a table `t` with free space `rs`, given the
/// user's answer to the low-space question.
pub open spec fn dual_boot_outcome(t: Table, rs: Seq<Range>, confirmed: bool, r: Result<Plan, PlanError>) -> bool {
    if !has_esp(t.entries@) {
        r == Err::<Plan, PlanError>(PlanError::EspNotFound)
    } else if space_verdict_of(rs) == SpaceVerdict::Insufficient {
        r == Err::<Plan, PlanError>(PlanError::InsufficientSpace)
    } else if space_verdict_of(rs) == SpaceVerdict::Low && !confirmed {
        r == Err::<Plan, PlanError>(PlanError::UserAborted)
    } else {
        let k = first_largest(rs);
        &&& r is Ok
        &&& r->Ok_0.mode == Mode::DualBoot
        &&& r->Ok_0.esp_index matches Some(x) && is_esp_choice(t.entries@, x)
        &&& r->Ok_0.entries@.len() == 1
        &&& is_root_entry(r->Ok_0.entries@[0], rs[k].0 as int, root_sectors(rs[k].1 as int))
    }
}

/// What a fresh-install plan is for a table `t`: after the wipe, an EFI system
/// partition of `esp_sectors` at the start of the usable region, then a root
/// partition at half of what follows it; refused where either would be empty.
pub open spec fn fresh_install_outcome(t: Table, r: Result<Plan, PlanError>) -> bool {
    let size = t.usable_end - t.usable_start;
    let esp = esp_sectors(t.sector_size as int);
    if esp > size || root_sectors(size - esp) == 0 {
        r == Err::<Plan, PlanError>(PlanError::InsufficientSpace)
    } else {
        &&& r is Ok
        &&& r->Ok_0.mode == Mode::FreshInstall
        &&& r->Ok_0.esp_index is None
        &&& r->Ok_0.entries@.len() == 2
        &&& is_esp_entry(r->Ok_0.entries@[0], t.usable_start as int, esp)
        &&& is_root_entry(r->Ok_0.entries@[1], t.usable_start + esp, root_sectors(size - esp))
    }
}

proof fn lemma_first_largest(rs: Seq<Range>, k: int)
    requires
        is_first_largest(rs, k),
    ensures
        first_largest(rs) == k,
{
    let c = first_largest(rs);
    assert(is_first_largest(rs, c));
    if c < k {
        assert(rs[c].1 < rs[k].1);
    } else if k < c {
        assert(rs[k].1 < rs[c].1);
    }
}

/// Judges a run of `len` sectors for a dual-boot install.
pub fn verdict(len: u64) -> (r: SpaceVerdict)
    ensures
        r == verdict_of(len as int),
{
    let gib = len / GIB_SECTORS;
    if gib < MIN_DUAL_BOOT_GIB {
        SpaceVerdict::Insufficient
    } else if gib < CONFIRM_BELOW_GIB {
        SpaceVerdict::Low
    } else {
        SpaceVerdict::Ample
    }
}

/// Judges the free space of `t` for a dual-boot install; `Low` means the user
/// must be asked before planning.
pub fn dual_boot_space(t: &Table) -> (r: SpaceVerdict)
    requires
        t.wf(),
    ensures
        exists|rs: Seq<Range>| describes_free_space(*t, rs) && r == space_verdict_of(rs),
{
    let rs = free_ranges(t);
    let r = match largest_range(&rs) {
        None => SpaceVerdict::Insufficient,
        Some(k) => {
            proof {
                lemma_first_largest(rs@, k as int);
            }
            verdict(rs[k].1)
        },
    };
    assert(describes_free_space(*t, rs@) && r == space_verdict_of(rs@));
    r
}

fn root_entry(first: u64, length: u64) -> (n: NewEntry)
    ensures
        is_root_entry(n, first as int, length as int),
{
    let label = "HoloFork".to_owned();
    NewEntry { type_guid: linux_root_type_guid(), first_lba: first, length, label }
}

/// Plans a dual-boot install: the existing EFI system partition is kept and a
/// root partition of half the largest free run is placed at its start. With
/// no EFI system partition, or a largest run under `MIN_DUAL_BOOT_GIB`, it
/// fails; under `CONFIRM_BELOW_GIB` it goes on only when `confirmed`.
pub fn plan_dual_boot(t: &Table, confirmed: bool) -> (r: Result<Plan, PlanError>)
    requires
        t.wf(),
    ensures
        exists|rs: Seq<Range>| describes_free_space(*t, rs) && dual_boot_outcome(*t, rs, confirmed, r),
        r is Ok && max_index(t.entries@) < u32::MAX ==> plan_applies(*t, r->Ok_0),
{
    let esp = find_esp(t);
    let rs = free_ranges(t);
    let k = largest_range(&rs);
    proof {
        if let Some(k) = k {
            lemma_first_largest(rs@, k as int);
        }
    }
    let esp_index = match esp {
        None => return Err(PlanError::EspNotFound),
        Some(x) => x,
    };
    let k = match k {
        None => return Err(PlanError::InsufficientSpace),
        Some(k) => k,
    };
    let (first, length) = rs[k];
    match verdict(length) {
        SpaceVerdict::Insufficient => return Err(PlanError::InsufficientSpace),
        SpaceVerdict::Low => {
            if !confirmed {
                return Err(PlanError::UserAborted);
            }
        },
        SpaceVerdict::Ample => {},
    }
    let root = root_entry(first, length / 2);
    proof {
        let e = t.entries@;
        let len = (length / 2) as int;
        assert(in_range(rs@[k as int], first as int));
        assert forall|i: int| 0 <= i < e.len() implies (#[trigger] e[i]).end() <= first || first + len <= e[i].start() by {
            if e[i].end() > first && first + len > e[i].start() {
                let s = if e[i].start() > first { e[i].start() } else { first as int };
                assert(in_range(rs@[k as int], s));
                assert(in_some_range(rs@, s));
                assert(claimed(e, s)) by {
                    assert(e[i].covers(s));
                }
            }
        }
    }
    let mut entries: Vec<NewEntry> = Vec::new();
    entries.push(root);
    let plan = Plan { mode: Mode::DualBoot, esp_index: Some(esp_index), entries };
    assert(plan.entries@[0] == root);
    Ok(plan)
}

/// Sectors for `ESP_BYTES` bytes at the given sector size, rounded up.
pub fn esp_sector_count(sector_size: u64) -> (r: u64)
    requires
        sector_size > 0,
    ensures
        r == esp_sectors(sector_size as int),
{
    (ESP_BYTES - 1) / sector_size + 1
}

/// Plans a fresh install: the table is to be wiped, an EFI system partition
/// of `ESP_BYTES` placed at the start of the usable region, and a root
/// partition of half the run after it placed right behind it.
pub fn plan_fresh_install(t: &Table) -> (r: Result<Plan, PlanError>)
    requires
        t.wf(),
    ensures
        fresh_install_outcome(*t, r),
        r is Ok ==> plan_applies(*t, r->Ok_0),
{
    let size = t.usable_end - t.usable_start;
    let esp = esp_sector_count(t.sector_size);
    if esp > size || (size - esp) / 2 == 0 {
        return Err(PlanError::InsufficientSpace);
    }
    let esp_entry = NewEntry {
        type_guid: esp_type_guid(),
        first_lba: t.usable_start,
        length: esp,
        label: "ESP".to_owned(),
    };
    let root = root_entry(t.usable_start + esp, (size - esp) / 2);
    let mut entries: Vec<NewEntry> = Vec::new();
    entries.push(esp_entry);
    entries.push(root);
    let plan = Plan { mode: Mode::FreshInstall, esp_index: None, entries };
    assert(plan.entries@[0] == esp_entry && plan.entries@[1] == root);
    assert(max_index(Seq::<crate::table::Entry>::empty()) == 0);
    Ok(plan)
}

} // verus!
