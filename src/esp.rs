//! Locating an existing EFI system partition.
use vstd::prelude::*;
use crate::catalog::{esp_guid_text, is_esp_type, same_guid};
use crate::table::{Entry, Table};

verus! {

pub open spec fn is_esp(e: Entry) -> bool {
    same_guid(e.type_guid@, esp_guid_text())
}

pub open spec fn has_esp(e: Seq<Entry>) -> bool {
    exists|i: int| 0 <= i < e.len() && is_esp(#[trigger] e[i])
}

/// `x` is the smallest index among the entries typed as EFI system
/// partitions. Where several such entries exist this picks the first in index
/// order, the one the table lists first.
pub open spec fn is_esp_choice(e: Seq<Entry>, x: u32) -> bool {
    &&& exists|i: int| 0 <= i < e.len() && is_esp(#[trigger] e[i]) && e[i].index == x
    &&& forall|j: int| 0 <= j < e.len() && is_esp(#[trigger] e[j]) ==> x <= e[j].index
}

/// The index of the EFI system partition of the table, or `None` when no
/// entry carries that type. Of several, the one of smallest index.
pub fn find_esp(t: &Table) -> (r: Option<u32>)
    ensures
        r is None <==> !has_esp(t.entries@),
        r matches Some(x) ==> is_esp_choice(t.entries@, x),
{
    let mut best: Option<u32> = None;
    let mut i: usize = 0;
    while i < t.entries.len()
        invariant
            0 <= i <= t.entries@.len(),
            best is None <==> forall|j: int| 0 <= j < i ==> !is_esp(#[trigger] t.entries@[j]),
            best matches Some(x) ==> {
                &&& exists|j: int| 0 <= j < i && is_esp(#[trigger] t.entries@[j]) && t.entries@[j].index == x
                &&& forall|j: int| 0 <= j < i && is_esp(#[trigger] t.entries@[j]) ==> x <= t.entries@[j].index
            },
        decreases t.entries@.len() - i,
    {
        let e = &t.entries[i];
        if is_esp_type(e.type_guid.as_slice()) {
            let better = match best {
                None => true,
                Some(x) => e.index < x,
            };
            if better {
                best = Some(e.index);
            }
        }
        i = i + 1;
    }
    best
}

/// An ESP lookup has one answer: on a table with distinct indices, at most one
/// index is the smallest of the ESP-typed entries, so repeated lookups on the
/// same table agree.
pub proof fn lemma_esp_choice_unique(t: Table, a: u32, b: u32)
    requires
        t.wf(),
        is_esp_choice(t.entries@, a),
        is_esp_choice(t.entries@, b),
    ensures
        a == b,
{
    let e = t.entries@;
    let i = choose|i: int| 0 <= i < e.len() && is_esp(#[trigger] e[i]) && e[i].index == a;
    let j = choose|j: int| 0 <= j < e.len() && is_esp(#[trigger] e[j]) && e[j].index == b;
    assert(a <= e[j].index);
    assert(b <= e[i].index);
}

/// On a table with exactly one ESP-typed entry, that entry's index is the
/// answer of the lookup.
pub proof fn lemma_single_esp(t: Table, i: int)
    requires
        t.wf(),
        0 <= i < t.entries@.len(),
        is_esp(t.entries@[i]),
        forall|j: int| 0 <= j < t.entries@.len() && j != i ==> !is_esp(#[trigger] t.entries@[j]),
    ensures
        has_esp(t.entries@),
        is_esp_choice(t.entries@, t.entries@[i].index),
        forall|x: u32| is_esp_choice(t.entries@, x) ==> x == t.entries@[i].index,
{
    assert forall|x: u32| is_esp_choice(t.entries@, x) implies x == t.entries@[i].index by {
        lemma_esp_choice_unique(t, x, t.entries@[i].index);
    }
}

} // verus!
