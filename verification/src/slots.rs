//! Double hashing: the cells that an element addresses, and what it means for
//! a filter to hold them.
//!
//! One 64-bit digest is split into two halves; the cells of an element are
//! the low half plus multiples of the high half, each taken modulo the number
//! of cells.

use crate::fnv::fnv1a;
use vstd::arithmetic::div_mod::lemma_mod_bound;
use vstd::prelude::*;

verus! {

/// The low half of a digest.
pub open spec fn lower_half(digest: u64) -> u32 {
    (digest % 0x1_0000_0000) as u32
}

/// The high half of a digest.
pub open spec fn upper_half(digest: u64) -> u32 {
    (digest / 0x1_0000_0000) as u32
}

/// The `i`-th cell that a digest with the halves `lower` and `upper`
/// addresses among `m` cells.
pub open spec fn slot(lower: u32, upper: u32, i: int, m: int) -> int {
    (lower + upper * i) % m
}

/// The `k` cells that `data` addresses among `m` cells.
pub open spec fn slots_of(data: Seq<u8>, k: nat, m: nat) -> Seq<int> {
    Seq::new(k, |i: int| slot(lower_half(fnv1a(data)), upper_half(fnv1a(data)), i, m as int))
}

/// Whether every one of `slots` holds a value other than zero.
pub open spec fn all_set(cells: Seq<u8>, slots: Seq<int>) -> bool {
    forall|i: int| 0 <= i < slots.len() ==> cells[#[trigger] slots[i]] != 0
}

/// The cells after each of `slots` has been set to `max`.
pub open spec fn marked(cells: Seq<u8>, slots: Seq<int>, max: u8) -> Seq<u8> {
    Seq::new(
        cells.len(),
        |c: int|
            if slots.contains(c) {
                max
            } else {
                cells[c]
            },
    )
}

/// Every cell that an element addresses is one of the `m` cells.
pub proof fn lemma_slots_in_range(data: Seq<u8>, k: nat, m: nat)
    requires
        m > 0,
    ensures
        slots_of(data, k, m).len() == k,
        forall|i: int| 0 <= i < k ==> 0 <= #[trigger] slots_of(data, k, m)[i] < m,
{
    assert forall|i: int| 0 <= i < k implies 0 <= #[trigger] slots_of(data, k, m)[i] < m by {
        lemma_mod_bound(lower_half(fnv1a(data)) + upper_half(fnv1a(data)) * i, m as int);
    }
}

/// Marking one more slot sets that cell and leaves the others as they were.
pub proof fn lemma_marked_one_more(cells: Seq<u8>, slots: Seq<int>, i: int, max: u8)
    requires
        0 <= i < slots.len(),
        0 <= slots[i] < cells.len(),
    ensures
        marked(cells, slots.take(i + 1), max) == marked(cells, slots.take(i), max).update(
            slots[i],
            max,
        ),
{
    let shorter = slots.take(i);
    let longer = slots.take(i + 1);
    assert(longer[i] == slots[i]);
    assert forall|c: int| 0 <= c < cells.len() implies #[trigger] marked(cells, longer, max)[c]
        == marked(cells, shorter, max).update(slots[i], max)[c] by {
        if c != slots[i] {
            if shorter.contains(c) {
                let j = choose|j: int| 0 <= j < shorter.len() && shorter[j] == c;
                assert(longer[j] == c);
            }
            if longer.contains(c) {
                let j = choose|j: int| 0 <= j < longer.len() && longer[j] == c;
                assert(shorter[j] == c);
            }
        }
    }
    assert(marked(cells, longer, max) =~= marked(cells, shorter, max).update(slots[i], max));
}

/// A filter whose cells are all zero takes nothing for a member, provided
/// that an element addresses at least one cell.
pub proof fn lemma_empty_reports_nothing(cells: Seq<u8>, data: Seq<u8>, k: nat)
    requires
        cells.len() > 0,
        forall|c: int| 0 <= c < cells.len() ==> cells[c] == 0,
        k >= 1,
    ensures
        !all_set(cells, slots_of(data, k, cells.len())),
{
    let slots = slots_of(data, k, cells.len());
    lemma_slots_in_range(data, k, cells.len());
    assert(cells[slots[0]] == 0);
}

/// An element whose cells have just been set is taken for a member, whatever
/// the cells held before, provided that a cell can hold more than zero.
pub proof fn lemma_marked_is_reported(cells: Seq<u8>, data: Seq<u8>, k: nat, max: u8)
    requires
        cells.len() > 0,
        max > 0,
    ensures
        all_set(
            marked(cells, slots_of(data, k, cells.len()), max),
            slots_of(data, k, cells.len()),
        ),
{
    let slots = slots_of(data, k, cells.len());
    lemma_slots_in_range(data, k, cells.len());
    assert forall|i: int| 0 <= i < slots.len() implies marked(cells, slots, max)[#[trigger] slots[i]]
        != 0 by {
        assert(slots.contains(slots[i]));
    }
}

} // verus!
