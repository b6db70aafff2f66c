//! The fixed-capacity list behind one grid cell.
//!
//! A cell keeps its slots in a `heapless::Vec`, which lives entirely inside the
//! grid and never allocates. The verifier does not look inside that type: what
//! this module states about it is taken from the `heapless` sources and is the
//! only unproved ground the rest of the crate stands on.

use vstd::prelude::*;

verus! {

/// How many particle slots one grid cell can hold.
pub const PARTS_PER_CELL: usize = 10;

/// Makes `heapless::Vec` known to the verifier as an opaque type.
#[verifier::external_type_specification]
#[verifier::external_body]
#[verifier::reject_recursive_types(T)]
pub struct ExHeaplessVec<T, const N: usize>(heapless::Vec<T, N>);

/// The slots a cell list holds, oldest first.
pub uninterp spec fn cell_slots(cell: heapless::Vec<usize, PARTS_PER_CELL>) -> Seq<usize>;

/// One empty list per cell, each made by `heapless::Vec::new`.
///
/// Unproved: `new` returns a vector of length zero, so every list starts out
/// holding no slot.
#[verifier::external_body]
pub(crate) fn empty_cells<const C: usize>() -> (cells: [heapless::Vec<usize, PARTS_PER_CELL>; C])
    ensures
        forall|c: int| 0 <= c < C ==> cell_slots(#[trigger] cells@[c]) == Seq::<usize>::empty(),
{
    core::array::from_fn(|_| heapless::Vec::new())
}

/// Appends `slot` to a cell list with `heapless::Vec::push`.
///
/// Unproved: while the list holds fewer than `PARTS_PER_CELL` slots, `push`
/// writes the slot behind the last one and returns `Ok`; once the list is full
/// it changes nothing and hands the slot back in `Err`.
#[verifier::external_body]
pub(crate) fn cell_push(
    cell: &mut heapless::Vec<usize, PARTS_PER_CELL>,
    slot: usize,
) -> (outcome: Result<(), usize>)
    ensures
        outcome is Ok <==> cell_slots(*old(cell)).len() < PARTS_PER_CELL,
        outcome matches Err(back) ==> back == slot,
        cell_slots(*final(cell)) == if cell_slots(*old(cell)).len() < PARTS_PER_CELL {
            cell_slots(*old(cell)).push(slot)
        } else {
            cell_slots(*old(cell))
        },
{
    cell.push(slot)
}

/// Borrows the slots of a cell list with `heapless::Vec::as_slice`.
///
/// Unproved: the slice covers exactly the slots the list holds, in the order
/// they were pushed.
#[verifier::external_body]
pub(crate) fn cell_as_slice(cell: &heapless::Vec<usize, PARTS_PER_CELL>) -> (slots: &[usize])
    ensures
        slots@ == cell_slots(*cell),
{
    cell.as_slice()
}

} // verus!
