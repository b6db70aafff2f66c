//! The mathematics of the grid index, over plain sequences.
//!
//! A particle set is a sequence of grid coordinates; the position of a
//! coordinate in that sequence is the particle's slot. Nothing here mentions
//! the data structure: these functions say what any index of the particle set
//! has to contain, and the contracts of
//! [`ParticleSearchStaticMatrix`](crate::neighbor_search::ParticleSearchStaticMatrix)
//! are written in their terms.

use vstd::prelude::*;
use crate::cell::PARTS_PER_CELL;

verus! {

/// Flattened index of the cell in column `coord.0` and row `coord.1` of a grid
/// that is `width` cells wide.
pub open spec fn flat_index(width: int, coord: (usize, usize)) -> int {
    coord.0 + coord.1 * width
}

/// Whether the signed coordinate names a cell of a `width` by `height` grid.
pub open spec fn on_grid(width: int, height: int, coord: (int, int)) -> bool {
    0 <= coord.0 < width && 0 <= coord.1 < height
}

/// Whether the grid coordinate of a point names a cell of the grid.
pub open spec fn in_domain(width: int, height: int, point: (usize, usize)) -> bool {
    point.0 < width && point.1 < height
}

/// Whether every point of the particle set lies on the grid.
pub open spec fn all_in_domain(points: Seq<(usize, usize)>, width: int, height: int) -> bool {
    forall|i: int| 0 <= i < points.len() ==> in_domain(width, height, #[trigger] points[i])
}

/// Whether `slot` is the first slot whose point does not lie on the grid.
pub open spec fn is_first_outside(
    points: Seq<(usize, usize)>,
    width: int,
    height: int,
    slot: usize,
) -> bool {
    &&& slot < points.len()
    &&& !in_domain(width, height, points[slot as int])
    &&& all_in_domain(points.take(slot as int), width, height)
}

/// Whether two grid coordinates are at most one column and one row apart.
pub open spec fn adjacent(a: (usize, usize), b: (usize, usize)) -> bool {
    a.0 - b.0 <= 1 && b.0 - a.0 <= 1 && a.1 - b.1 <= 1 && b.1 - a.1 <= 1
}

/// The slots `0, 1, .., count - 1`.
pub open spec fn slot_range(count: nat) -> Seq<usize> {
    Seq::new(count, |i: int| i as usize)
}

/// The test "the point in this slot falls in `cell`".
pub open spec fn falls_in(points: Seq<(usize, usize)>, width: int, cell: int) -> spec_fn(
    usize,
) -> bool {
    |slot: usize| flat_index(width, points[slot as int]) == cell
}

/// The slots below `bound` whose point falls in `cell`, in ascending order.
pub open spec fn slots_below(
    points: Seq<(usize, usize)>,
    width: int,
    cell: int,
    bound: nat,
) -> Seq<usize> {
    slot_range(bound).filter(falls_in(points, width, cell))
}

/// All slots whose point falls in `cell`, in ascending order.
pub open spec fn slots_in_cell(points: Seq<(usize, usize)>, width: int, cell: int) -> Seq<usize> {
    slots_below(points, width, cell, points.len())
}

/// Whether the slots of a list ascend from front to back.
pub open spec fn ascending(slots: Seq<usize>) -> bool {
    forall|i: int, j: int| 0 <= i < j < slots.len() ==> slots[i] < slots[j]
}

/// What a cell list keeps of the slots offered to it in order: all of them
/// while they fit, otherwise the first `PARTS_PER_CELL`.
pub open spec fn kept(offered: Seq<usize>) -> Seq<usize> {
    if offered.len() <= PARTS_PER_CELL {
        offered
    } else {
        offered.take(PARTS_PER_CELL as int)
    }
}

/// The cell lists of a grid of `cells` cells after indexing `points`.
pub open spec fn stored_lists(points: Seq<(usize, usize)>, width: int, cells: nat) -> Seq<
    Seq<usize>,
> {
    Seq::new(cells, |c: int| kept(slots_in_cell(points, width, c)))
}

/// Whether `slot` finds its cell already full: at least `PARTS_PER_CELL`
/// earlier slots fall in the same cell.
pub open spec fn is_left_out(points: Seq<(usize, usize)>, width: int, slot: usize) -> bool {
    slots_below(points, width, flat_index(width, points[slot as int]), slot as nat).len()
        >= PARTS_PER_CELL
}

/// The test "this slot finds its cell already full".
pub open spec fn finds_cell_full(points: Seq<(usize, usize)>, width: int) -> spec_fn(
    usize,
) -> bool {
    |slot: usize| is_left_out(points, width, slot)
}

/// The slots below `bound` that find their cell already full.
pub open spec fn left_out_below(points: Seq<(usize, usize)>, width: int, bound: nat) -> Seq<
    usize,
> {
    slot_range(bound).filter(finds_cell_full(points, width))
}

/// The slots that no cell list holds after indexing `points`.
pub open spec fn left_out(points: Seq<(usize, usize)>, width: int) -> Seq<usize> {
    left_out_below(points, width, points.len())
}

/// The nine coordinates of the three-by-three block around `center`, row by
/// row from the row below `center` upwards, each row from left to right.
pub open spec fn block_coords(center: (usize, usize)) -> Seq<(int, int)> {
    Seq::new(9, |k: int| (center.0 - 1 + k % 3, center.1 - 1 + k / 3))
}

/// The test "this coordinate names a cell of the grid".
pub open spec fn names_cell(width: int, height: int) -> spec_fn((int, int)) -> bool {
    |coord: (int, int)| on_grid(width, height, coord)
}

/// Reads a signed coordinate as a cell coordinate.
pub open spec fn as_cell() -> spec_fn((int, int)) -> (usize, usize) {
    |coord: (int, int)| (coord.0 as usize, coord.1 as usize)
}

/// The cells among the first `count` coordinates of the block around `center`.
pub open spec fn valid_block_prefix(
    width: int,
    height: int,
    center: (usize, usize),
    count: int,
) -> Seq<(usize, usize)> {
    block_coords(center).take(count).filter(names_cell(width, height)).map_values(as_cell())
}

/// The coordinates of the block around `center` that name a cell of the grid,
/// in the order of [`block_coords`].
pub open spec fn valid_block(width: int, height: int, center: (usize, usize)) -> Seq<
    (usize, usize),
> {
    valid_block_prefix(width, height, center, 9)
}

/// The test "this slot is not `dropped`".
pub open spec fn is_not(dropped: usize) -> spec_fn(usize) -> bool {
    |slot: usize| slot != dropped
}

/// The slot a particle moves to when the particle in slot `dropped` leaves the
/// particle set: the slots behind it close up by one.
pub open spec fn closing_up(dropped: usize) -> spec_fn(usize) -> usize {
    |slot: usize|
        if slot < dropped {
            slot
        } else {
            (slot - 1) as usize
        }
}

/// A slot list after the particle in slot `dropped` has left the particle
/// set: its slot is gone and the others are renumbered.
pub open spec fn without_slot(slots: Seq<usize>, dropped: usize) -> Seq<usize> {
    slots.filter(is_not(dropped)).map_values(closing_up(dropped))
}

/// Looks up the list filed under a cell coordinate.
pub open spec fn list_at(lists: Seq<Seq<usize>>, width: int) -> spec_fn((usize, usize)) -> Seq<
    usize,
> {
    |coord: (usize, usize)| lists[flat_index(width, coord)]
}

/// The neighbour list of `center`: the cell lists of its valid block, one after
/// the other.
pub open spec fn neighbors_in(
    lists: Seq<Seq<usize>>,
    width: int,
    height: int,
    center: (usize, usize),
) -> Seq<usize> {
    valid_block(width, height, center).flat_map(list_at(lists, width))
}

/// A particle set with a first slot off the grid does not lie on the grid as
/// a whole, and has no second first slot off the grid.
pub proof fn lemma_first_outside_is_unique(
    points: Seq<(usize, usize)>,
    width: int,
    height: int,
    slot: usize,
    other: usize,
)
    requires
        is_first_outside(points, width, height, slot),
    ensures
        !all_in_domain(points, width, height),
        is_first_outside(points, width, height, other) ==> other == slot,
{
    if is_first_outside(points, width, height, other) {
        if other < slot {
            assert(points.take(slot as int)[other as int] == points[other as int]);
        }
        if slot < other {
            assert(points.take(other as int)[slot as int] == points[slot as int]);
        }
    }
}

/// The complete rows of `cells` cells, `width` to a row, hold no more than
/// `cells` cells.
pub proof fn lemma_rows_fit(width: int, cells: int)
    requires
        0 < width,
        0 <= cells,
    ensures
        0 <= cells / width,
        width * (cells / width) <= cells,
{
    assert(0 <= cells / width && width * (cells / width) <= cells) by (nonlinear_arith)
        requires
            0 < width,
            0 <= cells,
    ;
}

/// A cell of a grid that fits into `cells` cells has a flattened index below
/// `cells`.
pub proof fn lemma_flat_index_in_range(width: int, height: int, cells: int, coord: (usize, usize))
    requires
        0 < width,
        width * height <= cells,
        in_domain(width, height, coord),
    ensures
        0 <= coord.1 * width <= flat_index(width, coord) < cells,
{
    assert(0 <= coord.1 * width && coord.1 * width + width <= width * height) by (nonlinear_arith)
        requires
            0 < width,
            0 <= coord.1 < height,
    ;
}

/// Two cells of one grid with the same flattened index are the same cell.
pub proof fn lemma_flat_index_injective(width: int, a: (usize, usize), b: (usize, usize))
    requires
        a.0 < width,
        b.0 < width,
        flat_index(width, a) == flat_index(width, b),
    ensures
        a == b,
{
    assert(a.1 == b.1) by (nonlinear_arith)
        requires
            0 <= a.0 < width,
            0 <= b.0 < width,
            a.0 + a.1 * width == b.0 + b.1 * width,
    ;
}

/// Looking one slot further adds that slot to the list of its own cell and to
/// the left-out slots if its cell was full, and changes nothing else.
pub proof fn lemma_next_slot(points: Seq<(usize, usize)>, width: int, slot: usize)
    requires
        slot < usize::MAX,
    ensures
        forall|cell: int| #[trigger]
            slots_below(points, width, cell, (slot + 1) as nat) == if flat_index(
                width,
                points[slot as int],
            ) == cell {
                slots_below(points, width, cell, slot as nat).push(slot)
            } else {
                slots_below(points, width, cell, slot as nat)
            },
        left_out_below(points, width, (slot + 1) as nat) == if is_left_out(points, width, slot) {
            left_out_below(points, width, slot as nat).push(slot)
        } else {
            left_out_below(points, width, slot as nat)
        },
{
    let shorter = slot_range(slot as nat);
    assert(slot_range((slot + 1) as nat) =~= shorter.push(slot));
    assert forall|cell: int| #[trigger]
        slots_below(points, width, cell, (slot + 1) as nat) == if flat_index(
            width,
            points[slot as int],
        ) == cell {
            slots_below(points, width, cell, slot as nat).push(slot)
        } else {
            slots_below(points, width, cell, slot as nat)
        } by {
        shorter.lemma_filter_push(slot, falls_in(points, width, cell));
    }
    shorter.lemma_filter_push(slot, finds_cell_full(points, width));
}

/// Offering one more slot to a cell list appends it while the list has room
/// and changes nothing once the list is full.
pub proof fn lemma_kept_push(offered: Seq<usize>, slot: usize)
    ensures
        kept(offered.push(slot)) == if kept(offered).len() < PARTS_PER_CELL {
            kept(offered).push(slot)
        } else {
            kept(offered)
        },
        kept(offered).len() < PARTS_PER_CELL <==> offered.len() < PARTS_PER_CELL,
{
    if offered.len() >= PARTS_PER_CELL {
        assert(offered.push(slot).take(PARTS_PER_CELL as int) =~= offered.take(
            PARTS_PER_CELL as int,
        ));
        assert(offered.take(offered.len() as int) =~= offered);
    }
}

/// The cells of the block around `center` are exactly the cells of the grid
/// that are at most one column and one row away from `center`.
pub proof fn lemma_valid_block_members(width: int, height: int, center: (usize, usize))
    requires
        width <= usize::MAX,
        height <= usize::MAX,
    ensures
        forall|cell: (usize, usize)| #[trigger]
            valid_block(width, height, center).contains(cell) <==> in_domain(width, height, cell)
                && adjacent(cell, center),
{
    let all = block_coords(center);
    let test = names_cell(width, height);
    let passed = all.filter(test);
    let block = valid_block(width, height, center);
    assert(all.take(9) =~= all);
    assert forall|cell: (usize, usize)| #[trigger] block.contains(cell) implies in_domain(
        width,
        height,
        cell,
    ) && adjacent(cell, center) by {
        let i = choose|i: int| 0 <= i < block.len() && block[i] == cell;
        all.lemma_filter_pred(test, i);
        assert(passed.contains(passed[i]));
        all.lemma_filter_contains_rev(test, passed[i]);
        let k = choose|k: int| 0 <= k < all.len() && all[k] == passed[i];
        assert(cell == as_cell()(all[k]));
    }
    assert forall|cell: (usize, usize)|
        in_domain(width, height, cell) && adjacent(cell, center) implies #[trigger] block.contains(
        cell,
    ) by {
        let k = (cell.1 - center.1 + 1) * 3 + (cell.0 - center.0 + 1);
        assert(0 <= k < 9);
        assert(all[k] == (cell.0 as int, cell.1 as int));
        all.lemma_filter_contains(test, k);
        let i = choose|i: int| 0 <= i < passed.len() && passed[i] == all[k];
        assert(block[i] == cell);
    }
}

} // verus!
