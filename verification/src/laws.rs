//! What holds of every grid index, proved from the contracts of
//! [`ParticleSearchStaticMatrix`] and the definitions in
//! [`grid_model`](crate::grid_model).

use vstd::prelude::*;
use crate::cell::PARTS_PER_CELL;
use crate::grid_model::{
    adjacent, all_in_domain, as_cell, ascending, block_coords, closing_up, falls_in, finds_cell_full,
    flat_index, is_left_out, is_not, kept, left_out, left_out_below,
    lemma_flat_index_in_range, lemma_flat_index_injective, lemma_next_slot, lemma_rows_fit,
    lemma_valid_block_members, list_at, names_cell, neighbors_in, on_grid, slot_range,
    slots_below, slots_in_cell, stored_lists, valid_block, valid_block_prefix, without_slot,
};
use crate::neighbor_search::{
    lemma_covers_all_points, NeighborSearcher, ParticleSearchStaticMatrix,
};
use crate::seq_facts::{
    lemma_filter_all, lemma_filter_keeps_front, lemma_flat_map_contains,
    lemma_flat_map_filter_map, lemma_flat_map_no_duplicates,
};

verus! {

/// A slot is listed among the slots below `bound` of a cell exactly if it is
/// below `bound` and its point falls in that cell.
pub proof fn lemma_slots_below_members(
    points: Seq<(usize, usize)>,
    width: int,
    cell: int,
    bound: nat,
)
    requires
        bound <= usize::MAX,
    ensures
        forall|slot: usize| #[trigger]
            slots_below(points, width, cell, bound).contains(slot) <==> slot < bound
                && flat_index(width, points[slot as int]) == cell,
{
    let range = slot_range(bound);
    let test = falls_in(points, width, cell);
    let listed = range.filter(test);
    assert forall|slot: usize| #[trigger] listed.contains(slot) implies slot < bound && test(
        slot,
    ) by {
        let i = choose|i: int| 0 <= i < listed.len() && listed[i] == slot;
        range.lemma_filter_pred(test, i);
        range.lemma_filter_contains_rev(test, slot);
        let j = choose|j: int| 0 <= j < range.len() && range[j] == slot;
    }
    assert forall|slot: usize| slot < bound && test(slot) implies #[trigger] listed.contains(
        slot,
    ) by {
        assert(range[slot as int] == slot);
        range.lemma_filter_contains(test, slot as int);
    }
}

/// The slots of a cell are listed in ascending order, which is the order in
/// which a build comes to them.
pub proof fn lemma_slots_below_ascend(
    points: Seq<(usize, usize)>,
    width: int,
    cell: int,
    bound: nat,
)
    requires
        bound <= usize::MAX,
    ensures
        ascending(slots_below(points, width, cell, bound)),
        ascending(kept(slots_below(points, width, cell, bound))),
    decreases bound,
{
    if bound == 0 {
        assert(slot_range(0) =~= Seq::<usize>::empty());
        lemma_filter_all(slot_range(0), falls_in(points, width, cell));
    } else {
        let earlier = slots_below(points, width, cell, (bound - 1) as nat);
        lemma_slots_below_ascend(points, width, cell, (bound - 1) as nat);
        lemma_next_slot(points, width, (bound - 1) as usize);
        lemma_slots_below_members(points, width, cell, (bound - 1) as nat);
        assert forall|i: int| 0 <= i < earlier.len() implies earlier[i] < bound - 1 by {
            assert(earlier.contains(earlier[i]));
        }
    }
}

/// The block around a point names no cell twice, and names only cells of the
/// grid.
proof fn lemma_valid_block_prefix_distinct(
    width: int,
    height: int,
    center: (usize, usize),
    count: int,
)
    requires
        width <= usize::MAX,
        height <= usize::MAX,
        0 <= count <= 9,
    ensures
        valid_block_prefix(width, height, center, count).no_duplicates(),
        forall|cell: (usize, usize)| #[trigger]
            valid_block_prefix(width, height, center, count).contains(cell) ==> exists|k: int|
                0 <= k < count && on_grid(width, height, #[trigger] block_coords(center)[k])
                    && cell == as_cell()(block_coords(center)[k]),
    decreases count,
{
    let all = block_coords(center);
    let test = names_cell(width, height);
    if count == 0 {
        assert(all.take(0) =~= Seq::<(int, int)>::empty());
        lemma_filter_all(all.take(0), test);
    } else {
        let fewer = valid_block_prefix(width, height, center, count - 1);
        let more = valid_block_prefix(width, height, center, count);
        let next = all[count - 1];
        lemma_valid_block_prefix_distinct(width, height, center, count - 1);
        all.lemma_take_succ_push(count - 1);
        all.take(count - 1).lemma_filter_push(next, test);
        all.take(count - 1).filter(test).lemma_push_map_commute(as_cell(), next);
        if on_grid(width, height, next) {
            assert(more == fewer.push(as_cell()(next)));
            assert forall|i: int| 0 <= i < fewer.len() implies fewer[i] != as_cell()(next) by {
                assert(fewer.contains(fewer[i]));
                let k = choose|k: int|
                    0 <= k < count - 1 && on_grid(width, height, #[trigger] all[k]) && fewer[i]
                        == as_cell()(all[k]);
                assert(all[k] != next);
            }
            assert forall|cell: (usize, usize)| #[trigger] more.contains(cell) implies exists|
                k: int,
            |
                0 <= k < count && on_grid(width, height, #[trigger] all[k]) && cell == as_cell()(
                    all[k],
                ) by {
                let i = choose|i: int| 0 <= i < more.len() && more[i] == cell;
                if i < fewer.len() {
                    assert(fewer.contains(cell));
                    let k = choose|k: int|
                        0 <= k < count - 1 && on_grid(width, height, #[trigger] all[k]) && cell
                            == as_cell()(all[k]);
                    assert(0 <= k < count && on_grid(width, height, all[k]));
                } else {
                    assert(on_grid(width, height, all[count - 1]));
                }
            }
        } else {
            assert(more == fewer);
            assert forall|cell: (usize, usize)| #[trigger] more.contains(cell) implies exists|
                k: int,
            |
                0 <= k < count && on_grid(width, height, #[trigger] all[k]) && cell == as_cell()(
                    all[k],
                ) by {
                let k = choose|k: int|
                    0 <= k < count - 1 && on_grid(width, height, #[trigger] all[k]) && cell
                        == as_cell()(all[k]);
                assert(0 <= k < count && on_grid(width, height, all[k]));
            }
        }
    }
}

/// Every slot in a neighbour list is the slot of a particle, and no slot is
/// listed twice: a particle is filed under one cell only.
pub proof fn lemma_neighbors_are_distinct_slots(
    points: Seq<(usize, usize)>,
    width: int,
    height: int,
    cells: nat,
    center: (usize, usize),
)
    requires
        0 < width <= usize::MAX,
        0 <= height <= usize::MAX,
        width * height <= cells,
        points.len() <= usize::MAX,
    ensures
        neighbors_in(stored_lists(points, width, cells), width, height, center).no_duplicates(),
        forall|k: int|
            0 <= k < neighbors_in(stored_lists(points, width, cells), width, height, center).len()
                ==> (#[trigger] neighbors_in(
                stored_lists(points, width, cells),
                width,
                height,
                center,
            )[k]) < points.len(),
{
    let lists = stored_lists(points, width, cells);
    let block = valid_block(width, height, center);
    let look_up = list_at(lists, width);
    let near = neighbors_in(lists, width, height, center);
    lemma_valid_block_members(width, height, center);
    lemma_valid_block_prefix_distinct(width, height, center, 9);
    assert forall|i: int, slot: usize|
        0 <= i < block.len() && #[trigger] look_up(block[i]).contains(slot) implies slot
        < points.len() && flat_index(width, points[slot as int]) == flat_index(
        width,
        block[i],
    ) by {
        let cell = block[i];
        assert(block.contains(cell));
        lemma_flat_index_in_range(width, height, cells as int, cell);
        let index = flat_index(width, cell);
        let offered = slots_in_cell(points, width, index);
        lemma_slots_below_members(points, width, index, points.len());
        let j = choose|j: int| 0 <= j < kept(offered).len() && kept(offered)[j] == slot;
        assert(offered[j] == slot);
        assert(offered.contains(slot));
    }
    assert forall|i: int| 0 <= i < block.len() implies (#[trigger] look_up(
        block[i],
    )).no_duplicates() by {
        let cell = block[i];
        assert(block.contains(cell));
        lemma_flat_index_in_range(width, height, cells as int, cell);
        lemma_slots_below_ascend(points, width, flat_index(width, cell), points.len());
    }
    assert forall|i: int, j: int, slot: usize|
        #![trigger look_up(block[i]).contains(slot), look_up(block[j]).contains(slot)]
        0 <= i < j < block.len() && look_up(block[i]).contains(slot) implies !look_up(
        block[j],
    ).contains(slot) by {
        if look_up(block[j]).contains(slot) {
            assert(block.contains(block[i]) && block.contains(block[j]));
            lemma_flat_index_injective(width, block[i], block[j]);
        }
    }
    lemma_flat_map_no_duplicates(block, look_up);
    assert forall|k: int| 0 <= k < near.len() implies (#[trigger] near[k]) < points.len() by {
        lemma_flat_map_contains(block, look_up, near[k]);
        assert(near.contains(near[k]));
        let i = choose|i: int| 0 <= i < block.len() && #[trigger] look_up(block[i]).contains(near[k]);
    }
}

/// Without a cell over capacity, the neighbour list of a point holds exactly
/// the slots whose point lies at most one column and one row away from it.
pub proof fn lemma_neighbors_are_the_adjacent_slots(
    points: Seq<(usize, usize)>,
    width: int,
    height: int,
    cells: nat,
    center: (usize, usize),
)
    requires
        0 < width <= usize::MAX,
        0 <= height <= usize::MAX,
        width * height <= cells,
        points.len() <= usize::MAX,
        all_in_domain(points, width, height),
        forall|cell: int|
            0 <= cell < cells ==> (#[trigger] slots_in_cell(points, width, cell)).len()
                <= PARTS_PER_CELL,
    ensures
        neighbors_in(stored_lists(points, width, cells), width, height, center).to_set()
            == Set::new(
            |slot: usize| slot < points.len() && adjacent(points[slot as int], center),
        ),
{
    let lists = stored_lists(points, width, cells);
    let block = valid_block(width, height, center);
    let look_up = list_at(lists, width);
    let near = neighbors_in(lists, width, height, center);
    let brute = Set::new(
        |slot: usize| slot < points.len() && adjacent(points[slot as int], center),
    );
    lemma_valid_block_members(width, height, center);
    assert forall|slot: usize| near.to_set().contains(slot) <==> brute.contains(slot) by {
        lemma_flat_map_contains(block, look_up, slot);
        if near.contains(slot) {
            let i = choose|i: int| 0 <= i < block.len() && #[trigger] look_up(block[i]).contains(slot);
            let cell = block[i];
            assert(block.contains(cell));
            lemma_flat_index_in_range(width, height, cells as int, cell);
            let index = flat_index(width, cell);
            assert(slots_in_cell(points, width, index).len() <= PARTS_PER_CELL);
            lemma_slots_below_members(points, width, index, points.len());
            lemma_flat_index_injective(width, points[slot as int], cell);
        }
        if brute.contains(slot) {
            let cell = points[slot as int];
            assert(block.contains(cell));
            let i = choose|i: int| 0 <= i < block.len() && block[i] == cell;
            lemma_flat_index_in_range(width, height, cells as int, cell);
            let index = flat_index(width, cell);
            assert(slots_in_cell(points, width, index).len() <= PARTS_PER_CELL);
            lemma_slots_below_members(points, width, index, points.len());
            assert(look_up(block[i]).contains(slot));
        }
    }
    assert(near.to_set() =~= brute);
}

/// Two grids of the same width that file the same particle set hold the same
/// cell lists, report the same overflow and list the same neighbours for every
/// point: what a build leaves behind depends on its input alone.
pub proof fn lemma_same_input_same_index<const C: usize>(
    first: ParticleSearchStaticMatrix<C>,
    second: ParticleSearchStaticMatrix<C>,
    points: Seq<(usize, usize)>,
    center: (usize, usize),
)
    requires
        first.grid_width() == second.grid_width(),
        first.indexes(points),
        second.indexes(points),
    ensures
        first.cell_lists() == second.cell_lists(),
        first.dropped_count() == second.dropped_count(),
        first.neighbors(center) == second.neighbors(center),
{
}

/// Among the first `bound` slots some slot is left out exactly if some cell is
/// offered more slots than it can hold.
pub proof fn lemma_left_out_below_iff_over_capacity(
    points: Seq<(usize, usize)>,
    width: int,
    bound: nat,
)
    requires
        bound <= usize::MAX,
    ensures
        left_out_below(points, width, bound).len() > 0 <==> exists|cell: int|
            (#[trigger] slots_below(points, width, cell, bound)).len() > PARTS_PER_CELL,
    decreases bound,
{
    if bound == 0 {
        assert(slot_range(0) =~= Seq::<usize>::empty());
        lemma_filter_all(slot_range(0), finds_cell_full(points, width));
        assert forall|cell: int|
            (#[trigger] slots_below(points, width, cell, 0)).len() <= PARTS_PER_CELL by {
            lemma_filter_all(slot_range(0), falls_in(points, width, cell));
        }
    } else {
        let slot = (bound - 1) as usize;
        let before = (bound - 1) as nat;
        let own = flat_index(width, points[slot as int]);
        lemma_left_out_below_iff_over_capacity(points, width, before);
        lemma_next_slot(points, width, slot);
        if left_out_below(points, width, bound).len() > 0 {
            if is_left_out(points, width, slot) {
                assert(slots_below(points, width, own, bound).len() > PARTS_PER_CELL);
            } else {
                let cell = choose|cell: int|
                    (#[trigger] slots_below(points, width, cell, before)).len() > PARTS_PER_CELL;
                assert(slots_below(points, width, cell, bound).len() > PARTS_PER_CELL);
            }
        }
        if exists|cell: int|
            (#[trigger] slots_below(points, width, cell, bound)).len() > PARTS_PER_CELL {
            let cell = choose|cell: int|
                (#[trigger] slots_below(points, width, cell, bound)).len() > PARTS_PER_CELL;
            if cell == own {
                assert(is_left_out(points, width, slot));
            } else {
                assert(slots_below(points, width, cell, before).len() > PARTS_PER_CELL);
            }
        }
    }
}

/// Some slot is left out of the index exactly if some cell is offered more
/// slots than it can hold.
pub proof fn lemma_left_out_iff_over_capacity(points: Seq<(usize, usize)>, width: int)
    requires
        points.len() <= usize::MAX,
    ensures
        left_out(points, width).len() > 0 <==> exists|cell: int|
            (#[trigger] slots_in_cell(points, width, cell)).len() > PARTS_PER_CELL,
{
    lemma_left_out_below_iff_over_capacity(points, width, points.len());
    if exists|cell: int| (#[trigger] slots_in_cell(points, width, cell)).len() > PARTS_PER_CELL {
        let cell = choose|cell: int|
            (#[trigger] slots_in_cell(points, width, cell)).len() > PARTS_PER_CELL;
        assert(slots_below(points, width, cell, points.len()).len() > PARTS_PER_CELL);
    }
    if exists|cell: int|
        (#[trigger] slots_below(points, width, cell, points.len())).len() > PARTS_PER_CELL {
        let cell = choose|cell: int|
            (#[trigger] slots_below(points, width, cell, points.len())).len() > PARTS_PER_CELL;
        assert(slots_in_cell(points, width, cell).len() > PARTS_PER_CELL);
    }
}

/// A cell that is offered no more slots than it can hold lists all of them,
/// whatever is offered to the other cells; a cell that is offered more lists
/// the first `PARTS_PER_CELL` of its own.
pub proof fn lemma_overflow_stays_in_its_cell(
    points: Seq<(usize, usize)>,
    width: int,
    cells: nat,
    cell: int,
)
    requires
        0 <= cell < cells,
    ensures
        slots_in_cell(points, width, cell).len() <= PARTS_PER_CELL ==> stored_lists(
            points,
            width,
            cells,
        )[cell] == slots_in_cell(points, width, cell),
        slots_in_cell(points, width, cell).len() > PARTS_PER_CELL ==> stored_lists(
            points,
            width,
            cells,
        )[cell] == slots_in_cell(points, width, cell).take(PARTS_PER_CELL as int),
{
}

/// Appending a slot to a list before a particle leaves appends its new number
/// afterwards, unless it is the slot of the particle that leaves.
pub proof fn lemma_without_slot_push(slots: Seq<usize>, slot: usize, dropped: usize)
    ensures
        without_slot(slots.push(slot), dropped) == if slot != dropped {
            without_slot(slots, dropped).push(closing_up(dropped)(slot))
        } else {
            without_slot(slots, dropped)
        },
{
    slots.lemma_filter_push(slot, is_not(dropped));
    slots.filter(is_not(dropped)).lemma_push_map_commute(closing_up(dropped), slot);
}

/// The slots of a cell among the first `bound` particles, after the particle
/// in slot `dropped` has left, are the renumbered slots of that cell among the
/// particles that stood in the same places before.
proof fn lemma_cell_without_particle_below(
    points: Seq<(usize, usize)>,
    width: int,
    cell: int,
    dropped: usize,
    bound: nat,
)
    requires
        dropped < points.len() <= usize::MAX,
        bound < points.len(),
    ensures
        slots_below(points.remove(dropped as int), width, cell, bound) == without_slot(
            slots_below(
                points,
                width,
                cell,
                if bound <= dropped {
                    bound
                } else {
                    (bound + 1) as nat
                },
            ),
            dropped,
        ),
    decreases bound,
{
    let after = points.remove(dropped as int);
    if bound == 0 {
        assert(slot_range(0) =~= Seq::<usize>::empty());
        lemma_filter_all(slot_range(0), falls_in(after, width, cell));
        lemma_filter_all(slot_range(0), falls_in(points, width, cell));
        lemma_filter_all(slot_range(0), is_not(dropped));
        assert(without_slot(Seq::<usize>::empty(), dropped) =~= Seq::<usize>::empty());
    } else {
        let added = (bound - 1) as usize;
        lemma_cell_without_particle_below(points, width, cell, dropped, (bound - 1) as nat);
        lemma_next_slot(after, width, added);
        if added < dropped {
            assert(after[added as int] == points[added as int]);
            lemma_next_slot(points, width, added);
            lemma_without_slot_push(
                slots_below(points, width, cell, added as nat),
                added,
                dropped,
            );
        } else if added == dropped {
            assert(after[added as int] == points[added + 1]);
            lemma_next_slot(points, width, dropped);
            lemma_next_slot(points, width, (dropped + 1) as usize);
            lemma_without_slot_push(
                slots_below(points, width, cell, dropped as nat),
                dropped,
                dropped,
            );
            lemma_without_slot_push(
                slots_below(points, width, cell, (dropped + 1) as nat),
                (dropped + 1) as usize,
                dropped,
            );
        } else {
            assert(after[added as int] == points[added + 1]);
            lemma_next_slot(points, width, (added + 1) as usize);
            lemma_without_slot_push(
                slots_below(points, width, cell, (added + 1) as nat),
                (added + 1) as usize,
                dropped,
            );
        }
    }
}

/// The slots of a cell after the particle in slot `dropped` has left the
/// particle set are its slots before, without that slot and renumbered.
pub proof fn lemma_cell_without_particle(
    points: Seq<(usize, usize)>,
    width: int,
    cell: int,
    dropped: usize,
)
    requires
        dropped < points.len() <= usize::MAX,
    ensures
        slots_in_cell(points.remove(dropped as int), width, cell) == without_slot(
            slots_in_cell(points, width, cell),
            dropped,
        ),
{
    lemma_cell_without_particle_below(
        points,
        width,
        cell,
        dropped,
        (points.len() - 1) as nat,
    );
    if points.len() - 1 <= dropped {
        lemma_next_slot(points, width, dropped);
        lemma_without_slot_push(
            slots_below(points, width, cell, dropped as nat),
            dropped,
            dropped,
        );
    }
}

/// What a cell list keeps after a particle has left is what it kept before,
/// without that particle's slot and renumbered, provided the list either kept
/// every slot it was offered or did not keep the slot of the particle that
/// leaves.
pub proof fn lemma_kept_without_slot(offered: Seq<usize>, dropped: usize)
    requires
        kept(offered).contains(dropped) ==> offered.len() <= PARTS_PER_CELL,
    ensures
        kept(without_slot(offered, dropped)) == without_slot(kept(offered), dropped),
{
    let stay = is_not(dropped);
    let rename = closing_up(dropped);
    offered.lemma_filter_len(stay);
    if offered.len() > PARTS_PER_CELL {
        let front = offered.take(PARTS_PER_CELL as int);
        assert forall|i: int| 0 <= i < PARTS_PER_CELL implies stay(#[trigger] offered[i]) by {
            assert(front[i] == offered[i]);
            assert(front.contains(offered[i]));
        }
        lemma_filter_keeps_front(offered, stay, PARTS_PER_CELL as int);
        lemma_filter_all(front, stay);
        assert(offered.filter(stay).map_values(rename).take(PARTS_PER_CELL as int)
            =~= offered.filter(stay).take(PARTS_PER_CELL as int).map_values(rename));
        assert(without_slot(offered, dropped).take(without_slot(offered, dropped).len() as int)
            =~= without_slot(offered, dropped));
    }
}

/// Dropping a particle from the particle set changes the neighbour list of a
/// point in one way only: the slot of the dropped particle is gone from it,
/// and the slots behind it are renumbered.
///
/// There is one situation in which this cannot hold, and it is left out: the
/// dropped particle was listed as a neighbour while its cell was over
/// capacity. Its leaving then makes room for a particle that the cell had
/// turned away, and that particle newly appears in the list.
pub proof fn lemma_dropping_a_particle(
    points: Seq<(usize, usize)>,
    width: int,
    height: int,
    cells: nat,
    dropped: usize,
    center: (usize, usize),
)
    requires
        0 < width <= usize::MAX,
        0 <= height <= usize::MAX,
        width * height <= cells,
        dropped < points.len() <= usize::MAX,
        neighbors_in(stored_lists(points, width, cells), width, height, center).contains(dropped)
            ==> slots_in_cell(points, width, flat_index(width, points[dropped as int])).len()
            <= PARTS_PER_CELL,
    ensures
        neighbors_in(
            stored_lists(points.remove(dropped as int), width, cells),
            width,
            height,
            center,
        ) == without_slot(
            neighbors_in(stored_lists(points, width, cells), width, height, center),
            dropped,
        ),
{
    let after = points.remove(dropped as int);
    let block = valid_block(width, height, center);
    let look_up = list_at(stored_lists(points, width, cells), width);
    let look_up_after = list_at(stored_lists(after, width, cells), width);
    lemma_valid_block_members(width, height, center);
    assert forall|i: int| 0 <= i < block.len() implies #[trigger] look_up_after(block[i])
        == look_up(block[i]).filter(is_not(dropped)).map_values(closing_up(dropped)) by {
        let cell = block[i];
        assert(block.contains(cell));
        lemma_flat_index_in_range(width, height, cells as int, cell);
        let index = flat_index(width, cell);
        let offered = slots_in_cell(points, width, index);
        lemma_cell_without_particle(points, width, index, dropped);
        if kept(offered).contains(dropped) {
            lemma_flat_map_contains(block, look_up, dropped);
            assert(look_up(block[i]).contains(dropped));
            if offered.len() > PARTS_PER_CELL {
                assert(offered.take(PARTS_PER_CELL as int).contains(dropped));
                let j = choose|j: int|
                    0 <= j < PARTS_PER_CELL && offered.take(PARTS_PER_CELL as int)[j] == dropped;
                assert(offered[j] == dropped);
            }
            assert(offered.contains(dropped));
            lemma_slots_below_members(points, width, index, points.len());
        }
        lemma_kept_without_slot(offered, dropped);
    }
    lemma_flat_map_filter_map(
        block,
        look_up,
        look_up_after,
        is_not(dropped),
        closing_up(dropped),
    );
}

/// A grid that reports no overflow lists, for every point, exactly the slots
/// of the particles at most one column and one row away from it.
pub proof fn lemma_grid_lists_the_adjacent_slots<const C: usize>(
    grid: ParticleSearchStaticMatrix<C>,
    points: Seq<(usize, usize)>,
    center: (usize, usize),
)
    requires
        grid.well_formed(),
        grid.indexes(points),
        grid.covers_all(points),
        points.len() <= usize::MAX,
        grid.dropped_count() == 0,
    ensures
        grid.neighbors(center).to_set() == Set::new(
            |slot: usize| slot < points.len() && adjacent(points[slot as int], center),
        ),
{
    let width = grid.grid_width();
    let height = grid.grid_height();
    lemma_rows_fit(width, C as int);
    lemma_left_out_iff_over_capacity(points, width);
    lemma_covers_all_points(grid, points);
    lemma_neighbors_are_the_adjacent_slots(points, width, height, C as nat, center);
}

/// Every slot a grid lists near a point is the slot of a particle of the set
/// it files, and no slot is listed twice.
pub proof fn lemma_grid_lists_distinct_slots<const C: usize>(
    grid: ParticleSearchStaticMatrix<C>,
    points: Seq<(usize, usize)>,
    center: (usize, usize),
)
    requires
        grid.well_formed(),
        grid.indexes(points),
        points.len() <= usize::MAX,
    ensures
        grid.neighbors(center).no_duplicates(),
        forall|k: int|
            0 <= k < grid.neighbors(center).len() ==> (#[trigger] grid.neighbors(center)[k])
                < points.len(),
{
    lemma_rows_fit(grid.grid_width(), C as int);
    lemma_neighbors_are_distinct_slots(
        points,
        grid.grid_width(),
        grid.grid_height(),
        C as nat,
        center,
    );
}

/// A grid reports an overflow exactly if its particle set puts more slots in
/// some cell than the cell can hold; whether it does or not, every cell that
/// is not over capacity lists all of its slots.
pub proof fn lemma_grid_reports_overflow<const C: usize>(
    grid: ParticleSearchStaticMatrix<C>,
    points: Seq<(usize, usize)>,
)
    requires
        grid.indexes(points),
        points.len() <= usize::MAX,
    ensures
        grid.dropped_count() > 0 <==> exists|cell: int|
            (#[trigger] slots_in_cell(points, grid.grid_width(), cell)).len() > PARTS_PER_CELL,
        forall|cell: int|
            0 <= cell < C && (#[trigger] slots_in_cell(points, grid.grid_width(), cell)).len()
                <= PARTS_PER_CELL ==> grid.cell_lists()[cell] == slots_in_cell(
                points,
                grid.grid_width(),
                cell,
            ),
{
    lemma_left_out_iff_over_capacity(points, grid.grid_width());
}

/// Rebuilding a grid without one particle changes the neighbour list of a
/// point in one way only: the slot of that particle is gone from it, and the
/// slots behind it are renumbered.
///
/// Left out is the one situation in which this cannot hold: the particle was
/// listed as a neighbour while its cell was over capacity.
pub proof fn lemma_grid_without_a_particle<const C: usize>(
    before: ParticleSearchStaticMatrix<C>,
    after: ParticleSearchStaticMatrix<C>,
    points: Seq<(usize, usize)>,
    dropped: usize,
    center: (usize, usize),
)
    requires
        before.well_formed(),
        after.grid_width() == before.grid_width(),
        dropped < points.len() <= usize::MAX,
        before.indexes(points),
        after.indexes(points.remove(dropped as int)),
        before.neighbors(center).contains(dropped) ==> slots_in_cell(
            points,
            before.grid_width(),
            flat_index(before.grid_width(), points[dropped as int]),
        ).len() <= PARTS_PER_CELL,
    ensures
        after.neighbors(center) == without_slot(before.neighbors(center), dropped),
{
    lemma_rows_fit(before.grid_width(), C as int);
    lemma_dropping_a_particle(
        points,
        before.grid_width(),
        before.grid_height(),
        C as nat,
        dropped,
        center,
    );
}

} // verus!
