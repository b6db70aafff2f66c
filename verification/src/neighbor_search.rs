//! The grid index over particle positions.

use vstd::prelude::*;
use crate::cell::{cell_as_slice, cell_push, cell_slots, empty_cells, PARTS_PER_CELL};
use crate::grid_model::{
    all_in_domain, as_cell, block_coords, finds_cell_full, flat_index, in_domain, is_first_outside,
    kept, left_out, left_out_below, lemma_first_outside_is_unique, lemma_flat_index_in_range,
    lemma_kept_push, lemma_next_slot, lemma_rows_fit,
    lemma_valid_block_members, list_at, names_cell, neighbors_in, on_grid, slot_range,
    slots_below, stored_lists, valid_block, valid_block_prefix,
};

verus! {

/// An index over a particle set that answers which particles lie near a point.
///
/// A particle is known by its slot, its position in the sequence of points the
/// index was last built from.
pub trait NeighborSearcher {
    /// How a position is handed to the index.
    type Point;

    /// The index is in a usable state.
    spec fn well_formed(&self) -> bool;

    /// The index covers the place of `point`.
    spec fn covers(&self, point: Self::Point) -> bool;

    /// The index covers the place of every point of `points`.
    open spec fn covers_all(&self, points: Seq<Self::Point>) -> bool {
        forall|i: int| 0 <= i < points.len() ==> #[trigger] self.covers(points[i])
    }

    /// The index files exactly the particle set `points`.
    spec fn indexes(&self, points: Seq<Self::Point>) -> bool;

    /// The slots the index lists near `point`, in the order it lists them.
    spec fn neighbors(&self, point: Self::Point) -> Seq<usize>;

    /// The slots of the particles near `point`.
    fn get_neigbors(&self, point: Self::Point) -> (slots: Vec<usize>)
        requires
            self.well_formed(),
            self.covers(point),
        ensures
            slots@ == self.neighbors(point),
    ;

    /// Forgets what the index held and files `points` from scratch.
    fn build(&mut self, points: &[Self::Point])
        requires
            old(self).well_formed(),
            old(self).covers_all(points@),
        ensures
            final(self).well_formed(),
            final(self).indexes(points@),
            forall|point: Self::Point| final(self).covers(point) == old(self).covers(point),
    ;
}

/// Why a grid cannot be made or cannot take a point.
#[derive(Debug, Clone, Copy, PartialEq, Eq, Structural)]
pub enum GridError {
    /// The grid would have no columns.
    ZeroWidth,
    /// The grid has more columns or rows than signed coordinates can count.
    TooLarge,
    /// A point names no cell of the grid: its column or its row is off the
    /// grid.
    OutOfDomain { column: usize, row: usize },
}

impl GridError {
    /// What is wrong with the grid that was asked for, in words.
    pub fn describe(&self) -> (text: &'static str)
        ensures
            text@ == match self {
                GridError::ZeroWidth => "grid width must be at least one cell"@,
                GridError::TooLarge => "grid has more columns or rows than isize::MAX"@,
                GridError::OutOfDomain { .. } => "point lies outside the grid"@,
            },
    {
        match self {
            GridError::ZeroWidth => "grid width must be at least one cell",
            GridError::TooLarge => "grid has more columns or rows than isize::MAX",
            GridError::OutOfDomain { .. } => "point lies outside the grid",
        }
    }
}

/// A uniform grid of `C` cells, `width` cells to a row, that files particle
/// slots under the cell their position falls in.
#[derive(Debug)]
pub struct ParticleSearchStaticMatrix<const C: usize> {
    cells: [heapless::Vec<usize, PARTS_PER_CELL>; C],
    width: usize,
    dropped: usize,
}

impl<const C: usize> ParticleSearchStaticMatrix<C> {
    /// Number of cells in a row.
    pub closed spec fn grid_width(&self) -> int {
        self.width as int
    }

    /// Number of complete rows that `C` cells make.
    pub open spec fn grid_height(&self) -> int {
        C as int / self.grid_width()
    }

    /// The slots filed under each cell, by flattened cell index.
    pub closed spec fn cell_lists(&self) -> Seq<Seq<usize>> {
        Seq::new(C as nat, |c: int| cell_slots(self.cells@[c]))
    }

    /// How many slots the last build could not file.
    pub closed spec fn dropped_count(&self) -> nat {
        self.dropped as nat
    }

    /// An empty grid `width` cells wide.
    ///
    /// The grid is made for every width of at least one cell whose columns
    /// and rows signed coordinates can count; any other width is refused with
    /// the error that names what is wrong with it.
    pub fn new(width: usize) -> (made: Result<Self, GridError>)
        ensures
            made is Ok <==> width != 0 && width <= isize::MAX && C as int / width as int
                <= isize::MAX,
            width == 0 <==> made == Err::<Self, GridError>(GridError::ZeroWidth),
            width != 0 && (width > isize::MAX || C as int / width as int > isize::MAX) <==> made
                == Err::<Self, GridError>(GridError::TooLarge),
            made matches Ok(grid) ==> {
                &&& grid.well_formed()
                &&& grid.grid_width() == width
                &&& grid.cell_lists() == Seq::new(C as nat, |c: int| Seq::<usize>::empty())
                &&& grid.dropped_count() == 0
            },
    {
        if width == 0 {
            return Err(GridError::ZeroWidth);
        }
        if width > isize::MAX as usize || C / width > isize::MAX as usize {
            return Err(GridError::TooLarge);
        }
        let grid = ParticleSearchStaticMatrix { cells: empty_cells(), width, dropped: 0 };
        assert(grid.cell_lists() =~= Seq::new(C as nat, |c: int| Seq::<usize>::empty()));
        Ok(grid)
    }

    /// Number of cells in a row.
    pub fn width(&self) -> (width: usize)
        ensures
            width == self.grid_width(),
    {
        self.width
    }

    /// Number of complete rows.
    pub fn height(&self) -> (height: usize)
        requires
            self.well_formed(),
        ensures
            height == self.grid_height(),
    {
        C / self.width
    }

    /// How many slots the last build could not file because their cell was
    /// full.
    pub fn overflow_count(&self) -> (count: usize)
        ensures
            count == self.dropped_count(),
    {
        self.dropped
    }

    /// Whether the last build left any slot out: the index is then lossy.
    pub fn has_overflowed(&self) -> (lossy: bool)
        ensures
            lossy == (self.dropped_count() > 0),
    {
        self.dropped > 0
    }

    /// The slots filed under the cell with flattened index `index`, oldest
    /// first.
    pub fn cell(&self, index: usize) -> (slots: Vec<usize>)
        requires
            index < C,
        ensures
            slots@ == self.cell_lists()[index as int],
    {
        let mut slots: Vec<usize> = Vec::new();
        append_slots(&mut slots, cell_as_slice(&self.cells[index]));
        slots
    }

    /// Whether `point` names a cell of the grid.
    pub fn is_in_domain(&self, point: &(usize, usize)) -> (inside: bool)
        requires
            self.well_formed(),
        ensures
            inside == self.covers(*point),
    {
        point.0 < self.width && point.1 < self.height()
    }

    /// The first slot of `points` whose point names no cell of the grid, if
    /// there is one.
    pub fn first_out_of_domain(&self, points: &[(usize, usize)]) -> (found: Option<usize>)
        requires
            self.well_formed(),
        ensures
            found is None <==> self.covers_all(points@),
            found matches Some(slot) ==> is_first_outside(
                points@,
                self.grid_width(),
                self.grid_height(),
                slot,
            ),
    {
        let mut slot: usize = 0;
        while slot < points.len()
            invariant
                slot <= points.len(),
                self.well_formed(),
                all_in_domain(
                    points@.take(slot as int),
                    self.grid_width(),
                    self.grid_height(),
                ),
            decreases points.len() - slot,
        {
            if !self.is_in_domain(&points[slot]) {
                proof {
                    lemma_first_outside_is_unique(
                        points@,
                        self.grid_width(),
                        self.grid_height(),
                        slot,
                        slot,
                    );
                    lemma_covers_all_points(*self, points@);
                }
                return Some(slot);
            }
            proof {
                points@.lemma_take_succ_push(slot as int);
            }
            slot = slot + 1;
        }
        proof {
            assert(points@.take(points@.len() as int) =~= points@);
            lemma_covers_all_points(*self, points@);
        }
        None
    }

    /// Files `points` from scratch if every one of them names a cell of the
    /// grid; otherwise reports the first that does not and leaves the grid as
    /// it was.
    pub fn try_build(&mut self, points: &[(usize, usize)]) -> (outcome: Result<(), GridError>)
        requires
            old(self).well_formed(),
        ensures
            final(self).well_formed(),
            final(self).grid_width() == old(self).grid_width(),
            outcome is Ok <==> old(self).covers_all(points@),
            outcome is Ok ==> final(self).indexes(points@),
            outcome matches Err(error) ==> *final(self) == *old(self) && exists|slot: usize|
                is_first_outside(points@, old(self).grid_width(), old(self).grid_height(), slot)
                    && error == (GridError::OutOfDomain {
                    column: points@[slot as int].0,
                    row: points@[slot as int].1,
                }),
    {
        let found: Option<usize> = self.first_out_of_domain(points);
        match found {
            Some(slot) => Err(
                GridError::OutOfDomain { column: points[slot].0, row: points[slot].1 },
            ),
            None => {
                self.build(points);
                Ok(())
            },
        }
    }

    /// The slots of the particles near `point` if it names a cell of the grid;
    /// otherwise a report that it does not.
    pub fn try_get_neigbors(&self, point: (usize, usize)) -> (outcome: Result<
        Vec<usize>,
        GridError,
    >)
        requires
            self.well_formed(),
        ensures
            outcome is Ok <==> self.covers(point),
            outcome matches Ok(slots) ==> slots@ == self.neighbors(point),
            outcome matches Err(error) ==> error == (GridError::OutOfDomain {
                column: point.0,
                row: point.1,
            }),
    {
        if self.is_in_domain(&point) {
            Ok(self.get_neigbors(point))
        } else {
            Err(GridError::OutOfDomain { column: point.0, row: point.1 })
        }
    }

    /// Whether the signed coordinate names a cell of a grid with `height` rows.
    pub fn is_valid_grid(&self, coord: (isize, isize), height: usize) -> (valid: bool)
        ensures
            valid == on_grid(self.grid_width(), height as int, (coord.0 as int, coord.1 as int)),
    {
        coord.0 >= 0 && (coord.0 as usize) < self.width && coord.1 >= 0 && (coord.1 as usize)
            < height
    }

    /// Flattened index of the cell that `point` falls in.
    pub fn get_cell_index(&self, point: &(usize, usize)) -> (index: usize)
        requires
            self.well_formed(),
            in_domain(self.grid_width(), self.grid_height(), *point),
        ensures
            index == flat_index(self.grid_width(), *point),
            index < C,
    {
        proof {
            lemma_rows_fit(self.grid_width(), C as int);
            lemma_flat_index_in_range(self.grid_width(), self.grid_height(), C as int, *point);
        }
        point.0 + point.1 * self.width
    }

    /// The coordinate as a cell of a grid with `height` rows, if it names one.
    pub fn get_grid_indexes(&self, coord: (isize, isize), height: usize) -> (cell: Option<
        (usize, usize),
    >)
        ensures
            cell == if on_grid(self.grid_width(), height as int, (coord.0 as int, coord.1 as int)) {
                Some((coord.0 as usize, coord.1 as usize))
            } else {
                None
            },
    {
        if self.is_valid_grid(coord, height) {
            Some((coord.0 as usize, coord.1 as usize))
        } else {
            None
        }
    }

    /// The cells of the three-by-three block around the cell of `point`,
    /// row by row, without the coordinates that fall off the grid.
    pub fn gen_valid_cell_indexes(&self, point: (usize, usize)) -> (block: Vec<(usize, usize)>)
        requires
            self.well_formed(),
            in_domain(self.grid_width(), self.grid_height(), point),
        ensures
            block@ == valid_block(self.grid_width(), self.grid_height(), point),
    {
        let height: usize = self.height();
        let column: isize = point.0 as isize;
        let row: isize = point.1 as isize;
        let mut block: Vec<(usize, usize)> = Vec::new();
        let mut k: usize = 0;
        while k < 9
            invariant
                k <= 9,
                self.well_formed(),
                in_domain(self.grid_width(), self.grid_height(), point),
                height == self.grid_height(),
                column == point.0,
                row == point.1,
                block@ == valid_block_prefix(
                    self.grid_width(),
                    self.grid_height(),
                    point,
                    k as int,
                ),
            decreases 9 - k,
        {
            let across: isize = (k % 3) as isize;
            let up: isize = (k / 3) as isize;
            let coord: (isize, isize) = (column - 1 + across, row - 1 + up);
            proof {
                let all = block_coords(point);
                let test = names_cell(self.grid_width(), self.grid_height());
                assert(all[k as int] == (coord.0 as int, coord.1 as int));
                all.lemma_take_succ_push(k as int);
                all.take(k as int).lemma_filter_push(all[k as int], test);
                all.take(k as int).filter(test).lemma_push_map_commute(as_cell(), all[k as int]);
            }
            match self.get_grid_indexes(coord, height) {
                Some(cell) => {
                    block.push(cell);
                },
                None => {},
            }
            k = k + 1;
        }
        block
    }
}

/// A grid covers a particle set exactly if every point of the set names one of
/// its cells.
pub proof fn lemma_covers_all_points<const C: usize>(
    grid: ParticleSearchStaticMatrix<C>,
    points: Seq<(usize, usize)>,
)
    ensures
        grid.covers_all(points) <==> all_in_domain(
            points,
            grid.grid_width(),
            grid.grid_height(),
        ),
{
    if grid.covers_all(points) {
        assert forall|i: int| 0 <= i < points.len() implies in_domain(
            grid.grid_width(),
            grid.grid_height(),
            #[trigger] points[i],
        ) by {
            assert(grid.covers(points[i]));
        }
    }
    if all_in_domain(points, grid.grid_width(), grid.grid_height()) {
        assert forall|i: int| 0 <= i < points.len() implies #[trigger] grid.covers(
            points[i],
        ) by {
            assert(in_domain(grid.grid_width(), grid.grid_height(), points[i]));
        }
    }
}

/// Appends the slots of `list` to `slots`.
fn append_slots(slots: &mut Vec<usize>, list: &[usize])
    ensures
        final(slots)@ == old(slots)@ + list@,
{
    let mut taken: usize = 0;
    while taken < list.len()
        invariant
            taken <= list.len(),
            slots@ == old(slots)@ + list@.take(taken as int),
        decreases list.len() - taken,
    {
        slots.push(list[taken]);
        proof {
            list@.lemma_take_succ_push(taken as int);
        }
        taken = taken + 1;
    }
}

impl<const C: usize> NeighborSearcher for ParticleSearchStaticMatrix<C> {
    type Point = (usize, usize);

    /// The grid has at least one column, and its columns and rows can be
    /// counted with signed coordinates.
    open spec fn well_formed(&self) -> bool {
        &&& 0 < self.grid_width() <= isize::MAX
        &&& self.grid_height() <= isize::MAX
    }

    open spec fn covers(&self, point: (usize, usize)) -> bool {
        in_domain(self.grid_width(), self.grid_height(), point)
    }

    open spec fn indexes(&self, points: Seq<(usize, usize)>) -> bool {
        &&& self.cell_lists() == stored_lists(points, self.grid_width(), C as nat)
        &&& self.dropped_count() == left_out(points, self.grid_width()).len()
    }

    open spec fn neighbors(&self, point: (usize, usize)) -> Seq<usize> {
        neighbors_in(self.cell_lists(), self.grid_width(), self.grid_height(), point)
    }

    fn get_neigbors(&self, point: (usize, usize)) -> (slots: Vec<usize>) {
        let block: Vec<(usize, usize)> = self.gen_valid_cell_indexes(point);
        let mut slots: Vec<usize> = Vec::new();
        let mut visited: usize = 0;
        while visited < block.len()
            invariant
                visited <= block.len(),
                self.well_formed(),
                block@ == valid_block(self.grid_width(), self.grid_height(), point),
                slots@ == block@.take(visited as int).flat_map(
                    list_at(self.cell_lists(), self.grid_width()),
                ),
            decreases block.len() - visited,
        {
            proof {
                lemma_valid_block_members(self.grid_width(), self.grid_height(), point);
                assert(block@.contains(block@[visited as int]));
                block@.lemma_flat_map_take_append(
                    list_at(self.cell_lists(), self.grid_width()),
                    visited as int,
                );
            }
            let index: usize = self.get_cell_index(&block[visited]);
            append_slots(&mut slots, cell_as_slice(&self.cells[index]));
            visited = visited + 1;
        }
        proof {
            assert(block@.take(block@.len() as int) =~= block@);
        }
        slots
    }

    fn build(&mut self, points: &[(usize, usize)])
        ensures
            final(self).grid_width() == old(self).grid_width(),
    {
        proof {
            assert forall|i: int| 0 <= i < points@.len() implies in_domain(
                self.grid_width(),
                self.grid_height(),
                #[trigger] points@[i],
            ) by {
                assert(self.covers(points@[i]));
            }
        }
        self.cells = empty_cells();
        self.dropped = 0;
        let mut slot: usize = 0;
        while slot < points.len()
            invariant
                slot <= points.len(),
                self.well_formed(),
                self.width == old(self).width,
                all_in_domain(points@, self.grid_width(), self.grid_height()),
                forall|c: int|
                    0 <= c < C ==> cell_slots(#[trigger] self.cells@[c]) == kept(
                        slots_below(points@, self.grid_width(), c, slot as nat),
                    ),
                self.dropped == left_out_below(points@, self.grid_width(), slot as nat).len(),
            decreases points.len() - slot,
        {
            let index: usize = self.get_cell_index(&points[slot]);
            let ghost before = self.cells@;
            let outcome = cell_push(&mut self.cells[index], slot);
            proof {
                lemma_next_slot(points@, self.grid_width(), slot);
                assert forall|c: int| 0 <= c < C implies cell_slots(#[trigger] self.cells@[c])
                    == kept(
                    slots_below(points@, self.grid_width(), c, (slot + 1) as nat),
                ) by {
                    lemma_kept_push(
                        slots_below(points@, self.grid_width(), c, slot as nat),
                        slot,
                    );
                    assert(cell_slots(before[c]) == kept(
                        slots_below(points@, self.grid_width(), c, slot as nat),
                    ));
                }
                slot_range(slot as nat).lemma_filter_len(
                    finds_cell_full(points@, self.grid_width()),
                );
            }
            if outcome.is_err() {
                self.dropped = self.dropped + 1;
            }
            slot = slot + 1;
        }
        proof {
            assert(self.cell_lists() =~= stored_lists(points@, self.grid_width(), C as nat));
        }
    }
}

} // verus!
