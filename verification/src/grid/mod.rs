pub mod connect;
pub mod index;
pub mod scan;
pub mod score;
pub mod words;

pub use index::Coordinate;
pub use index::GridIndex;

use vstd::prelude::*;

verus! {

/// The number of columns in a grid.
pub const GRID_WIDTH: usize = 256;

/// The number of rows in a grid.
pub const GRID_HEIGHT: usize = 256;

/// A 2D, fixed-size cell store, generic over the cell payload. The cell at
/// storage address `(col, row)` lives at position `row * GRID_WIDTH + col`
/// of the flat backing vector.
#[derive(Debug, Clone)]
pub struct Grid<T>(Vec<T>);

/// The flat position of the storage address `(col, row)`.
pub open spec fn flat(col: int, row: int) -> int {
    row * 256 + col
}

impl<T> Grid<T> {
    /// The grid's contents as a flat sequence of `GRID_WIDTH * GRID_HEIGHT`
    /// cells, row by row.
    pub closed spec fn view(&self) -> Seq<T> {
        self.0@
    }

    /// A grid is well formed when it holds exactly its fixed capacity of
    /// cells; every constructed grid is, and no operation changes it.
    pub open spec fn wf(&self) -> bool {
        self@.len() == 65536
    }

    /// The cell at a storage address, for contracts.
    pub open spec fn cell(&self, i: GridIndex) -> T {
        self@[flat(i.0 as int, i.1 as int)]
    }

    /// Reads the cell at a storage address.
    pub fn get(&self, i: GridIndex) -> (r: &T)
        requires
            self.wf(),
        ensures
            *r == self.cell(i),
    {
        proof {
            lemma_flat_in_bounds(i.0 as int, i.1 as int);
        }
        &self.0[i.1 as usize * GRID_WIDTH + i.0 as usize]
    }

    /// Replaces the cell at a storage address.
    pub fn set(&mut self, i: GridIndex, value: T)
        requires
            old(self).wf(),
        ensures
            final(self).wf(),
            final(self)@ == old(self)@.update(flat(i.0 as int, i.1 as int), value),
    {
        proof {
            lemma_flat_in_bounds(i.0 as int, i.1 as int);
        }
        let idx: usize = i.1 as usize * GRID_WIDTH + i.0 as usize;
        self.0.set(idx, value);
    }
}

impl<T: Copy> Grid<T> {
    /// Constructs a grid with every cell holding `filler`.
    pub fn new(filler: T) -> (r: Self)
        ensures
            r.wf(),
            forall|k: int| 0 <= k < 65536 ==> r@[k] == filler,
    {
        let mut cells: Vec<T> = Vec::new();
        let mut k: usize = 0;
        while k < 65536
            invariant
                k == cells@.len() <= 65536,
                forall|j: int| 0 <= j < k ==> cells@[j] == filler,
            decreases 65536 - k,
        {
            cells.push(filler);
            k = k + 1;
        }
        Grid(cells)
    }
}

impl Grid<Option<char>> {
    /// Places a letter at a coordinate; an occupied cell keeps its letter
    /// and the call reports failure.
    pub fn put(&mut self, coordinate: Coordinate, letter: char) -> (r: bool)
        requires
            old(self).wf(),
        ensures
            final(self).wf(),
            ({
                let f = flat(
                    index::index_of(coordinate).0 as int,
                    index::index_of(coordinate).1 as int,
                );
                if old(self)@[f] is Some {
                    r == false && final(self)@ == old(self)@
                } else {
                    r == true && final(self)@ == old(self)@.update(f, Some(letter))
                }
            }),
    {
        let gi: GridIndex = GridIndex::from(coordinate);
        if self.get(gi).is_some() {
            return false;
        }
        self.set(gi, Some(letter));
        true
    }

    /// Removes and returns the letter at a coordinate, if any.
    pub fn pick_up(&mut self, coordinate: Coordinate) -> (r: Option<char>)
        requires
            old(self).wf(),
        ensures
            final(self).wf(),
            ({
                let f = flat(
                    index::index_of(coordinate).0 as int,
                    index::index_of(coordinate).1 as int,
                );
                r == old(self)@[f] && final(self)@ == old(self)@.update(f, None)
            }),
    {
        let gi: GridIndex = GridIndex::from(coordinate);
        let tile: Option<char> = *self.get(gi);
        self.set(gi, None);
        tile
    }
}

/// Every storage address maps to a flat position inside the grid's capacity,
/// so indexing through the coordinate transform can never go out of bounds.
pub proof fn lemma_flat_in_bounds(col: int, row: int)
    requires
        0 <= col < 256,
        0 <= row < 256,
    ensures
        0 <= flat(col, row) < 65536,
        flat(col, row) == row * 256 + col,
{
    assert(row * 256 <= 255 * 256) by (nonlinear_arith)
        requires
            row <= 255,
    ;
    assert(row * 256 >= 0) by (nonlinear_arith)
        requires
            row >= 0,
    ;
}

} // verus!
