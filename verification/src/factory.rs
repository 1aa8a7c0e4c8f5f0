//! Construction of uniform boards.

use vstd::prelude::*;
use crate::cell::{Cell, CellState, CellView};
use crate::coord::Coord;
use crate::grid::grid_coord;
use crate::laws::{coherent, lemma_standard_is_sound};

verus! {

/// The number of cells along each side of a board.
pub const SIDE: u8 = 3;

/// The untouched board of `n` levels: a leaf for `n == 0`, and else nine
/// untouched boards of `n - 1` levels, one at each coordinate of the three
/// by three grid. Every cell is empty and has as its rank the number of
/// levels below it.
pub open spec fn standard(n: u8) -> CellView
    decreases n,
{
    CellView {
        rank: n,
        children: if n == 0 {
            Seq::empty()
        } else {
            Seq::new(9, |i: int| (grid_coord(i), standard((n - 1) as u8)))
        },
        state: CellState::Empty,
    }
}

/// Builds the untouched board of `n` levels.
pub fn generate_rank_n(n: u8) -> (cell: Cell)
    ensures
        cell@ == standard(n),
        cell@.well_formed(),
        coherent(cell@),
    decreases n,
{
    proof {
        lemma_standard_is_sound(n);
    }
    let mut cell = Cell::new(n);
    if n == 0 {
        assert(cell@.children =~= standard(n).children);
        return cell;
    }
    let small_cell = generate_rank_n(n - 1);
    assert(cell.children@.len() == cell@.children.len());
    let mut x: u8 = 0;
    while x < SIDE
        invariant
            x <= SIDE,
            n > 0,
            cell.rank == n,
            cell.state == CellState::Empty,
            small_cell@ == standard((n - 1) as u8),
            cell.children@.len() == 3 * x,
            forall|j: int|
                0 <= j < cell.children@.len() ==> (#[trigger] cell.children@[j]).0@ == grid_coord(j)
                    && cell.children@[j].1@ == small_cell@,
        decreases SIDE - x,
    {
        let mut y: u8 = 0;
        while y < SIDE
            invariant
                x < SIDE,
                y <= SIDE,
                n > 0,
                cell.rank == n,
                cell.state == CellState::Empty,
                small_cell@ == standard((n - 1) as u8),
                cell.children@.len() == 3 * x + y,
                forall|j: int|
                    0 <= j < cell.children@.len() ==> (#[trigger] cell.children@[j]).0@
                        == grid_coord(j) && cell.children@[j].1@ == small_cell@,
            decreases SIDE - y,
        {
            let coord = Coord::pair(x, y);
            assert(coord@ =~= grid_coord(3 * x + y));
            cell.children.push((coord, small_cell.clone()));
            y += 1;
        }
        x += 1;
    }
    assert(cell@.children =~= standard(n).children);
    cell
}

} // verus!
