//! What holds of every board and every move.

use vstd::prelude::*;
use crate::cell::{CellState, CellView, held_by, key_of, lemma_owned_keep_arity};
use crate::error::BoardError;
use crate::factory::standard;
use crate::grid::{grid_coord, on_grid};

verus! {

/// `after` has the shape of `before`, cell by cell the same rank and the
/// same coordinates, and no cell of `before` that had been played in is
/// empty in `after`.
pub open spec fn advances(before: CellView, after: CellView) -> bool
    decreases before,
{
    &&& after.rank == before.rank
    &&& after.children.len() == before.children.len()
    &&& (before.state != CellState::Empty ==> after.state != CellState::Empty)
    &&& forall|i: int|
        0 <= i < before.children.len() ==> {
            &&& (#[trigger] after.children[i]).0 == before.children[i].0
            &&& advances(before.children[i].1, after.children[i].1)
        }
}

/// A board advances to itself.
pub proof fn lemma_advances_reflexive(cell: CellView)
    ensures
        advances(cell, cell),
    decreases cell,
{
    assert forall|i: int| 0 <= i < cell.children.len() implies advances(
        cell.children[i].1,
        (#[trigger] cell.children[i]).1,
    ) by {
        lemma_advances_reflexive(cell.children[i].1);
    }
}

/// Advancing twice is advancing.
pub proof fn lemma_advances_transitive(a: CellView, b: CellView, c: CellView)
    requires
        advances(a, b),
        advances(b, c),
    ensures
        advances(a, c),
    decreases a,
{
    assert forall|i: int| 0 <= i < a.children.len() implies (#[trigger] c.children[i]).0
        == a.children[i].0 && advances(a.children[i].1, c.children[i].1) by {
        assert(b.children[i].0 == a.children[i].0);
        lemma_advances_transitive(a.children[i].1, b.children[i].1, c.children[i].1);
    }
}

/// Two boards of one shape are well formed together.
pub proof fn lemma_advances_keeps_form(a: CellView, b: CellView)
    requires
        advances(a, b),
    ensures
        a.well_formed() == b.well_formed(),
    decreases a,
{
    assert forall|i: int| 0 <= i < a.children.len() implies (#[trigger] a.children[i]).0
        == b.children[i].0 && a.children[i].1.well_formed() == b.children[i].1.well_formed() by {
        assert(b.children[i].0 == a.children[i].0);
        lemma_advances_keeps_form(a.children[i].1, b.children[i].1);
    }
    if a.well_formed() {
        assert forall|i: int, j: int| 0 <= i < j < b.children.len() implies (
        #[trigger] b.children[i]).0 != (#[trigger] b.children[j]).0 by {
            assert(a.children[i].0 != a.children[j].0);
        }
        assert forall|i: int| 0 <= i < b.children.len() implies (
        #[trigger] b.children[i]).1.well_formed() by {
            assert(a.children[i].1.well_formed());
        }
    }
    if b.well_formed() {
        assert forall|i: int, j: int| 0 <= i < j < a.children.len() implies (
        #[trigger] a.children[i]).0 != (#[trigger] a.children[j]).0 by {
            assert(b.children[i].0 != b.children[j].0);
        }
        assert forall|i: int| 0 <= i < a.children.len() implies (
        #[trigger] a.children[i]).1.well_formed() by {
            assert(b.children[i].1.well_formed());
        }
    }
}

/// Two boards of one shape find the same child under every coordinate.
pub proof fn lemma_advances_keeps_slots(a: CellView, b: CellView, key: Seq<u8>)
    requires
        advances(a, b),
    ensures
        a.has_child(key) == b.has_child(key),
        a.has_child(key) ==> a.slot(key) == b.slot(key) && 0 <= a.slot(key) < a.children.len(),
{
    assert forall|i: int| a.keyed(i, key) == b.keyed(i, key) by {
        if 0 <= i < a.children.len() {
            assert(b.children[i].0 == a.children[i].0);
        }
    }
    if a.has_child(key) {
        lemma_slot_is_first(a, key);
        lemma_slot_is_first(b, key);
        let i = a.slot(key);
        let j = b.slot(key);
        assert(a.keyed(j, key) && b.keyed(i, key));
    }
}

/// The position that a coordinate addresses is that of the first child with
/// that coordinate.
pub proof fn lemma_slot_is_first(cell: CellView, key: Seq<u8>)
    requires
        cell.has_child(key),
    ensures
        cell.first_keyed(cell.slot(key), key),
{
    let some = choose|i: int| cell.keyed(i, key);
    lemma_first_exists(cell, key, some);
}

/// Below any child with a coordinate there is a first one with it.
proof fn lemma_first_exists(cell: CellView, key: Seq<u8>, i: int)
    requires
        cell.keyed(i, key),
    ensures
        exists|f: int| cell.first_keyed(f, key),
    decreases i,
{
    if exists|j: int| 0 <= j < i && cell.keyed(j, key) {
        let j = choose|j: int| 0 <= j < i && cell.keyed(j, key);
        lemma_first_exists(cell, key, j);
    } else {
        assert(cell.first_keyed(i, key));
    }
}

/// Whether a move is accepted, and why not, depends on the shape of the
/// board alone.
pub proof fn lemma_advances_keeps_routes(a: CellView, b: CellView, path: Seq<Seq<u8>>)
    requires
        advances(a, b),
    ensures
        a.resolves(path) == b.resolves(path),
        a.resolves(path) ==> advances(a.at(path), b.at(path)),
        a.resolves(path) ==> a.supported_along(path) == b.supported_along(path),
        a.resolves(path) ==> a.uniform_along(path) == b.uniform_along(path),
        a.move_error(path) == b.move_error(path),
    decreases path.len(),
{
    if path.len() > 0 {
        lemma_advances_keeps_slots(a, b, path[0]);
        assert(a.keys() =~= b.keys()) by {
            assert forall|i: int| 0 <= i < a.children.len() implies a.keys()[i] == b.keys()[i] by {
                assert(b.children[i].0 == a.children[i].0);
            }
        }
        if a.has_child(path[0]) {
            let i = a.slot(path[0]);
            assert(advances(a.children[i].1, b.children[i].1)) by {
                assert(b.children[i].0 == a.children[i].0);
            }
            lemma_advances_keeps_routes(a.children[i].1, b.children[i].1, path.drop_first());
        } else {
            lemma_unresolved_is_invalid(a, path);
            lemma_unresolved_is_invalid(b, path);
        }
    }
}

/// A path whose first step names no child is refused as invalid.
proof fn lemma_unresolved_is_invalid(cell: CellView, path: Seq<Seq<u8>>)
    requires
        path.len() > 0,
        !cell.has_child(path[0]),
    ensures
        !cell.resolves(path),
        cell.move_error(path) == Some(BoardError::InvalidPath),
{
}

/// An accepted move keeps the shape of the board and empties no cell: the
/// board advances. A cell that reports a change has been played in.
pub proof fn lemma_move_advances(cell: CellView, path: Seq<Seq<u8>>, team: u8)
    requires
        cell.move_error(path) is None,
    ensures
        advances(cell, cell.moved(path, team)),
        cell.changed_by(path, team) ==> cell.moved(path, team).state != CellState::Empty,
    decreases path.len(),
{
    let after = cell.moved(path, team);
    if path.len() == 0 {
        assert(after.children =~= cell.children);
        lemma_advances_reflexive(cell);
    } else {
        lemma_slot_is_first(cell, path[0]);
        let i = cell.slot(path[0]);
        let rest = path.drop_first();
        let child = cell.children[i].1;
        lemma_move_advances(child, rest, team);
        let held = cell.with_child(i, child.moved(rest, team));
        assert forall|j: int| 0 <= j < cell.children.len() implies (#[trigger] after.children[j]).0
            == cell.children[j].0 && advances(cell.children[j].1, after.children[j].1) by {
            if j != i {
                lemma_advances_reflexive(cell.children[j].1);
            }
        }
        if rest.len() == 0 || child.moved(rest, team).state != child.state {
            assert(child.changed_by(rest, team));
            assert(held.children[i].1.state != CellState::Empty);
            assert(held.any_nonempty());
        }
    }
}

/// `q` is the beginning of `path`, or all of it.
pub open spec fn leads_into(q: Seq<Seq<u8>>, path: Seq<Seq<u8>>) -> bool {
    q.len() <= path.len() && path.take(q.len() as int) == q
}

/// After an accepted move, the leaf at the end of the path is the mover's,
/// and is otherwise as it was.
pub proof fn lemma_move_claims_the_leaf(cell: CellView, path: Seq<Seq<u8>>, team: u8)
    requires
        cell.move_error(path) is None,
    ensures
        cell.moved(path, team).resolves(path),
        cell.moved(path, team).at(path) == cell.at(path).with_state(CellState::Owned(team)),
    decreases path.len(),
{
    if path.len() > 0 {
        let after = cell.moved(path, team);
        lemma_move_advances(cell, path, team);
        lemma_advances_keeps_slots(cell, after, path[0]);
        lemma_slot_is_first(cell, path[0]);
        lemma_move_claims_the_leaf(cell.child(path[0]), path.drop_first(), team);
    }
}

/// An accepted move changes nothing off its path: a cell that the path does
/// not pass through is after the move what it was before, with all that
/// lies below it.
pub proof fn lemma_move_spares_the_rest(
    cell: CellView,
    path: Seq<Seq<u8>>,
    team: u8,
    q: Seq<Seq<u8>>,
)
    requires
        cell.move_error(path) is None,
        cell.resolves(q),
        !leads_into(q, path),
    ensures
        cell.moved(path, team).resolves(q),
        cell.moved(path, team).at(q) == cell.at(q),
    decreases path.len(),
{
    let after = cell.moved(path, team);
    lemma_move_advances(cell, path, team);
    lemma_advances_keeps_routes(cell, after, q);
    if q.len() == 0 {
        assert(path.take(0) =~= q);
    } else if path.len() == 0 {
        assert(!cell.has_child(q[0]));
    } else {
        lemma_advances_keeps_slots(cell, after, q[0]);
        lemma_slot_is_first(cell, q[0]);
        lemma_slot_is_first(cell, path[0]);
        let i = cell.slot(path[0]);
        let j = cell.slot(q[0]);
        if q[0] == path[0] {
            let rest = path.drop_first();
            let tail = q.drop_first();
            if leads_into(tail, rest) {
                assert(path.take(q.len() as int) =~= q) by {
                    assert forall|k: int| 0 <= k < q.len() implies path[k] == q[k] by {
                        if k > 0 {
                            assert(rest.take(tail.len() as int)[k - 1] == tail[k - 1]);
                        }
                    }
                }
            }
            lemma_move_spares_the_rest(cell.children[i].1, rest, team, tail);
        } else {
            assert(i != j);
            assert(after.children[j] == cell.children[j]);
        }
    }
}

/// Claiming a leaf always succeeds: the leaf becomes the mover's, whatever
/// it was before and whoever held it, and the move reports a change.
pub proof fn lemma_claiming_a_leaf(cell: CellView, team: u8)
    requires
        cell.is_leaf(),
    ensures
        cell.move_error(Seq::empty()) is None,
        cell.moved(Seq::empty(), team) == cell.with_state(CellState::Owned(team)),
        cell.changed_by(Seq::empty(), team),
{
}

/// Above the leaf, a move reports no change exactly when the cell has the
/// state after the move that it had before. That is so when the child on the
/// path reported no change, and the cell was therefore left alone, or when
/// the cell was judged anew and its state came out as it was.
pub proof fn lemma_no_change_iff_state_kept(cell: CellView, path: Seq<Seq<u8>>, team: u8)
    requires
        path.len() > 0,
        cell.move_error(path) is None,
    ensures
        !cell.changed_by(path, team) <==> cell.moved(path, team).state == cell.state,
        ({
            let i = cell.slot(path[0]);
            let child = cell.children[i].1;
            let held = cell.with_child(i, child.moved(path.drop_first(), team));
            &&& held.judged(team) is Ok
            &&& cell.changed_by(path, team) <==> child.changed_by(path.drop_first(), team)
                && held.judged(team) != Ok::<CellState, BoardError>(cell.state)
        }),
{
    let i = cell.slot(path[0]);
    let child = cell.children[i].1;
    let held = cell.with_child(i, child.moved(path.drop_first(), team));
    lemma_slot_is_first(cell, path[0]);
    assert(held.keys() =~= cell.keys());
    lemma_owned_keep_arity(held, team);
}

/// The children of `a` and `b` have, position by position, the same
/// coordinates and the same states.
pub open spec fn same_standing(a: CellView, b: CellView) -> bool {
    &&& a.children.len() == b.children.len()
    &&& forall|i: int|
        0 <= i < a.children.len() ==> (#[trigger] a.children[i]).0 == b.children[i].0
            && a.children[i].1.state == b.children[i].1.state
}

/// What a cell is judged to be depends only on the coordinates and the
/// states of its children.
pub proof fn lemma_judged_by_standing(a: CellView, b: CellView, team: u8)
    requires
        same_standing(a, b),
    ensures
        a.any_nonempty() == b.any_nonempty(),
        a.owned_by(team) == b.owned_by(team),
        a.capture(team) == b.capture(team),
        a.judged(team) == b.judged(team),
{
    if a.any_nonempty() {
        let i = choose|i: int|
            0 <= i < a.children.len() && (#[trigger] a.children[i]).1.state != CellState::Empty;
        assert(b.children[i].1.state != CellState::Empty);
    }
    if b.any_nonempty() {
        let i = choose|i: int|
            0 <= i < b.children.len() && (#[trigger] b.children[i]).1.state != CellState::Empty;
        assert(a.children[i].1.state != CellState::Empty);
    }
    lemma_held_keys(a.children, b.children, team);
}

/// The coordinates of the children that a team holds depend only on the
/// coordinates and the states of the children.
proof fn lemma_held_keys(x: Seq<(Seq<u8>, CellView)>, y: Seq<(Seq<u8>, CellView)>, team: u8)
    requires
        x.len() == y.len(),
        forall|i: int|
            0 <= i < x.len() ==> (#[trigger] x[i]).0 == y[i].0 && x[i].1.state == y[i].1.state,
    ensures
        x.filter(held_by(team)).map_values(key_of()) == y.filter(held_by(team)).map_values(
            key_of(),
        ),
    decreases x.len(),
{
    reveal(Seq::filter);
    if x.len() > 0 {
        let xs = x.drop_last();
        let ys = y.drop_last();
        assert forall|i: int| 0 <= i < xs.len() implies (#[trigger] xs[i]).0 == ys[i].0
            && xs[i].1.state == ys[i].1.state by {
            assert(x[i].0 == y[i].0);
        }
        lemma_held_keys(xs, ys, team);
        assert(x.last().0 == y.last().0 && x.last().1.state == y.last().1.state) by {
            assert(x[x.len() - 1].0 == y[x.len() - 1].0);
        }
        let fx = xs.filter(held_by(team));
        let fy = ys.filter(held_by(team));
        if held_by(team)(x.last()) {
            assert(fx.push(x.last()).map_values(key_of()) =~= fx.map_values(key_of()).push(
                x.last().0,
            ));
            assert(fy.push(y.last()).map_values(key_of()) =~= fy.map_values(key_of()).push(
                y.last().0,
            ));
        }
    } else {
        assert(x.filter(held_by(team)).map_values(key_of()) =~= y.filter(
            held_by(team),
        ).map_values(key_of()));
    }
}

/// The state of every cell above the leaves is what its children give it:
/// empty exactly when no child has been played in, and held by a team only
/// where that team has a line among the children.
pub open spec fn coherent(cell: CellView) -> bool
    decreases cell,
{
    &&& cell.is_leaf() || {
        &&& (cell.state == CellState::Empty) == !cell.any_nonempty()
        &&& cell.state matches CellState::Owned(t) ==> cell.capture(t) == Ok::<bool, BoardError>(
            true,
        )
    }
    &&& forall|i: int| 0 <= i < cell.children.len() ==> coherent((#[trigger] cell.children[i]).1)
}

/// An accepted move on a coherent board gives a coherent board.
pub proof fn lemma_move_keeps_coherence(cell: CellView, path: Seq<Seq<u8>>, team: u8)
    requires
        coherent(cell),
        cell.move_error(path) is None,
    ensures
        coherent(cell.moved(path, team)),
    decreases path.len(),
{
    let after = cell.moved(path, team);
    if path.len() == 0 {
        assert(after.children =~= cell.children);
    } else {
        lemma_slot_is_first(cell, path[0]);
        let i = cell.slot(path[0]);
        let rest = path.drop_first();
        let child = cell.children[i].1;
        let next = child.moved(rest, team);
        assert(coherent(cell.children[i].1));
        lemma_move_keeps_coherence(child, rest, team);
        lemma_move_advances(child, rest, team);
        let held = cell.with_child(i, next);
        assert forall|j: int| 0 <= j < after.children.len() implies coherent(
            (#[trigger] after.children[j]).1,
        ) by {
            if j != i {
                assert(coherent(cell.children[j].1));
            }
        }
        assert(held.keys() =~= cell.keys());
        lemma_owned_keep_arity(held, team);
        if rest.len() == 0 || next.state != child.state {
            assert(held.judged(team) is Ok);
            lemma_judged_by_standing(held, after, team);
        } else {
            assert(same_standing(cell, held));
            lemma_judged_by_standing(cell, held, team);
            if let CellState::Owned(t) = cell.state {
                lemma_judged_by_standing(cell, held, t);
            }
        }
    }
}

/// Once there has been play in a child of a cell, there is play in it on
/// every board that the board advances to, and the cell is never judged
/// empty again, whoever moved.
pub proof fn lemma_played_cell_is_never_judged_empty(before: CellView, after: CellView, team: u8)
    requires
        before.any_nonempty(),
        advances(before, after),
    ensures
        after.any_nonempty(),
        after.judged(team) != Ok::<CellState, BoardError>(CellState::Empty),
{
    let i = choose|i: int|
        0 <= i < before.children.len() && (#[trigger] before.children[i]).1.state
            != CellState::Empty;
    assert(after.children[i].0 == before.children[i].0);
    assert(advances(before.children[i].1, after.children[i].1));
    assert(after.children[i].1.state != CellState::Empty);
}

/// The untouched board is well formed and coherent.
pub proof fn lemma_standard_is_sound(n: u8)
    ensures
        standard(n).well_formed(),
        coherent(standard(n)),
    decreases n,
{
    if n > 0 {
        lemma_standard_is_sound((n - 1) as u8);
        let board = standard(n);
        assert forall|i: int, j: int| 0 <= i < j < board.children.len() implies (
        #[trigger] board.children[i]).0 != (#[trigger] board.children[j]).0 by {
            let a = grid_coord(i);
            let b = grid_coord(j);
            assert(a[0] == i / 3 && a[1] == i % 3 && b[0] == j / 3 && b[1] == j % 3);
        }
    }
}

/// On the untouched board of `n` levels, a move is accepted exactly when its
/// path has `n` steps, each a coordinate of the grid. Any other path is
/// invalid; no move is refused for another reason.
pub proof fn lemma_standard_accepts(n: u8, path: Seq<Seq<u8>>)
    ensures
        standard(n).move_error(path) is None <==> path.len() == n && forall|k: int|
            0 <= k < path.len() ==> on_grid(#[trigger] path[k]),
        standard(n).move_error(path) is Some ==> standard(n).move_error(path) == Some(
            BoardError::InvalidPath,
        ),
    decreases n,
{
    let board = standard(n);
    if n == 0 {
        if path.len() > 0 {
            assert(!board.has_child(path[0])) by {
                assert forall|i: int| !board.keyed(i, path[0]) by {}
            }
        }
    } else {
        let below = standard((n - 1) as u8);
        assert forall|i: int, j: int|
            0 <= i < board.keys().len() && 0 <= j < board.keys().len() implies (
        #[trigger] board.keys()[i]).len() == (#[trigger] board.keys()[j]).len() by {
            assert(board.keys()[i] == grid_coord(i) && board.keys()[j] == grid_coord(j));
        }
        if path.len() > 0 {
            let key = path[0];
            let rest = path.drop_first();
            lemma_standard_accepts((n - 1) as u8, rest);
            if on_grid(key) {
                let i = key[0] * 3 + key[1];
                assert(grid_coord(i) =~= key);
                assert(board.keyed(i, key));
                lemma_slot_is_first(board, key);
                assert(board.child(key) == below);
            } else {
                assert forall|i: int| !board.keyed(i, key) by {
                    if 0 <= i < 9 {
                        assert(on_grid(grid_coord(i)));
                    }
                }
            }
            assert forall|k: int| 0 <= k < rest.len() implies rest[k] == path[k + 1] by {}
            if path.len() == n && forall|k: int| 0 <= k < path.len() ==> on_grid(#[trigger] path[k]) {
                assert forall|k: int| 0 <= k < rest.len() implies on_grid(#[trigger] rest[k]) by {
                    assert(on_grid(path[k + 1]));
                }
            }
            if board.move_error(path) is None {
                assert forall|k: int| 0 <= k < path.len() implies on_grid(#[trigger] path[k]) by {
                    if k > 0 {
                        assert(on_grid(rest[k - 1]));
                    }
                }
            }
        }
    }
}

/// However a game on a standard board has gone, a move is accepted exactly
/// when its path has one grid coordinate per level, and is otherwise invalid.
pub proof fn lemma_played_standard_accepts(n: u8, board: CellView, path: Seq<Seq<u8>>)
    requires
        advances(standard(n), board),
    ensures
        board.move_error(path) is None <==> path.len() == n && forall|k: int|
            0 <= k < path.len() ==> on_grid(#[trigger] path[k]),
        board.move_error(path) is Some ==> board.move_error(path) == Some(
            BoardError::InvalidPath,
        ),
{
    lemma_advances_keeps_routes(standard(n), board, path);
    lemma_standard_accepts(n, path);
}

} // verus!
