//! A game on a board, with the history that lets the last move be taken
//! back.

use vstd::prelude::*;
use crate::cell::{Cell, CellView};
use crate::coord::{Coord, views};
use crate::error::BoardError;

verus! {

/// A board and the moves that were made on it. Before each accepted move
/// the board is put aside beside the team that moved, so that the move can
/// be undone.
#[derive(Debug)]
pub struct Game {
    board: Cell,
    past: Vec<(Cell, u8)>,
}

/// A game as a mathematical value.
pub struct GameView {
    /// The board as it stands.
    pub board: CellView,
    /// For each move made and not undone, oldest first, the board before it
    /// and the team that made it.
    pub past: Seq<(CellView, u8)>,
}

impl GameView {
    /// The game after `team` has made the accepted move along `path`.
    pub open spec fn played(self, path: Seq<Seq<u8>>, team: u8) -> GameView {
        GameView {
            board: self.board.moved(path, team),
            past: self.past.push((self.board, team)),
        }
    }

    /// The game with its last move taken back. A game without moves stays as
    /// it is.
    pub open spec fn undone(self) -> GameView {
        if self.past.len() == 0 {
            self
        } else {
            GameView { board: self.past.last().0, past: self.past.drop_last() }
        }
    }

    /// The team that made the last move, if a move has been made.
    pub open spec fn last_mover(self) -> Option<u8> {
        if self.past.len() == 0 {
            None
        } else {
            Some(self.past.last().1)
        }
    }
}

impl View for Game {
    type V = GameView;

    closed spec fn view(&self) -> GameView {
        GameView {
            board: self.board@,
            past: Seq::new(self.past@.len(), |i: int| (self.past@[i].0@, self.past@[i].1)),
        }
    }
}

impl Game {
    /// A game that starts on `board`, with no move made.
    pub fn new(board: Cell) -> (game: Self)
        ensures
            game@ == (GameView { board: board@, past: Seq::empty() }),
    {
        let game = Game { board, past: Vec::new() };
        assert(game@.past =~= Seq::empty());
        game
    }

    /// The board as it stands.
    pub fn board(&self) -> (board: &Cell)
        ensures
            board@ == self@.board,
    {
        &self.board
    }

    /// The number of moves that can be undone.
    pub fn moves(&self) -> (n: usize)
        ensures
            n == self@.past.len(),
    {
        self.past.len()
    }

    /// Makes a move as `Cell::update` does, and remembers the board as it
    /// was before. A move that is refused leaves the game as it was.
    pub fn play(&mut self, path: &[Coord], team_id: u8) -> (r: Result<bool, BoardError>)
        ensures
            match r {
                Ok(changed) => {
                    &&& old(self)@.board.move_error(views(path@)) is None
                    &&& final(self)@ == old(self)@.played(views(path@), team_id)
                    &&& changed == old(self)@.board.changed_by(views(path@), team_id)
                },
                Err(e) => {
                    &&& old(self)@.board.move_error(views(path@)) == Some(e)
                    &&& final(self)@ == old(self)@
                },
            },
    {
        let before = self.board.clone();
        match self.board.update(path, team_id) {
            Ok(changed) => {
                self.past.push((before, team_id));
                assert(self@.past =~= old(self)@.past.push((old(self)@.board, team_id)));
                Ok(changed)
            },
            Err(e) => {
                assert(self@.past =~= old(self)@.past);
                Err(e)
            },
        }
    }

    /// Takes back the most recent move that has not been undone, and returns
    /// the team that made it, whose turn it is again. Without such a move
    /// nothing changes and the result is `None`.
    pub fn undo(&mut self) -> (team: Option<u8>)
        ensures
            final(self)@ == old(self)@.undone(),
            team == old(self)@.last_mover(),
    {
        match self.past.pop() {
            Some((before, team)) => {
                self.board = before;
                assert(self@.past =~= old(self)@.past.drop_last());
                Some(team)
            },
            None => {
                assert(self@.past =~= old(self)@.past);
                None
            },
        }
    }
}

/// Undoing a move restores the game as it was before the move, and names
/// the team that made it.
pub proof fn lemma_undo_reverts_play(game: GameView, path: Seq<Seq<u8>>, team: u8)
    ensures
        game.played(path, team).undone() == game,
        game.played(path, team).last_mover() == Some(team),
{
    let next = game.played(path, team);
    assert(next.past.drop_last() =~= game.past);
}

} // verus!
