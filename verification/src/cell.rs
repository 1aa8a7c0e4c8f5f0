//! The board: a tree of cells, each holding its children by coordinate and
//! its own play state.

use vstd::prelude::*;
use vstd::slice::slice_subrange;
use crate::coord::{Coord, views};
use crate::error::BoardError;
use crate::laws::{
    advances, coherent, lemma_advances_keeps_form, lemma_advances_reflexive, lemma_move_advances,
    lemma_move_keeps_coherence,
};
use crate::grid::grid_lines;
use crate::line::{
    LINE_LENGTH, capture_verdict, captured_subset, coords_of, is_line, same_arity, uniform_arity,
};
use crate::subsets::{
    ascending, combinations, lemma_combinations_complete, lemma_combinations_sound, pick,
    subsets_of_size,
};

verus! {

/// The number of children of a cell that can be judged for capture.
pub const BRANCHING: usize = 9;

/// The play state of a cell.
#[derive(Clone, Copy, Debug, PartialEq, Eq, Structural)]
pub enum CellState {
    /// A team holds the cell.
    Owned(u8),
    /// Nobody has played in the cell.
    Empty,
    /// There has been play in the cell, and the team that moved last holds no
    /// line in it.
    Contested,
}

impl CellState {
    /// Whether there has been play in the cell.
    pub fn is_nonempty(&self) -> (b: bool)
        ensures
            b == (*self != CellState::Empty),
    {
        match self {
            CellState::Owned(_) => true,
            CellState::Empty => false,
            CellState::Contested => true,
        }
    }

    /// The team that holds the cell, if one does.
    pub fn owned(&self) -> (team: Option<u8>)
        ensures
            team == (match *self {
                CellState::Owned(t) => Some(t),
                _ => None,
            }),
    {
        if let CellState::Owned(t) = self {
            Some(*t)
        } else {
            None
        }
    }
}

/// One node of the board. A cell without children is a leaf, the smallest
/// unit that can be played.
///
/// The children are kept in the order in which they were added; a child is
/// found by its coordinate, and where two have the same coordinate the first
/// is the one that is found.
#[derive(Debug, PartialEq)]
pub struct Cell {
    /// The number of levels of boards nested in this cell.
    pub rank: u8,
    /// The cells contained in this cell, each with its coordinate.
    pub children: Vec<(Coord, Cell)>,
    /// The current state of play of the cell.
    pub state: CellState,
}

impl Clone for Cell {
    /// A copy of the whole tree below and including this cell.
    fn clone(&self) -> (copy: Self)
        ensures
            copy@ == self@,
        decreases self,
    {
        let mut children: Vec<(Coord, Cell)> = Vec::new();
        let mut i: usize = 0;
        while i < self.children.len()
            invariant
                i <= self.children.len(),
                children@.len() == i,
                forall|j: int|
                    0 <= j < i ==> (#[trigger] children@[j]).0@ == self.children@[j].0@
                        && children@[j].1@ == self.children@[j].1@,
            decreases self.children.len() - i,
        {
            let key = self.children[i].0.clone();
            let child = self.children[i].1.clone();
            children.push((key, child));
            i += 1;
        }
        let copy = Cell { rank: self.rank, children, state: self.state };
        assert(copy@.children =~= self@.children);
        copy
    }
}

/// A cell as a mathematical value.
pub struct CellView {
    /// The number of levels of boards nested in the cell.
    pub rank: u8,
    /// The children in order, each with its coordinate.
    pub children: Seq<(Seq<u8>, CellView)>,
    /// The state of play of the cell.
    pub state: CellState,
}

impl View for Cell {
    type V = CellView;

    open spec fn view(&self) -> CellView {
        model(*self)
    }
}

/// The mathematical value of a cell: its rank and state, and the values of
/// its children beside their coordinates.
pub open spec fn model(cell: Cell) -> CellView
    decreases cell,
{
    CellView {
        rank: cell.rank,
        children: Seq::new(
            cell.children@.len(),
            |i: int|
                if 0 <= i < cell.children@.len() {
                    (cell.children@[i].0@, model(cell.children@[i].1))
                } else {
                    arbitrary()
                },
        ),
        state: cell.state,
    }
}

/// The test for a child that `team` holds.
pub open spec fn held_by(team: u8) -> spec_fn((Seq<u8>, CellView)) -> bool {
    |c: (Seq<u8>, CellView)| c.1.state == CellState::Owned(team)
}

/// The coordinate of a child.
pub open spec fn key_of() -> spec_fn((Seq<u8>, CellView)) -> Seq<u8> {
    |c: (Seq<u8>, CellView)| c.0
}

impl CellView {
    /// No two children of one cell have the same coordinate, in this cell
    /// and in every cell below it, so that a coordinate addresses at most
    /// one child.
    pub open spec fn well_formed(self) -> bool
        decreases self,
    {
        &&& forall|i: int, j: int|
            0 <= i < j < self.children.len() ==> (#[trigger] self.children[i]).0 != (
            #[trigger] self.children[j]).0
        &&& forall|i: int|
            0 <= i < self.children.len() ==> (#[trigger] self.children[i]).1.well_formed()
    }

    /// The cell has no children.
    pub open spec fn is_leaf(self) -> bool {
        self.children.len() == 0
    }

    /// The coordinates of the children, in order.
    pub open spec fn keys(self) -> Seq<Seq<u8>> {
        self.children.map_values(key_of())
    }

    /// The child at position `i` has the coordinate `key`.
    pub open spec fn keyed(self, i: int, key: Seq<u8>) -> bool {
        0 <= i < self.children.len() && self.children[i].0 == key
    }

    /// Some child has the coordinate `key`.
    pub open spec fn has_child(self, key: Seq<u8>) -> bool {
        exists|i: int| self.keyed(i, key)
    }

    /// `i` is the position of the first child with the coordinate `key`.
    pub open spec fn first_keyed(self, i: int, key: Seq<u8>) -> bool {
        self.keyed(i, key) && forall|j: int| 0 <= j < i ==> !self.keyed(j, key)
    }

    /// The position of the child that `key` addresses.
    pub open spec fn slot(self, key: Seq<u8>) -> int {
        choose|i: int| self.first_keyed(i, key)
    }

    /// The child that `key` addresses.
    pub open spec fn child(self, key: Seq<u8>) -> CellView {
        self.children[self.slot(key)].1
    }

    /// Every step of `path` names a child of the cell that it is applied to.
    pub open spec fn resolves(self, path: Seq<Seq<u8>>) -> bool
        decreases path.len(),
    {
        path.len() == 0 || (self.has_child(path[0]) && self.child(path[0]).resolves(
            path.drop_first(),
        ))
    }

    /// The cell that `path` leads to.
    pub open spec fn at(self, path: Seq<Seq<u8>>) -> CellView
        decreases path.len(),
    {
        if path.len() == 0 {
            self
        } else {
            self.child(path[0]).at(path.drop_first())
        }
    }

    /// `path` leads to a leaf.
    pub open spec fn reaches_leaf(self, path: Seq<Seq<u8>>) -> bool {
        self.resolves(path) && self.at(path).is_leaf()
    }

    /// Every cell that `path` passes through, above its end, has nine
    /// children.
    pub open spec fn supported_along(self, path: Seq<Seq<u8>>) -> bool
        decreases path.len(),
    {
        path.len() == 0 || (self.children.len() == BRANCHING && self.child(
            path[0],
        ).supported_along(path.drop_first()))
    }

    /// In every cell that `path` passes through, above its end, the
    /// coordinates of the children all have the same arity.
    pub open spec fn uniform_along(self, path: Seq<Seq<u8>>) -> bool
        decreases path.len(),
    {
        path.len() == 0 || (uniform_arity(self.keys()) && self.child(path[0]).uniform_along(
            path.drop_first(),
        ))
    }

    /// Why a move along `path` is refused, if it is: the path must lead to a
    /// leaf, and every cell above the leaf must be one that can be judged.
    pub open spec fn move_error(self, path: Seq<Seq<u8>>) -> Option<BoardError> {
        if !self.reaches_leaf(path) {
            Some(BoardError::InvalidPath)
        } else if !self.supported_along(path) {
            Some(BoardError::UnsupportedBranchingFactor)
        } else if !self.uniform_along(path) {
            Some(BoardError::ArityMismatch)
        } else {
            None
        }
    }

    /// This cell with the state `state`.
    pub open spec fn with_state(self, state: CellState) -> CellView {
        CellView { state, ..self }
    }

    /// This cell with `child` in the place of its child at position `i`.
    pub open spec fn with_child(self, i: int, child: CellView) -> CellView {
        CellView { children: self.children.update(i, (self.children[i].0, child)), ..self }
    }

    /// This cell with its state judged anew from its children, `team` having
    /// just moved. A cell that cannot be judged stays as it is.
    pub open spec fn settled_for(self, team: u8) -> CellView {
        match self.judged(team) {
            Ok(state) => self.with_state(state),
            Err(_) => self,
        }
    }

    /// The cell after `team` has claimed the leaf at the end of `path`.
    ///
    /// The leaf becomes `team`'s. Each cell above it holds the changed child,
    /// and is judged anew if that child reported a change; a leaf always
    /// does, another cell does when its state came out different.
    pub open spec fn moved(self, path: Seq<Seq<u8>>, team: u8) -> CellView
        decreases path.len(),
    {
        if path.len() == 0 {
            self.with_state(CellState::Owned(team))
        } else {
            let i = self.slot(path[0]);
            let rest = path.drop_first();
            let before = self.children[i].1;
            let after = before.moved(rest, team);
            let held = self.with_child(i, after);
            if rest.len() == 0 || after.state != before.state {
                held.settled_for(team)
            } else {
                held
            }
        }
    }

    /// Whether a move along `path` by `team` reports a change of this cell:
    /// always for the leaf that is claimed, and for a cell above it when its
    /// state after the move differs from its state before.
    pub open spec fn changed_by(self, path: Seq<Seq<u8>>, team: u8) -> bool {
        path.len() == 0 || self.moved(path, team).state != self.state
    }

    /// There has been play in some child.
    pub open spec fn any_nonempty(self) -> bool {
        exists|i: int|
            0 <= i < self.children.len() && (#[trigger] self.children[i]).1.state
                != CellState::Empty
    }

    /// The coordinates of the children that `team` holds, in order.
    pub open spec fn owned_by(self, team: u8) -> Seq<Seq<u8>> {
        self.children.filter(held_by(team)).map_values(key_of())
    }

    /// Whether `team` holds a line among the children. Only a cell of nine
    /// children can be judged.
    pub open spec fn capture(self, team: u8) -> Result<bool, BoardError> {
        if self.children.len() != BRANCHING {
            Err(BoardError::UnsupportedBranchingFactor)
        } else {
            capture_verdict(self.owned_by(team))
        }
    }

    /// The state that the children give the cell, when `team` has just
    /// moved: empty while no child has been played in, held by `team` when
    /// it has a line, contested otherwise.
    pub open spec fn judged(self, team: u8) -> Result<CellState, BoardError> {
        if !self.any_nonempty() {
            Ok(CellState::Empty)
        } else {
            match self.capture(team) {
                Ok(true) => Ok(CellState::Owned(team)),
                Ok(false) => Ok(CellState::Contested),
                Err(e) => Err(e),
            }
        }
    }
}

impl Cell {
    /// An empty leaf of the given rank.
    pub fn new(rank: u8) -> (cell: Self)
        ensures
            cell@ == (CellView { rank, children: Seq::empty(), state: CellState::Empty }),
            cell@.well_formed(),
            coherent(cell@),
    {
        let cell = Cell { rank, children: Vec::new(), state: CellState::Empty };
        assert(cell@.children =~= Seq::empty());
        cell
    }

    /// Puts `child` under the coordinate `key`: in the place of the child
    /// that `key` addresses, which is handed back, or else as a new last
    /// child. The state of this cell is left as it is.
    pub fn insert(&mut self, key: Coord, child: Cell) -> (replaced: Option<Cell>)
        ensures
            match replaced {
                Some(former) => {
                    &&& old(self)@.has_child(key@)
                    &&& former@ == old(self)@.child(key@)
                    &&& final(self)@ == old(self)@.with_child(old(self)@.slot(key@), child@)
                },
                None => {
                    &&& !old(self)@.has_child(key@)
                    &&& final(self)@ == (CellView {
                        children: old(self)@.children.push((key@, child@)),
                        ..old(self)@
                    })
                },
            },
            old(self)@.well_formed() && child@.well_formed() ==> final(self)@.well_formed(),
    {
        let ghost start = self@;
        proof {
            lemma_model_children(*self);
        }
        match self.position(&key) {
            Some(i) => {
                let mut former = child;
                core::mem::swap(&mut self.children[i].1, &mut former);
                proof {
                    lemma_model_children(*self);
                    let held = start.with_child(i as int, child@);
                    assert(self@.children =~= held.children);
                    if start.well_formed() && child@.well_formed() {
                        assert forall|a: int, b: int| 0 <= a < b < held.children.len() implies (
                        #[trigger] held.children[a]).0 != (#[trigger] held.children[b]).0 by {
                            assert(start.children[a].0 != start.children[b].0);
                        }
                        assert forall|a: int| 0 <= a < held.children.len() implies (
                        #[trigger] held.children[a]).1.well_formed() by {
                            if a != i {
                                assert(start.children[a].1.well_formed());
                            }
                        }
                    }
                }
                Some(former)
            },
            None => {
                self.children.push((key, child));
                proof {
                    lemma_model_children(*self);
                    let grown = start.children.push((key@, child@));
                    assert(self@.children =~= grown);
                    if start.well_formed() && child@.well_formed() {
                        assert forall|a: int, b: int| 0 <= a < b < grown.len() implies (
                        #[trigger] grown[a]).0 != (#[trigger] grown[b]).0 by {
                            if b == grown.len() - 1 {
                                assert(!start.keyed(a, key@));
                            } else {
                                assert(start.children[a].0 != start.children[b].0);
                            }
                        }
                        assert forall|a: int| 0 <= a < grown.len() implies (
                        #[trigger] grown[a]).1.well_formed() by {
                            if a < grown.len() - 1 {
                                assert(start.children[a].1.well_formed());
                            }
                        }
                    }
                }
                None
            },
        }
    }

    /// The position of the child that `key` addresses, if there is one.
    pub fn position(&self, key: &Coord) -> (at: Option<usize>)
        ensures
            at is Some == self@.has_child(key@),
            at is Some ==> at->0 == self@.slot(key@) && at->0 < self.children@.len(),
    {
        let mut i: usize = 0;
        while i < self.children.len()
            invariant
                i <= self.children.len(),
                forall|j: int| 0 <= j < i ==> !self@.keyed(j, key@),
            decreases self.children.len() - i,
        {
            if self.children[i].0 == *key {
                assert(self@.first_keyed(i as int, key@));
                return Some(i);
            }
            i += 1;
        }
        None
    }

    /// The child that `key` addresses, if there is one.
    pub fn child(&self, key: &Coord) -> (found: Option<&Cell>)
        ensures
            found is Some == self@.has_child(key@),
            found is Some ==> found->0@ == self@.child(key@),
    {
        match self.position(key) {
            Some(i) => Some(&self.children[i].1),
            None => None,
        }
    }

    /// The cell that `path` leads to, one coordinate per level, from this
    /// cell down. The empty path leads to this cell itself.
    ///
    /// A step that names no child gives `InvalidPath`.
    pub fn get(&self, path: &[Coord]) -> (r: Result<&Cell, BoardError>)
        ensures
            match r {
                Ok(cell) => self@.resolves(views(path@)) && cell@ == self@.at(views(path@)),
                Err(e) => e == BoardError::InvalidPath && !self@.resolves(views(path@)),
            },
        decreases path@.len(),
    {
        if path.len() == 0 {
            return Ok(self);
        }
        let rest = slice_subrange(path, 1, path.len());
        assert(views(rest@) == views(path@).drop_first());
        match self.child(&path[0]) {
            Some(next) => next.get(rest),
            None => Err(BoardError::InvalidPath),
        }
    }

    /// Whether the coordinates of the children all have the same arity.
    fn keys_uniform(&self) -> (b: bool)
        ensures
            b == uniform_arity(self@.keys()),
    {
        let mut i: usize = 1;
        proof {
            lemma_model_children(*self);
        }
        while i < self.children.len()
            invariant
                1 <= i,
                self@.children.len() == self.children@.len(),
                forall|j: int|
                    0 <= j < self.children@.len() ==> (#[trigger] self@.children[j]).0
                        == self.children@[j].0@,
                forall|j: int|
                    0 <= j < i && j < self.children@.len() ==> (#[trigger] self@.keys()[j]).len()
                        == self@.keys()[0].len(),
            decreases self.children.len() - i,
        {
            if self.children[i].0.arity() != self.children[0].0.arity() {
                assert(self@.keys()[i as int].len() != self@.keys()[0].len());
                return false;
            }
            i += 1;
        }
        true
    }

    /// Why a move along `path` is refused, if it is.
    fn vet(&self, path: &[Coord]) -> (refusal: Option<BoardError>)
        ensures
            refusal == self@.move_error(views(path@)),
        decreases path@.len(),
    {
        if path.len() == 0 {
            return if self.children.len() == 0 {
                None
            } else {
                Some(BoardError::InvalidPath)
            };
        }
        let rest = slice_subrange(path, 1, path.len());
        assert(views(rest@) == views(path@).drop_first());
        match self.child(&path[0]) {
            None => Some(BoardError::InvalidPath),
            Some(next) => {
                let below = next.vet(rest);
                match below {
                    Some(BoardError::InvalidPath) => below,
                    _ => {
                        if self.children.len() != BRANCHING {
                            Some(BoardError::UnsupportedBranchingFactor)
                        } else {
                            match below {
                                Some(BoardError::UnsupportedBranchingFactor) => below,
                                _ => {
                                    if !self.keys_uniform() {
                                        Some(BoardError::ArityMismatch)
                                    } else {
                                        below
                                    }
                                },
                            }
                        }
                    },
                }
            },
        }
    }

    /// Claims the leaf at the end of `path` for `team_id` and judges anew
    /// what lies above it, from the leaf up.
    fn apply(&mut self, path: &[Coord], team_id: u8) -> (changed: bool)
        requires
            old(self)@.move_error(views(path@)) is None,
        ensures
            final(self)@ == old(self)@.moved(views(path@), team_id),
            changed == old(self)@.changed_by(views(path@), team_id),
        decreases path@.len(),
    {
        if path.len() == 0 {
            self.state = CellState::Owned(team_id);
            assert(self@.children =~= old(self)@.children);
            return true;
        }
        let ghost steps = views(path@);
        let ghost start = old(self)@;
        let rest = slice_subrange(path, 1, path.len());
        assert(views(rest@) == steps.drop_first());
        let at = self.position(&path[0]);
        let i = at.unwrap();
        proof {
            lemma_model_children(*self);
        }
        let child_changed = self.children[i].1.apply(rest, team_id);
        let ghost after = self.children@[i as int].1@;
        let ghost held = start.with_child(i as int, after);
        proof {
            lemma_model_children(*self);
            assert(self@.children =~= held.children);
            assert(self@ == held);
        }
        if !child_changed {
            return false;
        }
        proof {
            assert(held.keys() =~= start.keys());
            assert(uniform_arity(start.keys()));
            lemma_owned_keep_arity(held, team_id);
        }
        match self.check(team_id) {
            Ok(state) => {
                if state != self.state {
                    self.state = state;
                    assert(self@.children =~= held.children);
                    true
                } else {
                    false
                }
            },
            // Every cell above the leaf of an accepted move can be judged.
            Err(_) => false,
        }
    }

    /// Claims the leaf at the end of `path` for the team `team_id`, and
    /// returns whether the state of this cell changed.
    ///
    /// `path` gives one coordinate per level, from this cell down to the
    /// leaf. The leaf becomes `Owned(team_id)`, whatever it was, and counts
    /// as changed. Going back up, a cell whose child did not change is left
    /// alone and reports no change; a cell whose child changed is judged
    /// anew for `team_id`, and reports a change when its state came out
    /// different.
    ///
    /// A move is refused, and the tree left as it was, when the path does
    /// not lead to a leaf (`InvalidPath`), when a cell above the leaf does
    /// not have nine children (`UnsupportedBranchingFactor`), or when the
    /// children of such a cell have coordinates of different arity
    /// (`ArityMismatch`).
    pub fn update(&mut self, path: &[Coord], team_id: u8) -> (r: Result<bool, BoardError>)
        ensures
            match r {
                Ok(changed) => {
                    &&& old(self)@.move_error(views(path@)) is None
                    &&& final(self)@ == old(self)@.moved(views(path@), team_id)
                    &&& changed == old(self)@.changed_by(views(path@), team_id)
                },
                Err(e) => {
                    &&& old(self)@.move_error(views(path@)) == Some(e)
                    &&& final(self)@ == old(self)@
                },
            },
            path@.len() == 0 && old(self)@.is_leaf() ==> r == Ok::<bool, BoardError>(true)
                && final(self)@ == old(self)@.with_state(CellState::Owned(team_id)),
            path@.len() > 0 && r is Ok ==> (r == Ok::<bool, BoardError>(false)) == (final(self)@.state
                == old(self)@.state),
            advances(old(self)@, final(self)@),
            old(self)@.well_formed() ==> final(self)@.well_formed(),
            coherent(old(self)@) ==> coherent(final(self)@),
    {
        proof {
            lemma_advances_reflexive(self@);
        }
        match self.vet(path) {
            Some(e) => Err(e),
            None => {
                proof {
                    lemma_move_advances(self@, views(path@), team_id);
                    lemma_advances_keeps_form(self@, self@.moved(views(path@), team_id));
                    if coherent(self@) {
                        lemma_move_keeps_coherence(self@, views(path@), team_id);
                    }
                }
                Ok(self.apply(path, team_id))
            },
        }
    }

    /// Whether there has been play in some child.
    fn has_play(&self) -> (b: bool)
        ensures
            b == self@.any_nonempty(),
    {
        let mut i: usize = 0;
        proof {
            lemma_model_children(*self);
        }
        while i < self.children.len()
            invariant
                i <= self.children.len(),
                self@.children.len() == self.children@.len(),
                forall|j: int|
                    0 <= j < self.children@.len() ==> (#[trigger] self@.children[j]).1.state
                        == self.children@[j].1.state,
                forall|j: int|
                    0 <= j < i ==> (#[trigger] self@.children[j]).1.state == CellState::Empty,
            decreases self.children.len() - i,
        {
            if self.children[i].1.state.is_nonempty() {
                assert(self@.children[i as int].1.state != CellState::Empty);
                return true;
            }
            i += 1;
        }
        false
    }

    /// The state that the children give this cell when the team `team_id`
    /// has just moved: `Empty` while no child has been played in, `Owned` by
    /// that team if it holds a line among the children, `Contested`
    /// otherwise. The cell is only judged for capture once a child has been
    /// played in.
    pub fn check(&self, team_id: u8) -> (r: Result<CellState, BoardError>)
        ensures
            r == self@.judged(team_id),
    {
        if self.has_play() {
            match self.captured(team_id) {
                Ok(true) => Ok(CellState::Owned(team_id)),
                Ok(false) => Ok(CellState::Contested),
                Err(e) => Err(e),
            }
        } else {
            Ok(CellState::Empty)
        }
    }

    /// Whether the team `team_id` holds a winning line among the children of
    /// this cell.
    ///
    /// A cell that does not have nine children gives
    /// `UnsupportedBranchingFactor`.
    pub fn captured(&self, team_id: u8) -> (r: Result<bool, BoardError>)
        ensures
            r == self@.capture(team_id),
    {
        if self.children.len() != BRANCHING {
            return Err(BoardError::UnsupportedBranchingFactor);
        }
        let mut owned: Vec<&Coord> = Vec::new();
        let mut i: usize = 0;
        let ghost kids = self@.children;
        proof {
            lemma_model_children(*self);
        }
        assert(kids.take(0) =~= Seq::empty());
        assert(coords_of(owned@) =~= kids.take(0).filter(held_by(team_id)).map_values(key_of())) by {
            reveal(Seq::filter);
        }
        while i < self.children.len()
            invariant
                i <= self.children.len(),
                kids == self@.children,
                kids.len() == self.children@.len(),
                forall|j: int|
                    0 <= j < self.children@.len() ==> (#[trigger] kids[j]).0
                        == self.children@[j].0@ && kids[j].1.state == self.children@[j].1.state,
                coords_of(owned@) == kids.take(i as int).filter(held_by(team_id)).map_values(
                    key_of(),
                ),
            decreases self.children.len() - i,
        {
            proof {
                let seen = kids.take(i as int);
                assert(kids.take(i + 1) =~= seen.push(kids[i as int]));
                seen.lemma_filter_push(kids[i as int], held_by(team_id));
                let held = seen.filter(held_by(team_id));
                assert(held.push(kids[i as int]).map_values(key_of()) =~= held.map_values(
                    key_of(),
                ).push(kids[i as int].0));
                assert(coords_of(owned@.push(&self.children@[i as int].0)) =~= coords_of(
                    owned@,
                ).push(kids[i as int].0));
            }
            if self.children[i].1.state == CellState::Owned(team_id) {
                owned.push(&self.children[i].0);
            }
            i += 1;
        }
        assert(kids.take(i as int) == kids);
        Self::captured_set(owned)
    }

    /// The eight winning lines of the three by three grid: the rows, the
    /// columns and the two diagonals, each with its points in lexicographic
    /// order.
    pub fn three_in_a_rows() -> (lines: Vec<[Coord; 3]>)
        ensures
            lines@.len() == grid_lines().len(),
            forall|l: int|
                0 <= l < lines@.len() ==> views((#[trigger] lines@[l])@) == grid_lines()[l],
    {
        let mut lines: Vec<[Coord; 3]> = Vec::new();
        lines.push([Coord::pair(0, 0), Coord::pair(0, 1), Coord::pair(0, 2)]);
        lines.push([Coord::pair(1, 0), Coord::pair(1, 1), Coord::pair(1, 2)]);
        lines.push([Coord::pair(2, 0), Coord::pair(2, 1), Coord::pair(2, 2)]);
        lines.push([Coord::pair(0, 0), Coord::pair(1, 0), Coord::pair(2, 0)]);
        lines.push([Coord::pair(0, 1), Coord::pair(1, 1), Coord::pair(2, 1)]);
        lines.push([Coord::pair(0, 2), Coord::pair(1, 2), Coord::pair(2, 2)]);
        lines.push([Coord::pair(0, 0), Coord::pair(1, 1), Coord::pair(2, 2)]);
        lines.push([Coord::pair(0, 2), Coord::pair(1, 1), Coord::pair(2, 0)]);
        assert forall|l: int| 0 <= l < lines@.len() implies views(
            (#[trigger] lines@[l])@,
        ) == grid_lines()[l] by {
            assert(views(lines@[l]@) =~~= grid_lines()[l]);
        }
        lines
    }

    /// Whether some three of the coordinates in `set` form a winning line.
    ///
    /// Every subset of three is tested. With three or more coordinates, all
    /// must have the same arity, else the result is `ArityMismatch`.
    pub fn captured_set(set: Vec<&Coord>) -> (r: Result<bool, BoardError>)
        ensures
            r == capture_verdict(coords_of(set@)),
    {
        if set.len() >= LINE_LENGTH && !same_arity(&set) {
            return Err(BoardError::ArityMismatch);
        }
        let ghost given = set@;
        let ghost s = coords_of(set@);
        let mut subsets = subsets_of_size(set, LINE_LENGTH);
        let ghost all = combinations(given, LINE_LENGTH as nat);
        let ghost total = subsets@.len();
        while subsets.len() > 0
            invariant
                given == set@,
                s == coords_of(given),
                all == combinations(given, LINE_LENGTH as nat),
                given.len() >= LINE_LENGTH ==> uniform_arity(s),
                total == all.len(),
                subsets@.len() <= total,
                forall|j: int| 0 <= j < subsets@.len() ==> (#[trigger] subsets@[j])@ == all[j],
                forall|j: int|
                    subsets@.len() <= j < total ==> !is_line(coords_of(#[trigger] all[j])),
            decreases subsets.len(),
        {
            let ghost j = subsets@.len() - 1;
            let candidate = subsets.pop().unwrap();
            let ghost idx = lemma_combinations_sound(given, LINE_LENGTH as nat, j);
            proof {
                assert(coords_of(pick(given, idx)) =~= pick(s, idx));
                assert(given.len() >= LINE_LENGTH);
                assert forall|a: int, b: int|
                    0 <= a < pick(s, idx).len() && 0 <= b < pick(s, idx).len() implies (
                #[trigger] pick(s, idx)[a]).len() == (#[trigger] pick(s, idx)[b]).len() by {
                    assert(s[idx[a]].len() == s[idx[b]].len());
                }
            }
            match captured_subset(candidate) {
                Ok(true) => {
                    assert(candidate@ == all[j]);
                    assert(is_line(pick(s, idx)));
                    return Ok(true);
                },
                Ok(false) => {},
                Err(e) => {
                    return Err(e);
                },
            }
        }
        proof {
            assert forall|idx: Seq<int>|
                idx.len() == LINE_LENGTH && ascending(idx, s.len() as int) implies !is_line(
                #[trigger] pick(s, idx),
            ) by {
                let j = lemma_combinations_complete(given, idx);
                assert(coords_of(pick(given, idx)) =~= pick(s, idx));
            }
        }
        Ok(false)
    }
}

/// The value of a cell shows the rank and state of each child as the child
/// holds them.
pub proof fn lemma_model_children(cell: Cell)
    ensures
        cell@.children.len() == cell.children@.len(),
        forall|i: int|
            0 <= i < cell.children@.len() ==> {
                &&& (#[trigger] cell@.children[i]).0 == cell.children@[i].0@
                &&& cell@.children[i].1 == cell.children@[i].1@
                &&& cell@.children[i].1.state == cell.children@[i].1.state
                &&& cell@.children[i].1.rank == cell.children@[i].1.rank
            },
{
    assert forall|i: int| 0 <= i < cell.children@.len() implies {
        &&& (#[trigger] cell@.children[i]).0 == cell.children@[i].0@
        &&& cell@.children[i].1 == cell.children@[i].1@
        &&& cell@.children[i].1.state == cell.children@[i].1.state
        &&& cell@.children[i].1.rank == cell.children@[i].1.rank
    } by {
        assert(cell.children@[i].1@.state == cell.children@[i].1.state);
    }
}

/// Where the coordinates of the children have one arity, so have those of
/// the children that a team holds.
pub proof fn lemma_owned_keep_arity(cell: CellView, team: u8)
    requires
        uniform_arity(cell.keys()),
    ensures
        uniform_arity(cell.owned_by(team)),
{
    let held = cell.children.filter(held_by(team));
    let owned = cell.owned_by(team);
    assert forall|i: int, j: int| 0 <= i < owned.len() && 0 <= j < owned.len() implies (
    #[trigger] owned[i]).len() == (#[trigger] owned[j]).len() by {
        assert(held.contains(held[i]) && held.contains(held[j]));
        cell.children.lemma_filter_contains_rev(held_by(team), held[i]);
        cell.children.lemma_filter_contains_rev(held_by(team), held[j]);
        let a = choose|a: int| 0 <= a < cell.children.len() && cell.children[a] == held[i];
        let b = choose|b: int| 0 <= b < cell.children.len() && cell.children[b] == held[j];
        assert(cell.keys()[a] == owned[i] && cell.keys()[b] == owned[j]);
    }
}

} // verus!
