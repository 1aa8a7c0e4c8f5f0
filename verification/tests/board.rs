use fractal_board::cell::{Cell, CellState};
use fractal_board::coord::Coord;
use fractal_board::error::BoardError;
use fractal_board::factory::generate_rank_n;

fn at(x: u8, y: u8) -> Coord {
    Coord::pair(x, y)
}

#[test]
fn state_is_nonempty_unless_empty() {
    assert!(CellState::Owned(0).is_nonempty());
    assert!(CellState::Contested.is_nonempty());
    assert!(!CellState::Empty.is_nonempty());
}

#[test]
fn state_owned_gives_the_team() {
    assert_eq!(CellState::Owned(7).owned(), Some(7));
    assert_eq!(CellState::Empty.owned(), None);
    assert_eq!(CellState::Contested.owned(), None);
}

#[test]
fn new_cell_is_an_empty_leaf() {
    let cell = Cell::new(4);
    assert_eq!(cell.rank, 4);
    assert!(cell.children.is_empty());
    assert_eq!(cell.state, CellState::Empty);
}

#[test]
fn untouched_board_is_uniform() {
    let leaf = generate_rank_n(0);
    assert!(leaf.children.is_empty());
    assert_eq!(leaf.rank, 0);
    let board = generate_rank_n(2);
    assert_eq!(board.rank, 2);
    assert_eq!(board.state, CellState::Empty);
    assert_eq!(board.children.len(), 9);
    for (i, (coord, sub)) in board.children.iter().enumerate() {
        assert_eq!(coord.coord, vec![(i / 3) as u8, (i % 3) as u8]);
        assert_eq!(sub.rank, 1);
        assert_eq!(sub.state, CellState::Empty);
        assert_eq!(sub.children.len(), 9);
        for (j, (inner, leaf)) in sub.children.iter().enumerate() {
            assert_eq!(inner.coord, vec![(j / 3) as u8, (j % 3) as u8]);
            assert_eq!(leaf.rank, 0);
            assert_eq!(leaf.state, CellState::Empty);
            assert!(leaf.children.is_empty());
        }
    }
}

#[test]
fn leaf_update_with_empty_path_always_claims() {
    let mut leaf = Cell::new(0);
    assert_eq!(leaf.update(&[], 0), Ok(true));
    assert_eq!(leaf.state, CellState::Owned(0));
    assert_eq!(leaf.update(&[], 0), Ok(true));
    assert_eq!(leaf.state, CellState::Owned(0));
    assert_eq!(leaf.update(&[], 1), Ok(true));
    assert_eq!(leaf.state, CellState::Owned(1));
}

#[test]
fn diagonal_on_a_single_grid_wins_it() {
    let mut board = generate_rank_n(1);
    assert_eq!(board.update(&[at(0, 0)], 0), Ok(true));
    assert_eq!(board.state, CellState::Contested);
    assert_eq!(board.update(&[at(1, 1)], 0), Ok(false));
    assert_eq!(board.state, CellState::Contested);
    assert_eq!(board.update(&[at(2, 2)], 0), Ok(true));
    assert_eq!(board.state, CellState::Owned(0));
}

#[test]
fn one_move_each_leaves_the_grid_contested() {
    let mut board = generate_rank_n(1);
    assert_eq!(board.update(&[at(0, 0)], 0), Ok(true));
    assert_eq!(board.update(&[at(1, 1)], 1), Ok(false));
    assert_eq!(board.state, CellState::Contested);
    assert_eq!(board.get(&[at(0, 0)]).unwrap().state, CellState::Owned(0));
    assert_eq!(board.get(&[at(1, 1)]).unwrap().state, CellState::Owned(1));
}

#[test]
fn winning_a_sub_board_claims_it_one_level_up() {
    let mut board = generate_rank_n(2);
    {
        let top_left = board.get(&[at(0, 0)]).unwrap();
        assert_eq!(top_left.rank, 1);
        assert_eq!(top_left.children.len(), 9);
        assert_eq!(top_left.state, CellState::Empty);
    }
    assert_eq!(board.update(&[at(0, 0), at(0, 0)], 0), Ok(true));
    assert_eq!(board.state, CellState::Contested);
    assert_eq!(board.update(&[at(0, 0), at(0, 1)], 0), Ok(false));
    assert_eq!(board.update(&[at(0, 0), at(0, 2)], 0), Ok(false));
    assert_eq!(board.get(&[at(0, 0)]).unwrap().state, CellState::Owned(0));
    assert_eq!(board.state, CellState::Contested);
    for sub in [at(1, 1), at(2, 2)] {
        for leaf in [at(0, 0), at(1, 1), at(2, 2)] {
            assert_eq!(board.state, CellState::Contested);
            board.update(&[sub.clone(), leaf], 0).unwrap();
        }
        assert_eq!(board.get(&[sub.clone()]).unwrap().state, CellState::Owned(0));
    }
    assert_eq!(board.state, CellState::Owned(0));
}

#[test]
fn update_on_a_missing_child_is_refused_and_changes_nothing() {
    let mut board = generate_rank_n(2);
    board.update(&[at(1, 1), at(1, 1)], 0).unwrap();
    let before = board.clone();
    assert_eq!(board.update(&[at(3, 0), at(0, 0)], 1), Err(BoardError::InvalidPath));
    assert_eq!(board, before);
    assert_eq!(board.update(&[at(0, 0), at(0, 9)], 1), Err(BoardError::InvalidPath));
    assert_eq!(board, before);
}

#[test]
fn update_with_a_path_of_the_wrong_length_is_refused() {
    let mut board = generate_rank_n(2);
    let before = board.clone();
    assert_eq!(board.update(&[], 0), Err(BoardError::InvalidPath));
    assert_eq!(board.update(&[at(0, 0)], 0), Err(BoardError::InvalidPath));
    assert_eq!(
        board.update(&[at(0, 0), at(0, 0), at(0, 0)], 0),
        Err(BoardError::InvalidPath)
    );
    assert_eq!(board, before);
}

#[test]
fn get_follows_the_path() {
    let mut board = generate_rank_n(2);
    board.update(&[at(2, 1), at(0, 2)], 1).unwrap();
    assert_eq!(board.get(&[]).unwrap().rank, 2);
    assert_eq!(board.get(&[at(2, 1)]).unwrap().state, CellState::Contested);
    assert_eq!(board.get(&[at(2, 1), at(0, 2)]).unwrap().state, CellState::Owned(1));
    assert_eq!(board.get(&[at(2, 1), at(0, 1)]).unwrap().state, CellState::Empty);
    assert_eq!(board.get(&[at(2, 3)]).err(), Some(BoardError::InvalidPath));
    assert_eq!(
        board.get(&[at(2, 1), at(0, 2), at(0, 0)]).err(),
        Some(BoardError::InvalidPath)
    );
}

fn grid_of(coords: Vec<Coord>) -> Cell {
    let mut cell = Cell::new(1);
    for coord in coords {
        cell.children.push((coord, Cell::new(0)));
    }
    cell
}

fn square(side: u8) -> Vec<Coord> {
    let mut all = Vec::new();
    for x in 0..side {
        for y in 0..side {
            all.push(at(x, y));
        }
    }
    all
}

#[test]
fn update_reports_no_change_when_the_state_stays() {
    let mut board = generate_rank_n(2);
    assert_eq!(board.update(&[at(0, 0), at(0, 0)], 0), Ok(true));
    assert_eq!(board.state, CellState::Contested);
    assert_eq!(board.update(&[at(0, 0), at(2, 2)], 1), Ok(false));
    assert_eq!(board.state, CellState::Contested);
    assert_eq!(board.update(&[at(1, 1), at(2, 2)], 1), Ok(false));
    assert_eq!(board.state, CellState::Contested);
    assert_eq!(board.get(&[at(1, 1)]).unwrap().state, CellState::Contested);
}

#[test]
fn reclaiming_a_leaf_counts_as_a_change_of_the_leaf_only() {
    let mut board = generate_rank_n(1);
    assert_eq!(board.update(&[at(1, 2)], 0), Ok(true));
    assert_eq!(board.update(&[at(1, 2)], 0), Ok(false));
    assert_eq!(board.update(&[at(1, 2)], 1), Ok(false));
    assert_eq!(board.get(&[at(1, 2)]).unwrap().state, CellState::Owned(1));
    assert_eq!(board.state, CellState::Contested);
}

#[test]
fn a_cell_is_judged_for_the_mover_only() {
    let mut board = generate_rank_n(1);
    for leaf in [at(0, 0), at(0, 1), at(0, 2)] {
        board.update(&[leaf], 0).unwrap();
    }
    assert_eq!(board.state, CellState::Owned(0));
    assert_eq!(board.update(&[at(2, 2)], 0), Ok(false));
    assert_eq!(board.state, CellState::Owned(0));
    assert_eq!(board.update(&[at(1, 1)], 1), Ok(true));
    assert_eq!(board.state, CellState::Contested);
    assert_eq!(board.update(&[at(1, 0)], 1), Ok(false));
    assert_eq!(board.update(&[at(1, 2)], 1), Ok(true));
    assert_eq!(board.state, CellState::Owned(1));
}

#[test]
fn a_played_board_is_never_empty_again() {
    let mut board = generate_rank_n(2);
    assert_eq!(board.state, CellState::Empty);
    let mut team = 0;
    for sub in square(3) {
        for leaf in square(3) {
            board.update(&[sub.clone(), leaf], team).unwrap();
            assert!(board.state.is_nonempty());
            assert!(board.get(&[sub.clone()]).unwrap().state.is_nonempty());
            team = 1 - team;
        }
    }
    for (_, sub) in board.children.iter() {
        assert!(sub.state.is_nonempty());
        for (_, leaf) in sub.children.iter() {
            assert!(leaf.state.is_nonempty());
        }
    }
}

#[test]
fn check_judges_the_children() {
    let mut board = generate_rank_n(1);
    assert_eq!(board.check(0), Ok(CellState::Empty));
    assert_eq!(Cell::new(0).check(0), Ok(CellState::Empty));
    board.children[4].1.state = CellState::Owned(1);
    assert_eq!(board.check(0), Ok(CellState::Contested));
    assert_eq!(board.check(1), Ok(CellState::Contested));
    board.children[0].1.state = CellState::Owned(1);
    board.children[8].1.state = CellState::Owned(1);
    assert_eq!(board.check(1), Ok(CellState::Owned(1)));
    assert_eq!(board.check(0), Ok(CellState::Contested));
    assert_eq!(board.state, CellState::Empty);
}

#[test]
fn check_counts_a_contested_child_as_played() {
    let mut board = generate_rank_n(2);
    board.children[3].1.state = CellState::Contested;
    assert_eq!(board.check(0), Ok(CellState::Contested));
}

#[test]
fn captured_looks_at_the_children_of_one_team() {
    let mut board = generate_rank_n(1);
    assert_eq!(board.captured(0), Ok(false));
    for i in [2, 4, 6] {
        board.children[i].1.state = CellState::Owned(0);
    }
    board.children[0].1.state = CellState::Owned(1);
    board.children[1].1.state = CellState::Contested;
    assert_eq!(board.captured(0), Ok(true));
    assert_eq!(board.captured(1), Ok(false));
    assert_eq!(board.captured(2), Ok(false));
}

#[test]
fn captured_needs_nine_children() {
    assert_eq!(
        Cell::new(0).captured(0),
        Err(BoardError::UnsupportedBranchingFactor)
    );
    assert_eq!(
        grid_of(square(2)).captured(0),
        Err(BoardError::UnsupportedBranchingFactor)
    );
    assert_eq!(
        grid_of(square(4)).captured(0),
        Err(BoardError::UnsupportedBranchingFactor)
    );
    assert_eq!(grid_of(square(3)).captured(0), Ok(false));
}

#[test]
fn check_of_a_small_grid_fails_only_once_it_is_played() {
    let mut small = grid_of(square(2));
    assert_eq!(small.check(0), Ok(CellState::Empty));
    small.children[0].1.state = CellState::Owned(0);
    assert_eq!(small.check(0), Err(BoardError::UnsupportedBranchingFactor));
}

#[test]
fn update_refuses_a_grid_that_cannot_be_judged() {
    let mut small = grid_of(square(2));
    let before = small.clone();
    assert_eq!(
        small.update(&[at(0, 0)], 0),
        Err(BoardError::UnsupportedBranchingFactor)
    );
    assert_eq!(small, before);
    assert_eq!(small.update(&[at(5, 5)], 0), Err(BoardError::InvalidPath));
    assert_eq!(small, before);
}

#[test]
fn update_refuses_a_small_grid_below_the_root() {
    let mut board = generate_rank_n(2);
    board.children[4].1 = grid_of(square(2));
    let before = board.clone();
    assert_eq!(
        board.update(&[at(1, 1), at(0, 0)], 0),
        Err(BoardError::UnsupportedBranchingFactor)
    );
    assert_eq!(board, before);
    assert_eq!(board.update(&[at(0, 0), at(0, 0)], 0), Ok(true));
}

#[test]
fn update_refuses_children_of_mixed_arity() {
    let mut coords = square(3);
    coords[8] = Coord::new(vec![2, 2, 0]);
    let mut odd = grid_of(coords);
    let before = odd.clone();
    assert_eq!(odd.update(&[at(0, 0)], 0), Err(BoardError::ArityMismatch));
    assert_eq!(odd, before);
}

#[test]
fn captured_refuses_held_children_of_mixed_arity() {
    let mut coords = square(3);
    coords[8] = Coord::new(vec![2, 2, 0]);
    let mut odd = grid_of(coords);
    for i in [0, 4] {
        odd.children[i].1.state = CellState::Owned(0);
    }
    assert_eq!(odd.captured(0), Ok(false));
    odd.children[8].1.state = CellState::Owned(0);
    assert_eq!(odd.captured(0), Err(BoardError::ArityMismatch));
    assert_eq!(odd.check(0), Err(BoardError::ArityMismatch));
    assert_eq!(odd.captured(1), Ok(false));
}

#[test]
fn position_and_child_find_by_coordinate() {
    let mut board = generate_rank_n(1);
    board.children[5].1.state = CellState::Owned(3);
    assert_eq!(board.position(&at(1, 2)), Some(5));
    assert_eq!(board.position(&at(0, 0)), Some(0));
    assert_eq!(board.position(&at(0, 3)), None);
    assert_eq!(board.position(&Coord::new(vec![1])), None);
    assert_eq!(board.child(&at(1, 2)).unwrap().state, CellState::Owned(3));
    assert!(board.child(&at(3, 1)).is_none());
    assert_eq!(Cell::new(0).position(&at(0, 0)), None);
}

#[test]
fn the_first_of_two_children_with_one_coordinate_is_found() {
    let mut cell = Cell::new(1);
    cell.children.push((at(0, 0), Cell::new(0)));
    cell.children.push((at(0, 0), Cell::new(7)));
    assert_eq!(cell.position(&at(0, 0)), Some(0));
    assert_eq!(cell.child(&at(0, 0)).unwrap().rank, 0);
}

#[test]
fn clone_copies_the_whole_tree() {
    let mut board = generate_rank_n(2);
    board.update(&[at(2, 0), at(1, 1)], 1).unwrap();
    let copy = board.clone();
    assert_eq!(copy, board);
    board.update(&[at(2, 0), at(1, 2)], 0).unwrap();
    assert_ne!(copy, board);
    assert_eq!(copy.get(&[at(2, 0), at(1, 2)]).unwrap().state, CellState::Empty);
}

#[test]
fn insert_adds_a_child_or_replaces_the_one_addressed() {
    let mut cell = Cell::new(1);
    assert!(cell.insert(at(0, 0), Cell::new(0)).is_none());
    assert!(cell.insert(at(0, 1), Cell::new(0)).is_none());
    assert_eq!(cell.children.len(), 2);
    assert_eq!(cell.position(&at(0, 1)), Some(1));
    let mut claimed = Cell::new(0);
    claimed.state = CellState::Owned(1);
    let former = cell.insert(at(0, 0), claimed).unwrap();
    assert_eq!(former, Cell::new(0));
    assert_eq!(cell.children.len(), 2);
    assert_eq!(cell.position(&at(0, 0)), Some(0));
    assert_eq!(cell.child(&at(0, 0)).unwrap().state, CellState::Owned(1));
    assert_eq!(cell.child(&at(0, 1)).unwrap().state, CellState::Empty);
    assert_eq!(cell.state, CellState::Empty);
    assert_eq!(cell.rank, 1);
}

#[test]
fn a_board_built_by_insert_plays_like_a_standard_one() {
    let mut built = Cell::new(1);
    for coord in square(3) {
        built.insert(coord, Cell::new(0));
    }
    assert_eq!(built, generate_rank_n(1));
    assert_eq!(built.update(&[at(2, 0)], 1), Ok(true));
    assert_eq!(built.update(&[at(1, 1)], 1), Ok(false));
    assert_eq!(built.update(&[at(0, 2)], 1), Ok(true));
    assert_eq!(built.state, CellState::Owned(1));
}
