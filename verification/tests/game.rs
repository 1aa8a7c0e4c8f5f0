use fractal_board::cell::CellState;
use fractal_board::coord::Coord;
use fractal_board::error::BoardError;
use fractal_board::factory::generate_rank_n;
use fractal_board::history::Game;

fn p(x: u8, y: u8) -> Coord {
    Coord::pair(x, y)
}

#[test]
fn a_new_game_has_nothing_to_undo() {
    let mut game = Game::new(generate_rank_n(1));
    assert_eq!(game.moves(), 0);
    assert_eq!(game.undo(), None);
    assert_eq!(game.moves(), 0);
    assert_eq!(*game.board(), generate_rank_n(1));
}

#[test]
fn undo_takes_back_the_last_move_and_names_its_team() {
    let mut game = Game::new(generate_rank_n(2));
    assert_eq!(game.play(&[p(0, 0), p(1, 1)], 0), Ok(true));
    let after_first = game.board().clone();
    assert_eq!(game.play(&[p(0, 0), p(2, 2)], 1), Ok(false));
    assert_eq!(game.moves(), 2);
    assert_eq!(
        game.board().get(&[p(0, 0), p(2, 2)]).unwrap().state,
        CellState::Owned(1)
    );
    assert_eq!(game.undo(), Some(1));
    assert_eq!(*game.board(), after_first);
    assert_eq!(game.moves(), 1);
    assert_eq!(game.undo(), Some(0));
    assert_eq!(*game.board(), generate_rank_n(2));
    assert_eq!(game.undo(), None);
}

#[test]
fn undo_restores_every_state_on_the_path() {
    let mut game = Game::new(generate_rank_n(2));
    game.play(&[p(1, 1), p(0, 0)], 0).unwrap();
    game.play(&[p(1, 1), p(0, 1)], 0).unwrap();
    let before = game.board().clone();
    assert_eq!(game.play(&[p(1, 1), p(0, 2)], 0), Ok(false));
    assert_eq!(game.board().get(&[p(1, 1)]).unwrap().state, CellState::Owned(0));
    assert_eq!(game.undo(), Some(0));
    assert_eq!(*game.board(), before);
    assert_eq!(game.board().get(&[p(1, 1)]).unwrap().state, CellState::Contested);
    assert_eq!(
        game.board().get(&[p(1, 1), p(0, 2)]).unwrap().state,
        CellState::Empty
    );
}

#[test]
fn a_refused_move_is_not_remembered() {
    let mut game = Game::new(generate_rank_n(1));
    game.play(&[p(1, 1)], 0).unwrap();
    let before = game.board().clone();
    assert_eq!(game.play(&[p(3, 3)], 1), Err(BoardError::InvalidPath));
    assert_eq!(game.play(&[], 1), Err(BoardError::InvalidPath));
    assert_eq!(game.moves(), 1);
    assert_eq!(*game.board(), before);
    assert_eq!(game.undo(), Some(0));
    assert_eq!(*game.board(), generate_rank_n(1));
}

#[test]
fn play_reports_what_update_reports() {
    let mut game = Game::new(generate_rank_n(1));
    let mut board = generate_rank_n(1);
    for (coord, team) in [(p(0, 0), 0), (p(1, 1), 1), (p(0, 1), 0), (p(0, 2), 0), (p(0, 0), 1)] {
        let path = [coord];
        assert_eq!(game.play(&path, team), board.update(&path, team));
        assert_eq!(*game.board(), board);
    }
    assert_eq!(game.moves(), 5);
}
