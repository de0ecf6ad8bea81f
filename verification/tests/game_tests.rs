use ttt_limited::{BoardState, CellView, Game, GameResult, GameSetting, Take};

fn state(coords: &[(u8, u8)]) -> BoardState {
    let mut takes = Vec::new();
    for &(x, y) in coords {
        takes.push(Take { x, y });
    }
    BoardState::from_takes(takes)
}

fn classic() -> GameSetting {
    GameSetting::try_new(3, 3, 3, 9).unwrap()
}

#[test]
fn new_game_is_empty_with_first_to_move() {
    let g = Game::new(classic());
    assert_eq!(g.steps_taken(), 0);
    assert!(g.is_next_first());
    assert_eq!(g.state().takes().len(), 0);
    assert_eq!(g.result(), GameResult::Continue);
    assert!(!g.is_finished());
    assert!(g.verify_full().is_ok());
}

#[test]
fn add_take_alternates_turns_and_appends() {
    let mut g = Game::new(classic());
    assert!(g.add_take(Take { x: 0, y: 0 }).is_ok());
    assert_eq!(g.steps_taken(), 1);
    assert!(!g.is_next_first());
    assert!(g.add_take(Take { x: 1, y: 1 }).is_ok());
    assert_eq!(g.steps_taken(), 2);
    assert!(g.is_next_first());
    assert_eq!(*g.state(), state(&[(0, 0), (1, 1)]));
    assert!(g.is_last_take(Take { x: 1, y: 1 }));
    assert!(!g.is_last_take(Take { x: 0, y: 0 }));
}

#[test]
fn add_take_rejects_occupied_and_out_of_board() {
    let mut g = Game::new(classic());
    g.add_take(Take { x: 0, y: 0 }).unwrap();
    assert!(g.add_take(Take { x: 0, y: 0 }).is_err());
    assert!(g.add_take(Take { x: 3, y: 0 }).is_err());
    assert!(g.add_take(Take { x: 0, y: 7 }).is_err());
    // a failed move leaves the game unchanged
    assert_eq!(g.steps_taken(), 1);
    assert_eq!(*g.state(), state(&[(0, 0)]));
}

#[test]
fn validate_take_is_legality_exclusive() {
    // legal exactly when in bounds and not occupied by a live piece
    let mut g = Game::new(classic());
    g.add_take(Take { x: 1, y: 1 }).unwrap();
    assert!(g.validate_take(Take { x: 3, y: 1 }).is_err());
    assert!(g.validate_take(Take { x: 1, y: 3 }).is_err());
    assert!(g.validate_take(Take { x: 1, y: 1 }).is_err());
    assert!(g.validate_take(Take { x: 0, y: 1 }).is_ok());
    assert!(g.validate_take(Take { x: 2, y: 2 }).is_ok());
}

#[test]
fn sliding_window_evicts_oldest() {
    // piece cap 1: the window holds at most two moves
    let s = GameSetting::try_new(3, 3, 3, 1).unwrap();
    let mut g = Game::new(s);
    g.add_take(Take { x: 0, y: 0 }).unwrap();
    g.add_take(Take { x: 1, y: 1 }).unwrap();
    assert_eq!(g.state().takes().len(), 2);
    // the window is full: the oldest cell already counts as free again
    assert!(g.validate_take(Take { x: 0, y: 0 }).is_ok());
    g.add_take(Take { x: 2, y: 1 }).unwrap();
    assert_eq!(*g.state(), state(&[(1, 1), (2, 1)]));
    assert_eq!(g.steps_taken(), 3);
    // after any sequence of applies the window never exceeds twice the cap
    let mut h = Game::new(s);
    let moves = [(0, 0), (1, 1), (2, 0), (0, 2), (1, 0), (0, 1), (2, 2)];
    for &(x, y) in moves.iter() {
        if h.is_finished() {
            break;
        }
        if h.validate_take(Take { x, y }).is_ok() {
            h.add_take(Take { x, y }).unwrap();
        }
        assert!(h.state().takes().len() <= 2);
        assert!(h.verify_full().is_ok());
    }
}

#[test]
fn valid_take_count_counts_free_cells() {
    let mut g = Game::new(classic());
    assert_eq!(g.valid_take_count(), 9);
    g.add_take(Take { x: 0, y: 0 }).unwrap();
    assert_eq!(g.valid_take_count(), 8);
    g.add_take(Take { x: 1, y: 1 }).unwrap();
    assert_eq!(g.valid_take_count(), 7);
    // with a full cap-1 window the oldest cell counts as free
    let s = GameSetting::try_new(3, 3, 3, 1).unwrap();
    let mut h = Game::new(s);
    h.add_take(Take { x: 0, y: 0 }).unwrap();
    h.add_take(Take { x: 1, y: 1 }).unwrap();
    assert_eq!(h.valid_take_count(), 8);
}

#[test]
fn three_in_a_row_wins_and_ends_the_game() {
    // each player keeps only three pieces; first completes the top row
    let s = GameSetting::try_new(3, 3, 3, 3).unwrap();
    let mut g = Game::new(s);
    let moves = [(0, 0), (0, 1), (1, 0), (1, 1), (2, 0)];
    for (i, &(x, y)) in moves.iter().enumerate() {
        if i + 1 < moves.len() {
            assert_eq!(g.result(), GameResult::Continue);
        }
        g.add_take(Take { x, y }).unwrap();
        assert!(g.verify_full().is_ok());
    }
    assert_eq!(g.result(), GameResult::FirstWin);
    assert!(g.result().is_win());
    assert!(g.is_finished());
    // applying once the game is finished fails with an illegal-operation error
    assert!(g.add_take(Take { x: 2, y: 2 }).is_err());
    assert_eq!(g.steps_taken(), 5);
}

#[test]
fn second_player_line_is_reported() {
    let mut g = Game::new(classic());
    let moves = [(0, 0), (0, 2), (1, 0), (1, 2), (0, 1), (2, 2)];
    for &(x, y) in moves.iter() {
        g.add_take(Take { x, y }).unwrap();
    }
    assert_eq!(g.result(), GameResult::SecondWin);
    assert!(g.is_finished());
}

#[test]
fn diagonal_lines_win() {
    let mut g = Game::new(classic());
    for &(x, y) in [(0, 0), (1, 0), (1, 1), (2, 0), (2, 2)].iter() {
        g.add_take(Take { x, y }).unwrap();
    }
    assert_eq!(g.result(), GameResult::FirstWin);
    let mut h = Game::new(classic());
    for &(x, y) in [(2, 0), (0, 0), (1, 1), (1, 0), (0, 2)].iter() {
        h.add_take(Take { x, y }).unwrap();
    }
    assert_eq!(h.result(), GameResult::FirstWin);
}

#[test]
fn column_line_wins() {
    let mut g = Game::new(classic());
    for &(x, y) in [(1, 0), (0, 0), (1, 1), (0, 1), (1, 2)].iter() {
        g.add_take(Take { x, y }).unwrap();
    }
    assert_eq!(g.result(), GameResult::FirstWin);
}

#[test]
fn to_cells_shows_owner_and_remaining_moves() {
    let mut g = Game::new(classic());
    g.add_take(Take { x: 0, y: 0 }).unwrap();
    g.add_take(Take { x: 1, y: 1 }).unwrap();
    let cells = g.to_cells();
    assert_eq!(cells.len(), 3);
    for row in cells.iter() {
        assert_eq!(row.len(), 3);
    }
    assert_eq!(cells[0][0], CellView::First(8));
    assert_eq!(cells[1][1], CellView::Second(8));
    assert_eq!(cells[0][1], CellView::Vacant);
    assert!(cells[0][0].is_first());
    assert!(cells[1][1].is_second());
    assert!(cells[2][2].is_none());
}

#[test]
fn replace_state_validates_consistency() {
    let mut g = Game::new(classic());
    assert!(g.replace_state(state(&[(0, 0), (1, 1)]), 2).is_ok());
    assert_eq!(g.steps_taken(), 2);
    assert_eq!(*g.state(), state(&[(0, 0), (1, 1)]));
    // duplicated cell
    assert!(g.replace_state(state(&[(0, 0), (0, 0)]), 2).is_err());
    // off the board
    assert!(g.replace_state(state(&[(5, 5)]), 1).is_err());
    // more moves than the window admits
    let s = GameSetting::try_new(3, 3, 3, 1).unwrap();
    let mut h = Game::new(s);
    assert!(h.replace_state(state(&[(0, 0), (1, 1), (2, 2)]), 3).is_err());
    // a failed replacement leaves the game unchanged
    assert_eq!(*g.state(), state(&[(0, 0), (1, 1)]));
}

#[test]
fn normalize_canonicalizes_the_board() {
    let mut g = Game::new(classic());
    g.replace_state(state(&[(2, 2)]), 1).unwrap();
    assert!(!g.is_normalized());
    let n = g.normalize();
    assert_eq!(*n.state(), state(&[(0, 0)]));
    assert_eq!(n.steps_taken(), 1);
    assert!(n.is_normalized());
}

#[test]
fn normalize_preserves_the_result() {
    // canonicalization commutes with line detection
    let mut g = Game::new(classic());
    for &(x, y) in [(1, 0), (0, 0), (1, 1), (0, 1), (1, 2)].iter() {
        g.add_take(Take { x, y }).unwrap();
    }
    assert_eq!(g.result(), GameResult::FirstWin);
    let n = g.normalize();
    assert_eq!(n.result(), GameResult::FirstWin);
    assert_ne!(*n.state(), *g.state());
}
