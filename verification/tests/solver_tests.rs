use ttt_limited::{analyze, AnalysisDictionary, BoardState, GameAnalysis, GameSetting, Take};

fn state(coords: &[(u8, u8)]) -> BoardState {
    let mut takes = Vec::new();
    for &(x, y) in coords {
        takes.push(Take { x, y });
    }
    BoardState::from_takes(takes)
}

#[test]
fn one_cell_board_is_a_first_player_win() {
    let s = GameSetting::try_new(1, 1, 1, 1).unwrap();
    let d = analyze(s, BoardState::default(), usize::MAX);
    assert_eq!(*d.setting(), s);
    // the mover wins by taking the only cell
    assert_eq!(d.analysis(&BoardState::default()), GameAnalysis::Winning(1));
    // after that move, the side to act has already lost
    assert_eq!(d.analysis(&state(&[(0, 0)])), GameAnalysis::Losing(0));
}

#[test]
fn classic_game_is_a_draw() {
    // classic rules: piece cap 9 means nothing is ever evicted
    let s = GameSetting::try_new(3, 3, 3, 9).unwrap();
    let d = analyze(s, BoardState::default(), usize::MAX);
    // perfect play draws: the empty board stays undetermined
    assert_eq!(d.analysis(&BoardState::default()), GameAnalysis::Neutral);
    // no reachable state is an immediate win for the mover
    for (st, a) in d.entries() {
        assert_ne!(a, GameAnalysis::Winning(0));
        assert!(st.is_normalized(&s));
    }
}

#[test]
fn partial_exploration_still_returns_a_table() {
    let s = GameSetting::try_new(3, 3, 3, 3).unwrap();
    let d = analyze(s, BoardState::default(), 50);
    assert_eq!(*d.setting(), s);
    // no more states can be resolved than the budget let the solver expand
    assert!(d.entries().len() <= 50);
    for (_, a) in d.entries() {
        assert_ne!(a, GameAnalysis::Winning(0));
    }
}

#[test]
fn merge_keeps_the_first_resolved_entry() {
    // on a collision the receiver's resolved entry wins
    let s = GameSetting::try_new(3, 3, 3, 9).unwrap();
    let k = state(&[(0, 0)]);
    let x = AnalysisDictionary::new(s).with_entry(&k, GameAnalysis::Winning(2));
    let y = AnalysisDictionary::new(s).with_entry(&k, GameAnalysis::Winning(5));
    let merged = x.merge(y);
    assert_eq!(merged.analysis(&k), GameAnalysis::Winning(2));
}

#[test]
fn merge_unions_disjoint_entries() {
    let s = GameSetting::try_new(3, 3, 3, 9).unwrap();
    let k1 = state(&[(0, 0)]);
    let k2 = state(&[(1, 1)]);
    let x = AnalysisDictionary::new(s).with_entry(&k1, GameAnalysis::Winning(3));
    let y = AnalysisDictionary::new(s).with_entry(&k2, GameAnalysis::Losing(4));
    let merged = x.merge(y);
    assert_eq!(merged.analysis(&k1), GameAnalysis::Winning(3));
    assert_eq!(merged.analysis(&k2), GameAnalysis::Losing(4));
    assert_eq!(merged.analysis(&state(&[(2, 2)])), GameAnalysis::Neutral);
    assert_eq!(merged.entries().len(), 2);
}

#[test]
fn lookup_of_unresolved_state_is_neutral() {
    let s = GameSetting::try_new(3, 3, 3, 9).unwrap();
    let d = AnalysisDictionary::new(s);
    assert_eq!(d.analysis(&state(&[(1, 0)])), GameAnalysis::Neutral);
    assert_eq!(d.entries().len(), 0);
}

#[test]
fn probe_convention_never_sees_a_second_player_line() {
    // exploring canonical states of legal play with the fixed probe parity,
    // only the side that just moved can already hold a line
    let s = GameSetting::try_new(3, 3, 3, 3).unwrap();
    let mut game = ttt_limited::Game::new(s);
    let mut visited: Vec<BoardState> = Vec::new();
    let mut frontier: Vec<BoardState> = Vec::new();
    let start = BoardState::default().normalized(&s);
    visited.push(start.clone());
    frontier.push(start);
    let mut head = 0usize;
    while head < frontier.len() && visited.len() < 2000 {
        let st = frontier[head].clone();
        head += 1;
        game.replace_state(st, 1).unwrap();
        let res = game.result();
        assert_ne!(res, ttt_limited::GameResult::SecondWin);
        if res == ttt_limited::GameResult::FirstWin {
            continue;
        }
        for y in 0..3u8 {
            for x in 0..3u8 {
                let t = Take { x, y };
                if game.validate_take(t).is_ok() {
                    let mut next = game.clone();
                    next.add_take(t).unwrap();
                    let ns = next.normalize().state().clone();
                    if !visited.contains(&ns) {
                        visited.push(ns.clone());
                        frontier.push(ns);
                    }
                }
            }
        }
    }
}

#[test]
fn sliding_window_solve_resolves_only_mover_lost_terminals_as_immediate() {
    // with eviction live, every state resolved as an immediate loss is one
    // where the probe shows the previous mover's completed line
    let s = GameSetting::try_new(3, 3, 3, 3).unwrap();
    let d = analyze(s, BoardState::default(), usize::MAX);
    let mut game = ttt_limited::Game::new(s);
    let mut immediate = 0usize;
    for (st, a) in d.entries() {
        assert_ne!(a, GameAnalysis::Winning(0));
        if a == GameAnalysis::Losing(0) {
            game.replace_state(st, 1).unwrap();
            assert_eq!(game.result(), ttt_limited::GameResult::FirstWin);
            immediate += 1;
        }
    }
    assert!(immediate > 0);
}

#[test]
fn losing_entries_name_their_longest_delay() {
    // for a delayed loss the solver's distance is attained: some legal move
    // reaches a successor the opponent wins exactly one ply sooner
    let s = GameSetting::try_new(3, 3, 3, 9).unwrap();
    let d = analyze(s, BoardState::default(), usize::MAX);
    let mut game = ttt_limited::Game::new(s);
    let mut delayed = 0usize;
    for (st, a) in d.entries() {
        if let GameAnalysis::Losing(dist) = a {
            if dist == 0 || delayed >= 500 {
                continue;
            }
            delayed += 1;
            game.replace_state(st, 1).unwrap();
            let mut attained = false;
            for y in 0..3u8 {
                for x in 0..3u8 {
                    let t = Take { x, y };
                    if game.validate_take(t).is_ok() {
                        let mut next = game.clone();
                        next.add_take(t).unwrap();
                        let succ = next.normalize().state().clone();
                        if d.analysis(&succ) == GameAnalysis::Winning(dist - 1) {
                            attained = true;
                        }
                    }
                }
            }
            assert!(attained);
        }
    }
    assert!(delayed > 0);
}
