use ttt_limited::GameSetting;

#[test]
fn accepts_classic_configuration() {
    let s = GameSetting::try_new(3, 3, 3, 9).unwrap();
    assert_eq!(s.board_height(), 3);
    assert_eq!(s.board_width(), 3);
    assert_eq!(s.goal(), 3);
    assert_eq!(s.piece_limit(), 9);
}

#[test]
fn accepts_rectangular_configuration() {
    let s = GameSetting::try_new(3, 4, 3, 12).unwrap();
    assert_eq!(s.board_height(), 3);
    assert_eq!(s.board_width(), 4);
    assert_eq!(s.goal(), 3);
    assert_eq!(s.piece_limit(), 12);
}

#[test]
fn rejects_zero_height() {
    assert!(GameSetting::try_new(0, 3, 1, 1).is_err());
}

#[test]
fn rejects_height_over_eleven() {
    assert!(GameSetting::try_new(12, 3, 1, 1).is_err());
}

#[test]
fn rejects_zero_width() {
    assert!(GameSetting::try_new(3, 0, 1, 1).is_err());
}

#[test]
fn rejects_width_over_eleven() {
    assert!(GameSetting::try_new(3, 12, 1, 1).is_err());
}

#[test]
fn rejects_zero_goal() {
    assert!(GameSetting::try_new(3, 3, 0, 1).is_err());
}

#[test]
fn rejects_goal_over_height() {
    assert!(GameSetting::try_new(2, 5, 3, 1).is_err());
}

#[test]
fn rejects_goal_over_width() {
    assert!(GameSetting::try_new(5, 2, 3, 1).is_err());
}

#[test]
fn rejects_zero_piece_limit() {
    assert!(GameSetting::try_new(3, 3, 3, 0).is_err());
}

#[test]
fn rejects_piece_limit_over_limit() {
    assert!(GameSetting::try_new(3, 3, 3, 128).is_err());
    assert!(GameSetting::try_new(3, 3, 3, 127).is_ok());
}

#[test]
fn goal_exceeding_both_dimensions_fails_construction() {
    // a configuration whose goal exceeds both board dimensions is rejected
    assert!(GameSetting::try_new(3, 3, 4, 9).is_err());
}

#[test]
fn normal_limited_is_square_with_goal_equal_size() {
    let s = GameSetting::try_new_normal_limited(3, 4).unwrap();
    assert_eq!(s.board_height(), 3);
    assert_eq!(s.board_width(), 3);
    assert_eq!(s.goal(), 3);
    assert_eq!(s.piece_limit(), 4);
    assert!(GameSetting::try_new_normal_limited(0, 4).is_err());
    assert!(GameSetting::try_new_normal_limited(3, 0).is_err());
}

#[test]
fn normal_uses_full_board_as_piece_limit() {
    let s = GameSetting::try_new_normal(3).unwrap();
    assert_eq!(s.piece_limit(), 9);
    assert!(GameSetting::try_new_normal(0).is_err());
    assert!(GameSetting::try_new_normal(12).is_err());
}
