use ttt_limited::{BoardState, GameSetting, Take};

fn state(coords: &[(u8, u8)]) -> BoardState {
    let mut takes = Vec::new();
    for &(x, y) in coords {
        takes.push(Take { x, y });
    }
    BoardState::from_takes(takes)
}

#[test]
fn take_accessors() {
    let t = Take { x: 2, y: 1 };
    assert_eq!(t.x(), 2);
    assert_eq!(t.y(), 1);
}

#[test]
fn default_state_is_empty() {
    let s = BoardState::default();
    assert_eq!(s.takes().len(), 0);
}

#[test]
fn rotate_moves_corner() {
    let c = GameSetting::try_new(3, 3, 3, 9).unwrap();
    assert_eq!(state(&[(0, 0)]).rotate(&c), state(&[(2, 0)]));
    assert_eq!(state(&[(2, 0)]).rotate(&c), state(&[(2, 2)]));
    assert_eq!(state(&[(1, 0), (2, 1)]).rotate(&c), state(&[(2, 1), (1, 2)]));
}

#[test]
fn mirror_x_flips_columns() {
    let c = GameSetting::try_new(3, 3, 3, 9).unwrap();
    assert_eq!(state(&[(0, 0)]).mirror_x(&c), state(&[(2, 0)]));
    assert_eq!(state(&[(1, 2)]).mirror_x(&c), state(&[(1, 2)]));
}

#[test]
fn mirror_y_flips_rows() {
    let c = GameSetting::try_new(3, 3, 3, 9).unwrap();
    assert_eq!(state(&[(0, 0)]).mirror_y(&c), state(&[(0, 2)]));
    assert_eq!(state(&[(2, 1)]).mirror_y(&c), state(&[(2, 1)]));
}

#[test]
fn normalized_picks_least_orbit_member() {
    let c = GameSetting::try_new(3, 3, 3, 9).unwrap();
    // every corner collapses to the least corner
    assert_eq!(state(&[(2, 2)]).normalized(&c), state(&[(0, 0)]));
    assert_eq!(state(&[(0, 2)]).normalized(&c), state(&[(0, 0)]));
    assert_eq!(state(&[(0, 0)]).normalized(&c), state(&[(0, 0)]));
    // the centre is fixed by the whole group
    assert_eq!(state(&[(1, 1)]).normalized(&c), state(&[(1, 1)]));
}

#[test]
fn normalized_is_idempotent() {
    // canonicalizing a canonical state returns it unchanged
    let c = GameSetting::try_new(3, 3, 3, 9).unwrap();
    for coords in [
        &[(1u8, 0u8), (2, 1)][..],
        &[(0, 0), (1, 1), (2, 2)][..],
        &[(2, 0), (0, 1)][..],
    ] {
        let s = state(coords);
        let once = s.normalized(&c);
        assert_eq!(once.normalized(&c), once);
        assert!(once.is_normalized(&c));
    }
    let r = GameSetting::try_new(3, 4, 3, 12).unwrap();
    let s = state(&[(3, 0), (1, 2)]);
    let once = s.normalized(&r);
    assert_eq!(once.normalized(&r), once);
}

#[test]
fn normalized_is_invariant_under_symmetry() {
    // symmetric images of a state share one canonical form
    let c = GameSetting::try_new(3, 3, 3, 9).unwrap();
    let s = state(&[(1, 0), (2, 1)]);
    let n = s.normalized(&c);
    assert_eq!(s.rotate(&c).normalized(&c), n);
    assert_eq!(s.mirror_x(&c).normalized(&c), n);
    assert_eq!(s.mirror_y(&c).normalized(&c), n);
    assert_eq!(s.rotate(&c).rotate(&c).normalized(&c), n);
    let r = GameSetting::try_new(3, 4, 3, 12).unwrap();
    let t = state(&[(3, 0), (1, 2)]);
    let m = t.normalized(&r);
    assert_eq!(t.mirror_x(&r).normalized(&r), m);
    assert_eq!(t.mirror_y(&r).normalized(&r), m);
    assert_eq!(t.mirror_x(&r).mirror_y(&r).normalized(&r), m);
}

#[test]
fn order_is_by_length_then_lexicographic() {
    let empty = state(&[]);
    let a = state(&[(0, 0)]);
    let b = state(&[(0, 1)]);
    let c = state(&[(1, 0)]);
    let long = state(&[(0, 0), (0, 1)]);
    assert!(empty.le(&a));
    assert!(a.le(&b));
    assert!(b.le(&c));
    assert!(!c.le(&b));
    assert!(c.le(&long));
    assert!(a.le(&a));
}

#[test]
fn equality_is_by_move_sequence() {
    assert_eq!(state(&[(0, 0), (1, 1)]), state(&[(0, 0), (1, 1)]));
    assert_ne!(state(&[(0, 0), (1, 1)]), state(&[(1, 1), (0, 0)]));
    assert_ne!(state(&[(0, 0)]), state(&[(0, 0), (1, 1)]));
    let s = state(&[(2, 1)]);
    let t = s.clone();
    assert_eq!(s, t);
}
