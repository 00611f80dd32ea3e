use game_logic::ids::{IdProvider, Unit};
use game_logic::input::movement_axes;
use game_logic::shared::Id;

#[test]
fn new_id_counts_from_zero() {
    let mut p = IdProvider::default();
    assert_eq!(p.peek(), 0);
    assert_eq!(p.new_id(), 0);
    assert_eq!(p.new_id(), 1);
    assert_eq!(p.new_id(), 2);
    assert_eq!(p.peek(), 3);
}

#[test]
fn new_ids_never_repeat() {
    let mut p = IdProvider::new();
    let mut seen = Vec::new();
    for _ in 0..100 {
        let id = p.new_id();
        assert!(!seen.contains(&id));
        seen.push(id);
    }
}

#[test]
fn unit_and_id_hold_their_values() {
    let u = Unit { client_id: 7 };
    assert_eq!(u.client_id, 7);
    assert_eq!(Id(3), Id(3));
    assert_ne!(Id(3), Id(4));
}

#[test]
fn movement_keys_add_up() {
    assert_eq!(movement_axes(false, false, false, false), (0, 0));
    assert_eq!(movement_axes(true, false, false, false), (0, 1));
    assert_eq!(movement_axes(false, true, false, false), (0, -1));
    assert_eq!(movement_axes(false, false, true, false), (1, 0));
    assert_eq!(movement_axes(false, false, false, true), (-1, 0));
    assert_eq!(movement_axes(true, false, true, false), (1, 1));
}

#[test]
fn opposite_movement_keys_cancel() {
    assert_eq!(movement_axes(true, true, false, false), (0, 0));
    assert_eq!(movement_axes(false, false, true, true), (0, 0));
    assert_eq!(movement_axes(true, true, true, true), (0, 0));
}
