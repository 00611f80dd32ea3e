use game_logic::collisions::{
    candidate_pairs, resolve_collision, Collider, CollisionBehaviour, CollisionDef, CollisionKill,
    CollisionOutcome,
};
use game_logic::shoot::{Bullet, Team};

fn collider(team: usize, behaviour: CollisionBehaviour, kill: bool) -> Collider {
    Collider { team: Team { id: team }, def: CollisionDef { behaviour }, kill: if kill { Some(CollisionKill) } else { None } }
}

#[test]
fn pairs_skip_same_team_and_come_in_order() {
    let teams = vec![Team { id: 0 }, Team { id: 1 }, Team { id: 0 }, Team { id: 2 }];
    assert_eq!(candidate_pairs(&teams), vec![(0, 1), (0, 3), (1, 2), (1, 3), (2, 3)]);
}

#[test]
fn no_pairs_for_one_team_or_fewer_than_two() {
    assert!(candidate_pairs(&vec![]).is_empty());
    assert!(candidate_pairs(&vec![Team { id: 4 }]).is_empty());
    assert!(candidate_pairs(&vec![Team { id: 4 }, Team { id: 4 }, Team { id: 4 }]).is_empty());
}

#[test]
fn bullet_hits_player() {
    let bullet = collider(0, CollisionBehaviour::DieAlways, true);
    let player = collider(1, CollisionBehaviour::DieVersusKill, false);
    assert_eq!(
        resolve_collision(&bullet, &player),
        CollisionOutcome { despawn_first: true, despawn_second: true, separate: false }
    );
}

#[test]
fn two_players_push_apart() {
    let a = collider(0, CollisionBehaviour::DieVersusKill, false);
    let b = collider(1, CollisionBehaviour::DieVersusKill, false);
    assert_eq!(
        resolve_collision(&a, &b),
        CollisionOutcome { despawn_first: false, despawn_second: false, separate: true }
    );
}

#[test]
fn never_die_survives_a_killer() {
    let wall = collider(0, CollisionBehaviour::NeverDie, false);
    let bullet = collider(1, CollisionBehaviour::DieAlways, true);
    assert_eq!(
        resolve_collision(&wall, &bullet),
        CollisionOutcome { despawn_first: false, despawn_second: true, separate: false }
    );
}

#[test]
fn collision_outcome_is_symmetric() {
    let kinds = [CollisionBehaviour::DieAlways, CollisionBehaviour::DieVersusKill, CollisionBehaviour::NeverDie];
    for &b1 in &kinds {
        for &b2 in &kinds {
            for &k1 in &[false, true] {
                for &k2 in &[false, true] {
                    let a = collider(0, b1, k1);
                    let b = collider(1, b2, k2);
                    let ab = resolve_collision(&a, &b);
                    let ba = resolve_collision(&b, &a);
                    assert_eq!(ab.despawn_first, ba.despawn_second);
                    assert_eq!(ab.despawn_second, ba.despawn_first);
                    assert_eq!(ab.separate, ba.separate);
                }
            }
        }
    }
}

#[test]
fn bullet_marker_is_a_value() {
    assert_eq!(Bullet, Bullet);
}
