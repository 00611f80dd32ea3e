use game_logic::server::{find_unit, plan_message_batch, Dispatch};
use game_logic::sync::plan_world_sync;

#[test]
fn sync_updates_removes_and_spawns() {
    let local = vec![4, 7, 9];
    let world = vec![9, 1, 4, 5];
    let plan = plan_world_sync(&local, &world);
    assert_eq!(plan.updates, vec![Some(2), None, Some(0)]);
    assert_eq!(plan.spawns, vec![1, 3]);
}

#[test]
fn sync_uses_the_first_duplicate_and_spawns_neither() {
    let local = vec![3];
    let world = vec![3, 3, 8];
    let plan = plan_world_sync(&local, &world);
    assert_eq!(plan.updates, vec![Some(0)]);
    assert_eq!(plan.spawns, vec![2]);
}

#[test]
fn sync_from_nothing_spawns_everything() {
    let plan = plan_world_sync(&vec![], &vec![5, 6]);
    assert!(plan.updates.is_empty());
    assert_eq!(plan.spawns, vec![0, 1]);
}

#[test]
fn sync_settles_after_one_round() {
    let local = vec![1, 2, 3];
    let world = vec![3, 4, 1];
    let plan = plan_world_sync(&local, &world);
    let mut after: Vec<usize> = Vec::new();
    for (i, u) in plan.updates.iter().enumerate() {
        if u.is_some() {
            after.push(local[i]);
        }
    }
    for k in plan.spawns {
        after.push(world[k]);
    }
    let again = plan_world_sync(&after, &world);
    assert!(again.updates.iter().all(|u| u.is_some()));
    assert!(again.spawns.is_empty());
}

#[test]
fn find_unit_gives_the_first_unit_of_the_client() {
    assert_eq!(find_unit(&vec![2, 5, 5], 5), Some(1));
    assert_eq!(find_unit(&vec![2, 5, 5], 3), None);
    assert_eq!(find_unit(&vec![], 0), None);
}

#[test]
fn batch_steers_existing_units_and_spawns_for_new_clients() {
    let plan = plan_message_batch(&vec![4, 2], &vec![2, 9, 4, 2]);
    assert_eq!(plan, vec![Dispatch::Steer(1), Dispatch::Spawn, Dispatch::Steer(0), Dispatch::Steer(1)]);
}

#[test]
fn batch_looks_up_units_present_at_its_start() {
    let plan = plan_message_batch(&vec![], &vec![5, 5]);
    assert_eq!(plan, vec![Dispatch::Spawn, Dispatch::Spawn]);
}

#[test]
fn batch_keeps_one_unit_per_client() {
    let units = vec![1, 3];
    let senders = vec![3, 7, 1, 8, 3];
    let plan = plan_message_batch(&units, &senders);
    let mut after = units.clone();
    for (k, d) in plan.iter().enumerate() {
        if *d == Dispatch::Spawn {
            after.push(senders[k]);
        }
    }
    for s in &senders {
        assert_eq!(after.iter().filter(|u| *u == s).count(), 1);
    }
    assert_eq!(after, vec![1, 3, 7, 8]);
}
