use vstd::prelude::*;

verus! {

/// How a client brings its local entities in line with a snapshot of the
/// server's world.
pub struct SyncPlan {
    /// For each local entity, in order: the position in the snapshot of the
    /// first entity with the same id, whose position it takes; `None` when the
    /// snapshot has no such entity and the local one is removed.
    pub updates: Vec<Option<usize>>,
    /// Positions in the snapshot, in order, of the entities to create: those
    /// whose id no local entity has.
    pub spawns: Vec<usize>,
}

/// `found` is the position of the first occurrence of `id` in `ids`, or
/// `None` when `id` does not occur.
pub open spec fn is_first_index(ids: Seq<usize>, id: usize, found: Option<usize>) -> bool {
    match found {
        Some(i) => {
            &&& i < ids.len()
            &&& ids[i as int] == id
            &&& forall|j: int| 0 <= j < i ==> ids[j] != id
        },
        None => !ids.contains(id),
    }
}

/// Positions below `upto` in `world` whose id occurs nowhere in `local`.
pub open spec fn spawn_indices(local: Seq<usize>, world: Seq<usize>, upto: int) -> Seq<usize>
    decreases upto,
{
    if upto <= 0 {
        Seq::empty()
    } else {
        let rest = spawn_indices(local, world, upto - 1);
        if local.contains(world[upto - 1]) {
            rest
        } else {
            rest.push((upto - 1) as usize)
        }
    }
}

/// Ids of the local entities below position `upto` that the snapshot keeps.
pub open spec fn kept_ids(local: Seq<usize>, world: Seq<usize>, upto: int) -> Seq<usize>
    decreases upto,
{
    if upto <= 0 {
        Seq::empty()
    } else {
        let rest = kept_ids(local, world, upto - 1);
        if world.contains(local[upto - 1]) {
            rest.push(local[upto - 1])
        } else {
            rest
        }
    }
}

/// Ids of the local entities once a plan has been carried out: the kept
/// local entities, then the created ones.
pub open spec fn after_sync(local: Seq<usize>, world: Seq<usize>) -> Seq<usize> {
    kept_ids(local, world, local.len() as int) + spawn_indices(
        local,
        world,
        world.len() as int,
    ).map_values(|k: usize| world[k as int])
}

proof fn lemma_spawn_indices_members(local: Seq<usize>, world: Seq<usize>, upto: int, k: usize)
    requires
        upto <= world.len() <= usize::MAX,
    ensures
        spawn_indices(local, world, upto).contains(k) <==> (k < upto && !local.contains(
            world[k as int],
        )),
    decreases upto,
{
    if upto > 0 {
        let rest = spawn_indices(local, world, upto - 1);
        lemma_spawn_indices_members(local, world, upto - 1, k);
        if !local.contains(world[upto - 1]) {
            let r = rest.push((upto - 1) as usize);
            if r.contains(k) {
                let m = choose|m: int| 0 <= m < r.len() && r[m] == k;
                if m < rest.len() {
                    assert(rest[m] == k);
                }
            }
            if rest.contains(k) {
                let m = choose|m: int| 0 <= m < rest.len() && rest[m] == k;
                assert(r[m] == k);
            }
            if k == upto - 1 {
                assert(r[rest.len() as int] == k);
            }
        }
    }
}

proof fn lemma_kept_ids_members(local: Seq<usize>, world: Seq<usize>, upto: int, x: usize)
    requires
        upto <= local.len(),
    ensures
        kept_ids(local, world, upto).contains(x) <==> (world.contains(x) && exists|i: int|
            0 <= i < upto && local[i] == x),
    decreases upto,
{
    if upto > 0 {
        let rest = kept_ids(local, world, upto - 1);
        lemma_kept_ids_members(local, world, upto - 1, x);
        if world.contains(local[upto - 1]) {
            let r = rest.push(local[upto - 1]);
            if r.contains(x) {
                let m = choose|m: int| 0 <= m < r.len() && r[m] == x;
                if m < rest.len() {
                    assert(rest[m] == x);
                }
            }
            if rest.contains(x) {
                let m = choose|m: int| 0 <= m < rest.len() && rest[m] == x;
                assert(r[m] == x);
            }
            if local[upto - 1] == x {
                assert(r[rest.len() as int] == x);
            }
        }
        if world.contains(x) && exists|i: int| 0 <= i < upto && local[i] == x {
            let i = choose|i: int| 0 <= i < upto && local[i] == x;
            if i == upto - 1 {
                assert(world.contains(local[upto - 1]));
            }
        }
    }
}

proof fn lemma_nothing_to_spawn(local: Seq<usize>, world: Seq<usize>, upto: int)
    requires
        upto <= world.len(),
        forall|k: int| 0 <= k < upto ==> local.contains(#[trigger] world[k]),
    ensures
        spawn_indices(local, world, upto) == Seq::<usize>::empty(),
    decreases upto,
{
    if upto > 0 {
        lemma_nothing_to_spawn(local, world, upto - 1);
    }
}

proof fn lemma_spawn_indices_sorted(local: Seq<usize>, world: Seq<usize>, upto: int)
    requires
        upto <= world.len() <= usize::MAX,
    ensures
        forall|a: int, b: int|
            0 <= a < b < spawn_indices(local, world, upto).len() ==> spawn_indices(local, world, upto)[a]
                < spawn_indices(local, world, upto)[b],
        forall|a: int|
            0 <= a < spawn_indices(local, world, upto).len() ==> #[trigger] spawn_indices(local, world, upto)[a]
                < upto,
    decreases upto,
{
    if upto > 0 {
        lemma_spawn_indices_sorted(local, world, upto - 1);
        let rest = spawn_indices(local, world, upto - 1);
        let r = spawn_indices(local, world, upto);
        if !local.contains(world[upto - 1]) {
            assert(r == rest.push((upto - 1) as usize));
            assert forall|a: int| 0 <= a < r.len() implies #[trigger] r[a] < upto by {
                if a < rest.len() {
                    assert(r[a] == rest[a]);
                }
            }
            assert forall|a: int, b: int| 0 <= a < b < r.len() implies r[a] < r[b] by {
                assert(r[a] == rest[a]);
                if b < rest.len() {
                    assert(r[b] == rest[b]);
                }
            }
        } else {
            assert(r == rest);
        }
    }
}

/// Every snapshot entity is created at most once, in snapshot order: the
/// positions to create are strictly increasing and lie in the snapshot.
pub proof fn lemma_spawns_increasing(local: Seq<usize>, world: Seq<usize>)
    requires
        world.len() <= usize::MAX,
    ensures
        forall|a: int, b: int|
            0 <= a < b < spawn_indices(local, world, world.len() as int).len() ==> spawn_indices(
                local,
                world,
                world.len() as int,
            )[a] < spawn_indices(local, world, world.len() as int)[b],
        forall|a: int|
            0 <= a < spawn_indices(local, world, world.len() as int).len() ==> #[trigger] spawn_indices(
                local,
                world,
                world.len() as int,
            )[a] < world.len(),
{
    lemma_spawn_indices_sorted(local, world, world.len() as int);
}

/// A snapshot entity is created exactly when no local entity has its id.
pub proof fn lemma_spawned_exactly_unknown(local: Seq<usize>, world: Seq<usize>, k: usize)
    requires
        world.len() <= usize::MAX,
    ensures
        spawn_indices(local, world, world.len() as int).contains(k) <==> (k < world.len()
            && !local.contains(world[k as int])),
{
    lemma_spawn_indices_members(local, world, world.len() as int, k);
}

/// Synchronising settles the local world: once a plan has been carried out,
/// every local entity has an id from the snapshot, and planning again
/// against the same snapshot creates nothing.
pub proof fn lemma_sync_settles(local: Seq<usize>, world: Seq<usize>)
    requires
        world.len() <= usize::MAX,
    ensures
        forall|i: int| 0 <= i < after_sync(local, world).len() ==> world.contains(
            #[trigger] after_sync(local, world)[i],
        ),
        spawn_indices(after_sync(local, world), world, world.len() as int) == Seq::<usize>::empty(),
{
    let kept = kept_ids(local, world, local.len() as int);
    let sp = spawn_indices(local, world, world.len() as int);
    let created = sp.map_values(|k: usize| world[k as int]);
    let a = after_sync(local, world);
    assert(a == kept + created);
    assert forall|i: int| 0 <= i < a.len() implies world.contains(#[trigger] a[i]) by {
        if i < kept.len() {
            assert(kept.contains(kept[i]));
            lemma_kept_ids_members(local, world, local.len() as int, kept[i]);
        } else {
            let m = i - kept.len();
            assert(sp.contains(sp[m]));
            lemma_spawn_indices_members(local, world, world.len() as int, sp[m]);
            assert(a[i] == world[sp[m] as int]);
        }
    }
    assert forall|k: int| 0 <= k < world.len() implies a.contains(#[trigger] world[k]) by {
        let x = world[k];
        if local.contains(x) {
            let j = choose|j: int| 0 <= j < local.len() && local[j] == x;
            assert(world.contains(x));
            lemma_kept_ids_members(local, world, local.len() as int, x);
            let m = choose|m: int| 0 <= m < kept.len() && kept[m] == x;
            assert(a[m] == x);
        } else {
            lemma_spawn_indices_members(local, world, world.len() as int, k as usize);
            let m = choose|m: int| 0 <= m < sp.len() && sp[m] == k as usize;
            assert(created[m] == x);
            assert(a[kept.len() + m] == x);
        }
    }
    lemma_nothing_to_spawn(a, world, world.len() as int);
}

/// Position of the first occurrence of `id` in `ids`.
fn position(ids: &Vec<usize>, id: usize) -> (found: Option<usize>)
    ensures
        is_first_index(ids@, id, found),
{
    let mut i: usize = 0;
    while i < ids.len()
        invariant
            i <= ids@.len(),
            forall|j: int| 0 <= j < i ==> ids@[j] != id,
        decreases ids@.len() - i,
    {
        if ids[i] == id {
            return Some(i);
        }
        i = i + 1;
    }
    None
}

/// Whether `id` occurs in `ids`.
fn contains(ids: &Vec<usize>, id: usize) -> (r: bool)
    ensures
        r == ids@.contains(id),
{
    match position(ids, id) {
        Some(i) => {
            assert(ids@[i as int] == id);
            true
        },
        None => false,
    }
}

/// Plans the update of the local entities, listed by id, against the
/// entities of a world snapshot, listed by id: each local entity follows the
/// first snapshot entity with its id or is removed, and every snapshot entity
/// whose id no local entity has is created.
pub fn plan_world_sync(local: &Vec<usize>, world: &Vec<usize>) -> (plan: SyncPlan)
    ensures
        plan.updates@.len() == local@.len(),
        forall|i: int|
            0 <= i < local@.len() ==> is_first_index(world@, local@[i], #[trigger] plan.updates@[i]),
        plan.spawns@ == spawn_indices(local@, world@, world@.len() as int),
        forall|a: int, b: int| 0 <= a < b < plan.spawns@.len() ==> plan.spawns@[a] < plan.spawns@[b],
        forall|k: usize|
            plan.spawns@.contains(k) <==> (k < world@.len() && !local@.contains(world@[k as int])),
{
    let mut updates: Vec<Option<usize>> = Vec::new();
    let mut updated: Vec<usize> = Vec::new();
    let mut i: usize = 0;
    while i < local.len()
        invariant
            i <= local@.len(),
            updates@.len() == i,
            forall|k: int| 0 <= k < i ==> is_first_index(world@, local@[k], #[trigger] updates@[k]),
            forall|x: usize|
                updated@.contains(x) <==> (world@.contains(x) && exists|k: int|
                    0 <= k < i && #[trigger] local@[k] == x),
        decreases local@.len() - i,
    {
        let found = position(world, local[i]);
        match found {
            Some(p) => {
                let ghost before = updated@;
                updated.push(world[p]);
                assert forall|x: usize|
                    updated@.contains(x) <==> (world@.contains(x) && exists|k: int|
                        0 <= k < i + 1 && #[trigger] local@[k] == x) by {
                    if updated@.contains(x) {
                        let m = choose|m: int| 0 <= m < updated@.len() && updated@[m] == x;
                        if m < before.len() {
                            assert(before[m] == x);
                            assert(before.contains(x));
                        } else {
                            assert(local@[i as int] == x);
                        }
                    }
                    if world@.contains(x) && exists|k: int| 0 <= k < i + 1 && #[trigger] local@[k] == x {
                        let k = choose|k: int| 0 <= k < i + 1 && #[trigger] local@[k] == x;
                        if k < i {
                            assert(before.contains(x));
                            let m = choose|m: int| 0 <= m < before.len() && before[m] == x;
                            assert(updated@[m] == x);
                        } else {
                            assert(updated@[before.len() as int] == x);
                        }
                    }
                }
            },
            None => {
                assert forall|x: usize|
                    updated@.contains(x) <==> (world@.contains(x) && exists|k: int|
                        0 <= k < i + 1 && #[trigger] local@[k] == x) by {
                    if world@.contains(x) && exists|k: int| 0 <= k < i + 1 && #[trigger] local@[k] == x {
                        let k = choose|k: int| 0 <= k < i + 1 && #[trigger] local@[k] == x;
                        assert(k < i);
                    }
                }
            },
        }
        updates.push(found);
        i = i + 1;
    }
    let mut spawns: Vec<usize> = Vec::new();
    let mut k: usize = 0;
    while k < world.len()
        invariant
            k <= world@.len(),
            spawns@ == spawn_indices(local@, world@, k as int),
            forall|x: usize|
                updated@.contains(x) <==> (world@.contains(x) && exists|m: int|
                    0 <= m < local@.len() && #[trigger] local@[m] == x),
        decreases world@.len() - k,
    {
        let taken = contains(&updated, world[k]);
        proof {
            let x = world@[k as int];
            assert(world@.contains(x));
            if local@.contains(x) {
                let m = choose|m: int| 0 <= m < local@.len() && local@[m] == x;
                assert(local@[m] == x);
            }
            assert(taken == local@.contains(x));
        }
        if !taken {
            spawns.push(k);
        }
        k = k + 1;
    }
    proof {
        lemma_spawns_increasing(local@, world@);
        assert forall|k: usize|
            spawns@.contains(k) <==> (k < world@.len() && !local@.contains(world@[k as int])) by {
            lemma_spawned_exactly_unknown(local@, world@, k);
        }
    }
    SyncPlan { updates, spawns }
}

} // verus!
