use vstd::prelude::*;
use crate::shoot::Team;

verus! {

/// How an entity reacts when it touches an entity of another team.
#[derive(Debug, Clone, Copy, PartialEq, Eq, Structural)]
pub enum CollisionBehaviour {
    /// Disappears on any contact.
    DieAlways,
    /// Disappears on contact with an entity that kills.
    DieVersusKill,
    /// Never disappears.
    NeverDie,
}

/// Marks an entity that kills what it touches.
#[derive(Debug, Clone, Copy, PartialEq, Eq, Structural)]
pub struct CollisionKill;

/// The collision behaviour of an entity.
#[derive(Debug, Clone, Copy, PartialEq, Eq, Structural)]
pub struct CollisionDef {
    pub behaviour: CollisionBehaviour,
}

/// What a collision check needs to know of an entity besides where it is and
/// how big it is.
#[derive(Debug, Clone, Copy, PartialEq, Eq, Structural)]
pub struct Collider {
    pub team: Team,
    pub def: CollisionDef,
    pub kill: Option<CollisionKill>,
}

/// What happens to two overlapping entities of different teams.
#[derive(Debug, Clone, Copy, PartialEq, Eq, Structural)]
pub struct CollisionOutcome {
    /// The first entity is removed.
    pub despawn_first: bool,
    /// The second entity is removed.
    pub despawn_second: bool,
    /// Both survive and are pushed apart to touching distance.
    pub separate: bool,
}

/// Whether an entity with `behaviour` dies when it touches an entity that
/// kills (`other_kills`) or does not.
pub open spec fn dies(behaviour: CollisionBehaviour, other_kills: bool) -> bool {
    match behaviour {
        CollisionBehaviour::DieAlways => true,
        CollisionBehaviour::DieVersusKill => other_kills,
        CollisionBehaviour::NeverDie => false,
    }
}

/// The outcome of a collision between `first` and `second`.
pub open spec fn outcome_spec(first: Collider, second: Collider) -> CollisionOutcome {
    let d1 = dies(first.def.behaviour, second.kill is Some);
    let d2 = dies(second.def.behaviour, first.kill is Some);
    CollisionOutcome { despawn_first: d1, despawn_second: d2, separate: !d1 && !d2 }
}

fn dies_on_contact(behaviour: CollisionBehaviour, other_kills: bool) -> (d: bool)
    ensures
        d == dies(behaviour, other_kills),
{
    match behaviour {
        CollisionBehaviour::DieAlways => true,
        CollisionBehaviour::DieVersusKill => other_kills,
        CollisionBehaviour::NeverDie => false,
    }
}

/// Resolves a collision between two overlapping entities of different
/// teams: each one dies according to its behaviour and whether the other
/// kills; when neither dies they are separated.
pub fn resolve_collision(first: &Collider, second: &Collider) -> (o: CollisionOutcome)
    ensures
        o == outcome_spec(*first, *second),
        o.despawn_first == (first.def.behaviour == CollisionBehaviour::DieAlways || (
        first.def.behaviour == CollisionBehaviour::DieVersusKill && second.kill is Some)),
        o.despawn_second == (second.def.behaviour == CollisionBehaviour::DieAlways || (
        second.def.behaviour == CollisionBehaviour::DieVersusKill && first.kill is Some)),
        o.separate == (!o.despawn_first && !o.despawn_second),
{
    let despawn_first = dies_on_contact(first.def.behaviour, second.kill.is_some());
    let despawn_second = dies_on_contact(second.def.behaviour, first.kill.is_some());
    CollisionOutcome { despawn_first, despawn_second, separate: !despawn_first && !despawn_second }
}

/// The pairs `(i, j)` with `i < j < end` whose teams differ, by increasing `j`.
pub open spec fn row_pairs(teams: Seq<Team>, i: int, end: int) -> Seq<(usize, usize)>
    decreases end - i,
{
    if end <= i + 1 {
        Seq::empty()
    } else {
        let rest = row_pairs(teams, i, end - 1);
        if teams[i].id != teams[end - 1].id {
            rest.push((i as usize, (end - 1) as usize))
        } else {
            rest
        }
    }
}

/// The pairs `(i, j)` with `i < rows` and `i < j < teams.len()` whose teams
/// differ, in lexicographic order.
pub open spec fn pairs_upto(teams: Seq<Team>, rows: int) -> Seq<(usize, usize)>
    decreases rows,
{
    if rows <= 0 {
        Seq::empty()
    } else {
        pairs_upto(teams, rows - 1) + row_pairs(teams, rows - 1, teams.len() as int)
    }
}

proof fn lemma_row_pairs_members(teams: Seq<Team>, i: int, end: int, p: (usize, usize))
    requires
        0 <= i,
        end <= teams.len() <= usize::MAX,
    ensures
        row_pairs(teams, i, end).contains(p) <==> (p.0 == i && i < p.1 < end && teams[i].id
            != teams[p.1 as int].id),
    decreases end - i,
{
    if end <= i + 1 {
    } else {
        let rest = row_pairs(teams, i, end - 1);
        lemma_row_pairs_members(teams, i, end - 1, p);
        let last = (i as usize, (end - 1) as usize);
        if teams[i].id != teams[end - 1].id {
            let r = rest.push(last);
            if r.contains(p) {
                let k = choose|k: int| 0 <= k < r.len() && r[k] == p;
                if k < rest.len() {
                    assert(rest[k] == p);
                }
            }
            if rest.contains(p) {
                let k = choose|k: int| 0 <= k < rest.len() && rest[k] == p;
                assert(r[k] == p);
            }
            if p == last {
                assert(r[rest.len() as int] == p);
            }
        }
    }
}

proof fn lemma_pairs_upto_members(teams: Seq<Team>, rows: int, p: (usize, usize))
    requires
        rows <= teams.len() <= usize::MAX,
    ensures
        pairs_upto(teams, rows).contains(p) <==> (p.0 < rows && p.0 < p.1 < teams.len()
            && teams[p.0 as int].id != teams[p.1 as int].id),
    decreases rows,
{
    if rows <= 0 {
    } else {
        let a = pairs_upto(teams, rows - 1);
        let b = row_pairs(teams, rows - 1, teams.len() as int);
        lemma_pairs_upto_members(teams, rows - 1, p);
        lemma_row_pairs_members(teams, rows - 1, teams.len() as int, p);
        let ab = a + b;
        if ab.contains(p) {
            let k = choose|k: int| 0 <= k < ab.len() && ab[k] == p;
            if k < a.len() {
                assert(a[k] == p);
            } else {
                assert(b[k - a.len()] == p);
            }
        }
        if a.contains(p) {
            let k = choose|k: int| 0 <= k < a.len() && a[k] == p;
            assert(ab[k] == p);
        }
        if b.contains(p) {
            let k = choose|k: int| 0 <= k < b.len() && b[k] == p;
            assert(ab[k + a.len()] == p);
        }
    }
}

/// A pair of positions is a collision candidate exactly when the first
/// comes before the second, both are in range, and their teams differ.
pub proof fn lemma_candidate_pairs_members(teams: Seq<Team>, p: (usize, usize))
    requires
        teams.len() <= usize::MAX,
    ensures
        pairs_upto(teams, teams.len() as int).contains(p) <==> (p.0 < p.1 < teams.len()
            && teams[p.0 as int].id != teams[p.1 as int].id),
{
    lemma_pairs_upto_members(teams, teams.len() as int, p);
}

/// A collision treats both entities alike: swapping them swaps the outcome.
pub proof fn lemma_collision_symmetric(first: Collider, second: Collider)
    ensures
        outcome_spec(second, first).despawn_first == outcome_spec(first, second).despawn_second,
        outcome_spec(second, first).despawn_second == outcome_spec(first, second).despawn_first,
        outcome_spec(second, first).separate == outcome_spec(first, second).separate,
{
}

/// An entity that never dies survives every collision, and two entities are
/// separated exactly when both survive.
pub proof fn lemma_collision_survivors(first: Collider, second: Collider)
    ensures
        first.def.behaviour == CollisionBehaviour::NeverDie ==> !outcome_spec(first, second).despawn_first,
        outcome_spec(first, second).separate <==> (!outcome_spec(first, second).despawn_first
            && !outcome_spec(first, second).despawn_second),
        first.def.behaviour == CollisionBehaviour::DieAlways ==> outcome_spec(first, second).despawn_first,
{
}

/// Teams only decide which pairs are checked: the outcome of a collision
/// depends on the behaviours and kill markers alone, and an entity that dies
/// against killers dies exactly when the other entity kills.
pub proof fn lemma_collision_ignores_teams(first: Collider, second: Collider, t1: Team, t2: Team)
    ensures
        outcome_spec(Collider { team: t1, ..first }, Collider { team: t2, ..second }) == outcome_spec(
            first,
            second,
        ),
        first.def.behaviour == CollisionBehaviour::DieVersusKill ==> (outcome_spec(
            first,
            second,
        ).despawn_first <==> second.kill is Some),
        second.def.behaviour == CollisionBehaviour::DieVersusKill ==> (outcome_spec(
            first,
            second,
        ).despawn_second <==> first.kill is Some),
{
}

/// `p` comes before `q` in lexicographic order.
pub open spec fn pair_lt(p: (usize, usize), q: (usize, usize)) -> bool {
    p.0 < q.0 || (p.0 == q.0 && p.1 < q.1)
}

proof fn lemma_row_pairs_sorted(teams: Seq<Team>, i: int, end: int)
    requires
        0 <= i,
        end <= teams.len() <= usize::MAX,
    ensures
        forall|a: int, b: int|
            0 <= a < b < row_pairs(teams, i, end).len() ==> pair_lt(
                row_pairs(teams, i, end)[a],
                row_pairs(teams, i, end)[b],
            ),
        forall|a: int|
            0 <= a < row_pairs(teams, i, end).len() ==> #[trigger] row_pairs(teams, i, end)[a].0 == i
                && i < row_pairs(teams, i, end)[a].1 < end,
    decreases end - i,
{
    if end > i + 1 {
        lemma_row_pairs_sorted(teams, i, end - 1);
        let rest = row_pairs(teams, i, end - 1);
        let r = row_pairs(teams, i, end);
        let last = (i as usize, (end - 1) as usize);
        if teams[i].id != teams[end - 1].id {
            assert(r == rest.push(last));
            assert forall|a: int| 0 <= a < r.len() implies #[trigger] r[a].0 == i && i < r[a].1 < end by {
                if a < rest.len() {
                    assert(r[a] == rest[a]);
                }
            }
            assert forall|a: int, b: int| 0 <= a < b < r.len() implies pair_lt(r[a], r[b]) by {
                assert(r[a] == rest[a]);
                if b < rest.len() {
                    assert(r[b] == rest[b]);
                } else {
                    assert(rest[a].0 == i);
                    assert(rest[a].1 < end - 1);
                }
            }
        } else {
            assert(r == rest);
        }
    }
}

proof fn lemma_pairs_upto_sorted(teams: Seq<Team>, rows: int)
    requires
        rows <= teams.len() <= usize::MAX,
    ensures
        forall|a: int, b: int|
            0 <= a < b < pairs_upto(teams, rows).len() ==> pair_lt(
                pairs_upto(teams, rows)[a],
                pairs_upto(teams, rows)[b],
            ),
        forall|a: int| 0 <= a < pairs_upto(teams, rows).len() ==> #[trigger] pairs_upto(teams, rows)[a].0 < rows,
    decreases rows,
{
    if rows > 0 {
        lemma_pairs_upto_sorted(teams, rows - 1);
        lemma_row_pairs_sorted(teams, rows - 1, teams.len() as int);
        let x = pairs_upto(teams, rows - 1);
        let y = row_pairs(teams, rows - 1, teams.len() as int);
        let z = x + y;
        assert forall|a: int| 0 <= a < z.len() implies #[trigger] z[a].0 < rows by {
            if a < x.len() {
                assert(z[a] == x[a]);
            } else {
                assert(z[a] == y[a - x.len()]);
            }
        }
        assert forall|a: int, b: int| 0 <= a < b < z.len() implies pair_lt(z[a], z[b]) by {
            if b < x.len() {
                assert(z[a] == x[a] && z[b] == x[b]);
            } else if a >= x.len() {
                assert(z[a] == y[a - x.len()] && z[b] == y[b - x.len()]);
            } else {
                assert(z[a] == x[a]);
                assert(z[b] == y[b - x.len()]);
                assert(x[a].0 < rows - 1);
            }
        }
    }
}

/// No pair of entities is checked twice: the candidate pairs come in strictly
/// increasing lexicographic order, each with its first position before its
/// second.
pub proof fn lemma_candidate_pairs_sorted(teams: Seq<Team>)
    requires
        teams.len() <= usize::MAX,
    ensures
        forall|a: int, b: int|
            0 <= a < b < pairs_upto(teams, teams.len() as int).len() ==> pair_lt(
                pairs_upto(teams, teams.len() as int)[a],
                pairs_upto(teams, teams.len() as int)[b],
            ),
{
    lemma_pairs_upto_sorted(teams, teams.len() as int);
}

/// Every unordered pair of entities that may collide, each once, as the pair
/// of their positions `(i, j)` with `i < j`, in lexicographic order: the
/// pairs whose teams differ.
pub fn candidate_pairs(teams: &Vec<Team>) -> (pairs: Vec<(usize, usize)>)
    ensures
        pairs@ == pairs_upto(teams@, teams@.len() as int),
        forall|a: int, b: int| 0 <= a < b < pairs@.len() ==> pair_lt(pairs@[a], pairs@[b]),
        forall|p: (usize, usize)|
            pairs@.contains(p) <==> (p.0 < p.1 < teams@.len() && teams@[p.0 as int].id
                != teams@[p.1 as int].id),
{
    let n = teams.len();
    let mut pairs: Vec<(usize, usize)> = Vec::new();
    let mut i: usize = 0;
    while i < n
        invariant
            n == teams@.len(),
            i <= n,
            pairs@ == pairs_upto(teams@, i as int),
        decreases n - i,
    {
        let mut j: usize = i + 1;
        let ghost before = pairs@;
        while j < n
            invariant
                n == teams@.len(),
                i < n,
                i + 1 <= j <= n,
                before == pairs_upto(teams@, i as int),
                pairs@ == before + row_pairs(teams@, i as int, j as int),
            decreases n - j,
        {
            if teams[i].id != teams[j].id {
                pairs.push((i, j));
            }
            assert(row_pairs(teams@, i as int, (j + 1) as int) == (if teams@[i as int].id != teams@[j as int].id {
                row_pairs(teams@, i as int, j as int).push((i, j))
            } else {
                row_pairs(teams@, i as int, j as int)
            }));
            assert(pairs@ =~= before + row_pairs(teams@, i as int, (j + 1) as int));
            j = j + 1;
        }
        i = i + 1;
    }
    proof {
        lemma_candidate_pairs_sorted(teams@);
        assert forall|p: (usize, usize)|
            pairs@.contains(p) <==> (p.0 < p.1 < teams@.len() && teams@[p.0 as int].id
                != teams@[p.1 as int].id) by {
            lemma_candidate_pairs_members(teams@, p);
        }
    }
    pairs
}

} // verus!
