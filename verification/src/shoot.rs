use vstd::prelude::*;

verus! {

/// Marks an entity as a bullet.
#[derive(Debug, Clone, Copy, PartialEq, Eq, Structural)]
pub struct Bullet;

/// The side an entity fights for; entities of one team never collide.
#[derive(Debug, Clone, Copy, PartialEq, Eq, Structural)]
pub struct Team {
    pub id: usize,
}

} // verus!
