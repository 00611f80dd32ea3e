use vstd::prelude::*;

verus! {

/// The id of an entity of the game world, the same on the server and on
/// every client.
#[derive(Debug, Clone, Copy, PartialEq, Eq, Structural)]
pub struct Id(pub usize);

} // verus!
