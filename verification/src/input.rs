use vstd::prelude::*;

verus! {

/// The direction that the movement keys ask for, one unit per axis: up adds
/// one to `y`, down takes one off, right adds one to `x`, left takes one off.
/// Opposite keys cancel out.
pub fn movement_axes(up: bool, down: bool, right: bool, left: bool) -> (axes: (i8, i8))
    ensures
        axes.0 == (if right { 1int } else { 0int }) - (if left { 1int } else { 0int }),
        axes.1 == (if up { 1int } else { 0int }) - (if down { 1int } else { 0int }),
{
    let mut x: i8 = 0;
    let mut y: i8 = 0;
    if up {
        y = y + 1;
    }
    if down {
        y = y - 1;
    }
    if right {
        x = x + 1;
    }
    if left {
        x = x - 1;
    }
    (x, y)
}

} // verus!
