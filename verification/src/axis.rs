use vstd::prelude::*;

verus! {

/// A coordinate axis, used for indexed component access.
#[derive(Clone, Copy, PartialEq, Eq, Structural, Debug)]
pub enum Axis {
    X,
    Y,
    Z,
}

/// The canonical offset of each axis: X to 0, Y to 1, Z to 2.
pub open spec fn axis_index(a: Axis) -> int {
    match a {
        Axis::X => 0,
        Axis::Y => 1,
        Axis::Z => 2,
    }
}

} // verus!
