use vstd::prelude::*;

verus! {

/// The plane y = 0 in its own object space. It carries no parameters.
#[derive(Debug, Clone, Copy, PartialEq, Eq, Structural)]
pub struct Plane {}

impl Plane {
    pub fn new() -> (r: Plane)
        ensures
            r == (Plane {}),
    {
        Plane {}
    }
}

/// A shape that never intersects and reports its local point as its normal;
/// used to observe how rays and points reach a shape's local space.
#[derive(Debug, Clone, Copy, PartialEq, Eq, Structural)]
pub struct TestShape {}

impl TestShape {
    pub fn new() -> (r: TestShape)
        ensures
            r == (TestShape {}),
    {
        TestShape {}
    }
}

} // verus!
