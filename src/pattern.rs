use vstd::prelude::*;

verus! {

/// A pattern whose color at a point is the point's own coordinates; used to
/// observe which point in pattern space a lookup reaches.
#[derive(Debug, Clone, Copy, PartialEq, Eq, Structural)]
pub struct TestPattern {}

impl TestPattern {
    pub fn new() -> (r: TestPattern)
        ensures
            r == (TestPattern {}),
    {
        TestPattern {}
    }
}

} // verus!
