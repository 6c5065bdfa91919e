use vstd::prelude::*;

verus! {

/// The named colors of a color type.
pub trait Colors: Sized {
    fn black() -> Self;

    fn white() -> Self;

    fn red() -> Self;

    fn green() -> Self;

    fn blue() -> Self;

    fn purple() -> Self;

    fn orange() -> Self;

    fn yellow() -> Self;
}

} // verus!
