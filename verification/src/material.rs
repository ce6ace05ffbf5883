use vstd::prelude::*;

verus! {

/// Which faces of a surface a material is drawn on.
pub enum Side {
    BackSide,
    DoubleSide,
    FrontSide,
}

impl Default for Side {
    /// Front faces only.
    fn default() -> (side: Self)
        ensures
            side == Side::FrontSide,
    {
        Side::FrontSide
    }
}

} // verus!
