use vstd::prelude::*;

verus! {

/// One of the four quadrants of the map, split at the floor-of-half midline.
#[derive(Debug, Clone, Copy, PartialEq, Eq, Structural)]
pub enum Quadrant {
    /// Low x, low y.
    One,
    /// High x, low y.
    Two,
    /// Low x, high y.
    Three,
    /// High x, high y.
    Four,
}

/// A single fact about a coordinate.
#[derive(Debug, Clone, Copy, PartialEq, Eq, Structural)]
pub enum InformationPiece {
    Quadrant(Quadrant),
    Column(u32),
    Row(u32),
}

/// A clue about the tracked position at the moment it was given.
#[derive(Debug, Clone, Copy, PartialEq, Eq, Structural)]
pub enum IntelQuestion {
    /// Whether the position lies in `quadrant` (`answer`), or not.
    InQuadrant { quadrant: Quadrant, answer: bool },
    /// Exactly one of the two facts holds of the position.
    TruthLie { info1: InformationPiece, info2: InformationPiece },
}

} // verus!
