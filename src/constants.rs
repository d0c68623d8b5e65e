//! Parameters of the ship-deck landing maneuvers.

use vstd::prelude::*;

verus! {

/// Parameters of the 45-degree maneuver of the ship-deck landing tree.
pub enum Deg45 {
    HeightAboveShip,
    DistanceToShip,
    AngleToShip,
    AboveTouchdown,
}

impl Deg45 {
    /// The parameter's value (a height or distance in metres, or an angle in degrees).
    pub fn value(&self) -> (r: u32)
        ensures
            r == match *self {
                Deg45::HeightAboveShip => 20u32,
                Deg45::DistanceToShip => 30,
                Deg45::AngleToShip => 135,
                Deg45::AboveTouchdown => 20,
            },
    {
        match *self {
            Deg45::HeightAboveShip => 20,
            Deg45::DistanceToShip => 30,
            Deg45::AngleToShip => 135,
            Deg45::AboveTouchdown => 20,
        }
    }
}

/// Parameters of the lateral maneuver of the ship-deck landing tree.
pub enum Lateral {
    HeightAboveShip,
    DistanceToShip,
    AngleToShip,
    AboveTouchdown,
}

impl Lateral {
    /// The parameter's value (a height or distance in metres, or an angle in degrees).
    pub fn value(&self) -> (r: u32)
        ensures
            r == match *self {
                Lateral::HeightAboveShip => 20u32,
                Lateral::DistanceToShip => 20,
                Lateral::AngleToShip => 90,
                Lateral::AboveTouchdown => 20,
            },
    {
        match *self {
            Lateral::HeightAboveShip => 20,
            Lateral::DistanceToShip => 20,
            Lateral::AngleToShip => 90,
            Lateral::AboveTouchdown => 20,
        }
    }
}

/// Parameters of the oblique maneuver of the ship-deck landing tree.
pub enum Oblique {
    HeightAboveShip,
    DistanceToShip,
    AngleToShip,
    AngleOblique,
    AboveTouchdown,
}

impl Oblique {
    /// The parameter's value (a height or distance in metres, or an angle in degrees).
    pub fn value(&self) -> (r: u32)
        ensures
            r == match *self {
                Oblique::HeightAboveShip => 20u32,
                Oblique::DistanceToShip => 30,
                Oblique::AngleToShip => 135,
                Oblique::AngleOblique => 45,
                Oblique::AboveTouchdown => 20,
            },
    {
        match *self {
            Oblique::HeightAboveShip => 20,
            Oblique::DistanceToShip => 30,
            Oblique::AngleToShip => 135,
            Oblique::AngleOblique => 45,
            Oblique::AboveTouchdown => 20,
        }
    }
}

/// Parameters of the straight maneuver of the ship-deck landing tree.
pub enum Straight {
    HeightAboveShip,
    DistanceToShip,
    AngleToShip,
    AboveTouchdown,
}

impl Straight {
    /// The parameter's value (a height or distance in metres, or an angle in degrees).
    pub fn value(&self) -> (r: u32)
        ensures
            r == match *self {
                Straight::HeightAboveShip => 20u32,
                Straight::DistanceToShip => 20,
                Straight::AngleToShip => 180,
                Straight::AboveTouchdown => 20,
            },
    {
        match *self {
            Straight::HeightAboveShip => 20,
            Straight::DistanceToShip => 20,
            Straight::AngleToShip => 180,
            Straight::AboveTouchdown => 20,
        }
    }
}

} // verus!
