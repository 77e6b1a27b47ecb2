use vstd::prelude::*;

use crate::error::Error;

verus! {

/// The length unit that a model's coordinates are written in.
#[derive(Debug, PartialEq, Eq, Structural, Clone, Copy)]
pub enum Unit {
    Meter,
    Centimeter,
    Millimeter,
    Foot,
    Inch,
    Unknown,
}

/// The unit that a unit name denotes; a name that is not known denotes `Unknown`.
pub open spec fn unit_of(name: Seq<char>) -> Unit {
    if name == "meters"@ {
        Unit::Meter
    } else if name == "centimeters"@ {
        Unit::Centimeter
    } else if name == "millimeters"@ {
        Unit::Millimeter
    } else if name == "feet"@ {
        Unit::Foot
    } else if name == "inches"@ {
        Unit::Inch
    } else {
        Unit::Unknown
    }
}

impl Unit {
    /// Reads a unit name as it stands in a model file.
    pub fn new(name: &str) -> (r: Unit)
        ensures
            r == unit_of(name@),
    {
        let owned = name.to_owned();
        if owned == "meters".to_owned() {
            Unit::Meter
        } else if owned == "centimeters".to_owned() {
            Unit::Centimeter
        } else if owned == "millimeters".to_owned() {
            Unit::Millimeter
        } else if owned == "feet".to_owned() {
            Unit::Foot
        } else if owned == "inches".to_owned() {
            Unit::Inch
        } else {
            Unit::Unknown
        }
    }
}

impl std::str::FromStr for Unit {
    type Err = Error;

    fn from_str(s: &str) -> (r: Result<Unit, Error>)
        ensures
            r == Ok::<Unit, Error>(unit_of(s@)),
    {
        Ok(Unit::new(s))
    }
}

/// A length unit as a type of its own.
pub enum Units {
    Meter(Meter),
    Millimeter(Millimeter),
    Centimeter(Centimeter),
    Foot(Foot),
    Inch(Inch),
}

#[derive(Debug)]
pub struct Meter;

#[derive(Debug)]
pub struct Millimeter;

#[derive(Debug)]
pub struct Centimeter;

#[derive(Debug)]
pub struct Foot;

#[derive(Debug)]
pub struct Inch;

} // verus!
