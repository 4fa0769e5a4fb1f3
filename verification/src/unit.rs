//! Axis units: what the labels of a linear axis are counted in.

use vstd::prelude::*;

verus! {

/// The unit an axis's labels carry. The ticks stay the same ticks; only the
/// labels change — and, for binary bytes, the unit they are nice in.
#[derive(Debug, Clone, PartialEq, Eq)]
pub enum Unit {
    /// Bare numbers with the axis's one SI prefix attached (`2.5M`, `100µ`).
    Plain,
    /// One SI prefix per axis followed by the unit, separated by a space:
    /// `2.5 MB`, `100 µs`, `0 kB` — every label reads in the same unit.
    Si(String),
    /// Binary bytes: ticks nice in the axis's binary unit, read `512 KiB`,
    /// `1.5 GiB`.
    Bytes,
    /// A bare suffix on every label and never an SI prefix: `45%`, `3×`.
    Suffix(String),
}

impl Default for Unit {
    fn default() -> (u: Unit)
        ensures
            u is Plain,
    {
        Unit::Plain
    }
}

impl Unit {
    /// An SI unit: `Unit::si("B")` labels `2.5 MB`, `Unit::si("s")` labels
    /// `100 µs`.
    pub fn si(unit: &str) -> (u: Unit)
        ensures
            u matches Unit::Si(name) && name@ == unit@,
    {
        Unit::Si(unit.to_owned())
    }

    /// A bare suffix: `Unit::suffix("%")` labels `45%`.
    pub fn suffix(suffix: &str) -> (u: Unit)
        ensures
            u matches Unit::Suffix(name) && name@ == suffix@,
    {
        Unit::Suffix(suffix.to_owned())
    }

    /// Whether this is the plain, unit-less form.
    pub fn is_plain(&self) -> (b: bool)
        ensures
            b == (*self is Plain),
    {
        match self {
            Unit::Plain => true,
            _ => false,
        }
    }
}

/// The binary unit names, from bytes up.
pub open spec fn spec_binary_unit(power: int) -> Seq<char> {
    if power == 0 {
        "B"@
    } else if power == 1 {
        "KiB"@
    } else if power == 2 {
        "MiB"@
    } else if power == 3 {
        "GiB"@
    } else if power == 4 {
        "TiB"@
    } else if power == 5 {
        "PiB"@
    } else if power == 6 {
        "EiB"@
    } else if power == 7 {
        "ZiB"@
    } else {
        "YiB"@
    }
}

/// The name of the binary unit `1024^power` bytes, the largest for any
/// power past the table.
pub fn binary_unit(power: usize) -> (name: &'static str)
    ensures
        name@ == spec_binary_unit(power as int),
{
    match power {
        0 => "B",
        1 => "KiB",
        2 => "MiB",
        3 => "GiB",
        4 => "TiB",
        5 => "PiB",
        6 => "EiB",
        7 => "ZiB",
        _ => "YiB",
    }
}

} // verus!
