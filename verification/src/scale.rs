//! The scale specification: what an axis means, as a value.

use vstd::prelude::*;

verus! {

/// The scale of one axis. `Linear` is the default everywhere.
#[derive(Debug, Clone, PartialEq, Eq)]
pub enum Scale {
    /// A continuous linear axis — the default.
    Linear,
    /// Base-10 logarithmic: decade ticks, and values at or below zero become
    /// gaps.
    Log,
    /// Unix seconds (UTC): calendar-aligned ticks with multi-scale labels.
    Time,
    /// Named bands — the categorical axis of bar charts, box plots, and
    /// violins. Continuous layers position x against band indices (0 is the
    /// first band's center). Only supported on the x axis.
    Bands(Vec<String>),
}

impl Default for Scale {
    fn default() -> (s: Scale)
        ensures
            s is Linear,
    {
        Scale::Linear
    }
}

impl Scale {
    /// Bands from a list of names — sugar for [`Scale::Bands`].
    pub fn bands(categories: &[&str]) -> (s: Scale)
        ensures
            s matches Scale::Bands(names) && names@.len() == categories@.len() && forall|i: int|
                0 <= i < categories@.len() ==> #[trigger] names@[i]@ == categories@[i]@,
    {
        let mut names: Vec<String> = Vec::new();
        let mut i: usize = 0;
        while i < categories.len()
            invariant
                i <= categories@.len(),
                names@.len() == i,
                forall|k: int| 0 <= k < i ==> #[trigger] names@[k]@ == categories@[k]@,
            decreases categories@.len() - i,
        {
            names.push(categories[i].to_owned());
            i = i + 1;
        }
        Scale::Bands(names)
    }
}

} // verus!
