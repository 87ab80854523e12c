//! The stiff chemistry and orbit problems of the benchmark catalogue, by
//! name: what identifies them, describes them and classifies them.

use vstd::prelude::*;

verus! {

/// The restricted three body problem on the Arenstorf orbit.
#[derive(Copy, Clone, Debug)]
pub struct Arenstorf;

/// Robertson's reaction kinetics. Three species over eleven decades in time.
#[derive(Copy, Clone, Debug)]
pub struct Robertson;

/// HIRES, a plant photosynthesis model with eight species.
#[derive(Copy, Clone, Debug)]
pub struct Hires;

/// The Oregonator, a three variable model of the Belousov-Zhabotinsky
/// reaction.
#[derive(Copy, Clone, Debug)]
pub struct Orego;

impl Arenstorf {
    pub fn dim(&self) -> (n: usize)
        ensures
            n == 4,
    {
        4
    }

    pub fn id(&self) -> (s: &'static str)
        ensures
            s@ == "arenstorf"@,
    {
        "arenstorf"
    }

    pub fn name(&self) -> (s: &'static str)
        ensures
            s@ == "Arenstorf orbit"@,
    {
        "Arenstorf orbit"
    }

    pub fn description(&self) -> (s: &'static str)
        ensures
            s@ == "Restricted three body problem on a periodic orbit. The near passes at the two bodies force the step size to vary by orders of magnitude."@,
    {
        "Restricted three body problem on a periodic orbit. The near passes at the two bodies force the step size to vary by orders of magnitude."
    }

    pub fn is_stiff(&self) -> (b: bool)
        ensures
            !b,
    {
        false
    }
}

impl Robertson {
    pub fn dim(&self) -> (n: usize)
        ensures
            n == 3,
    {
        3
    }

    pub fn id(&self) -> (s: &'static str)
        ensures
            s@ == "robertson"@,
    {
        "robertson"
    }

    pub fn name(&self) -> (s: &'static str)
        ensures
            s@ == "Robertson"@,
    {
        "Robertson"
    }

    pub fn description(&self) -> (s: &'static str)
        ensures
            s@ == "Reaction kinetics spanning eleven decades in time. The benchmark every stiff solver is measured on."@,
    {
        "Reaction kinetics spanning eleven decades in time. The benchmark every stiff solver is measured on."
    }

    pub fn is_stiff(&self) -> (b: bool)
        ensures
            b,
    {
        true
    }
}

impl Hires {
    pub fn dim(&self) -> (n: usize)
        ensures
            n == 8,
    {
        8
    }

    pub fn id(&self) -> (s: &'static str)
        ensures
            s@ == "hires"@,
    {
        "hires"
    }

    pub fn name(&self) -> (s: &'static str)
        ensures
            s@ == "HIRES"@,
    {
        "HIRES"
    }

    pub fn description(&self) -> (s: &'static str)
        ensures
            s@ == "Eight species model of photosynthesis in plants. Moderately stiff with a long quiescent tail."@,
    {
        "Eight species model of photosynthesis in plants. Moderately stiff with a long quiescent tail."
    }

    pub fn is_stiff(&self) -> (b: bool)
        ensures
            b,
    {
        true
    }
}

impl Orego {
    pub fn dim(&self) -> (n: usize)
        ensures
            n == 3,
    {
        3
    }

    pub fn id(&self) -> (s: &'static str)
        ensures
            s@ == "orego"@,
    {
        "orego"
    }

    pub fn name(&self) -> (s: &'static str)
        ensures
            s@ == "Oregonator"@,
    {
        "Oregonator"
    }

    pub fn description(&self) -> (s: &'static str)
        ensures
            s@ == "Belousov-Zhabotinsky reaction. Periodic with sharp spikes several decades apart in magnitude."@,
    {
        "Belousov-Zhabotinsky reaction. Periodic with sharp spikes several decades apart in magnitude."
    }

    pub fn is_stiff(&self) -> (b: bool)
        ensures
            b,
    {
        true
    }
}

} // verus!
