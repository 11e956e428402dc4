//! Material and dopant vocabulary shared by every wafer model.
//!
//! The numeric (floating-point) process constants of the simulator live
//! with the floating-point physics, outside this verified library; what
//! stands here is the discrete part: which materials a voxel can hold,
//! which dopants exist, their conduction type and their names.
use vstd::prelude::*;

verus! {

/// The material held by one voxel of a wafer grid.
#[derive(Debug, Clone, Copy, PartialEq, Eq, Structural)]
pub enum Material {
    Silicon,
    Oxide,
    Photoresist,
    PhotoresistExposed,
    Metal,
    Void,
}

/// Oxidation ambient.
#[derive(Debug, Clone, Copy, PartialEq, Eq, Structural)]
pub enum Ambient {
    Dry,
    Wet,
}

/// Crystal plane of the silicon surface.
#[derive(Debug, Clone, Copy, PartialEq, Eq, Structural)]
pub enum CrystalOrientation {
    Si100,
    Si111,
}

/// Dopant species.
#[derive(Debug, Clone, Copy, PartialEq, Eq, Structural, Hash)]
pub enum Dopant {
    Boron,
    Phosphorus,
    Arsenic,
    Antimony,
}

/// The name of a dopant, as a character sequence.
pub open spec fn dopant_name(d: Dopant) -> Seq<char> {
    match d {
        Dopant::Boron => "Boron"@,
        Dopant::Phosphorus => "Phosphorus"@,
        Dopant::Arsenic => "Arsenic"@,
        Dopant::Antimony => "Antimony"@,
    }
}

impl Dopant {
    /// P-type (acceptor) vs N-type (donor) convention used for junction
    /// finding: only boron is an acceptor.
    pub fn is_p_type(&self) -> (p: bool)
        ensures
            p == (*self == Dopant::Boron),
    {
        matches!(self, Dopant::Boron)
    }

    /// The dopant's name.
    pub fn name(&self) -> (s: &'static str)
        ensures
            s@ == dopant_name(*self),
    {
        match self {
            Dopant::Boron => "Boron",
            Dopant::Phosphorus => "Phosphorus",
            Dopant::Arsenic => "Arsenic",
            Dopant::Antimony => "Antimony",
        }
    }

    /// The dopant's name, as used to key per-species data.
    pub fn name_static(&self) -> (s: &'static str)
        ensures
            s@ == dopant_name(*self),
    {
        self.name()
    }

    /// The dopant whose name is `name`, if any.
    pub fn from_name(name: &str) -> (d: Option<Dopant>)
        ensures
            d == dopant_of_name(name@),
    {
        let given = name.to_owned();
        if given == "Boron".to_owned() {
            Some(Dopant::Boron)
        } else if given == "Phosphorus".to_owned() {
            Some(Dopant::Phosphorus)
        } else if given == "Arsenic".to_owned() {
            Some(Dopant::Arsenic)
        } else if given == "Antimony".to_owned() {
            Some(Dopant::Antimony)
        } else {
            None
        }
    }
}

/// The dopant named `s`, if any.
pub open spec fn dopant_of_name(s: Seq<char>) -> Option<Dopant> {
    if s == "Boron"@ {
        Some(Dopant::Boron)
    } else if s == "Phosphorus"@ {
        Some(Dopant::Phosphorus)
    } else if s == "Arsenic"@ {
        Some(Dopant::Arsenic)
    } else if s == "Antimony"@ {
        Some(Dopant::Antimony)
    } else {
        None
    }
}

/// Looking a dopant up by its own name gives that dopant back.
pub proof fn law_dopant_name_round_trip(d: Dopant)
    ensures
        dopant_of_name(dopant_name(d)) == Some(d),
{
    reveal_strlit("Boron");
    reveal_strlit("Phosphorus");
    reveal_strlit("Arsenic");
    reveal_strlit("Antimony");
    match d {
        Dopant::Boron => {},
        Dopant::Phosphorus => {
            assert("Phosphorus"@[0] != "Boron"@[0]);
        },
        Dopant::Arsenic => {
            assert("Arsenic"@[0] != "Boron"@[0]);
            assert("Arsenic"@[0] != "Phosphorus"@[0]);
        },
        Dopant::Antimony => {
            assert("Antimony"@[0] != "Boron"@[0]);
            assert("Antimony"@[0] != "Phosphorus"@[0]);
            assert("Antimony"@.len() != "Arsenic"@.len());
        },
    }
}

} // verus!
