//! Formal conservation laws for the Grand Pattern: the Noether-type
//! correspondence between symmetries and conserved quantities.

use vstd::prelude::*;
use vstd::string::*;

verus! {

/// Noether's theorem analogue: every symmetry of the Grand Pattern
/// corresponds to a conservation law.
#[derive(Debug, Clone)]
pub struct SymmetryConservationLaw {
    pub symmetry: String,
    pub conserved_quantity: String,
    pub description: String,
}

impl SymmetryConservationLaw {
    /// Whether this law reads exactly (symmetry, conserved quantity, description).
    pub open spec fn reads(self, symmetry: &str, conserved_quantity: &str, description: &str) -> bool {
        &&& self.symmetry@ == symmetry@
        &&& self.conserved_quantity@ == conserved_quantity@
        &&& self.description@ == description@
    }
}

fn law(symmetry: &str, conserved_quantity: &str, description: &str) -> (l: SymmetryConservationLaw)
    ensures
        l.reads(symmetry, conserved_quantity, description),
{
    SymmetryConservationLaw {
        symmetry: String::from_str(symmetry),
        conserved_quantity: String::from_str(conserved_quantity),
        description: String::from_str(description),
    }
}

/// Enumerate the Noether-type conservation laws for the Grand Pattern.
pub fn noether_laws() -> (laws: Vec<SymmetryConservationLaw>)
    ensures
        laws@.len() == 5,
        laws@[0].reads(
            "Time translation",
            "Energy",
            "Invariance under time shifts → total energy is conserved",
        ),
        laws@[1].reads(
            "Venue permutation",
            "Total mass",
            "Relabeling venues doesn't change total activity",
        ),
        laws@[2].reads(
            "Spatial translation",
            "Momentum",
            "Shifting the entire pattern preserves momentum",
        ),
        laws@[3].reads(
            "Phase rotation",
            "Vibe amplitude",
            "Rotating vibe phases preserves total vibe amplitude",
        ),
        laws@[4].reads(
            "Scale invariance",
            "Fibonacci ratio",
            "Self-similar scaling preserves Fibonacci proportions",
        ),
{
    let mut laws: Vec<SymmetryConservationLaw> = Vec::new();
    laws.push(
        law(
            "Time translation",
            "Energy",
            "Invariance under time shifts → total energy is conserved",
        ),
    );
    laws.push(
        law("Venue permutation", "Total mass", "Relabeling venues doesn't change total activity"),
    );
    laws.push(
        law("Spatial translation", "Momentum", "Shifting the entire pattern preserves momentum"),
    );
    laws.push(
        law(
            "Phase rotation",
            "Vibe amplitude",
            "Rotating vibe phases preserves total vibe amplitude",
        ),
    );
    laws.push(
        law(
            "Scale invariance",
            "Fibonacci ratio",
            "Self-similar scaling preserves Fibonacci proportions",
        ),
    );
    laws
}

} // verus!
