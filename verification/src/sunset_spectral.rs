//! The three modes of the sunset lifecycle: ethos, pathos, logos.

use vstd::prelude::*;

verus! {

/// The three sunset modes: ethos, pathos, logos.
#[derive(Debug, Clone, Copy, PartialEq, Eq, Structural)]
pub enum SunsetMode {
    /// Character/credibility.
    Ethos,
    /// Emotion/feeling.
    Pathos,
    /// Logic/structure.
    Logos,
}

impl SunsetMode {
    /// All modes, in the order ethos, pathos, logos.
    pub fn all() -> (modes: &'static [SunsetMode])
        ensures
            modes@ == seq![SunsetMode::Ethos, SunsetMode::Pathos, SunsetMode::Logos],
    {
        let modes: &'static [SunsetMode] = &[SunsetMode::Ethos, SunsetMode::Pathos, SunsetMode::Logos];
        assert(modes@ =~= seq![SunsetMode::Ethos, SunsetMode::Pathos, SunsetMode::Logos]);
        modes
    }

    /// Name of the mode.
    pub fn name(&self) -> (n: &'static str)
        ensures
            n@ == match *self {
                SunsetMode::Ethos => "ethos"@,
                SunsetMode::Pathos => "pathos"@,
                SunsetMode::Logos => "logos"@,
            },
    {
        match self {
            SunsetMode::Ethos => "ethos",
            SunsetMode::Pathos => "pathos",
            SunsetMode::Logos => "logos",
        }
    }
}

} // verus!
