use vstd::prelude::*;

verus! {

/// Window functions that shape the taps of a low-pass filter.
#[derive(Clone, Copy, Debug, PartialEq, Eq, Structural)]
pub enum WindowKind {
    BlackmanHaris,
}

impl WindowKind {
    /// Stopband attenuation of the window in dB, used to estimate how many
    /// taps a filter needs.
    pub open spec fn attenuation_db(self) -> u32 {
        match self {
            WindowKind::BlackmanHaris => 92,
        }
    }

    /// Stopband attenuation of the window in dB.
    pub fn max_attenuation(&self) -> (r: u32)
        ensures
            r == self.attenuation_db(),
    {
        match self {
            WindowKind::BlackmanHaris => 92,
        }
    }
}

} // verus!
