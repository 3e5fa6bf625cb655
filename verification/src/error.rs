//! The error type of the sequencer.

use vstd::prelude::*;

verus! {

/// Everything in this library that can fail returns this type.  Times,
/// frequencies and velocities travel as the bit patterns of their
/// double-precision values, so the offending value of
/// `ImpossibleTimeOrFrequency` is carried as such a pattern.
#[derive(Clone, Copy, Debug, PartialEq, Eq, Structural)]
pub enum SequencerError {
    /// No key generator is set and no key is cached to derive others from.
    NoDefaultKeyGiven,
    /// A value used as a time or a frequency is not a normal number
    /// strictly greater than zero.
    ImpossibleTimeOrFrequency(u64),
    /// No frequency is stored under this id in a `FrequencyLookupTable`.
    NoFrequencyForID(usize),
    /// No instrument is stored under this id in an `InstrumentTable`.
    NoInstrumentForID(usize),
    /// No key is cached under this frequency id in an `Instrument`.
    NoKeyForID(usize),
    /// A sample representation or a generation strategy that the library
    /// does not implement was requested.
    Unsupported,
}

impl SequencerError {
    /// A short description of the error.
    pub fn description(&self) -> (r: &'static str)
        ensures
            r@.len() > 0,
    {
        match self {
            SequencerError::NoDefaultKeyGiven => {
                proof {
                    reveal_strlit("no key generator and no default key to derive others from");
                }
                "no key generator and no default key to derive others from"
            },
            SequencerError::ImpossibleTimeOrFrequency(_) => {
                proof {
                    reveal_strlit("impossible value for a time or a frequency");
                }
                "impossible value for a time or a frequency"
            },
            SequencerError::NoFrequencyForID(_) => {
                proof {
                    reveal_strlit("no frequency assigned to this id");
                }
                "no frequency assigned to this id"
            },
            SequencerError::NoInstrumentForID(_) => {
                proof {
                    reveal_strlit("no instrument assigned to this id");
                }
                "no instrument assigned to this id"
            },
            SequencerError::NoKeyForID(_) => {
                proof {
                    reveal_strlit("no key generated for this frequency id");
                }
                "no key generated for this frequency id"
            },
            SequencerError::Unsupported => {
                proof {
                    reveal_strlit("unsupported sample representation or generation strategy");
                }
                "unsupported sample representation or generation strategy"
            },
        }
    }
}

} // verus!
