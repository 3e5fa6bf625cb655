//! The frequency lookup table: small integer ids to Hertz values.

use vstd::prelude::*;
use std::collections::HashMap;
use crate::error::SequencerError;
use crate::fbits::f64_is_valid_time_frequency;

verus! {

broadcast use vstd::std_specs::hash::group_hash_axioms;

/// Maps frequency ids to Hertz values, each the bit pattern of a
/// double-precision number.  Lookups on a missing id fail, and a stored
/// value is checked on every read, so a corrupted entry is caught on use.
#[derive(Clone, Debug)]
pub struct FrequencyLookupTable {
    /// The id-to-Hertz mapping.
    pub lut: HashMap<usize, u64>,
}

/// What a lookup of `id` in the mapping `lut` returns: the stored value if
/// it is present and usable as a frequency, the matching error otherwise.
pub open spec fn spec_flut_get(lut: Map<usize, u64>, id: usize) -> Result<u64, SequencerError> {
    if !lut.contains_key(id) {
        Err(SequencerError::NoFrequencyForID(id))
    } else if !f64_is_valid_time_frequency(lut[id]) {
        Err(SequencerError::ImpossibleTimeOrFrequency(lut[id]))
    } else {
        Ok(lut[id])
    }
}

impl FrequencyLookupTable {
    /// Creates an empty table.
    pub fn new() -> (r: FrequencyLookupTable)
        ensures
            r.lut@ == Map::<usize, u64>::empty(),
    {
        FrequencyLookupTable { lut: HashMap::new() }
    }

    /// Stores `hz` (a double-precision pattern) under `id`, replacing any
    /// previous entry.
    pub fn insert(&mut self, id: usize, hz: u64)
        ensures
            final(self).lut@ == old(self).lut@.insert(id, hz),
    {
        self.lut.insert(id, hz);
    }

    /// Returns the frequency stored under `id`: fails with
    /// `NoFrequencyForID` if the id is absent, and with
    /// `ImpossibleTimeOrFrequency` if the stored value is not a normal
    /// number strictly greater than zero.
    pub fn get(&self, id: usize) -> (r: Result<u64, SequencerError>)
        ensures
            r == spec_flut_get(self.lut@, id),
    {
        match self.lut.get(&id) {
            Some(v) => {
                let hz: u64 = *v;
                if crate::fbits::is_valid_time_frequency(hz) {
                    Ok(hz)
                } else {
                    Err(SequencerError::ImpossibleTimeOrFrequency(hz))
                }
            },
            None => Err(SequencerError::NoFrequencyForID(id)),
        }
    }
}

impl Default for FrequencyLookupTable {
    /// An empty table.
    fn default() -> (r: FrequencyLookupTable)
        ensures
            r.lut@ == Map::<usize, u64>::empty(),
    {
        FrequencyLookupTable::new()
    }
}

} // verus!
