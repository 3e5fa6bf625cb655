//! Reference tone generators for the sequencer's key-generation
//! capability.

use vstd::prelude::*;
use crate::audio::{Frame, Pcm, PcmParameters, SampleType};
use crate::error::SequencerError;
use crate::fbits::f64_is_valid_time_frequency;
use crate::instrument::{Key, KeyGenerator};
use crate::sfloat::{
    spec_seconds_to_frames_round, spec_square_phase_hi, F32_NEG_ONE_BITS, F32_ONE_BITS,
};

verus! {

/// Generates a square wave: one for the first half of each period, minus
/// one for the second half, the same value on every channel.
pub struct SquareWaveGenerator {}

/// The sample pattern of frame `i` of a square wave: positive one while
/// the frame's time lies in the first half of the wave's period, minus one
/// in the second half.
pub open spec fn square_sample(i: int, frequency: u64, sample_rate: u32) -> u32 {
    if spec_square_phase_hi(i as nat, frequency, sample_rate) {
        F32_ONE_BITS
    } else {
        F32_NEG_ONE_BITS
    }
}

/// A frame of `nb_channels` copies of one sample pattern.
fn uniform_frame(sample: u32, nb_channels: u16) -> (r: Frame)
    ensures
        r@.len() == nb_channels as int,
        forall|c: int| 0 <= c < nb_channels as int ==> r@[c] == sample,
{
    let mut samples: Vec<u32> = Vec::new();
    let mut c: usize = 0;
    while c < nb_channels as usize
        invariant
            c <= nb_channels as usize,
            samples@.len() == c as int,
            forall|k: int| 0 <= k < c as int ==> samples@[k] == sample,
        decreases nb_channels as usize - c,
    {
        samples.push(sample);
        c = c + 1;
    }
    Frame { samples }
}

impl KeyGenerator for SquareWaveGenerator {
    /// A square wave is produced for every float-format request whose
    /// duration is a usable time spanning at least one frame.
    open spec fn succeeds_on(
        &self,
        frequency: u64,
        parameters: PcmParameters,
        duration: u64,
    ) -> bool {
        &&& parameters.sample_type is Float
        &&& f64_is_valid_time_frequency(duration)
        &&& spec_seconds_to_frames_round(duration, parameters.sample_rate, usize::MAX as nat) >= 1
    }

    /// Renders `round(duration * sample_rate)` frames of a square wave at
    /// `frequency`.  The half-period test is exact, so the sign never
    /// drifts, however long the tone.  Fails with `Unsupported` for a
    /// sample representation other than `Float`, and with
    /// `ImpossibleTimeOrFrequency` for a duration that is not a usable
    /// time or rounds to no frames at all.
    fn key_gen(&self, frequency: u64, parameters: &PcmParameters, duration: u64) -> (r: Result<
        Key,
        SequencerError,
    >)
        ensures
            match r {
                Ok(k) => {
                    let n = spec_seconds_to_frames_round(
                        duration,
                        parameters.sample_rate,
                        usize::MAX as nat,
                    );
                    &&& parameters.sample_type is Float
                    &&& f64_is_valid_time_frequency(duration)
                    &&& k.frequency == frequency
                    &&& k.audio.parameters == *parameters
                    &&& k.audio.loop_info is None
                    &&& k.audio.frames@.len() == n
                    &&& n >= 1
                    &&& forall|i: int|
                        0 <= i < n ==> (#[trigger] k.audio.frames@[i])@ =~= Seq::new(
                            parameters.nb_channels as nat,
                            |c: int| square_sample(i, frequency, parameters.sample_rate),
                        )
                },
                Err(e) => {
                    ||| (!(parameters.sample_type is Float) && e == SequencerError::Unsupported)
                    ||| (parameters.sample_type is Float && !f64_is_valid_time_frequency(duration)
                        && e == SequencerError::ImpossibleTimeOrFrequency(duration))
                    ||| (parameters.sample_type is Float && f64_is_valid_time_frequency(duration)
                        && spec_seconds_to_frames_round(
                            duration,
                            parameters.sample_rate,
                            usize::MAX as nat,
                        ) == 0 && e == SequencerError::ImpossibleTimeOrFrequency(duration))
                },
            },
    {
        match parameters.sample_type {
            SampleType::Float => {},
            _ => {
                return Err(SequencerError::Unsupported);
            },
        }
        if !crate::fbits::is_valid_time_frequency(duration) {
            return Err(SequencerError::ImpossibleTimeOrFrequency(duration));
        }
        let n: usize = crate::sfloat::seconds_to_frames_round(duration, parameters.sample_rate);
        if n == 0 {
            return Err(SequencerError::ImpossibleTimeOrFrequency(duration));
        }
        let mut frames: Vec<Frame> = Vec::new();
        let mut i: usize = 0;
        while i < n
            invariant
                i <= n,
                f64_is_valid_time_frequency(frequency),
                parameters.sample_rate >= 1,
                frames@.len() == i as int,
                forall|k: int|
                    0 <= k < i as int ==> (#[trigger] frames@[k])@ =~= Seq::new(
                        parameters.nb_channels as nat,
                        |c: int| square_sample(k, frequency, parameters.sample_rate),
                    ),
            decreases n - i,
        {
            let hi: bool = crate::sfloat::square_phase_hi(i, frequency, parameters.sample_rate);
            let sample: u32 = if hi {
                F32_ONE_BITS
            } else {
                F32_NEG_ONE_BITS
            };
            let f: Frame = uniform_frame(sample, parameters.nb_channels);
            proof {
                assert(f@ =~= Seq::new(
                    parameters.nb_channels as nat,
                    |c: int| square_sample(i as int, frequency, parameters.sample_rate),
                ));
            }
            frames.push(f);
            i = i + 1;
        }
        Ok(
            Key {
                frequency,
                audio: Pcm { parameters: *parameters, loop_info: None, frames },
            },
        )
    }
}


} // verus!
