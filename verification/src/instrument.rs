//! Instruments: cached keys, the generator and envelope capabilities, and
//! per-note sound generation.

use vstd::prelude::*;
use std::collections::HashMap;
use crate::audio::{copy_frame, Frame, Pcm, PcmParameters};
use crate::error::SequencerError;
use crate::fbits::f64_is_valid_time_frequency;
use crate::frequency::{spec_flut_get, FrequencyLookupTable};
use crate::sfloat::spec_seconds_to_frames_trunc;
use vstd::std_specs::iter::IteratorSpec;

verus! {

broadcast use vstd::std_specs::hash::group_hash_axioms;

/// The sound an instrument makes for one frequency: a cached waveform.
#[derive(Clone, Debug)]
pub struct Key {
    /// The waveform.
    pub audio: Pcm,
    /// The frequency this key sounds at, in Hertz, as a double-precision
    /// pattern.
    pub frequency: u64,
}

impl Key {
    /// A usable key: at least one frame, each with one sample per channel.
    pub open spec fn wf(&self) -> bool {
        self.audio.frames@.len() >= 1 && self.audio.channels_ok()
    }
}

/// Frame `i` of the sound a key makes: the cached waveform cycled modulo
/// its length for a loopable instrument, else played once and held at its
/// last frame.
pub open spec fn sound_frame(key: Key, loopable: bool, i: int) -> Seq<u32> {
    let len = key.audio.frames@.len() as int;
    if loopable {
        key.audio.frames@[i % len]@
    } else if i < len {
        key.audio.frames@[i]@
    } else {
        key.audio.frames@[len - 1]@
    }
}

/// Produces a key for one frequency: the pluggable tone source of an
/// instrument.  An implementation may ignore the duration; it is the
/// longest time the key will be held for, so a generator can size a
/// one-shot waveform with it.
pub trait KeyGenerator {
    /// The arguments on which this generator promises to produce a key:
    /// where this holds, `key_gen` returns `Ok`.  The default promises
    /// nothing; a generator widens it to what it can honour.
    open spec fn succeeds_on(
        &self,
        frequency: u64,
        parameters: PcmParameters,
        duration: u64,
    ) -> bool {
        false
    }

    /// Generates the key for `frequency` (Hertz, as a double-precision
    /// pattern) under `parameters`; `duration` (seconds, as a pattern) is
    /// the longest the key will sound.  A successful key carries the
    /// frequency and parameters it was generated for, holds at least one
    /// frame, and is consistent in its channel count.
    fn key_gen(&self, frequency: u64, parameters: &PcmParameters, duration: u64) -> (r: Result<
        Key,
        SequencerError,
    >)
        requires
            f64_is_valid_time_frequency(frequency),
            parameters.wf(),
        ensures
            match r {
                Ok(k) => k.wf() && k.frequency == frequency && k.audio.parameters == *parameters,
                Err(_) => true,
            },
            self.succeeds_on(frequency, *parameters, duration) ==> r is Ok,
    ;
}

/// Shapes the loudness of a sounding note over time.  Times go in as
/// double-precision patterns of seconds, amplitudes come back as patterns
/// of values intended to lie between zero and one.  The mixing pipeline
/// carries the capability but does not yet consult it.
pub trait Envelope {
    /// The amplitude multiplier from the start of the note up to and
    /// including its sustain, at `time` seconds after the start.
    fn before_during_sustain(&self, time: u64) -> u64;

    /// The amplitude multiplier after the key is released, at `time`
    /// seconds after the release.
    fn after_sustain(&self, time: u64) -> u64;
}

/// Derives new keys by shifting the pitch of an existing one: the fallback
/// when an instrument has no generator.  Pitch shifting is not implemented;
/// it is an explicit extension point, and generation through it fails with
/// `Unsupported` rather than producing wrong audio.
pub struct KeyPitchChanger {
    /// The key whose pitch would be shifted.
    pub original_key: Key,
}

impl KeyGenerator for KeyPitchChanger {
    fn key_gen(&self, frequency: u64, parameters: &PcmParameters, duration: u64) -> (r: Result<
        Key,
        SequencerError,
    >)
        ensures
            r == Err::<Key, SequencerError>(SequencerError::Unsupported),
    {
        Err(SequencerError::Unsupported)
    }
}

/// A sound source: a cache of generated keys by frequency id, an optional
/// key generator (its absence selects the pitch-changing fallback), a
/// loopability flag, and an optional envelope.
pub struct Instrument {
    /// The cached keys, by frequency id.
    pub keys: HashMap<usize, Key>,
    /// The generator used to produce keys; if none is set, at least one
    /// key must already be cached for the fallback to start from.
    pub key_generator: Option<Box<dyn KeyGenerator>>,
    /// Whether the cached waveform repeats to fill any duration; an
    /// instrument with an envelope should be loopable.
    pub loopable: bool,
    /// The loudness shape of this instrument, if any.
    pub envelope: Option<Box<dyn Envelope>>,
}

/// Entries of `new_keys` under ids that no pair mentions are exactly the
/// entries of `old_keys`.
pub open spec fn keys_untouched(
    old_keys: Map<usize, Key>,
    new_keys: Map<usize, Key>,
    pairs: Seq<(usize, u64)>,
) -> bool {
    forall|id: usize|
        (forall|p: int| 0 <= p < pairs.len() ==> (#[trigger] pairs[p]).0 != id) ==> (
        #[trigger] new_keys.contains_key(id) == old_keys.contains_key(id) && (old_keys.contains_key(
            id,
        ) ==> new_keys[id] == old_keys[id]))
}

/// Every pair resolves through the table and the instrument's generator
/// promises a key for it: the condition under which key generation is
/// sure to succeed.
pub open spec fn generator_succeeds_on_all(
    inst: Instrument,
    pairs: Seq<(usize, u64)>,
    lut: Map<usize, u64>,
    params: PcmParameters,
) -> bool {
    &&& inst.key_generator is Some
    &&& forall|q: int|
        0 <= q < pairs.len() ==> {
            let fid = (#[trigger] pairs[q]).0;
            &&& spec_flut_get(lut, fid) is Ok
            &&& inst.key_generator->Some_0.succeeds_on(
                spec_flut_get(lut, fid)->Ok_0,
                params,
                pairs[q].1,
            )
        }
}

/// The two instruments differ at most in their cached keys: the
/// generator, the envelope and the loopability are the same.
pub open spec fn same_except_keys(old_i: Instrument, new_i: Instrument) -> bool {
    &&& new_i.key_generator == old_i.key_generator
    &&& new_i.envelope == old_i.envelope
    &&& new_i.loopable == old_i.loopable
}

/// The first `upto` pairs have been generated: each pair's frequency id
/// has a cached key at the looked-up frequency with the given parameters.
pub open spec fn pairs_generated(
    pairs: Seq<(usize, u64)>,
    upto: int,
    keys: Map<usize, Key>,
    lut: Map<usize, u64>,
    params: PcmParameters,
) -> bool {
    forall|q: int|
        0 <= q < upto ==> {
            let fid = (#[trigger] pairs[q]).0;
            &&& keys.contains_key(fid)
            &&& spec_flut_get(lut, fid) is Ok
            &&& keys[fid].frequency == spec_flut_get(lut, fid)->Ok_0
            &&& keys[fid].audio.parameters == params
        }
}

impl Instrument {
    /// Every cached key is usable.
    pub open spec fn keys_wf(&self) -> bool {
        forall|id: usize| self.keys@.contains_key(id) ==> (#[trigger] self.keys@[id]).wf()
    }

    /// Returns some cached key: the seed of the pitch-changing fallback.
    /// Fails with `NoDefaultKeyGiven` when the cache is empty.
    pub fn get_any_key(&self) -> (r: Result<&Key, SequencerError>)
        ensures
            match r {
                Ok(k) => exists|id: usize|
                    self.keys@.contains_key(id) && #[trigger] self.keys@[id] == *k,
                Err(e) => e == SequencerError::NoDefaultKeyGiven && self.keys@.len() == 0,
            },
    {
        for kv in it: self.keys.iter()
            invariant
                it.index() == 0,
                it.seq().len() == self.keys@.dom().len(),
        {
            proof {
                let v = vstd::std_specs::hash::spec_hash_map_iter(&self.keys).remaining();
                assert(it.seq() == v);
                assert(kv == v[it.index()]);
                assert(self.keys@.contains_key(*v[it.index()].0));
                assert(self.keys@[*v[it.index()].0] == *v[it.index()].1);
            }
            return Ok(kv.1);
        }
        proof {
            assert(self.keys@.dom().len() == 0);
        }
        Err(SequencerError::NoDefaultKeyGiven)
    }

    /// Generates and caches a key for every `(frequency id, duration)`
    /// pair, resolving frequencies through `f_lut`, using the configured
    /// generator or, failing that, a pitch changer seeded from some cached
    /// key.  The first failure aborts: pairs before it stay cached, the
    /// rest are untouched.
    #[verifier::rlimit(50)]
    pub fn gen_keys(
        &mut self,
        frequency_ids_durations: &Vec<(usize, u64)>,
        f_lut: &FrequencyLookupTable,
        parameters: &PcmParameters,
    ) -> (r: Result<(), SequencerError>)
        requires
            parameters.wf(),
            old(self).keys_wf(),
        ensures
            // Only the key cache changes: generator, envelope and
            // loopability survive the call.
            same_except_keys(*old(self), *final(self)),
            final(self).keys_wf(),
            // Cached entries for other frequency ids are untouched.
            keys_untouched(old(self).keys@, final(self).keys@, frequency_ids_durations@),
            // On success every pair is cached and pinned.
            r is Ok ==> pairs_generated(
                frequency_ids_durations@,
                frequency_ids_durations@.len() as int,
                final(self).keys@,
                f_lut.lut@,
                *parameters,
            ),
            // Without a generator the whole outcome is determined: the seed
            // is fetched first, so an empty cache always fails; with a
            // seed, an empty pair list succeeds, and otherwise the first
            // pair's lookup error, or the pitch changer's refusal, comes
            // back.
            old(self).key_generator is None ==> *final(self) == *old(self) && r == (if old(
                self,
            ).keys@.len() == 0 {
                Err::<(), SequencerError>(SequencerError::NoDefaultKeyGiven)
            } else if frequency_ids_durations@.len() == 0 {
                Ok::<(), SequencerError>(())
            } else {
                Err::<(), SequencerError>(
                    match spec_flut_get(f_lut.lut@, frequency_ids_durations@[0].0) {
                        Err(fe) => fe,
                        Ok(_) => SequencerError::Unsupported,
                    },
                )
            }),
            // With a generator, an empty pair list succeeds, and a first
            // pair that does not resolve returns its lookup error before
            // the generator is consulted.
            old(self).key_generator is Some && frequency_ids_durations@.len() == 0 ==> r is Ok,
            // Where every pair resolves and the generator promises a key
            // for each, generation succeeds.
            generator_succeeds_on_all(
                *old(self),
                frequency_ids_durations@,
                f_lut.lut@,
                *parameters,
            ) ==> r is Ok,
            old(self).key_generator is Some && frequency_ids_durations@.len() > 0
                && spec_flut_get(f_lut.lut@, frequency_ids_durations@[0].0) is Err ==> r
                == Err::<(), SequencerError>(
                spec_flut_get(f_lut.lut@, frequency_ids_durations@[0].0)->Err_0,
            ),
            // A failure on the generator path happens at some pair: every
            // pair before it is cached and pinned, and if that pair's
            // frequency did not resolve, its lookup error is the one
            // returned (otherwise the pair resolved and the generator
            // itself refused).
            old(self).key_generator is Some && r is Err ==> exists|p: int|
                0 <= p < frequency_ids_durations@.len() && #[trigger] pairs_generated(
                    frequency_ids_durations@,
                    p,
                    final(self).keys@,
                    f_lut.lut@,
                    *parameters,
                ) && (spec_flut_get(f_lut.lut@, frequency_ids_durations@[p].0) matches Err(fe)
                    ==> r->Err_0 == fe),
    {
        let ghost pairs = frequency_ids_durations@;
        match &self.key_generator {
            Some(_) => {
                let mut p: usize = 0;
                while p < frequency_ids_durations.len()
                    invariant
                        p <= pairs.len(),
                        pairs == frequency_ids_durations@,
                        parameters.wf(),
                        old(self).keys_wf(),
                        self.keys_wf(),
                        same_except_keys(*old(self), *self),
                        self.key_generator is Some,
                        old(self).key_generator is Some,
                        keys_untouched(old(self).keys@, self.keys@, pairs),
                        pairs_generated(pairs, p as int, self.keys@, f_lut.lut@, *parameters),
                    decreases frequency_ids_durations.len() - p,
                {
                    let fid: usize = frequency_ids_durations[p].0;
                    let dur: u64 = frequency_ids_durations[p].1;
                    let hz: u64 = match f_lut.get(fid) {
                        Ok(v) => v,
                        Err(e) => {
                            return Err(e);
                        },
                    };
                    let g = self.key_generator.as_ref().unwrap();
                    let k: Key = match g.key_gen(hz, parameters, dur) {
                        Ok(k) => k,
                        Err(e) => {
                            return Err(e);
                        },
                    };
                    self.keys.insert(fid, k);
                    p = p + 1;
                }
                Ok(())
            },
            None => {
                let seed: Key = match self.get_any_key() {
                    Ok(k) => k.clone(),
                    Err(e) => {
                        return Err(e);
                    },
                };
                let pitch_changer = KeyPitchChanger { original_key: seed };
                let mut p: usize = 0;
                while p < frequency_ids_durations.len()
                    invariant
                        p <= pairs.len(),
                        pairs == frequency_ids_durations@,
                        parameters.wf(),
                        old(self).keys_wf(),
                        *self == *old(self),
                        old(self).key_generator is None,
                        old(self).keys@.len() > 0,
                        p == 0,
                    decreases frequency_ids_durations.len() - p,
                {
                    let fid: usize = frequency_ids_durations[p].0;
                    let dur: u64 = frequency_ids_durations[p].1;
                    let hz: u64 = match f_lut.get(fid) {
                        Ok(v) => v,
                        Err(e) => {
                            return Err(e);
                        },
                    };
                    let k: Key = match pitch_changer.key_gen(hz, parameters, dur) {
                        Ok(k) => k,
                        Err(e) => {
                            return Err(e);
                        },
                    };
                    self.keys.insert(fid, k);
                    p = p + 1;
                }
                Ok(())
            },
        }
    }

    /// Renders this instrument's cached key for `frequency_id` over
    /// `duration` seconds (as a double-precision pattern): exactly
    /// `trunc(duration * rate)` frames, the cached waveform cycled modulo
    /// its length for a loopable instrument, or played once and held at
    /// its last frame otherwise.  Fails with `ImpossibleTimeOrFrequency`
    /// for an unusable duration, checked first, and with `NoKeyForID` when
    /// no key is cached.
    pub fn gen_sound(&self, frequency_id: usize, duration: u64) -> (r: Result<
        Pcm,
        SequencerError,
    >)
        requires
            self.keys_wf(),
        ensures
            match r {
                Ok(p) => {
                    let key = self.keys@[frequency_id];
                    let needed = spec_seconds_to_frames_trunc(
                        duration,
                        key.audio.parameters.sample_rate,
                        usize::MAX as nat,
                    );
                    &&& f64_is_valid_time_frequency(duration)
                    &&& self.keys@.contains_key(frequency_id)
                    &&& p.parameters == key.audio.parameters
                    &&& p.loop_info == key.audio.loop_info
                    &&& p.frames@.len() == needed
                    &&& forall|i: int|
                        0 <= i < p.frames@.len() ==> (#[trigger] p.frames@[i])@ == sound_frame(
                            key,
                            self.loopable,
                            i,
                        )
                },
                Err(e) => {
                    ||| (!f64_is_valid_time_frequency(duration) && e
                        == SequencerError::ImpossibleTimeOrFrequency(duration))
                    ||| (f64_is_valid_time_frequency(duration) && !self.keys@.contains_key(
                        frequency_id,
                    ) && e == SequencerError::NoKeyForID(frequency_id))
                },
            },
            f64_is_valid_time_frequency(duration) && self.keys@.contains_key(frequency_id) ==> r
                is Ok,
    {
        if !crate::fbits::is_valid_time_frequency(duration) {
            return Err(SequencerError::ImpossibleTimeOrFrequency(duration));
        }
        let key: &Key = match self.keys.get(&frequency_id) {
            Some(k) => k,
            None => {
                return Err(SequencerError::NoKeyForID(frequency_id));
            },
        };
        let needed_frames: usize = crate::sfloat::seconds_to_frames_trunc(
            duration,
            key.audio.parameters.sample_rate,
        );
        let len: usize = key.audio.frames.len();
        let mut final_sound: Vec<Frame> = Vec::new();
        let mut frame_position: usize = 0;
        if self.loopable {
            while frame_position < needed_frames
                invariant
                    frame_position <= needed_frames,
                    len == key.audio.frames@.len(),
                    len >= 1,
                    final_sound@.len() == frame_position,
                    forall|i: int|
                        0 <= i < frame_position ==> (#[trigger] final_sound@[i])@ == sound_frame(
                            *key,
                            true,
                            i,
                        ),
                decreases needed_frames - frame_position,
            {
                final_sound.push(copy_frame(&key.audio.frames[frame_position % len]));
                frame_position = frame_position + 1;
            }
        } else {
            while frame_position < needed_frames
                invariant
                    frame_position <= needed_frames,
                    len == key.audio.frames@.len(),
                    len >= 1,
                    final_sound@.len() == frame_position,
                    forall|i: int|
                        0 <= i < frame_position ==> (#[trigger] final_sound@[i])@ == sound_frame(
                            *key,
                            false,
                            i,
                        ),
                decreases needed_frames - frame_position,
            {
                if frame_position < len {
                    final_sound.push(copy_frame(&key.audio.frames[frame_position]));
                } else {
                    final_sound.push(copy_frame(&key.audio.frames[len - 1]));
                }
                frame_position = frame_position + 1;
            }
        }
        Ok(Pcm {
            parameters: key.audio.parameters,
            loop_info: key.audio.loop_info,
            frames: final_sound,
        })
    }
}

/// The registry of instruments, by instrument id.
pub struct InstrumentTable {
    /// The instruments.
    pub instruments: HashMap<usize, Instrument>,
}

impl InstrumentTable {
    /// Every instrument's key cache is usable.
    pub open spec fn wf(&self) -> bool {
        forall|id: usize|
            self.instruments@.contains_key(id) ==> (#[trigger] self.instruments@[id]).keys_wf()
    }

    /// Looks an instrument up by id; fails with `NoInstrumentForID` when
    /// the id is unassigned.
    pub fn get(&self, id: usize) -> (r: Result<&Instrument, SequencerError>)
        ensures
            match r {
                Ok(i) => self.instruments@.contains_key(id) && *i == self.instruments@[id],
                Err(e) => !self.instruments@.contains_key(id) && e
                    == SequencerError::NoInstrumentForID(id),
            },
    {
        match self.instruments.get(&id) {
            Some(i) => Ok(i),
            None => Err(SequencerError::NoInstrumentForID(id)),
        }
    }
}

} // verus!
