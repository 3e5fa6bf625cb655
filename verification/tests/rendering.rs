//! Key generation, per-note sound, and end-to-end rendering.

use std::collections::HashMap;

use music_sequencer::audio::{Frame, Pcm, PcmParameters, SampleType};
use music_sequencer::error::SequencerError;
use music_sequencer::frequency::FrequencyLookupTable;
use music_sequencer::instrument::{
    Envelope, Instrument, InstrumentTable, Key, KeyGenerator, KeyPitchChanger,
};
use music_sequencer::sequence::{Note, Sequence};
use music_sequencer::tone_generators::SquareWaveGenerator;
use music_sequencer::MusicSequencer;

fn float_params(rate: u32, channels: u16) -> PcmParameters {
    PcmParameters { sample_rate: rate, nb_channels: channels, sample_type: SampleType::Float }
}

fn mono_key(rate: u32, samples: &[f32], frequency: f64) -> Key {
    Key {
        frequency: frequency.to_bits(),
        audio: Pcm {
            parameters: float_params(rate, 1),
            loop_info: None,
            frames: samples.iter().map(|s| Frame { samples: vec![s.to_bits()] }).collect(),
        },
    }
}

fn note(start: f64, end: f64, fid: usize, iid: usize) -> Note {
    Note {
        start_at: start.to_bits(),
        end_at: end.to_bits(),
        duration: (end - start).to_bits(),
        frequency_id: fid,
        on_velocity: 1.0f64.to_bits(),
        off_velocity: 0.5f64.to_bits(),
        instrument_id: iid,
    }
}

fn instrument_with_key(key: Key, loopable: bool) -> Instrument {
    let mut keys: HashMap<usize, Key> = HashMap::new();
    keys.insert(0, key);
    Instrument { keys, key_generator: None, loopable, envelope: None }
}

#[test]
fn gen_sound_loopable_cycles_modulo_length() {
    // A three-frame cache, asked for one second at eight frames per second:
    // frame k of the output is cache frame k mod 3.
    let inst = instrument_with_key(mono_key(8, &[1.0, 2.0, 3.0], 100.0), true);
    let out = inst.gen_sound(0, 1.0f64.to_bits()).unwrap();
    let got: Vec<f32> = out.frames.iter().map(|f| f32::from_bits(f.samples[0])).collect();
    assert_eq!(got, vec![1.0, 2.0, 3.0, 1.0, 2.0, 3.0, 1.0, 2.0]);
}

#[test]
fn gen_sound_non_loopable_holds_last_frame() {
    let inst = instrument_with_key(mono_key(8, &[1.0, 2.0, 3.0], 100.0), false);
    let out = inst.gen_sound(0, 1.0f64.to_bits()).unwrap();
    let got: Vec<f32> = out.frames.iter().map(|f| f32::from_bits(f.samples[0])).collect();
    assert_eq!(got, vec![1.0, 2.0, 3.0, 3.0, 3.0, 3.0, 3.0, 3.0]);
}

#[test]
fn gen_sound_rejects_bad_duration() {
    let inst = instrument_with_key(mono_key(8, &[1.0], 100.0), true);
    for bad in [0.0f64, -1.0, f64::NAN, f64::INFINITY] {
        match inst.gen_sound(0, bad.to_bits()) {
            Err(SequencerError::ImpossibleTimeOrFrequency(_)) => {},
            other => panic!("duration {bad}: expected an impossible-value error, got {other:?}"),
        }
    }
}

#[test]
fn gen_sound_missing_key_fails() {
    let inst = instrument_with_key(mono_key(8, &[1.0], 100.0), true);
    assert!(matches!(
        inst.gen_sound(9, 1.0f64.to_bits()),
        Err(SequencerError::NoKeyForID(9))
    ));
}

#[test]
fn get_any_key_on_empty_cache_fails() {
    let inst = Instrument {
        keys: HashMap::new(),
        key_generator: None,
        loopable: false,
        envelope: None,
    };
    assert!(matches!(inst.get_any_key(), Err(SequencerError::NoDefaultKeyGiven)));
    let with_key = instrument_with_key(mono_key(8, &[1.0], 100.0), false);
    assert!(with_key.get_any_key().is_ok());
}

#[test]
fn pitch_changer_is_unsupported() {
    let pc = KeyPitchChanger { original_key: mono_key(8, &[1.0], 100.0) };
    assert!(matches!(
        pc.key_gen(440.0f64.to_bits(), &float_params(8000, 1), 1.0f64.to_bits()),
        Err(SequencerError::Unsupported)
    ));
}

#[test]
fn square_wave_has_expected_length_and_signs() {
    // One hundredth of a second at 8000 frames per second: 80 frames, each
    // plus or minus one, flipping at each half period of 440 Hz.
    let g = SquareWaveGenerator {};
    let key = g
        .key_gen(440.0f64.to_bits(), &float_params(8000, 1), 0.01f64.to_bits())
        .unwrap();
    assert_eq!(key.audio.frames.len(), 80);
    for (k, f) in key.audio.frames.iter().enumerate() {
        let v = f32::from_bits(f.samples[0]);
        let expect = if 2 * ((440 * k) % 8000) <= 8000 { 1.0 } else { -1.0 };
        assert_eq!(v, expect, "frame {k}");
    }
}

#[test]
fn square_wave_duplicates_channels() {
    let g = SquareWaveGenerator {};
    let key = g
        .key_gen(100.0f64.to_bits(), &float_params(1000, 3), 0.004f64.to_bits())
        .unwrap();
    assert_eq!(key.audio.frames.len(), 4);
    for f in &key.audio.frames {
        assert_eq!(f.samples.len(), 3);
        assert_eq!(f.samples[0], f.samples[1]);
        assert_eq!(f.samples[1], f.samples[2]);
    }
}

#[test]
fn square_wave_rejects_non_float_samples() {
    let g = SquareWaveGenerator {};
    let params = PcmParameters {
        sample_rate: 8000,
        nb_channels: 1,
        sample_type: SampleType::Signed16,
    };
    assert!(matches!(
        g.key_gen(440.0f64.to_bits(), &params, 0.01f64.to_bits()),
        Err(SequencerError::Unsupported)
    ));
}

#[test]
fn square_wave_rejects_bad_duration() {
    let g = SquareWaveGenerator {};
    assert!(matches!(
        g.key_gen(440.0f64.to_bits(), &float_params(8000, 1), f64::NAN.to_bits()),
        Err(SequencerError::ImpossibleTimeOrFrequency(_))
    ));
}

fn sequencer_one_square_note() -> MusicSequencer {
    let mut flut = FrequencyLookupTable::new();
    flut.insert(0, 440.0f64.to_bits());
    let mut sequence = Sequence::new();
    sequence.add_note(note(0.0, 0.01, 0, 0));
    let mut instruments: HashMap<usize, Instrument> = HashMap::new();
    instruments.insert(
        0,
        Instrument {
            keys: HashMap::new(),
            key_generator: Some(Box::new(SquareWaveGenerator {})),
            loopable: true,
            envelope: None,
        },
    );
    MusicSequencer {
        pcm_parameters: float_params(8000, 1),
        sequence,
        instruments: InstrumentTable { instruments },
        frequency_lut: flut,
    }
}

#[test]
fn gen_instrument_keys_caches_square_key() {
    let mut seq = sequencer_one_square_note();
    seq.gen_instrument_keys().unwrap();
    let inst = seq.instruments.get(0).unwrap();
    let key = inst.keys.get(&0).unwrap();
    assert_eq!(f64::from_bits(key.frequency), 440.0);
    assert_eq!(key.audio.parameters.sample_rate, 8000);
    assert!(key.audio.frames.len() >= 1);
}

#[test]
fn gen_instrument_keys_missing_instrument_fails() {
    let mut seq = sequencer_one_square_note();
    seq.instruments.instruments.clear();
    assert!(matches!(
        seq.gen_instrument_keys(),
        Err(SequencerError::NoInstrumentForID(0))
    ));
}

#[test]
fn gen_instrument_keys_missing_frequency_fails() {
    let mut seq = sequencer_one_square_note();
    seq.frequency_lut = FrequencyLookupTable::new();
    assert!(matches!(
        seq.gen_instrument_keys(),
        Err(SequencerError::NoFrequencyForID(0))
    ));
}

#[test]
fn gen_keys_fallback_without_seed_fails() {
    let mut seq = sequencer_one_square_note();
    seq.instruments.instruments.get_mut(&0).unwrap().key_generator = None;
    assert!(matches!(
        seq.gen_instrument_keys(),
        Err(SequencerError::NoDefaultKeyGiven)
    ));
}

#[test]
fn gen_keys_fallback_with_seed_is_unsupported() {
    let mut seq = sequencer_one_square_note();
    {
        let inst = seq.instruments.instruments.get_mut(&0).unwrap();
        inst.key_generator = None;
        inst.keys.insert(5, mono_key(8000, &[1.0], 100.0));
    }
    assert!(matches!(seq.gen_instrument_keys(), Err(SequencerError::Unsupported)));
}

#[test]
fn render_single_square_note_end_to_end() {
    // Rate 8000, one channel, one loopable square instrument, one note at
    // 440 Hz from 0.0 for 0.01 seconds at full velocity: 80 frames, every
    // sample plus or minus one, since the amplitude divisor is one.
    let mut seq = sequencer_one_square_note();
    let out = seq.render().unwrap();
    assert_eq!(out.parameters.sample_rate, 8000);
    assert_eq!(out.parameters.nb_channels, 1);
    assert_eq!(out.frames.len(), 80);
    for (k, f) in out.frames.iter().enumerate() {
        let v = f32::from_bits(f.samples[0]);
        assert!(v == 1.0 || v == -1.0, "frame {k}: {v}");
        let expect = if 2 * ((440 * k) % 8000) <= 8000 { 1.0 } else { -1.0 };
        assert_eq!(v, expect, "frame {k}");
    }
}

#[test]
fn render_two_overlapping_notes_halves_amplitude() {
    // Two fully overlapping notes on different square instruments at full
    // velocity: every output sample is the sum of the two unit waveforms,
    // each scaled by one half, and so never exceeds one in magnitude.
    let mut flut = FrequencyLookupTable::new();
    flut.insert(0, 440.0f64.to_bits());
    flut.insert(1, 200.0f64.to_bits());
    let mut sequence = Sequence::new();
    sequence.add_note(note(0.0, 0.01, 0, 0));
    sequence.add_note(note(0.0, 0.01, 1, 1));
    let mut instruments: HashMap<usize, Instrument> = HashMap::new();
    for iid in 0..2usize {
        instruments.insert(
            iid,
            Instrument {
                keys: HashMap::new(),
                key_generator: Some(Box::new(SquareWaveGenerator {})),
                loopable: true,
                envelope: None,
            },
        );
    }
    let mut seq = MusicSequencer {
        pcm_parameters: float_params(8000, 1),
        sequence,
        instruments: InstrumentTable { instruments },
        frequency_lut: flut,
    };
    let out = seq.render().unwrap();
    assert_eq!(out.frames.len(), 80);
    for (k, f) in out.frames.iter().enumerate() {
        let v = f32::from_bits(f.samples[0]);
        let s0: f32 = if 2 * ((440 * k) % 8000) <= 8000 { 1.0 } else { -1.0 };
        let s1: f32 = if 2 * ((200 * k) % 8000) <= 8000 { 1.0 } else { -1.0 };
        let expect = s0 * 0.5 + s1 * 0.5;
        assert_eq!(v, expect, "frame {k}");
        assert!(v.abs() <= 1.0 + 1.0e-6, "frame {k}: {v}");
    }
}

#[test]
fn render_empty_sequence_gives_empty_buffer() {
    let mut seq = sequencer_one_square_note();
    seq.sequence = Sequence::new();
    let out = seq.render().unwrap();
    assert_eq!(out.frames.len(), 0);
    assert!(out.loop_info.is_none());
}

#[test]
fn render_missing_instrument_fails() {
    let mut seq = sequencer_one_square_note();
    seq.instruments.instruments.clear();
    assert!(matches!(seq.render(), Err(SequencerError::NoInstrumentForID(0))));
}

struct ConstantGenerator {
    value: f32,
}

impl KeyGenerator for ConstantGenerator {
    fn key_gen(
        &self,
        frequency: u64,
        parameters: &PcmParameters,
        _duration: u64,
    ) -> Result<Key, SequencerError> {
        Ok(Key {
            frequency,
            audio: Pcm {
                parameters: *parameters,
                loop_info: None,
                frames: vec![Frame {
                    samples: vec![self.value.to_bits(); parameters.nb_channels as usize],
                }],
            },
        })
    }
}

struct LinearReleaseEnvelope {}

impl Envelope for LinearReleaseEnvelope {
    fn before_during_sustain(&self, _time: u64) -> u64 {
        1.0f64.to_bits()
    }
    fn after_sustain(&self, time: u64) -> u64 {
        let t = f64::from_bits(time);
        (1.0 - t.min(1.0)).to_bits()
    }
}

#[test]
fn user_defined_generator_and_envelope_plug_in() {
    // A caller's own generator and envelope, held by an instrument through
    // the capability traits.
    let mut flut = FrequencyLookupTable::new();
    flut.insert(0, 100.0f64.to_bits());
    let mut sequence = Sequence::new();
    sequence.add_note(note(0.0, 0.5, 0, 0));
    let mut instruments: HashMap<usize, Instrument> = HashMap::new();
    instruments.insert(
        0,
        Instrument {
            keys: HashMap::new(),
            key_generator: Some(Box::new(ConstantGenerator { value: 0.25 })),
            loopable: true,
            envelope: Some(Box::new(LinearReleaseEnvelope {})),
        },
    );
    let mut seq = MusicSequencer {
        pcm_parameters: float_params(10, 1),
        sequence,
        instruments: InstrumentTable { instruments },
        frequency_lut: flut,
    };
    let out = seq.render().unwrap();
    assert_eq!(out.frames.len(), 5);
    for f in &out.frames {
        assert_eq!(f32::from_bits(f.samples[0]), 0.25);
    }
    let inst = seq.instruments.get(0).unwrap();
    let env = inst.envelope.as_ref().unwrap();
    assert_eq!(f64::from_bits(env.before_during_sustain(0.1f64.to_bits())), 1.0);
    assert_eq!(f64::from_bits(env.after_sustain(0.5f64.to_bits())), 0.5);
}

#[test]
fn render_uses_loop_behaviour_of_cached_keys() {
    // A note longer than the generated cycle: the loopable key repeats, so
    // the output keeps alternating to the end of the note.
    let mut flut = FrequencyLookupTable::new();
    flut.insert(0, 250.0f64.to_bits());
    let mut sequence = Sequence::new();
    sequence.add_note(note(0.0, 0.1, 0, 0));
    let mut instruments: HashMap<usize, Instrument> = HashMap::new();
    instruments.insert(
        0,
        Instrument {
            keys: HashMap::new(),
            key_generator: Some(Box::new(SquareWaveGenerator {})),
            loopable: true,
            envelope: None,
        },
    );
    let mut seq = MusicSequencer {
        pcm_parameters: float_params(1000, 2),
        sequence,
        instruments: InstrumentTable { instruments },
        frequency_lut: flut,
    };
    let out = seq.render().unwrap();
    assert_eq!(out.frames.len(), 100);
    for (k, f) in out.frames.iter().enumerate() {
        assert_eq!(f.samples.len(), 2);
        let expect = if 2 * ((250 * k) % 1000) <= 1000 { 1.0 } else { -1.0 };
        assert_eq!(f32::from_bits(f.samples[0]), expect, "frame {k}");
        assert_eq!(f.samples[0], f.samples[1], "frame {k}");
    }
}

#[test]
fn render_scales_by_velocity() {
    let mut seq = sequencer_one_square_note();
    seq.sequence.notes[0].on_velocity = 0.5f64.to_bits();
    let out = seq.render().unwrap();
    assert_eq!(out.frames.len(), 80);
    for f in &out.frames {
        let v = f32::from_bits(f.samples[0]);
        assert!(v == 0.5 || v == -0.5, "{v}");
    }
}

#[test]
fn gen_keys_with_no_pairs_succeeds() {
    let mut inst = Instrument {
        keys: HashMap::new(),
        key_generator: Some(Box::new(SquareWaveGenerator {})),
        loopable: true,
        envelope: None,
    };
    let flut = FrequencyLookupTable::new();
    let pairs: Vec<(usize, u64)> = Vec::new();
    assert!(inst.gen_keys(&pairs, &flut, &float_params(8000, 1)).is_ok());
}

#[test]
fn gen_keys_keeps_pairs_cached_before_a_failure() {
    // Two frequencies: the first resolves and is cached; the second is
    // missing from the table, so its lookup error comes back, and the
    // first key stays.
    let mut inst = Instrument {
        keys: HashMap::new(),
        key_generator: Some(Box::new(SquareWaveGenerator {})),
        loopable: true,
        envelope: None,
    };
    let mut flut = FrequencyLookupTable::new();
    flut.insert(0, 440.0f64.to_bits());
    let pairs: Vec<(usize, u64)> = vec![(0, 0.01f64.to_bits()), (1, 0.01f64.to_bits())];
    assert!(matches!(
        inst.gen_keys(&pairs, &flut, &float_params(8000, 1)),
        Err(SequencerError::NoFrequencyForID(1))
    ));
    assert!(inst.keys.contains_key(&0));
    assert!(!inst.keys.contains_key(&1));
}

#[test]
fn render_propagates_first_lookup_failure() {
    let mut seq = sequencer_one_square_note();
    seq.frequency_lut = FrequencyLookupTable::new();
    assert!(matches!(seq.render(), Err(SequencerError::NoFrequencyForID(0))));
}
