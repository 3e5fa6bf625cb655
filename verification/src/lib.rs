//! A music sequencer: renders a symbolic sequence of timed notes, played by
//! instruments with pluggable tone generators, into one PCM buffer.
//!
//! Every time (seconds) and frequency (Hertz) travels as the bit pattern of
//! its double-precision value, and every sample as the bit pattern of its
//! single-precision value; all arithmetic on them is exact integer
//! arithmetic on those patterns (see `sfloat`), so the whole rendering
//! pipeline is verified, down to each mixed sample.

use vstd::prelude::*;

pub mod audio;
pub mod error;
pub mod fbits;
pub mod frequency;
pub mod instrument;
pub mod sequence;
pub mod sfloat;
pub mod tone_generators;

use crate::audio::{frames_view, zero_frame, Frame, Pcm, PcmParameters, SampleType};
use crate::error::SequencerError;
use crate::frequency::{spec_flut_get, FrequencyLookupTable};
use crate::instrument::{sound_frame, Instrument, InstrumentTable};
use crate::sequence::{
    freq_fold, no_nan_starts, seq_max_end, sorted_by_start, spec_max_notes_at_once,
    InstFreqs, Note, Sequence,
};
use crate::sfloat::{
    spec_amp_for_count, spec_f32_add, spec_f32_mul, spec_f64_to_f32, spec_seconds_to_frames_round,
    spec_seconds_to_frames_trunc,
};

verus! {

broadcast use vstd::std_specs::hash::group_hash_axioms;

/// The parameters every generated key and the output buffer carry: the
/// sequencer's rate and channel count with the one supported sample
/// representation.
pub open spec fn render_key_params(p: PcmParameters) -> PcmParameters {
    PcmParameters {
        sample_rate: p.sample_rate,
        nb_channels: p.nb_channels,
        sample_type: SampleType::Float,
    }
}

/// The count the amplitude divisor is the reciprocal of: the maximum
/// number of notes sounding at once, floored at one so that an empty mix
/// divides by one.
pub open spec fn spec_divisor_count(count: nat) -> u64 {
    if count == 0 {
        1u64
    } else {
        count as u64
    }
}

/// One sample accumulated into the mix: the note's sample, scaled by the
/// amplitude divisor and the note's velocity, added to what the output
/// already holds.  Each step rounds as single-precision arithmetic does.
pub open spec fn mixed_sample(acc: u32, s: u32, amp: u32, vel: u32) -> u32 {
    spec_f32_add(acc, spec_f32_mul(spec_f32_mul(s, amp), vel))
}

/// `total` frames of `channels` zero samples: the freshly allocated output.
pub open spec fn zero_frames(total: nat, channels: nat) -> Seq<Seq<u32>> {
    Seq::new(total, |i: int| Seq::new(channels, |c: int| 0u32))
}

/// The sound one note asks of its instrument: the cached key's waveform,
/// looped or held, over `trunc(duration * rate)` frames at the key's rate.
pub open spec fn spec_note_sound(insts: Map<usize, Instrument>, n: Note) -> Seq<Seq<u32>> {
    let inst = insts[n.instrument_id];
    let key = inst.keys@[n.frequency_id];
    Seq::new(
        spec_seconds_to_frames_trunc(
            n.duration,
            key.audio.parameters.sample_rate,
            usize::MAX as nat,
        ),
        |i: int| sound_frame(key, inst.loopable, i),
    )
}

/// The output after the first `upto` frames of one note's sound have been
/// accumulated at the frame offset `off`; the rest of the output is
/// unchanged.
pub open spec fn mix_note_upto(
    prev: Seq<Seq<u32>>,
    sound: Seq<Seq<u32>>,
    off: int,
    upto: int,
    amp: u32,
    vel: u32,
    channels: nat,
) -> Seq<Seq<u32>> {
    Seq::new(
        prev.len(),
        |t: int|
            if off <= t < off + upto {
                Seq::new(channels, |c: int| mixed_sample(prev[t][c], sound[t - off][c], amp, vel))
            } else {
                prev[t]
            },
    )
}

/// The output after every note has been accumulated, in sequence order,
/// each at the frame offset `round(start * rate)` and scaled by its own
/// velocity.
pub open spec fn mix_all(
    out0: Seq<Seq<u32>>,
    notes: Seq<Note>,
    insts: Map<usize, Instrument>,
    rate: u32,
    amp: u32,
    channels: nat,
) -> Seq<Seq<u32>>
    decreases notes.len(),
{
    if notes.len() == 0 {
        out0
    } else {
        let prev = mix_all(out0, notes.drop_last(), insts, rate, amp, channels);
        let n = notes.last();
        let sound = spec_note_sound(insts, n);
        mix_note_upto(
            prev,
            sound,
            spec_seconds_to_frames_round(n.start_at, rate, usize::MAX as nat) as int,
            sound.len() as int,
            amp,
            spec_f64_to_f32(n.on_velocity),
            channels,
        )
    }
}

/// The note's sound, placed at its rounded start offset, ends within a
/// buffer sized for `music_end`.
pub open spec fn note_fits(n: Note, music_end: u64, rate: u32) -> bool {
    spec_seconds_to_frames_round(n.start_at, rate, usize::MAX as nat)
        + spec_seconds_to_frames_trunc(n.duration, rate, usize::MAX as nat)
        <= spec_seconds_to_frames_trunc(music_end, rate, usize::MAX as nat)
}

/// Every note fits the buffer sized by the sequence's own maximum end.
pub open spec fn notes_fit(notes: Seq<Note>, rate: u32) -> bool {
    forall|i: int| 0 <= i < notes.len() ==> note_fits(#[trigger] notes[i], seq_max_end(notes), rate)
}

/// The first `upto` requirement entries have been generated: each entry's
/// instrument exists and each of its listed frequency ids has a cached key
/// at the looked-up frequency with the given parameters.
pub open spec fn entries_generated(
    fold: InstFreqs,
    upto: int,
    insts: Map<usize, Instrument>,
    lut: Map<usize, u64>,
    params: PcmParameters,
) -> bool {
    forall|e: int|
        0 <= e < upto && e < fold.len() ==> {
            let entry = #[trigger] fold[e];
            &&& insts.contains_key(entry.0)
            &&& forall|q: int|
                0 <= q < entry.1.len() ==> {
                    let fid = (#[trigger] entry.1[q]).0;
                    &&& insts[entry.0].keys@.contains_key(fid)
                    &&& spec_flut_get(lut, fid) is Ok
                    &&& insts[entry.0].keys@[fid].frequency == spec_flut_get(lut, fid)->Ok_0
                    &&& insts[entry.0].keys@[fid].audio.parameters == params
                }
        }
}

/// Every requirement entry has been generated.
pub open spec fn keys_generated(
    fold: InstFreqs,
    insts: Map<usize, Instrument>,
    lut: Map<usize, u64>,
    params: PcmParameters,
) -> bool {
    entries_generated(fold, fold.len() as int, insts, lut, params)
}

/// Instruments that none of the first `upto` requirement entries name keep
/// their entries exactly.
pub open spec fn untouched_beyond(
    fold: InstFreqs,
    upto: int,
    old_insts: Map<usize, Instrument>,
    new_insts: Map<usize, Instrument>,
) -> bool {
    forall|iid: usize|
        (forall|x: int| 0 <= x < upto && x < fold.len() ==> (#[trigger] fold[x]).0 != iid) ==> (
        #[trigger] new_insts.contains_key(iid) == old_insts.contains_key(iid)
            && (old_insts.contains_key(iid) ==> new_insts[iid] == old_insts[iid]))
}

/// The instrument table keeps its shape: the same ids are present, and
/// every instrument keeps its generator, envelope and loopability; only
/// key caches may differ.
pub open spec fn table_preserved(
    old_insts: Map<usize, Instrument>,
    new_insts: Map<usize, Instrument>,
) -> bool {
    &&& forall|iid: usize| #[trigger] new_insts.contains_key(iid) == old_insts.contains_key(iid)
    &&& forall|iid: usize|
        old_insts.contains_key(iid) ==> crate::instrument::same_except_keys(
            #[trigger] old_insts[iid],
            new_insts[iid],
        )
}

/// Every requirement entry's instrument exists and its generator promises
/// a key for each of the entry's resolved pairs: the condition under which
/// the whole key-generation pass is sure to succeed.
pub open spec fn all_generators_succeed(
    fold: InstFreqs,
    insts: Map<usize, Instrument>,
    lut: Map<usize, u64>,
    params: PcmParameters,
) -> bool {
    forall|e: int|
        0 <= e < fold.len() ==> {
            let entry = #[trigger] fold[e];
            &&& insts.contains_key(entry.0)
            &&& crate::instrument::generator_succeeds_on_all(insts[entry.0], entry.1, lut, params)
        }
}

/// Entries whose instruments are unchanged between two tables stay
/// generated.
proof fn lemma_entries_generated_stable(
    fold: InstFreqs,
    upto: int,
    m1: Map<usize, Instrument>,
    m2: Map<usize, Instrument>,
    lut: Map<usize, u64>,
    params: PcmParameters,
)
    requires
        entries_generated(fold, upto, m1, lut, params),
        forall|x: int|
            0 <= x < upto && x < fold.len() ==> m2.contains_key((#[trigger] fold[x]).0)
                && m2[fold[x].0] == m1[fold[x].0],
    ensures
        entries_generated(fold, upto, m2, lut, params),
{
    assert forall|e: int| 0 <= e < upto && e < fold.len() implies {
        let entry = #[trigger] fold[e];
        &&& m2.contains_key(entry.0)
        &&& forall|q: int|
            0 <= q < entry.1.len() ==> {
                let fid = (#[trigger] entry.1[q]).0;
                &&& m2[entry.0].keys@.contains_key(fid)
                &&& spec_flut_get(lut, fid) is Ok
                &&& m2[entry.0].keys@[fid].frequency == spec_flut_get(lut, fid)->Ok_0
                &&& m2[entry.0].keys@[fid].audio.parameters == params
            }
    } by {
        assert(m2[fold[e].0] == m1[fold[e].0]);
    }
}

/// At a failing requirement entry, the earlier entries stay generated in
/// the current table, and every instrument past this entry is untouched:
/// the current table differs from the loop's table at most at this
/// entry's instrument, which is distinct from all others.
proof fn lemma_err_state_witness(
    fold: InstFreqs,
    e: int,
    old_t: Map<usize, Instrument>,
    head_t: Map<usize, Instrument>,
    cur_t: Map<usize, Instrument>,
    lut: Map<usize, u64>,
    params: PcmParameters,
    iid_e: usize,
)
    requires
        0 <= e < fold.len(),
        fold[e].0 == iid_e,
        forall|e1: int, e2: int|
            0 <= e1 < e2 < fold.len() ==> (#[trigger] fold[e1]).0 != (#[trigger] fold[e2]).0,
        entries_generated(fold, e, head_t, lut, params),
        untouched_beyond(fold, e, old_t, head_t),
        forall|iid: usize|
            iid != iid_e ==> #[trigger] cur_t.contains_key(iid) == head_t.contains_key(iid) && (
            head_t.contains_key(iid) ==> cur_t[iid] == head_t[iid]),
    ensures
        entries_generated(fold, e, cur_t, lut, params),
        untouched_beyond(fold, e + 1, old_t, cur_t),
{
    assert forall|x: int|
        0 <= x < e && x < fold.len() implies cur_t.contains_key((#[trigger] fold[x]).0)
        && cur_t[fold[x].0] == head_t[fold[x].0] by {
        assert(fold[x].0 != iid_e);
        assert(head_t.contains_key(fold[x].0));
    }
    lemma_entries_generated_stable(fold, e, head_t, cur_t, lut, params);
    assert forall|iid: usize|
        (forall|x: int|
            0 <= x < e + 1 && x < fold.len() ==> (#[trigger] fold[x]).0 != iid) implies (
    cur_t.contains_key(iid) == old_t.contains_key(iid) && (old_t.contains_key(iid)
        ==> cur_t[iid] == old_t[iid])) by {
        assert(forall|x: int| 0 <= x < e && x < fold.len() ==> (#[trigger] fold[x]).0 != iid);
        assert(fold[e].0 != iid);
        assert(iid != iid_e);
    }
}

/// Excluding more leading entries weakens the untouched claim: it is
/// monotone in the prefix bound.
proof fn lemma_untouched_mono(
    fold: InstFreqs,
    a: int,
    b: int,
    old_t: Map<usize, Instrument>,
    new_t: Map<usize, Instrument>,
)
    requires
        a <= b,
        untouched_beyond(fold, a, old_t, new_t),
    ensures
        untouched_beyond(fold, b, old_t, new_t),
{
    assert forall|iid: usize|
        (forall|x: int| 0 <= x < b && x < fold.len() ==> (#[trigger] fold[x]).0 != iid) implies (
    new_t.contains_key(iid) == old_t.contains_key(iid) && (old_t.contains_key(iid)
        ==> new_t[iid] == old_t[iid])) by {
        assert(forall|x: int| 0 <= x < a && x < fold.len() ==> (#[trigger] fold[x]).0 != iid);
    }
}

/// The first failure that key generation is bound to hit, where one is
/// determined before any generator capability is consulted: the first
/// needed instrument is missing; it has no generator and no cached seed;
/// its first needed frequency does not resolve; or, seeded but without a
/// generator, the pitch-changing fallback refuses.  `None` when there is
/// nothing to do, or when the first entry's outcome rests with its
/// generator.
pub open spec fn first_gen_error(
    fold: InstFreqs,
    insts: Map<usize, Instrument>,
    lut: Map<usize, u64>,
) -> Option<SequencerError> {
    if fold.len() == 0 {
        None
    } else if !insts.contains_key(fold[0].0) {
        Some(SequencerError::NoInstrumentForID(fold[0].0))
    } else if insts[fold[0].0].key_generator is None && insts[fold[0].0].keys@.len() == 0 {
        Some(SequencerError::NoDefaultKeyGiven)
    } else if fold[0].1.len() > 0 && spec_flut_get(lut, fold[0].1[0].0) is Err {
        Some(spec_flut_get(lut, fold[0].1[0].0)->Err_0)
    } else if insts[fold[0].0].key_generator is None && fold[0].1.len() > 0 {
        Some(SequencerError::Unsupported)
    } else {
        None
    }
}

/// The sequencer: render parameters, the music, the instruments, and the
/// frequency table, rendered together into one PCM buffer.
pub struct MusicSequencer {
    /// The rate, channel count and sample representation of the output.
    pub pcm_parameters: PcmParameters,
    /// The music to play.
    pub sequence: Sequence,
    /// The instruments the notes refer to.
    pub instruments: InstrumentTable,
    /// The table resolving the notes' frequency ids to Hertz.
    pub frequency_lut: FrequencyLookupTable,
}

impl MusicSequencer {
    /// Generates every key the sequence needs: for each instrument, in
    /// order of first appearance, the keys for the frequencies its notes
    /// use, sized by the longest duration asked of each.  The first
    /// failure aborts the pass.
    pub fn gen_instrument_keys(&mut self) -> (r: Result<(), SequencerError>)
        requires
            old(self).pcm_parameters.wf(),
            old(self).instruments.wf(),
        ensures
            final(self).pcm_parameters == old(self).pcm_parameters,
            final(self).sequence == old(self).sequence,
            final(self).frequency_lut.lut@ == old(self).frequency_lut.lut@,
            final(self).instruments.wf(),
            r is Ok ==> keys_generated(
                freq_fold(old(self).sequence.notes@),
                final(self).instruments.instruments@,
                old(self).frequency_lut.lut@,
                render_key_params(old(self).pcm_parameters),
            ),
            old(self).sequence.notes@.len() == 0 ==> r is Ok,
            // The failures that are determined before any generator runs
            // come back exactly.
            first_gen_error(
                freq_fold(old(self).sequence.notes@),
                old(self).instruments.instruments@,
                old(self).frequency_lut.lut@,
            ) matches Some(e0) ==> r == Err::<(), SequencerError>(e0),
            // The table keeps its shape: no instrument appears or
            // disappears, and each keeps everything but its key cache.
            table_preserved(
                old(self).instruments.instruments@,
                final(self).instruments.instruments@,
            ),
            // Instruments that no requirement entry names are untouched.
            untouched_beyond(
                freq_fold(old(self).sequence.notes@),
                freq_fold(old(self).sequence.notes@).len() as int,
                old(self).instruments.instruments@,
                final(self).instruments.instruments@,
            ),
            // Where every entry's generator promises its keys, the pass
            // succeeds.
            all_generators_succeed(
                freq_fold(old(self).sequence.notes@),
                old(self).instruments.instruments@,
                old(self).frequency_lut.lut@,
                render_key_params(old(self).pcm_parameters),
            ) ==> r is Ok,
            // A failure leaves some generated prefix of the requirement
            // entries; everything past the failing entry is untouched.
            r is Err ==> exists|x: int|
                0 <= x <= freq_fold(old(self).sequence.notes@).len()
                    && #[trigger] entries_generated(
                    freq_fold(old(self).sequence.notes@),
                    x,
                    final(self).instruments.instruments@,
                    old(self).frequency_lut.lut@,
                    render_key_params(old(self).pcm_parameters),
                ) && untouched_beyond(
                    freq_fold(old(self).sequence.notes@),
                    x + 1,
                    old(self).instruments.instruments@,
                    final(self).instruments.instruments@,
                ),
    {
        let params = PcmParameters {
            nb_channels: self.pcm_parameters.nb_channels,
            sample_rate: self.pcm_parameters.sample_rate,
            sample_type: SampleType::Float,
        };
        let list: Vec<(usize, Vec<(usize, u64)>)> =
            self.sequence.list_frequencies_for_instruments();
        let ghost fold = freq_fold(old(self).sequence.notes@);
        proof {
            crate::sequence::lemma_freq_fold_unique(old(self).sequence.notes@);
            if old(self).sequence.notes@.len() == 0 {
                assert(fold =~= Seq::<(usize, Seq<(usize, u64)>)>::empty());
            }
        }
        let mut e: usize = 0;
        while e < list.len()
            invariant
                e <= list.len(),
                crate::sequence::freq_list_view(list@) == fold,
                fold == freq_fold(old(self).sequence.notes@),
                forall|e1: int, e2: int|
                    0 <= e1 < e2 < fold.len() ==> (#[trigger] fold[e1]).0 != (
                    #[trigger] fold[e2]).0,
                params == render_key_params(old(self).pcm_parameters),
                params.wf(),
                self.pcm_parameters == old(self).pcm_parameters,
                self.sequence == old(self).sequence,
                self.frequency_lut.lut@ == old(self).frequency_lut.lut@,
                self.instruments.wf(),
                forall|x: int|
                    0 <= x < e ==> old(self).instruments.instruments@.contains_key(
                        (#[trigger] fold[x]).0,
                    ),
                untouched_beyond(
                    fold,
                    e as int,
                    old(self).instruments.instruments@,
                    self.instruments.instruments@,
                ),
                table_preserved(
                    old(self).instruments.instruments@,
                    self.instruments.instruments@,
                ),
                e == 0 ==> self.instruments.instruments@ == old(self).instruments.instruments@,
                e >= 1 ==> first_gen_error(
                    fold,
                    old(self).instruments.instruments@,
                    old(self).frequency_lut.lut@,
                ) is None,
                entries_generated(
                    fold,
                    e as int,
                    self.instruments.instruments@,
                    old(self).frequency_lut.lut@,
                    params,
                ),
            decreases list.len() - e,
        {
            let instrument_id: usize = list[e].0;
            let ghost table_at_head = self.instruments.instruments@;
            proof {
                assert(crate::sequence::freq_list_view(list@)[e as int] == (
                    list@[e as int].0,
                    list@[e as int].1@,
                ));
            }
            let mut instrument: Instrument = match self.instruments.instruments.remove(
                &instrument_id,
            ) {
                Some(i) => i,
                None => {
                    proof {
                        assert(forall|x: int|
                            0 <= x < e ==> (#[trigger] fold[x]).0 != instrument_id);
                        lemma_err_state_witness(
                            fold,
                            e as int,
                            old(self).instruments.instruments@,
                            table_at_head,
                            self.instruments.instruments@,
                            old(self).frequency_lut.lut@,
                            params,
                            instrument_id,
                        );
                        assert(entries_generated(
                            fold,
                            e as int,
                            self.instruments.instruments@,
                            old(self).frequency_lut.lut@,
                            render_key_params(old(self).pcm_parameters),
                        ));
                    }
                    return Err(SequencerError::NoInstrumentForID(instrument_id));
                },
            };
            let ghost inst0 = instrument;
            proof {
                // This entry's id differs from every processed one, so the
                // removed instrument is still the original.
                assert(forall|x: int| 0 <= x < e ==> (#[trigger] fold[x]).0 != instrument_id);
                assert(old(self).instruments.instruments@.contains_key(instrument_id));
                assert(inst0 == old(self).instruments.instruments@[instrument_id]);
            }
            let res = instrument.gen_keys(&list[e].1, &self.frequency_lut, &params);
            self.instruments.instruments.insert(instrument_id, instrument);
            proof {
                // On the first entry the pairs are the entry's own list, so
                // the outcome of `gen_keys` settles every determined first
                // failure one way or the other.
                if e == 0 {
                    assert(list@[0].1@ == fold[0].1);
                    assert(self.frequency_lut.lut@ == old(self).frequency_lut.lut@);
                }
            }
            match res {
                Ok(()) => {},
                Err(er) => {
                    proof {
                        lemma_err_state_witness(
                            fold,
                            e as int,
                            old(self).instruments.instruments@,
                            table_at_head,
                            self.instruments.instruments@,
                            old(self).frequency_lut.lut@,
                            params,
                            instrument_id,
                        );
                        assert(entries_generated(
                            fold,
                            e as int,
                            self.instruments.instruments@,
                            old(self).frequency_lut.lut@,
                            render_key_params(old(self).pcm_parameters),
                        ));
                        lemma_untouched_mono(
                            fold,
                            e + 1,
                            fold.len() as int,
                            old(self).instruments.instruments@,
                            self.instruments.instruments@,
                        );
                    }
                    return Err(er);
                },
            }
            e = e + 1;
        }
        Ok(())
    }

    /// Renders the whole sequence into one PCM buffer: generates every
    /// needed key, computes the amplitude divisor from the maximum number
    /// of notes sounding at once (sorting the notes by start time), sizes
    /// the buffer by the music's end, and accumulates every note's sound
    /// at its rounded start offset, scaled by the divisor and the note's
    /// velocity.  The first failure anywhere aborts with no output.
    pub fn render(&mut self) -> (r: Result<Pcm, SequencerError>)
        requires
            old(self).pcm_parameters.wf(),
            old(self).instruments.wf(),
            no_nan_starts(old(self).sequence.notes@),
            notes_fit(old(self).sequence.notes@, old(self).pcm_parameters.sample_rate),
        ensures
            final(self).pcm_parameters == old(self).pcm_parameters,
            final(self).instruments.wf(),
            final(self).frequency_lut.lut@ == old(self).frequency_lut.lut@,
            final(self).sequence.notes@.to_multiset() == old(self).sequence.notes@.to_multiset(),
            final(self).sequence.loop_info == old(self).sequence.loop_info,
            forall|s: u64| #[trigger] crate::sequence::with_start(final(self).sequence.notes@, s)
                == crate::sequence::with_start(old(self).sequence.notes@, s),
            old(self).sequence.notes@.len() == 0 ==> r is Ok,
            // The failures that are determined before any generator runs
            // come back exactly.
            first_gen_error(
                freq_fold(old(self).sequence.notes@),
                old(self).instruments.instruments@,
                old(self).frequency_lut.lut@,
            ) matches Some(e0) ==> r == Err::<Pcm, SequencerError>(e0),
            // Where every requirement entry's generator promises its keys
            // and every note's duration is usable, rendering succeeds.
            all_generators_succeed(
                freq_fold(old(self).sequence.notes@),
                old(self).instruments.instruments@,
                old(self).frequency_lut.lut@,
                render_key_params(old(self).pcm_parameters),
            ) && (forall|i: int|
                0 <= i < old(self).sequence.notes@.len()
                    ==> crate::fbits::f64_is_valid_time_frequency(
                    (#[trigger] old(self).sequence.notes@[i]).duration,
                )) ==> r is Ok,
            // The instrument table keeps its shape, and instruments that no
            // requirement entry names are untouched.
            table_preserved(
                old(self).instruments.instruments@,
                final(self).instruments.instruments@,
            ),
            untouched_beyond(
                freq_fold(old(self).sequence.notes@),
                freq_fold(old(self).sequence.notes@).len() as int,
                old(self).instruments.instruments@,
                final(self).instruments.instruments@,
            ),
            match r {
                Ok(out) => {
                    let notes = final(self).sequence.notes@;
                    let rate = old(self).pcm_parameters.sample_rate;
                    let channels = old(self).pcm_parameters.nb_channels as nat;
                    let total = spec_seconds_to_frames_trunc(
                        seq_max_end(notes),
                        rate,
                        usize::MAX as nat,
                    );
                    let amp = spec_amp_for_count(
                        spec_divisor_count(spec_max_notes_at_once(notes)),
                    );
                    &&& sorted_by_start(notes)
                    &&& keys_generated(
                        freq_fold(old(self).sequence.notes@),
                        final(self).instruments.instruments@,
                        old(self).frequency_lut.lut@,
                        render_key_params(old(self).pcm_parameters),
                    )
                    &&& out.parameters == render_key_params(old(self).pcm_parameters)
                    &&& out.loop_info is None
                    &&& out.frames@.len() == total
                    &&& out.channels_ok()
                    &&& frames_view(out.frames@) == mix_all(
                        zero_frames(total, channels),
                        notes,
                        final(self).instruments.instruments@,
                        rate,
                        amp,
                        channels,
                    )
                },
                Err(e) => true,
            },
    {
        let ghost old_notes = old(self).sequence.notes@;
        match self.gen_instrument_keys() {
            Ok(()) => {},
            Err(e) => {
                proof {
                    let fold = freq_fold(old_notes);
                    let x = choose|x: int|
                        0 <= x <= fold.len() && #[trigger] entries_generated(
                            fold,
                            x,
                            self.instruments.instruments@,
                            old(self).frequency_lut.lut@,
                            render_key_params(old(self).pcm_parameters),
                        ) && untouched_beyond(
                            fold,
                            x + 1,
                            old(self).instruments.instruments@,
                            self.instruments.instruments@,
                        );
                    if x + 1 <= fold.len() {
                        lemma_untouched_mono(
                            fold,
                            x + 1,
                            fold.len() as int,
                            old(self).instruments.instruments@,
                            self.instruments.instruments@,
                        );
                    } else {
                        // Every entry was generated; both bounds cover the
                        // whole fold, so the claims coincide.
                        assert forall|iid: usize|
                            (forall|y: int|
                                0 <= y < fold.len() && y < fold.len() ==> (#[trigger] fold[y]).0
                                    != iid) implies (self.instruments.instruments@.contains_key(
                            iid,
                        ) == old(self).instruments.instruments@.contains_key(iid) && (old(
                            self,
                        ).instruments.instruments@.contains_key(iid)
                            ==> self.instruments.instruments@[iid] == old(
                            self,
                        ).instruments.instruments@[iid])) by {
                            assert(forall|y: int|
                                0 <= y < x + 1 && y < fold.len() ==> (#[trigger] fold[y]).0
                                    != iid);
                        }
                    }
                }
                return Err(e);
            },
        }
        proof {
            // Key generation succeeded, so no determined first failure
            // existed.
            assert(first_gen_error(
                freq_fold(old_notes),
                old(self).instruments.instruments@,
                old(self).frequency_lut.lut@,
            ) is None);
        }
        let max_notes_at_once: usize = self.sequence.calc_max_notes_at_once();
        let divisor_count: u64 = if max_notes_at_once == 0 {
            1
        } else {
            max_notes_at_once as u64
        };
        let amplitude_per_note: u32 = crate::sfloat::amp_for_count(divisor_count);
        let duration: u64 = self.sequence.calc_music_duration();
        let rate: u32 = self.pcm_parameters.sample_rate;
        let channels: u16 = self.pcm_parameters.nb_channels;
        let nb_frames: usize = crate::sfloat::seconds_to_frames_trunc(duration, rate);
        let ghost notes = self.sequence.notes@;
        let ghost insts = self.instruments.instruments@;
        proof {
            crate::sequence::lemma_max_end_permutation(old_notes, notes);
            if old_notes.len() == 0 {
                assert(notes =~= old_notes);
                assert(spec_max_notes_at_once(notes) == 0);
                assert(max_notes_at_once == 0);
            } else {
                assert(max_notes_at_once as nat == spec_max_notes_at_once(notes));
            }
            assert(divisor_count == spec_divisor_count(spec_max_notes_at_once(notes)));
            assert(amplitude_per_note == spec_amp_for_count(
                spec_divisor_count(spec_max_notes_at_once(notes)),
            ));
        }
        // A zero-filled output buffer of one frame slot per channel.
        let mut out_pcm_data: Vec<Frame> = Vec::new();
        let mut z: usize = 0;
        while z < nb_frames
            invariant
                z <= nb_frames,
                first_gen_error(
                    freq_fold(old_notes),
                    old(self).instruments.instruments@,
                    old(self).frequency_lut.lut@,
                ) is None,
                table_preserved(
                    old(self).instruments.instruments@,
                    self.instruments.instruments@,
                ),
                untouched_beyond(
                    freq_fold(old_notes),
                    freq_fold(old_notes).len() as int,
                    old(self).instruments.instruments@,
                    self.instruments.instruments@,
                ),
                old_notes == old(self).sequence.notes@,
                out_pcm_data@.len() == z as int,
                forall|t: int|
                    0 <= t < z as int ==> (#[trigger] out_pcm_data@[t])@ =~= Seq::new(
                        channels as nat,
                        |c: int| 0u32,
                    ),
            decreases nb_frames - z,
        {
            out_pcm_data.push(zero_frame(channels));
            z = z + 1;
        }
        proof {
            assert(frames_view(out_pcm_data@) =~= zero_frames(nb_frames as nat, channels as nat));
            assert(mix_all(
                zero_frames(nb_frames as nat, channels as nat),
                notes.subrange(0, 0),
                insts,
                rate,
                amplitude_per_note,
                channels as nat,
            ) == zero_frames(nb_frames as nat, channels as nat)) by {
                assert(notes.subrange(0, 0) =~= Seq::<Note>::empty());
            }
        }
        let mut i: usize = 0;
        while i < self.sequence.notes.len()
            invariant
                i <= self.sequence.notes.len(),
                self.sequence.notes@ == notes,
                self.instruments.instruments@ == insts,
                self.instruments.wf(),
                self.pcm_parameters == old(self).pcm_parameters,
                rate == old(self).pcm_parameters.sample_rate,
                channels == old(self).pcm_parameters.nb_channels,
                rate >= 1,
                channels >= 1,
                nb_frames == spec_seconds_to_frames_trunc(
                    seq_max_end(notes),
                    rate,
                    usize::MAX as nat,
                ),
                notes.to_multiset() == old_notes.to_multiset(),
                notes.len() == old_notes.len(),
                forall|s: u64| #[trigger] crate::sequence::with_start(notes, s)
                    == crate::sequence::with_start(old_notes, s),
                sorted_by_start(notes),
                self.sequence.loop_info == old(self).sequence.loop_info,
                self.frequency_lut.lut@ == old(self).frequency_lut.lut@,
                old_notes == old(self).sequence.notes@,
                first_gen_error(
                    freq_fold(old_notes),
                    old(self).instruments.instruments@,
                    old(self).frequency_lut.lut@,
                ) is None,
                table_preserved(
                    old(self).instruments.instruments@,
                    self.instruments.instruments@,
                ),
                untouched_beyond(
                    freq_fold(old_notes),
                    freq_fold(old_notes).len() as int,
                    old(self).instruments.instruments@,
                    self.instruments.instruments@,
                ),
                amplitude_per_note == spec_amp_for_count(
                    spec_divisor_count(spec_max_notes_at_once(notes)),
                ),
                notes_fit(old_notes, rate),
                seq_max_end(notes) == seq_max_end(old_notes),
                keys_generated(
                    freq_fold(old_notes),
                    insts,
                    old(self).frequency_lut.lut@,
                    render_key_params(old(self).pcm_parameters),
                ),
                out_pcm_data@.len() == nb_frames,
                forall|t: int|
                    0 <= t < nb_frames ==> (#[trigger] out_pcm_data@[t])@.len() == channels as int,
                frames_view(out_pcm_data@) == mix_all(
                    zero_frames(nb_frames as nat, channels as nat),
                    notes.subrange(0, i as int),
                    insts,
                    rate,
                    amplitude_per_note,
                    channels as nat,
                ),
            decreases self.sequence.notes.len() - i,
        {
            let note: Note = self.sequence.notes[i];
            proof {
                // The note is one of the originals, so it fits the buffer,
                // its instrument exists, and its key was generated at the
                // sequencer's own rate.
                broadcast use vstd::seq_lib::group_to_multiset_ensures;

                assert(notes.contains(note));
                assert(old_notes.to_multiset().count(note) > 0);
                assert(old_notes.contains(note));
                let j = choose|j: int| 0 <= j < old_notes.len() && old_notes[j] == note;
                assert(note_fits(note, seq_max_end(old_notes), rate));
                crate::sequence::lemma_freq_fold_covers(old_notes, j);
                let (fe, fq) = choose|fe: int, fq: int|
                    0 <= fe < freq_fold(old_notes).len() && (#[trigger] freq_fold(old_notes)[fe]).0
                        == note.instrument_id && 0 <= fq < freq_fold(old_notes)[fe].1.len() && (
                    #[trigger] freq_fold(old_notes)[fe].1[fq]).0 == note.frequency_id;
                assert(insts.contains_key(note.instrument_id));
                assert(insts[note.instrument_id].keys@.contains_key(note.frequency_id));
                assert(insts[note.instrument_id].keys@[note.frequency_id].audio.parameters
                    == render_key_params(old(self).pcm_parameters));
            }
            let instrument: &Instrument = match self.instruments.get(note.instrument_id) {
                Ok(inst) => inst,
                Err(e) => {
                    return Err(e);
                },
            };
            let to_add: Pcm = match instrument.gen_sound(note.frequency_id, note.duration) {
                Ok(p) => p,
                Err(e) => {
                    proof {
                        // The key is cached, so only an unusable duration
                        // can have failed here; under the success
                        // hypothesis the duration is usable.
                        let j = choose|j: int| 0 <= j < old_notes.len() && old_notes[j] == note;
                        assert(old_notes[j].duration == note.duration);
                    }
                    return Err(e);
                },
            };
            let frame_id_out_start: usize = crate::sfloat::seconds_to_frames_round(
                note.start_at,
                rate,
            );
            let ghost sound = spec_note_sound(insts, note);
            let ghost vel = spec_f64_to_f32(note.on_velocity);
            let ghost prev_view = frames_view(out_pcm_data@);
            proof {
                assert(to_add.frames@.len() == sound.len());
                assert(forall|t: int|
                    0 <= t < sound.len() ==> (#[trigger] to_add.frames@[t])@ == sound[t]);
                assert(forall|t: int|
                    0 <= t < sound.len() ==> (#[trigger] sound[t]).len() == channels as int);
                assert(frame_id_out_start + to_add.frames@.len() <= nb_frames);
            }
            let vel32: u32 = crate::sfloat::f64_to_f32(note.on_velocity);
            let mut frame_id: usize = 0;
            let mut frame_id_out: usize = frame_id_out_start;
            while frame_id < to_add.frames.len()
                invariant
                    frame_id <= to_add.frames@.len(),
                    frame_id_out == frame_id_out_start + frame_id,
                    frame_id_out_start + to_add.frames@.len() <= nb_frames,
                    out_pcm_data@.len() == nb_frames,
                    channels >= 1,
                    vel32 == vel,
                    sound.len() == to_add.frames@.len(),
                    forall|t: int|
                        0 <= t < sound.len() ==> (#[trigger] to_add.frames@[t])@ == sound[t],
                    forall|t: int|
                        0 <= t < sound.len() ==> (#[trigger] sound[t]).len() == channels as int,
                    prev_view.len() == nb_frames,
                    forall|t: int|
                        0 <= t < nb_frames ==> (#[trigger] prev_view[t]).len() == channels as int,
                    forall|t: int|
                        0 <= t < nb_frames ==> (#[trigger] out_pcm_data@[t])@.len()
                            == channels as int,
                    frames_view(out_pcm_data@) =~= mix_note_upto(
                        prev_view,
                        sound,
                        frame_id_out_start as int,
                        frame_id as int,
                        amplitude_per_note,
                        vel,
                        channels as nat,
                    ),
                decreases to_add.frames@.len() - frame_id,
            {
                let mut new_samples: Vec<u32> = Vec::new();
                let mut sample_id: usize = 0;
                while sample_id < channels as usize
                    invariant
                        sample_id <= channels as usize,
                        frame_id < to_add.frames@.len(),
                        frame_id_out == frame_id_out_start + frame_id,
                        frame_id_out < out_pcm_data@.len(),
                        vel32 == vel,
                        sound.len() == to_add.frames@.len(),
                        forall|t: int|
                            0 <= t < sound.len() ==> (#[trigger] to_add.frames@[t])@ == sound[t],
                        (#[trigger] sound[frame_id as int]).len() == channels as int,
                        out_pcm_data@[frame_id_out as int]@.len() == channels as int,
                        new_samples@.len() == sample_id as int,
                        forall|c: int|
                            0 <= c < sample_id as int ==> #[trigger] new_samples@[c]
                                == mixed_sample(
                                out_pcm_data@[frame_id_out as int]@[c],
                                sound[frame_id as int][c],
                                amplitude_per_note,
                                vel,
                            ),
                    decreases channels as usize - sample_id,
                {
                    let s1: u32 = out_pcm_data[frame_id_out].samples[sample_id];
                    let s2: u32 = to_add.frames[frame_id].samples[sample_id];
                    let mixed: u32 = crate::sfloat::f32_add(
                        s1,
                        crate::sfloat::f32_mul(
                            crate::sfloat::f32_mul(s2, amplitude_per_note),
                            vel32,
                        ),
                    );
                    new_samples.push(mixed);
                    sample_id = sample_id + 1;
                }
                let ghost before = out_pcm_data@;
                out_pcm_data.set(frame_id_out, Frame { samples: new_samples });
                proof {
                    assert(frames_view(out_pcm_data@) =~= mix_note_upto(
                        prev_view,
                        sound,
                        frame_id_out_start as int,
                        frame_id + 1,
                        amplitude_per_note,
                        vel,
                        channels as nat,
                    )) by {
                        let after = frames_view(out_pcm_data@);
                        let want = mix_note_upto(
                            prev_view,
                            sound,
                            frame_id_out_start as int,
                            frame_id + 1,
                            amplitude_per_note,
                            vel,
                            channels as nat,
                        );
                        let was = mix_note_upto(
                            prev_view,
                            sound,
                            frame_id_out_start as int,
                            frame_id as int,
                            amplitude_per_note,
                            vel,
                            channels as nat,
                        );
                        assert(frames_view(before) =~= was);
                        assert forall|t: int| 0 <= t < after.len() implies after[t] =~= want[t] by {
                            if t == frame_id_out as int {
                                assert(after[t] =~= new_samples@);
                                assert(was[t] == prev_view[t]);
                            } else {
                                assert(after[t] == frames_view(before)[t]);
                            }
                        }
                    }
                }
                frame_id = frame_id + 1;
                frame_id_out = frame_id_out + 1;
            }
            proof {
                let sub = notes.subrange(0, i + 1);
                assert(sub.drop_last() =~= notes.subrange(0, i as int));
                assert(sub.last() == notes[i as int]);
                assert(mix_note_upto(
                    prev_view,
                    sound,
                    frame_id_out_start as int,
                    sound.len() as int,
                    amplitude_per_note,
                    vel,
                    channels as nat,
                ) == mix_all(
                    zero_frames(nb_frames as nat, channels as nat),
                    sub,
                    insts,
                    rate,
                    amplitude_per_note,
                    channels as nat,
                ));
            }
            i = i + 1;
        }
        proof {
            assert(notes.subrange(0, notes.len() as int) =~= notes);
        }
        Ok(
            Pcm {
                parameters: PcmParameters {
                    nb_channels: channels,
                    sample_rate: rate,
                    sample_type: SampleType::Float,
                },
                loop_info: None,
                frames: out_pcm_data,
            },
        )
    }
}

} // verus!
