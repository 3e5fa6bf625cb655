//! The sequence analysis: concurrency, duration, requirements, sorting.

use music_sequencer::error::SequencerError;
use music_sequencer::frequency::FrequencyLookupTable;
use music_sequencer::sequence::{LoopInfo, Note, Sequence};

fn note(start: f64, end: f64, fid: usize, iid: usize) -> Note {
    Note {
        start_at: start.to_bits(),
        end_at: end.to_bits(),
        duration: (end - start).to_bits(),
        frequency_id: fid,
        on_velocity: 1.0f64.to_bits(),
        off_velocity: 0.5f64.to_bits(),
        instrument_id: iid,
    }
}

#[test]
fn max_notes_empty_sequence_is_zero() {
    let mut s = Sequence::new();
    assert_eq!(s.calc_max_notes_at_once(), 0);
}

#[test]
fn max_notes_nonempty_is_at_least_one() {
    let mut s = Sequence::new();
    s.add_note(note(0.0, 1.0, 0, 0));
    assert_eq!(s.calc_max_notes_at_once(), 1);
}

#[test]
fn max_notes_disjoint_notes_is_one() {
    let mut s = Sequence::new();
    s.add_note(note(2.0, 3.0, 0, 0));
    s.add_note(note(0.0, 1.0, 1, 0));
    s.add_note(note(1.0, 2.0, 2, 0));
    assert_eq!(s.calc_max_notes_at_once(), 1);
}

#[test]
fn max_notes_identical_notes_counts_all() {
    let mut s = Sequence::new();
    for fid in 0..4 {
        s.add_note(note(1.0, 2.0, fid, 0));
    }
    assert_eq!(s.calc_max_notes_at_once(), 4);
}

#[test]
fn max_notes_partial_overlap() {
    let mut s = Sequence::new();
    s.add_note(note(0.0, 2.0, 0, 0));
    s.add_note(note(1.0, 3.0, 1, 0));
    s.add_note(note(2.5, 4.0, 2, 0));
    assert_eq!(s.calc_max_notes_at_once(), 2);
}

#[test]
fn music_duration_is_max_end() {
    let mut s = Sequence::new();
    assert_eq!(s.calc_music_duration(), 0.0f64.to_bits());
    s.add_note(note(0.0, 1.5, 0, 0));
    s.add_note(note(2.0, 7.25, 1, 0));
    s.add_note(note(3.0, 4.0, 2, 0));
    assert_eq!(f64::from_bits(s.calc_music_duration()), 7.25);
}

#[test]
fn sort_by_time_orders_starts() {
    let mut s = Sequence::new();
    s.add_note(note(3.0, 4.0, 0, 0));
    s.add_note(note(1.0, 2.0, 1, 0));
    s.add_note(note(2.0, 3.0, 2, 0));
    s.add_note(note(0.5, 1.0, 3, 0));
    s.sort_by_time();
    let starts: Vec<f64> = s.notes.iter().map(|n| f64::from_bits(n.start_at)).collect();
    assert_eq!(starts, vec![0.5, 1.0, 2.0, 3.0]);
}

#[test]
fn merge_other_moves_notes() {
    let mut a = Sequence::new();
    a.add_note(note(0.0, 1.0, 0, 0));
    let mut b = Sequence::new();
    b.add_note(note(1.0, 2.0, 1, 0));
    b.add_note(note(2.0, 3.0, 2, 0));
    a.merge_other(&mut b);
    assert_eq!(a.notes.len(), 3);
    assert_eq!(b.notes.len(), 0);
}

#[test]
fn list_frequencies_groups_and_keeps_longest() {
    let mut s = Sequence::new();
    s.add_note(note(0.0, 1.0, 7, 2));
    s.add_note(note(1.0, 4.0, 7, 2));
    s.add_note(note(0.0, 2.0, 8, 2));
    s.add_note(note(0.0, 0.5, 9, 5));
    let list = s.list_frequencies_for_instruments();
    assert_eq!(list.len(), 2);
    assert_eq!(list[0].0, 2);
    assert_eq!(list[0].1.len(), 2);
    assert_eq!(list[0].1[0].0, 7);
    assert_eq!(f64::from_bits(list[0].1[0].1), 3.0);
    assert_eq!(list[0].1[1].0, 8);
    assert_eq!(f64::from_bits(list[0].1[1].1), 2.0);
    assert_eq!(list[1].0, 5);
    assert_eq!(list[1].1.len(), 1);
    assert_eq!(list[1].1[0].0, 9);
    assert_eq!(f64::from_bits(list[1].1[0].1), 0.5);
}

#[test]
fn flut_get_returns_stored_frequency() {
    let mut flut = FrequencyLookupTable::new();
    flut.insert(0, 440.0f64.to_bits());
    assert_eq!(flut.get(0), Ok(440.0f64.to_bits()));
}

#[test]
fn flut_get_missing_id_fails() {
    let flut = FrequencyLookupTable::new();
    assert_eq!(flut.get(3), Err(SequencerError::NoFrequencyForID(3)));
}

#[test]
fn flut_get_rejects_unusable_values() {
    let mut flut = FrequencyLookupTable::new();
    flut.insert(0, 0.0f64.to_bits());
    flut.insert(1, f64::NAN.to_bits());
    flut.insert(2, f64::INFINITY.to_bits());
    flut.insert(3, (-440.0f64).to_bits());
    for id in 0..4usize {
        match flut.get(id) {
            Err(SequencerError::ImpossibleTimeOrFrequency(_)) => {},
            other => panic!("id {id}: expected an impossible-value error, got {other:?}"),
        }
    }
}

#[test]
fn loop_info_converts_to_frames() {
    let li = LoopInfo { loop_start: 1.5f64.to_bits(), loop_end: 2.0f64.to_bits() };
    let p = li.to_pcm_loop_info(1000);
    assert_eq!(p.loop_start, 1500);
    assert_eq!(p.loop_end, 2000);
}

#[test]
fn error_descriptions_are_nonempty() {
    let errors = vec![
        SequencerError::NoDefaultKeyGiven,
        SequencerError::ImpossibleTimeOrFrequency(0),
        SequencerError::NoFrequencyForID(1),
        SequencerError::NoInstrumentForID(2),
        SequencerError::NoKeyForID(3),
        SequencerError::Unsupported,
    ];
    for e in errors {
        assert!(!e.description().is_empty(), "{e:?}");
    }
}

#[test]
fn sort_by_time_is_stable_for_equal_starts() {
    let mut s = Sequence::new();
    s.add_note(note(1.0, 2.0, 10, 0));
    s.add_note(note(0.0, 1.0, 11, 0));
    s.add_note(note(1.0, 3.0, 12, 0));
    s.add_note(note(1.0, 4.0, 13, 0));
    s.sort_by_time();
    let fids: Vec<usize> = s.notes.iter().map(|n| n.frequency_id).collect();
    assert_eq!(fids, vec![11, 10, 12, 13]);
}

#[test]
fn default_sequence_and_table_are_empty() {
    let s = Sequence::default();
    assert!(s.notes.is_empty());
    assert!(s.loop_info.is_none());
    let f = FrequencyLookupTable::default();
    assert!(f.lut.is_empty());
}

#[test]
fn max_notes_ignores_nan_ends() {
    // A NaN end never contains any start, so such a note overlaps nothing.
    let mut s = Sequence::new();
    let mut broken = note(0.0, 1.0, 0, 0);
    broken.end_at = f64::NAN.to_bits();
    s.add_note(broken);
    s.add_note(note(0.5, 1.5, 1, 0));
    assert_eq!(s.calc_max_notes_at_once(), 1);
}
