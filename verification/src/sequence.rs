//! Notes, loop regions, and the sequence with its scheduling analysis.

use vstd::prelude::*;
use vstd::seq_lib::lemma_multiset_commutative;
use vstd::multiset::Multiset;
use crate::audio::PcmLoopInfo;
use crate::fbits::{f64_gt, f64_is_nan, f64_le, f64_lt, F64_ZERO_BITS};
use crate::sfloat::{seconds_to_frames_trunc_u64, spec_seconds_to_frames_trunc};

verus! {

/// One sounding event.  Times are seconds and the velocities are plain
/// numbers, each carried as the bit pattern of its double-precision value.
/// In a well-formed sequence `end_at == start_at + duration` and the
/// duration is positive; the analysis below states exactly what it needs
/// of each field.
#[derive(Clone, Copy, Debug, PartialEq, Eq, Structural)]
pub struct Note {
    /// When the note starts, in seconds.
    pub start_at: u64,
    /// When the note stops, in seconds.
    pub end_at: u64,
    /// How long the note sounds, in seconds.
    pub duration: u64,
    /// The key of the frequency lookup table giving this note's pitch.
    pub frequency_id: usize,
    /// How hard the key is pressed, intended range zero to one.
    pub on_velocity: u64,
    /// How fast the key is released, intended range zero to one.
    pub off_velocity: u64,
    /// The instrument that plays this note.
    pub instrument_id: usize,
}

/// A loop region, in seconds.
#[derive(Clone, Copy, Debug, PartialEq, Eq, Structural)]
pub struct LoopInfo {
    /// Where the loop starts, in seconds.
    pub loop_start: u64,
    /// Where the loop ends, in seconds.
    pub loop_end: u64,
}

impl LoopInfo {
    /// Converts the region to frame counts at `sample_rate`, truncating,
    /// saturating as an `as` cast does.
    pub fn to_pcm_loop_info(&self, sample_rate: u32) -> (r: PcmLoopInfo)
        ensures
            r.loop_start == spec_seconds_to_frames_trunc(
                self.loop_start,
                sample_rate,
                u64::MAX as nat,
            ),
            r.loop_end == spec_seconds_to_frames_trunc(self.loop_end, sample_rate, u64::MAX as nat),
    {
        PcmLoopInfo {
            loop_start: seconds_to_frames_trunc_u64(self.loop_start, sample_rate),
            loop_end: seconds_to_frames_trunc_u64(self.loop_end, sample_rate),
        }
    }
}

/// The musical material: notes, and optional loop regions that are carried
/// for a downstream player but never consulted while rendering.
#[derive(Clone, Debug)]
pub struct Sequence {
    /// The notes, in any order; the analysis sorts them when it needs to.
    pub notes: Vec<Note>,
    /// Optional loop regions.
    pub loop_info: Option<Vec<LoopInfo>>,
}

/// The running maximum of `end_at` over the notes, folded left under the
/// IEEE `>` of the patterns from a starting value of zero: what sizes the
/// output buffer.  A NaN end never wins the comparison, as in IEEE.
pub open spec fn seq_max_end(notes: Seq<Note>) -> u64
    decreases notes.len(),
{
    if notes.len() == 0 {
        F64_ZERO_BITS
    } else {
        let prev = seq_max_end(notes.drop_last());
        if f64_gt(notes.last().end_at, prev) {
            notes.last().end_at
        } else {
            prev
        }
    }
}

/// The zero pattern is not a NaN and its key is zero.
proof fn lemma_zero_pattern_facts()
    ensures
        !crate::fbits::f64_is_nan(F64_ZERO_BITS),
        crate::fbits::f64_key(F64_ZERO_BITS) == 0,
{
    assert(0u64 & 0x7FF0_0000_0000_0000u64 == 0 && 0u64 & 0x000F_FFFF_FFFF_FFFFu64 == 0
        && 0u64 & 0x8000_0000_0000_0000u64 == 0 && 0u64 & 0x7FFF_FFFF_FFFF_FFFFu64 == 0)
        by (bit_vector);
}

/// No comparison beats the folded maximum: it dominates every end time.
/// The maximum itself is never a NaN and never negative: it is the zero
/// pattern, or an end time with a strictly positive key.
pub proof fn lemma_max_end_dominates(notes: Seq<Note>)
    ensures
        forall|i: int| 0 <= i < notes.len() ==> !f64_gt(notes[i].end_at, seq_max_end(notes)),
        !crate::fbits::f64_is_nan(seq_max_end(notes)),
        crate::fbits::f64_key(seq_max_end(notes)) >= 0,
        seq_max_end(notes) == F64_ZERO_BITS || (crate::fbits::f64_key(seq_max_end(notes)) > 0
            && exists|i: int| 0 <= i < notes.len() && notes[i].end_at == seq_max_end(notes)),
    decreases notes.len(),
{
    lemma_zero_pattern_facts();
    if notes.len() > 0 {
        lemma_max_end_dominates(notes.drop_last());
        let prev = seq_max_end(notes.drop_last());
        let m = seq_max_end(notes);
        assert(forall|i: int| 0 <= i < notes.len() - 1 ==> notes.drop_last()[i] == notes[i]);
        assert(forall|i: int| 0 <= i < notes.len() - 1 ==> !f64_gt(notes[i].end_at, prev));
        if f64_gt(notes.last().end_at, prev) {
            assert(m == notes.last().end_at);
            assert(exists|i: int| 0 <= i < notes.len() && notes[i].end_at == m) by {
                assert(notes[notes.len() - 1].end_at == m);
            }
        } else {
            if prev != F64_ZERO_BITS {
                let i = choose|i: int|
                    0 <= i < notes.len() - 1 && notes.drop_last()[i].end_at == prev;
                assert(notes[i].end_at == prev);
            }
        }
    }
}

/// The folded maximum depends only on which notes are present, not on
/// their order: two sequences with equal multisets have equal maxima.
pub proof fn lemma_max_end_permutation(s1: Seq<Note>, s2: Seq<Note>)
    requires
        s1.to_multiset() == s2.to_multiset(),
    ensures
        seq_max_end(s1) == seq_max_end(s2),
{
    broadcast use vstd::seq_lib::group_to_multiset_ensures;

    lemma_max_end_dominates(s1);
    lemma_max_end_dominates(s2);
    let m1 = seq_max_end(s1);
    let m2 = seq_max_end(s2);
    if m1 != m2 {
        // Each maximum, unless it is the zero pattern, is the end of a
        // note present in both sequences, so each dominates the other.
        lemma_zero_pattern_facts();
        if m1 != F64_ZERO_BITS {
            let i = choose|i: int| 0 <= i < s1.len() && s1[i].end_at == m1;
            assert(s1.contains(s1[i]));
            assert(s1.to_multiset().count(s1[i]) > 0);
            assert(s2.to_multiset().count(s1[i]) > 0);
            assert(s2.contains(s1[i]));
            let j = choose|j: int| 0 <= j < s2.len() && s2[j] == s1[i];
            assert(!f64_gt(s2[j].end_at, m2));
            assert(crate::fbits::f64_key(m1) <= crate::fbits::f64_key(m2));
        }
        if m2 != F64_ZERO_BITS {
            let i = choose|i: int| 0 <= i < s2.len() && s2[i].end_at == m2;
            assert(s2.contains(s2[i]));
            assert(s2.to_multiset().count(s2[i]) > 0);
            assert(s1.to_multiset().count(s2[i]) > 0);
            assert(s1.contains(s2[i]));
            let j = choose|j: int| 0 <= j < s1.len() && s1[j] == s2[i];
            assert(!f64_gt(s1[j].end_at, m1));
            assert(crate::fbits::f64_key(m2) <= crate::fbits::f64_key(m1));
        }
        assert(crate::fbits::f64_key(m1) == crate::fbits::f64_key(m2));
        // Equal positive keys force equal patterns: the sign bit is clear
        // and the key is the magnitude.
        assert(crate::fbits::f64_key(m1) > 0 && crate::fbits::f64_key(m2) > 0);
        assert(m1 & 0x8000_0000_0000_0000u64 == 0 || m1 & 0x8000_0000_0000_0000u64
            == 0x8000_0000_0000_0000u64) by (bit_vector);
        assert(m2 & 0x8000_0000_0000_0000u64 == 0 || m2 & 0x8000_0000_0000_0000u64
            == 0x8000_0000_0000_0000u64) by (bit_vector);
        assert(m1 & crate::fbits::F64_SIGN_MASK == 0);
        assert(m2 & crate::fbits::F64_SIGN_MASK == 0);
        assert(m1 & crate::fbits::F64_MAG_MASK == m2 & crate::fbits::F64_MAG_MASK);
        assert(m1 & 0x8000_0000_0000_0000u64 == 0 && m2 & 0x8000_0000_0000_0000u64 == 0 && m1
            & 0x7FFF_FFFF_FFFF_FFFFu64 == m2 & 0x7FFF_FFFF_FFFF_FFFFu64 ==> m1 == m2)
            by (bit_vector);
        assert(false);
    }
}

/// The notes are sorted by start time, under the IEEE order of the
/// patterns.
pub open spec fn sorted_by_start(notes: Seq<Note>) -> bool {
    forall|i: int, j: int|
        0 <= i < j < notes.len() ==> f64_le(#[trigger] notes[i].start_at, #[trigger] notes[j].start_at)
}

/// No start time is a NaN: what sorting demands of its input.
pub open spec fn no_nan_starts(notes: Seq<Note>) -> bool {
    forall|i: int| 0 <= i < notes.len() ==> !f64_is_nan(#[trigger] notes[i].start_at)
}

/// Inserting an element anywhere adds exactly it to the multiset.
proof fn lemma_insert_to_multiset(s: Seq<Note>, pos: int, x: Note)
    requires
        0 <= pos <= s.len(),
    ensures
        s.insert(pos, x).to_multiset() =~= s.to_multiset().insert(x),
{
    broadcast use vstd::multiset::group_multiset_axioms;

    let a = s.subrange(0, pos);
    let b = s.subrange(pos, s.len() as int);
    assert(s.insert(pos, x) =~= a + (seq![x] + b));
    lemma_multiset_commutative(a, seq![x] + b);
    lemma_multiset_commutative(seq![x], b);
    lemma_multiset_commutative(a, b);
    assert(a + b =~= s);
    assert(seq![x].to_multiset() =~= Multiset::empty().insert(x)) by {
        broadcast use vstd::seq_lib::group_to_multiset_ensures;

        assert(seq![x] =~= Seq::<Note>::empty().push(x));
        assert(Seq::<Note>::empty().to_multiset().len() == 0);
        assert(Seq::<Note>::empty().to_multiset() =~= Multiset::<Note>::empty());
    }
}

/// The notes of the sequence that share the start time `s`, in sequence
/// order: the subsequences a stable sort must leave unchanged.
pub open spec fn with_start(notes: Seq<Note>, s: u64) -> Seq<Note> {
    notes.filter(|n: Note| n.start_at == s)
}

proof fn lemma_with_start_push(notes: Seq<Note>, x: Note, s: u64)
    ensures
        with_start(notes.push(x), s) == if x.start_at == s {
            with_start(notes, s).push(x)
        } else {
            with_start(notes, s)
        },
{
    reveal(Seq::filter);
    assert(notes.push(x).drop_last() =~= notes);
    assert(notes.push(x).last() == x);
}

proof fn lemma_with_start_insert(notes: Seq<Note>, pos: int, x: Note, s: u64)
    requires
        0 <= pos <= notes.len(),
        x.start_at == s ==> forall|k: int|
            pos <= k < notes.len() ==> (#[trigger] notes[k]).start_at != s,
    ensures
        with_start(notes.insert(pos, x), s) == if x.start_at == s {
            with_start(notes, s).push(x)
        } else {
            with_start(notes, s)
        },
{
    reveal(Seq::filter);
    broadcast use vstd::seq_lib::group_filter_ensures;

    let p = |n: Note| n.start_at == s;
    let a = notes.subrange(0, pos);
    let b = notes.subrange(pos, notes.len() as int);
    assert(notes.insert(pos, x) =~= a + (seq![x] + b));
    Seq::filter_distributes_over_add(a, seq![x] + b, p);
    Seq::filter_distributes_over_add(seq![x], b, p);
    Seq::filter_distributes_over_add(a, b, p);
    assert(a + b =~= notes);
    assert(seq![x].drop_last() =~= Seq::<Note>::empty());
    assert(Seq::<Note>::empty().filter(p) == Seq::<Note>::empty());
    assert(seq![x].last() == x);
    assert(seq![x].filter(p) =~= if p(x) {
        Seq::<Note>::empty().push(x)
    } else {
        Seq::<Note>::empty()
    });
    if x.start_at == s {
        // Nothing at or after the insertion point carries the start `s`.
        assert(b.filter(p) =~= Seq::<Note>::empty()) by {
            lemma_filter_none(b, p);
        }
        assert(with_start(notes.insert(pos, x), s) =~= a.filter(p).push(x));
        assert(with_start(notes, s) =~= a.filter(p));
    } else {
        assert(with_start(notes.insert(pos, x), s) =~= a.filter(p) + b.filter(p));
        assert(with_start(notes, s) =~= a.filter(p) + b.filter(p));
    }
}

proof fn lemma_filter_none(b: Seq<Note>, p: spec_fn(Note) -> bool)
    requires
        forall|k: int| 0 <= k < b.len() ==> !p(#[trigger] b[k]),
    ensures
        b.filter(p) == Seq::<Note>::empty(),
    decreases b.len(),
{
    reveal(Seq::filter);
    if b.len() > 0 {
        lemma_filter_none(b.drop_last(), p);
    }
}

impl Default for Sequence {
    /// An empty sequence.
    fn default() -> (r: Sequence)
        ensures
            r.notes@ == Seq::<Note>::empty(),
            r.loop_info is None,
    {
        Sequence::new()
    }
}

impl Sequence {
    /// Creates an empty sequence.
    pub fn new() -> (r: Sequence)
        ensures
            r.notes@ == Seq::<Note>::empty(),
            r.loop_info is None,
    {
        Sequence { loop_info: None, notes: Vec::new() }
    }

    /// Appends one note.
    pub fn add_note(&mut self, new: Note)
        ensures
            final(self).notes@ == old(self).notes@.push(new),
            final(self).loop_info == old(self).loop_info,
    {
        self.notes.push(new);
    }

    /// Moves every note of `other` to the end of this sequence, leaving
    /// `other` without notes.
    pub fn merge_other(&mut self, other: &mut Sequence)
        ensures
            final(self).notes@ == old(self).notes@ + old(other).notes@,
            final(self).loop_info == old(self).loop_info,
            final(other).notes@ == Seq::<Note>::empty(),
            final(other).loop_info == old(other).loop_info,
    {
        self.notes.append(&mut other.notes);
    }

    /// The time at which the music ends: the maximum `end_at` over the
    /// notes, zero for an empty sequence.  The fold starts from zero, so
    /// the result never falls below it: a sequence whose every end time is
    /// negative still reports zero, as sizing an output buffer demands.
    pub fn calc_music_duration(&self) -> (r: u64)
        ensures
            r == seq_max_end(self.notes@),
            self.notes@.len() == 0 ==> r == F64_ZERO_BITS,
            // The zero floor, stated openly: the result is never a NaN and
            // never negative.
            !f64_is_nan(r),
            crate::fbits::f64_key(r) >= 0,
    {
        let mut duration: u64 = F64_ZERO_BITS;
        let mut i: usize = 0;
        while i < self.notes.len()
            invariant
                i <= self.notes.len(),
                duration == seq_max_end(self.notes@.subrange(0, i as int)),
            decreases self.notes.len() - i,
        {
            proof {
                let sub = self.notes@.subrange(0, i + 1);
                assert(sub.drop_last() =~= self.notes@.subrange(0, i as int));
                assert(sub.last() == self.notes@[i as int]);
            }
            if crate::fbits::gt_bits(self.notes[i].end_at, duration) {
                duration = self.notes[i].end_at;
            }
            i = i + 1;
        }
        proof {
            assert(self.notes@.subrange(0, self.notes@.len() as int) =~= self.notes@);
            lemma_max_end_dominates(self.notes@);
        }
        duration
    }

    /// Stable-sorts the notes ascending by start time.  Callers must keep
    /// NaN start times out of the sequence; the order of the patterns is
    /// then the order of the values.
    pub fn sort_by_time(&mut self)
        requires
            no_nan_starts(old(self).notes@),
        ensures
            sorted_by_start(final(self).notes@),
            final(self).notes@.to_multiset() == old(self).notes@.to_multiset(),
            final(self).notes@.len() == old(self).notes@.len(),
            final(self).loop_info == old(self).loop_info,
            no_nan_starts(final(self).notes@),
            // Stability: the notes sharing any one start time keep their
            // relative order.
            forall|s: u64| #[trigger] with_start(final(self).notes@, s) == with_start(
                old(self).notes@,
                s,
            ),
    {
        let ghost orig = self.notes@;
        let mut sorted_notes: Vec<Note> = Vec::new();
        proof {
            assert(orig.subrange(0, 0) =~= sorted_notes@);
        }
        let mut i: usize = 0;
        while i < self.notes.len()
            invariant
                i <= self.notes.len(),
                self.notes@ == orig,
                no_nan_starts(orig),
                sorted_by_start(sorted_notes@),
                no_nan_starts(sorted_notes@),
                sorted_notes@.len() == i as int,
                sorted_notes@.to_multiset() == orig.subrange(0, i as int).to_multiset(),
                forall|s: u64| #[trigger] with_start(sorted_notes@, s) == with_start(
                    orig.subrange(0, i as int),
                    s,
                ),
            decreases self.notes.len() - i,
        {
            let note: Note = self.notes[i];
            // Find the first position whose start time exceeds the new
            // note's: inserting there keeps equal starts in input order.
            let mut pos: usize = 0;
            while pos < sorted_notes.len() && !crate::fbits::gt_bits(
                sorted_notes[pos].start_at,
                note.start_at,
            )
                invariant
                    pos <= sorted_notes.len(),
                    no_nan_starts(sorted_notes@),
                    !f64_is_nan(note.start_at),
                    forall|k: int|
                        0 <= k < pos ==> !f64_gt(#[trigger] sorted_notes@[k].start_at, note.start_at),
                decreases sorted_notes.len() - pos,
            {
                pos = pos + 1;
            }
            let ghost before = sorted_notes@;
            proof {
                broadcast use vstd::seq_lib::group_to_multiset_ensures;

                lemma_insert_to_multiset(before, pos as int, note);
                let sub = orig.subrange(0, i + 1);
                assert(sub.drop_last() =~= orig.subrange(0, i as int));
                assert(sub.last() == orig[i as int]);
                assert(sub =~= sub.drop_last().push(sub.last()));
            }
            sorted_notes.insert(pos, note);
            proof {
                // The insertion position keeps the result sorted: entries
                // before it do not exceed the note, and every entry after
                // it exceeds it, the first by the loop exit and the rest
                // because they were already sorted above the first.
                before.insert_ensures(pos as int, note);
                assert forall|p: int, q: int|
                    0 <= p < q < sorted_notes@.len() implies f64_le(
                    #[trigger] sorted_notes@[p].start_at,
                    #[trigger] sorted_notes@[q].start_at,
                ) by {
                    let s = sorted_notes@;
                    if q < pos as int {
                    } else if p < pos as int && q == pos as int {
                        assert(s[p] == before[p]);
                        assert(!f64_gt(before[p].start_at, note.start_at));
                    } else if p < pos as int && q > pos as int {
                        assert(s[p] == before[p]);
                        assert(s[q] == before[q - 1]);
                    } else if p == pos as int && q > pos as int {
                        assert(s[q] == before[q - 1]);
                        assert(f64_gt(before[pos as int].start_at, note.start_at));
                        if q - 1 > pos as int {
                            assert(f64_le(before[pos as int].start_at, before[q - 1].start_at));
                        }
                    } else {
                        assert(s[p] == before[p - 1]);
                        assert(s[q] == before[q - 1]);
                    }
                }
                assert forall|k: int| 0 <= k < sorted_notes@.len() implies !f64_is_nan(
                    #[trigger] sorted_notes@[k].start_at,
                ) by {
                    let s = sorted_notes@;
                    if k < pos as int {
                        assert(s[k] == before[k]);
                    } else if k == pos as int {
                    } else {
                        assert(s[k] == before[k - 1]);
                    }
                }
                // Stability: inserting before the first strictly greater
                // start puts the note after every earlier equal start.
                assert forall|s: u64| #[trigger] with_start(sorted_notes@, s) == with_start(
                    orig.subrange(0, i + 1),
                    s,
                ) by {
                    if note.start_at == s {
                        assert forall|k: int|
                            pos as int <= k < before.len() implies (
                        #[trigger] before[k]).start_at != s by {
                            if k == pos as int {
                                assert(f64_gt(before[k].start_at, note.start_at));
                            } else {
                                assert(f64_le(before[pos as int].start_at, before[k].start_at));
                                assert(f64_gt(before[pos as int].start_at, note.start_at));
                            }
                        }
                    }
                    lemma_with_start_insert(before, pos as int, note, s);
                    let sub = orig.subrange(0, i + 1);
                    assert(sub.drop_last() =~= orig.subrange(0, i as int));
                    assert(sub =~= orig.subrange(0, i as int).push(orig[i as int]));
                    lemma_with_start_push(orig.subrange(0, i as int), orig[i as int], s);
                    assert(sorted_notes@ == before.insert(pos as int, note));
                }
            }
            i = i + 1;
        }
        proof {
            assert(orig.subrange(0, orig.len() as int) =~= orig);
        }
        self.notes = sorted_notes;
    }
}


/// Whether the earlier note `prev` is still sounding when `cur` starts:
/// the half-open containment test `prev.start <= cur.start < prev.end`,
/// under the IEEE order of the patterns.
pub open spec fn note_active(prev: Note, cur: Note) -> bool {
    f64_le(prev.start_at, cur.start_at) && f64_lt(cur.start_at, prev.end_at)
}

/// How many of the first `j_end` notes are still sounding when note `i`
/// starts.
pub open spec fn active_count(notes: Seq<Note>, i: int, j_end: int) -> nat
    decreases j_end,
{
    if j_end <= 0 {
        0
    } else {
        active_count(notes, i, j_end - 1) + if note_active(notes[j_end - 1], notes[i]) {
            1nat
        } else {
            0nat
        }
    }
}

/// The maximum, over the first `n` notes of a time-sorted sequence, of the
/// number of notes sounding at once when that note starts (itself
/// included).
pub open spec fn spec_max_notes(notes: Seq<Note>, n: int) -> nat
    decreases n,
{
    if n <= 0 {
        0
    } else {
        let rest = spec_max_notes(notes, n - 1);
        let here = active_count(notes, n - 1, n - 1) + 1;
        if here > rest {
            here
        } else {
            rest
        }
    }
}

/// The maximum number of notes sounding at once, over a time-sorted
/// sequence: zero when it is empty, else at least one.
pub open spec fn spec_max_notes_at_once(notes: Seq<Note>) -> nat {
    spec_max_notes(notes, notes.len() as int)
}

proof fn lemma_spec_max_notes_ge_one(notes: Seq<Note>, n: int)
    requires
        n >= 1,
    ensures
        spec_max_notes(notes, n) >= 1,
    decreases n,
{
    if n > 1 {
        lemma_spec_max_notes_ge_one(notes, n - 1);
    }
}

/// The indices below `j_end` of notes still sounding when note `i`
/// starts, in ascending order: what the sweep's working set holds.
pub open spec fn active_idxs(notes: Seq<Note>, i: int, j_end: int) -> Seq<int>
    decreases j_end,
{
    if j_end <= 0 {
        Seq::empty()
    } else {
        let prev = active_idxs(notes, i, j_end - 1);
        if note_active(notes[j_end - 1], notes[i]) {
            prev.push(j_end - 1)
        } else {
            prev
        }
    }
}

proof fn lemma_active_idxs_len(notes: Seq<Note>, i: int, j_end: int)
    ensures
        active_idxs(notes, i, j_end).len() == active_count(notes, i, j_end),
    decreases j_end,
{
    if j_end > 0 {
        lemma_active_idxs_len(notes, i, j_end - 1);
    }
}

/// Once the notes are sorted, an interval that no longer contains the
/// previous start cannot contain any later one: a note still sounding at
/// note `i` was already sounding at note `i - 1`.
proof fn lemma_still_active(notes: Seq<Note>, i: int)
    requires
        sorted_by_start(notes),
        no_nan_starts(notes),
        1 <= i < notes.len(),
    ensures
        forall|j: int|
            0 <= j < i - 1 && note_active(#[trigger] notes[j], notes[i]) ==> note_active(
                notes[j],
                notes[i - 1],
            ),
{
    assert forall|j: int|
        0 <= j < i - 1 && note_active(#[trigger] notes[j], notes[i]) implies note_active(
        notes[j],
        notes[i - 1],
    ) by {
        assert(f64_le(notes[j].start_at, notes[i - 1].start_at));
        assert(f64_le(notes[i - 1].start_at, notes[i].start_at));
        assert(f64_lt(notes[i].start_at, notes[j].end_at));
    }
}

/// The members of a working set that still sound when note `i` starts, in
/// the set's order: what the sweep retains.
pub open spec fn filt_active(ws: Seq<int>, notes: Seq<Note>, i: int) -> Seq<int>
    decreases ws.len(),
{
    if ws.len() == 0 {
        Seq::empty()
    } else {
        let prev = filt_active(ws.drop_last(), notes, i);
        if note_active(notes[ws.last()], notes[i]) {
            prev.push(ws.last())
        } else {
            prev
        }
    }
}

proof fn lemma_filter_step(notes: Seq<Note>, i: int, j: int)
    requires
        sorted_by_start(notes),
        no_nan_starts(notes),
        1 <= i < notes.len(),
        0 <= j <= i - 1,
    ensures
        filt_active(active_idxs(notes, i - 1, j), notes, i) == active_idxs(notes, i, j),
    decreases j,
{
    if j > 0 {
        lemma_filter_step(notes, i, j - 1);
        lemma_still_active(notes, i);
        let wp = active_idxs(notes, i - 1, j - 1);
        let w = active_idxs(notes, i - 1, j);
        if note_active(notes[j - 1], notes[i - 1]) {
            assert(w == wp.push(j - 1));
            assert(w.drop_last() =~= wp);
            assert(w.last() == j - 1);
        } else {
            assert(w == wp);
            // The dropped interval no longer contains the new start either.
            assert(!note_active(notes[j - 1], notes[i]));
        }
    }
}

/// Filtering the sweep's working set for note `i` leaves exactly the notes
/// sounding at its start.
proof fn lemma_filter_full(notes: Seq<Note>, i: int)
    requires
        sorted_by_start(notes),
        no_nan_starts(notes),
        1 <= i < notes.len(),
    ensures
        filt_active(active_idxs(notes, i - 1, i - 1).push(i - 1), notes, i) == active_idxs(
            notes,
            i,
            i,
        ),
{
    lemma_filter_step(notes, i, i - 1);
    let base = active_idxs(notes, i - 1, i - 1);
    let w = base.push(i - 1);
    assert(w.drop_last() =~= base);
    assert(w.last() == i - 1);
}

impl Sequence {
    /// The maximum number of notes that sound at the same time anywhere in
    /// the sequence: the amplitude divisor of the mix.  Sorts the notes by
    /// start time first, then sweeps them, maintaining a working set of
    /// the `[start, end)` intervals still sounding: for each note it
    /// counts the intervals that contain the note's start, drops the ones
    /// that do not (sorted, they can never contain a later start), adds
    /// the note's own interval, and tracks the maximum count, the current
    /// note included.  Returns zero for an empty sequence and at least one
    /// otherwise.
    pub fn calc_max_notes_at_once(&mut self) -> (r: usize)
        requires
            no_nan_starts(old(self).notes@),
        ensures
            old(self).notes@.len() == 0 ==> r == 0 && *final(self) == *old(self),
            old(self).notes@.len() > 0 ==> {
                &&& sorted_by_start(final(self).notes@)
                &&& final(self).notes@.to_multiset() == old(self).notes@.to_multiset()
                &&& final(self).notes@.len() == old(self).notes@.len()
                &&& final(self).loop_info == old(self).loop_info
                &&& forall|s: u64| #[trigger] with_start(final(self).notes@, s) == with_start(
                    old(self).notes@,
                    s,
                )
                &&& r as nat == spec_max_notes_at_once(final(self).notes@)
                &&& r >= 1
            },
    {
        if self.notes.len() == 0 {
            return 0;
        }
        self.sort_by_time();
        let ghost notes = self.notes@;
        let ghost stable_from = old(self).notes@;
        let n: usize = self.notes.len();
        let mut max_notes: usize = 1;
        let mut previous_times: Vec<(u64, u64)> = Vec::new();
        let ghost mut widx: Seq<int> = Seq::empty();
        let mut i: usize = 0;
        while i < n
            invariant
                n == notes.len(),
                self.notes@ == notes,
                sorted_by_start(notes),
                no_nan_starts(notes),
                i <= n,
                1 <= max_notes <= n,
                forall|s: u64| #[trigger] with_start(notes, s) == with_start(stable_from, s),
                max_notes as nat == spec_max_notes(notes, i as int) || (spec_max_notes(
                    notes,
                    i as int,
                ) == 0 && max_notes == 1),
                widx.len() == previous_times@.len(),
                widx.len() <= i as int,
                forall|k: int|
                    0 <= k < widx.len() ==> 0 <= #[trigger] widx[k] < i as int,
                forall|k: int|
                    0 <= k < widx.len() ==> (#[trigger] previous_times@[k]).0
                        == notes[widx[k]].start_at && previous_times@[k].1 == notes[widx[k]].end_at,
                i == 0 ==> widx == Seq::<int>::empty(),
                i >= 1 ==> widx == active_idxs(notes, i - 1, i - 1).push(i - 1),
            decreases n - i,
        {
            let start_i: u64 = self.notes[i].start_at;
            let end_i: u64 = self.notes[i].end_at;
            let mut retained: Vec<(u64, u64)> = Vec::new();
            let ghost mut ridx: Seq<int> = Seq::empty();
            let mut passed: usize = 0;
            let mut k: usize = 0;
            proof {
                assert(widx.subrange(0, 0) =~= Seq::<int>::empty());
            }
            while k < previous_times.len()
                invariant
                    n == notes.len(),
                    self.notes@ == notes,
                    k <= previous_times@.len(),
                    widx.len() == previous_times@.len(),
                    widx.len() <= i as int,
                    i < n,
                    start_i == notes[i as int].start_at,
                    forall|m: int|
                        0 <= m < widx.len() ==> 0 <= #[trigger] widx[m] < i as int,
                    forall|m: int|
                        0 <= m < widx.len() ==> (#[trigger] previous_times@[m]).0
                            == notes[widx[m]].start_at && previous_times@[m].1
                            == notes[widx[m]].end_at,
                    ridx == filt_active(widx.subrange(0, k as int), notes, i as int),
                    retained@.len() == ridx.len(),
                    forall|m: int|
                        0 <= m < ridx.len() ==> 0 <= #[trigger] ridx[m] < i as int,
                    forall|m: int|
                        0 <= m < ridx.len() ==> (#[trigger] retained@[m]).0
                            == notes[ridx[m]].start_at && retained@[m].1 == notes[ridx[m]].end_at,
                    passed == ridx.len(),
                    passed <= k,
                decreases previous_times@.len() - k,
            {
                proof {
                    assert(widx.subrange(0, k + 1).drop_last() =~= widx.subrange(0, k as int));
                    assert(widx.subrange(0, k + 1).last() == widx[k as int]);
                }
                let pair: (u64, u64) = previous_times[k];
                if crate::fbits::le_bits(pair.0, start_i) && crate::fbits::lt_bits(
                    start_i,
                    pair.1,
                ) {
                    retained.push(pair);
                    proof {
                        ridx = ridx.push(widx[k as int]);
                    }
                    passed = passed + 1;
                }
                k = k + 1;
            }
            proof {
                assert(widx.subrange(0, widx.len() as int) =~= widx);
                if i >= 1 {
                    lemma_filter_full(notes, i as int);
                    assert(ridx == active_idxs(notes, i as int, i as int));
                } else {
                    assert(active_idxs(notes, 0, 0) =~= Seq::<int>::empty());
                    assert(ridx == active_idxs(notes, i as int, i as int));
                }
                lemma_active_idxs_len(notes, i as int, i as int);
                assert(passed as nat == active_count(notes, i as int, i as int));
                lemma_spec_max_notes_ge_one(notes, i + 1);
            }
            if passed + 1 > max_notes {
                max_notes = passed + 1;
            }
            retained.push((start_i, end_i));
            proof {
                ridx = ridx.push(i as int);
            }
            previous_times = retained;
            proof {
                widx = ridx;
            }
            i = i + 1;
        }
        proof {
            lemma_spec_max_notes_ge_one(notes, n as int);
        }
        max_notes
    }
}

/// Two positions of a sorted sequence map to two positions of any
/// multiset-equal sequence, distinct when the values differ.
proof fn lemma_transfer_pair(sorted: Seq<Note>, orig: Seq<Note>, p: int, q: int) -> (r: (int, int))
    requires
        sorted.to_multiset() == orig.to_multiset(),
        0 <= p < sorted.len(),
        0 <= q < sorted.len(),
        p != q,
    ensures
        0 <= r.0 < orig.len(),
        0 <= r.1 < orig.len(),
        orig[r.0] == sorted[p],
        orig[r.1] == sorted[q],
        sorted[p] != sorted[q] ==> r.0 != r.1,
        sorted[p] == sorted[q] ==> r.0 != r.1,
{
    broadcast use vstd::seq_lib::group_to_multiset_ensures;

    assert(sorted.contains(sorted[p]));
    assert(orig.to_multiset().count(sorted[p]) > 0);
    assert(orig.contains(sorted[p]));
    let i = choose|i: int| 0 <= i < orig.len() && orig[i] == sorted[p];
    if sorted[p] != sorted[q] {
        assert(sorted.contains(sorted[q]));
        assert(orig.to_multiset().count(sorted[q]) > 0);
        assert(orig.contains(sorted[q]));
        let j = choose|j: int| 0 <= j < orig.len() && orig[j] == sorted[q];
        (i, j)
    } else {
        // The value occurs twice in the sorted sequence, so its count is
        // at least two, and removing one occurrence from the other
        // sequence still leaves one.
        let v = sorted[p];
        assert(sorted.remove(p).to_multiset() =~= sorted.to_multiset().remove(v));
        sorted.remove_ensures(p);
        let q2: int = if q < p {
            q
        } else {
            q - 1
        };
        assert(sorted.remove(p)[q2] == v);
        assert(sorted.remove(p).contains(v));
        assert(sorted.remove(p).to_multiset().count(v) > 0);
        assert(orig.remove(i).to_multiset() =~= orig.to_multiset().remove(v));
        assert(orig.remove(i).to_multiset().count(v) > 0);
        assert(orig.remove(i).contains(v));
        let j2 = choose|j2: int| 0 <= j2 < orig.remove(i).len() && orig.remove(i)[j2] == v;
        orig.remove_ensures(i);
        let j: int = if j2 < i {
            j2
        } else {
            j2 + 1
        };
        assert(orig[j] == v);
        (i, j)
    }
}

/// For a time-sorted sequence of pairwise non-overlapping notes — no
/// interval reaches past a later note's start — at most one note sounds
/// at any start: the maximum is one (zero for an empty sequence).
pub proof fn lemma_non_overlapping_max_one(notes: Seq<Note>)
    requires
        sorted_by_start(notes),
        forall|i: int, j: int|
            0 <= i < j < notes.len() ==> !f64_lt(
                #[trigger] notes[j].start_at,
                #[trigger] notes[i].end_at,
            ),
    ensures
        notes.len() == 0 ==> spec_max_notes_at_once(notes) == 0,
        notes.len() > 0 ==> spec_max_notes_at_once(notes) == 1,
{
    assert forall|i: int| 0 <= i < notes.len() implies active_count(notes, i, i) == 0 by {
        lemma_active_count_zero(notes, i, i);
    }
    lemma_spec_max_all_zero(notes, notes.len() as int);
}

/// The non-overlap law in any input order: for notes of positive length
/// whose intervals are pairwise disjoint — each ends at or before the
/// other starts — any time-sorted permutation has a maximum concurrency of
/// one (zero when empty).  With `calc_max_notes_at_once`'s own contract
/// this pins its result for every such sequence, however ordered.
pub proof fn lemma_non_overlapping_any_order(sorted: Seq<Note>, orig: Seq<Note>)
    requires
        sorted_by_start(sorted),
        sorted.to_multiset() == orig.to_multiset(),
        forall|i: int|
            0 <= i < orig.len() ==> f64_lt((#[trigger] orig[i]).start_at, orig[i].end_at),
        forall|i: int, j: int|
            0 <= i < orig.len() && 0 <= j < orig.len() && i != j ==> f64_le(
                (#[trigger] orig[i]).end_at,
                (#[trigger] orig[j]).start_at,
            ) || f64_le(orig[j].end_at, orig[i].start_at),
    ensures
        orig.len() == 0 ==> spec_max_notes_at_once(sorted) == 0,
        orig.len() > 0 ==> spec_max_notes_at_once(sorted) == 1,
{
    broadcast use vstd::seq_lib::group_to_multiset_ensures;

    assert(sorted.to_multiset().len() == sorted.len());
    assert(orig.to_multiset().len() == orig.len());
    assert(sorted.len() == orig.len());
    assert forall|p: int, q: int| 0 <= p < q < sorted.len() implies !f64_lt(
        #[trigger] sorted[q].start_at,
        #[trigger] sorted[p].end_at,
    ) by {
        let (i, j) = lemma_transfer_pair(sorted, orig, p, q);
        assert(f64_lt(orig[i].start_at, orig[i].end_at));
        assert(f64_lt(orig[j].start_at, orig[j].end_at));
        assert(f64_le(sorted[p].start_at, sorted[q].start_at));
        if f64_le(orig[j].end_at, orig[i].start_at) {
            // The later-sorted note would end before the earlier one
            // starts, yet start no earlier: its length could not be
            // positive.
            assert(false);
        }
    }
    lemma_non_overlapping_max_one(sorted);
}

proof fn lemma_active_count_zero(notes: Seq<Note>, i: int, j_end: int)
    requires
        0 <= j_end <= i < notes.len(),
        forall|p: int, q: int|
            0 <= p < q < notes.len() ==> !f64_lt(
                #[trigger] notes[q].start_at,
                #[trigger] notes[p].end_at,
            ),
    ensures
        active_count(notes, i, j_end) == 0,
    decreases j_end,
{
    if j_end > 0 {
        lemma_active_count_zero(notes, i, j_end - 1);
    }
}

proof fn lemma_spec_max_all_zero(notes: Seq<Note>, n: int)
    requires
        n <= notes.len(),
        forall|i: int| 0 <= i < notes.len() ==> active_count(notes, i, i) == 0,
    ensures
        n <= 0 ==> spec_max_notes(notes, n) == 0,
        n > 0 ==> spec_max_notes(notes, n) == 1,
    decreases n,
{
    if n > 0 {
        lemma_spec_max_all_zero(notes, n - 1);
    }
}

/// For a sequence of notes that all share one start `s` (not NaN) and one
/// end `e` with `s < e`, every note sounds while every other does: the
/// maximum equals the number of notes.
pub proof fn lemma_identical_notes_max_all(notes: Seq<Note>, s: u64, e: u64)
    requires
        forall|i: int|
            0 <= i < notes.len() ==> (#[trigger] notes[i]).start_at == s && notes[i].end_at == e,
        !f64_is_nan(s),
        f64_lt(s, e),
    ensures
        spec_max_notes_at_once(notes) == notes.len(),
{
    assert forall|i: int| 0 <= i < notes.len() implies active_count(notes, i, i) == i by {
        lemma_active_count_full(notes, s, e, i, i);
    }
    lemma_spec_max_full(notes, notes.len() as int);
}

proof fn lemma_active_count_full(notes: Seq<Note>, s: u64, e: u64, i: int, j_end: int)
    requires
        0 <= j_end <= i < notes.len(),
        forall|k: int|
            0 <= k < notes.len() ==> (#[trigger] notes[k]).start_at == s && notes[k].end_at == e,
        !f64_is_nan(s),
        f64_lt(s, e),
    ensures
        active_count(notes, i, j_end) == j_end,
    decreases j_end,
{
    if j_end > 0 {
        lemma_active_count_full(notes, s, e, i, j_end - 1);
    }
}

proof fn lemma_spec_max_full(notes: Seq<Note>, n: int)
    requires
        n <= notes.len(),
        forall|i: int| 0 <= i < notes.len() ==> active_count(notes, i, i) == i,
    ensures
        n >= 0 ==> spec_max_notes(notes, n) == n,
    decreases n,
{
    if n > 0 {
        lemma_spec_max_full(notes, n - 1);
    }
}


/// The frequency requirements of one instrument: frequency ids in order of
/// first appearance, each with the longest duration requested for it.
pub type FreqDurs = Seq<(usize, u64)>;

/// The requirements of all instruments, in order of first appearance.
pub type InstFreqs = Seq<(usize, FreqDurs)>;

/// The first index whose frequency id is `fid`, or -1.
pub open spec fn find_fid(s: FreqDurs, fid: usize) -> int
    decreases s.len(),
{
    if s.len() == 0 {
        -1
    } else if s[0].0 == fid {
        0
    } else {
        let r = find_fid(s.drop_first(), fid);
        if r == -1 {
            -1
        } else {
            r + 1
        }
    }
}

/// The first index whose instrument id is `iid`, or -1.
pub open spec fn find_inst(s: InstFreqs, iid: usize) -> int
    decreases s.len(),
{
    if s.len() == 0 {
        -1
    } else if s[0].0 == iid {
        0
    } else {
        let r = find_inst(s.drop_first(), iid);
        if r == -1 {
            -1
        } else {
            r + 1
        }
    }
}

proof fn lemma_find_fid_char(s: FreqDurs, fid: usize)
    ensures
        find_fid(s, fid) == -1 ==> forall|m: int| 0 <= m < s.len() ==> (#[trigger] s[m]).0 != fid,
        find_fid(s, fid) != -1 ==> {
            &&& 0 <= find_fid(s, fid) < s.len()
            &&& s[find_fid(s, fid)].0 == fid
            &&& forall|m: int| 0 <= m < find_fid(s, fid) ==> (#[trigger] s[m]).0 != fid
        },
    decreases s.len(),
{
    if s.len() > 0 && s[0].0 != fid {
        lemma_find_fid_char(s.drop_first(), fid);
        let d = s.drop_first();
        let k = find_fid(s, fid);
        if k == -1 {
            assert forall|m: int| 0 <= m < s.len() implies (#[trigger] s[m]).0 != fid by {
                if m > 0 {
                    assert(d[m - 1] == s[m]);
                    assert(d[m - 1].0 != fid);
                }
            }
        } else {
            assert(s[k] == d[k - 1]);
            assert forall|m: int| 0 <= m < k implies (#[trigger] s[m]).0 != fid by {
                if m > 0 {
                    assert(d[m - 1] == s[m]);
                    assert(d[m - 1].0 != fid);
                }
            }
        }
    }
}

proof fn lemma_find_inst_char(s: InstFreqs, iid: usize)
    ensures
        find_inst(s, iid) == -1 ==> forall|m: int| 0 <= m < s.len() ==> (#[trigger] s[m]).0 != iid,
        find_inst(s, iid) != -1 ==> {
            &&& 0 <= find_inst(s, iid) < s.len()
            &&& s[find_inst(s, iid)].0 == iid
            &&& forall|m: int| 0 <= m < find_inst(s, iid) ==> (#[trigger] s[m]).0 != iid
        },
    decreases s.len(),
{
    if s.len() > 0 && s[0].0 != iid {
        lemma_find_inst_char(s.drop_first(), iid);
        let d = s.drop_first();
        let k = find_inst(s, iid);
        if k == -1 {
            assert forall|m: int| 0 <= m < s.len() implies (#[trigger] s[m]).0 != iid by {
                if m > 0 {
                    assert(d[m - 1] == s[m]);
                    assert(d[m - 1].0 != iid);
                }
            }
        } else {
            assert(s[k] == d[k - 1]);
            assert forall|m: int| 0 <= m < k implies (#[trigger] s[m]).0 != iid by {
                if m > 0 {
                    assert(d[m - 1] == s[m]);
                    assert(d[m - 1].0 != iid);
                }
            }
        }
    }
}

proof fn lemma_find_fid_is(s: FreqDurs, fid: usize, k: int)
    requires
        0 <= k < s.len(),
        s[k].0 == fid,
        forall|m: int| 0 <= m < k ==> (#[trigger] s[m]).0 != fid,
    ensures
        find_fid(s, fid) == k,
    decreases s.len(),
{
    if s[0].0 != fid {
        assert(forall|m: int| 0 <= m < s.len() - 1 ==> s.drop_first()[m] == s[m + 1]);
        lemma_find_fid_is(s.drop_first(), fid, k - 1);
    }
}

proof fn lemma_find_inst_is(s: InstFreqs, iid: usize, k: int)
    requires
        0 <= k < s.len(),
        s[k].0 == iid,
        forall|m: int| 0 <= m < k ==> (#[trigger] s[m]).0 != iid,
    ensures
        find_inst(s, iid) == k,
    decreases s.len(),
{
    if s[0].0 != iid {
        assert(forall|m: int| 0 <= m < s.len() - 1 ==> s.drop_first()[m] == s[m + 1]);
        lemma_find_inst_is(s.drop_first(), iid, k - 1);
    }
}

proof fn lemma_find_fid_none(s: FreqDurs, fid: usize)
    requires
        forall|m: int| 0 <= m < s.len() ==> (#[trigger] s[m]).0 != fid,
    ensures
        find_fid(s, fid) == -1,
    decreases s.len(),
{
    if s.len() > 0 {
        assert(forall|m: int| 0 <= m < s.len() - 1 ==> s.drop_first()[m] == s[m + 1]);
        lemma_find_fid_none(s.drop_first(), fid);
    }
}

proof fn lemma_find_inst_none(s: InstFreqs, iid: usize)
    requires
        forall|m: int| 0 <= m < s.len() ==> (#[trigger] s[m]).0 != iid,
    ensures
        find_inst(s, iid) == -1,
    decreases s.len(),
{
    if s.len() > 0 {
        assert(forall|m: int| 0 <= m < s.len() - 1 ==> s.drop_first()[m] == s[m + 1]);
        lemma_find_inst_none(s.drop_first(), iid);
    }
}

/// Records that an instrument must play `fid` for `dur`: a new entry for a
/// new frequency id, else the longer duration wins (under IEEE `>`, so a
/// NaN already stored is replaced, and a NaN duration replaces a shorter
/// stored one, as the comparison of the values would decide).
pub open spec fn upd_freqs(fl: FreqDurs, fid: usize, dur: u64) -> FreqDurs {
    let k = find_fid(fl, fid);
    if k == -1 {
        fl.push((fid, dur))
    } else if f64_gt(fl[k].1, dur) {
        fl
    } else {
        fl.update(k, (fid, dur))
    }
}

/// Folds one note into the per-instrument requirements.
pub open spec fn upd_insts(acc: InstFreqs, note: Note) -> InstFreqs {
    let k = find_inst(acc, note.instrument_id);
    if k == -1 {
        acc.push((note.instrument_id, seq![(note.frequency_id, note.duration)]))
    } else {
        acc.update(k, (acc[k].0, upd_freqs(acc[k].1, note.frequency_id, note.duration)))
    }
}

/// The per-instrument frequency requirements of a whole note sequence, in
/// order of first appearance.
pub open spec fn freq_fold(notes: Seq<Note>) -> InstFreqs
    decreases notes.len(),
{
    if notes.len() == 0 {
        Seq::empty()
    } else {
        upd_insts(freq_fold(notes.drop_last()), notes.last())
    }
}

/// The view of the requirement list an instrument table consumes.
pub open spec fn freq_list_view(v: Seq<(usize, Vec<(usize, u64)>)>) -> InstFreqs {
    v.map(|i: int, p: (usize, Vec<(usize, u64)>)| (p.0, p.1@))
}

impl Sequence {
    /// Lists, for each instrument in order of first appearance, the
    /// frequency ids its notes use, each with the longest duration
    /// requested for it: what sizes the one-time key generation.
    pub fn list_frequencies_for_instruments(&self) -> (r: Vec<(usize, Vec<(usize, u64)>)>)
        ensures
            freq_list_view(r@) == freq_fold(self.notes@),
    {
        let mut acc: Vec<(usize, Vec<(usize, u64)>)> = Vec::new();
        proof {
            assert(freq_list_view(acc@) =~= freq_fold(self.notes@.subrange(0, 0)));
        }
        let mut i: usize = 0;
        while i < self.notes.len()
            invariant
                i <= self.notes.len(),
                freq_list_view(acc@) == freq_fold(self.notes@.subrange(0, i as int)),
            decreases self.notes.len() - i,
        {
            let note: Note = self.notes[i];
            let ghost accv = freq_list_view(acc@);
            proof {
                let sub = self.notes@.subrange(0, i + 1);
                assert(sub.drop_last() =~= self.notes@.subrange(0, i as int));
                assert(sub.last() == self.notes@[i as int]);
                lemma_find_inst_char(accv, note.instrument_id);
            }
            // Find the instrument's entry.
            let mut k: usize = 0;
            let mut found: bool = false;
            while k < acc.len() && !found
                invariant
                    k <= acc.len(),
                    accv == freq_list_view(acc@),
                    !found ==> forall|m: int|
                        0 <= m < k ==> (#[trigger] accv[m]).0 != note.instrument_id,
                    found ==> k < acc.len() && accv[k as int].0 == note.instrument_id && forall|
                        m: int,
                    |
                        0 <= m < k ==> (#[trigger] accv[m]).0 != note.instrument_id,
                decreases acc.len() - k + if found {
                    0int
                } else {
                    1int
                },
            {
                if acc[k].0 == note.instrument_id {
                    found = true;
                } else {
                    k = k + 1;
                }
            }
            if !found {
                proof {
                    lemma_find_inst_none(accv, note.instrument_id);
                }
                let mut freqs: Vec<(usize, u64)> = Vec::new();
                freqs.push((note.frequency_id, note.duration));
                acc.push((note.instrument_id, freqs));
                proof {
                    assert(seq![(note.frequency_id, note.duration)] =~= freqs@);
                    assert(freq_list_view(acc@) =~= upd_insts(accv, note));
                }
            } else {
                proof {
                    lemma_find_inst_is(accv, note.instrument_id, k as int);
                }
                let entry: (usize, Vec<(usize, u64)>) = acc.remove(k);
                let iid: usize = entry.0;
                let mut freqs: Vec<(usize, u64)> = entry.1;
                let ghost fl = freqs@;
                proof {
                    lemma_find_fid_char(fl, note.frequency_id);
                }
                // Find the frequency entry within the instrument.
                let mut kf: usize = 0;
                let mut foundf: bool = false;
                while kf < freqs.len() && !foundf
                    invariant
                        kf <= freqs.len(),
                        fl == freqs@,
                        !foundf ==> forall|m: int|
                            0 <= m < kf ==> (#[trigger] fl[m]).0 != note.frequency_id,
                        foundf ==> kf < freqs.len() && fl[kf as int].0 == note.frequency_id
                            && forall|m: int|
                            0 <= m < kf ==> (#[trigger] fl[m]).0 != note.frequency_id,
                    decreases freqs.len() - kf + if foundf {
                        0int
                    } else {
                        1int
                    },
                {
                    if freqs[kf].0 == note.frequency_id {
                        foundf = true;
                    } else {
                        kf = kf + 1;
                    }
                }
                if !foundf {
                    proof {
                        lemma_find_fid_none(fl, note.frequency_id);
                    }
                    freqs.push((note.frequency_id, note.duration));
                } else {
                    proof {
                        lemma_find_fid_is(fl, note.frequency_id, kf as int);
                    }
                    if !crate::fbits::gt_bits(freqs[kf].1, note.duration) {
                        freqs.set(kf, (note.frequency_id, note.duration));
                    }
                }
                proof {
                    assert(freqs@ =~= upd_freqs(fl, note.frequency_id, note.duration));
                }
                acc.insert(k, (iid, freqs));
                proof {
                    assert(freq_list_view(acc@) =~= upd_insts(accv, note));
                }
            }
            i = i + 1;
        }
        proof {
            assert(self.notes@.subrange(0, self.notes@.len() as int) =~= self.notes@);
        }
        acc
    }
}


/// The requirements hold an entry for instrument `iid` whose list mentions
/// frequency `fid`.
pub open spec fn fold_has(fold: InstFreqs, iid: usize, fid: usize) -> bool {
    exists|e: int, q: int|
        0 <= e < fold.len() && (#[trigger] fold[e]).0 == iid && 0 <= q < fold[e].1.len() && (
        #[trigger] fold[e].1[q]).0 == fid
}

/// Folding a note in records its own instrument and frequency.
proof fn lemma_upd_insts_has_own(acc: InstFreqs, note: Note)
    ensures
        fold_has(upd_insts(acc, note), note.instrument_id, note.frequency_id),
{
    let iid = note.instrument_id;
    let fid = note.frequency_id;
    let k = find_inst(acc, iid);
    lemma_find_inst_char(acc, iid);
    let r = upd_insts(acc, note);
    if k == -1 {
        assert(r[acc.len() as int].0 == iid);
        assert(r[acc.len() as int].1[0].0 == fid);
    } else {
        let fl = acc[k].1;
        let kf = find_fid(fl, fid);
        lemma_find_fid_char(fl, fid);
        let nfl = upd_freqs(fl, fid, note.duration);
        assert(r[k].0 == iid);
        if kf == -1 {
            assert(nfl[fl.len() as int].0 == fid);
            assert(r[k].1 == nfl);
        } else if f64_gt(fl[kf].1, note.duration) {
            assert(nfl[kf].0 == fid);
        } else {
            assert(nfl[kf].0 == fid);
        }
    }
}

/// Folding another note in never removes a recorded pair.
proof fn lemma_upd_insts_preserves(acc: InstFreqs, note: Note, iid: usize, fid: usize)
    requires
        fold_has(acc, iid, fid),
    ensures
        fold_has(upd_insts(acc, note), iid, fid),
{
    let (e, q) = choose|e: int, q: int|
        0 <= e < acc.len() && (#[trigger] acc[e]).0 == iid && 0 <= q < acc[e].1.len() && (
        #[trigger] acc[e].1[q]).0 == fid;
    let k = find_inst(acc, note.instrument_id);
    lemma_find_inst_char(acc, note.instrument_id);
    let r = upd_insts(acc, note);
    if k == -1 {
        assert(r[e] == acc[e]);
        assert(r[e].0 == iid && r[e].1[q].0 == fid);
    } else if e != k {
        assert(r[e] == acc[e]);
        assert(r[e].0 == iid && r[e].1[q].0 == fid);
    } else {
        let fl = acc[k].1;
        let kf = find_fid(fl, note.frequency_id);
        lemma_find_fid_char(fl, note.frequency_id);
        let nfl = upd_freqs(fl, note.frequency_id, note.duration);
        assert(r[e].0 == iid);
        if kf == -1 {
            assert(nfl[q] == fl[q]);
            assert(r[e].1[q].0 == fid);
        } else if f64_gt(fl[kf].1, note.duration) {
            assert(r[e].1[q].0 == fid);
        } else {
            if q == kf {
                assert(nfl[q].0 == note.frequency_id);
                assert(fl[kf].0 == note.frequency_id);
                assert(r[e].1[q].0 == fid);
            } else {
                assert(nfl[q] == fl[q]);
                assert(r[e].1[q].0 == fid);
            }
        }
    }
}

/// Every note's instrument and frequency pair is recorded in the fold of
/// its sequence.
pub proof fn lemma_freq_fold_covers(notes: Seq<Note>, i: int)
    requires
        0 <= i < notes.len(),
    ensures
        fold_has(freq_fold(notes), notes[i].instrument_id, notes[i].frequency_id),
    decreases notes.len(),
{
    let prev = freq_fold(notes.drop_last());
    if i == notes.len() - 1 {
        lemma_upd_insts_has_own(prev, notes.last());
    } else {
        lemma_freq_fold_covers(notes.drop_last(), i);
        assert(notes.drop_last()[i] == notes[i]);
        lemma_upd_insts_preserves(prev, notes.last(), notes[i].instrument_id, notes[i].frequency_id);
    }
}

/// The instrument ids of the fold's entries are pairwise distinct.
pub proof fn lemma_freq_fold_unique(notes: Seq<Note>)
    ensures
        forall|e1: int, e2: int|
            0 <= e1 < e2 < freq_fold(notes).len() ==> (#[trigger] freq_fold(notes)[e1]).0 != (
            #[trigger] freq_fold(notes)[e2]).0,
    decreases notes.len(),
{
    if notes.len() > 0 {
        lemma_freq_fold_unique(notes.drop_last());
        let prev = freq_fold(notes.drop_last());
        let note = notes.last();
        let k = find_inst(prev, note.instrument_id);
        lemma_find_inst_char(prev, note.instrument_id);
        let r = freq_fold(notes);
        assert(r == upd_insts(prev, note));
        if k == -1 {
            assert forall|e1: int, e2: int| 0 <= e1 < e2 < r.len() implies (#[trigger] r[e1]).0 != (
            #[trigger] r[e2]).0 by {
                if e2 < prev.len() {
                    assert(r[e1] == prev[e1] && r[e2] == prev[e2]);
                } else {
                    assert(r[e1] == prev[e1]);
                    assert(r[e2].0 == note.instrument_id);
                    assert(prev[e1].0 != note.instrument_id);
                }
            }
        } else {
            assert forall|e1: int, e2: int| 0 <= e1 < e2 < r.len() implies (#[trigger] r[e1]).0 != (
            #[trigger] r[e2]).0 by {
                assert(r[e1].0 == prev[e1].0);
                assert(r[e2].0 == prev[e2].0);
            }
        }
    }
}

} // verus!
