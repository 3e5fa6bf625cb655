//! The PCM data model: frames of samples, tagged with render parameters.
//!
//! A sample is the bit pattern of a single-precision value (`u32`); a frame
//! holds one sample per channel.  The library generates and mixes sample
//! data entirely on these patterns, with the exact arithmetic of
//! `crate::sfloat`.

use vstd::prelude::*;

verus! {

/// The representation of one sample slot.  The reference generators and
/// the mixer support only `Float`; the other kinds are carried so that a
/// caller's request for them can be rejected cleanly.
#[derive(Clone, Copy, Debug, PartialEq, Eq, Structural)]
pub enum SampleType {
    /// Single-precision floating-point samples: the supported kind.
    Float,
    /// Signed 16-bit integer samples: carried, not rendered.
    Signed16,
    /// Unsigned 8-bit integer samples: carried, not rendered.
    Unsigned8,
}

/// The parameters of a PCM buffer: how many frames sound per second, how
/// many channels each frame holds, and how a sample is represented.
#[derive(Clone, Copy, Debug, PartialEq, Eq, Structural)]
pub struct PcmParameters {
    /// Frames per second.
    pub sample_rate: u32,
    /// Samples per frame.
    pub nb_channels: u16,
    /// The representation of each sample.
    pub sample_type: SampleType,
}

impl PcmParameters {
    /// Usable parameters: at least one frame per second and one channel.
    pub open spec fn wf(&self) -> bool {
        self.sample_rate >= 1 && self.nb_channels >= 1
    }
}

/// A loop region of a PCM buffer, in frames.
#[derive(Clone, Copy, Debug, PartialEq, Eq, Structural)]
pub struct PcmLoopInfo {
    /// The frame at which the loop starts.
    pub loop_start: u64,
    /// The frame at which the loop ends.
    pub loop_end: u64,
}

/// One time slice of a PCM buffer: one sample per channel, each the bit
/// pattern of a single-precision value.
#[derive(Clone, Debug)]
pub struct Frame {
    /// The samples of this frame, one per channel.
    pub samples: Vec<u32>,
}

impl View for Frame {
    type V = Seq<u32>;

    open spec fn view(&self) -> Seq<u32> {
        self.samples@
    }
}

/// A PCM buffer: frames tagged with their parameters, and an optional loop
/// region.
#[derive(Clone, Debug)]
pub struct Pcm {
    /// The parameters the frames were produced under.
    pub parameters: PcmParameters,
    /// An optional loop region, in frames.
    pub loop_info: Option<PcmLoopInfo>,
    /// The frames, in time order.
    pub frames: Vec<Frame>,
}

/// The frames of a buffer as a sequence of sequences of sample patterns.
pub open spec fn frames_view(frames: Seq<Frame>) -> Seq<Seq<u32>> {
    frames.map(|i: int, f: Frame| f@)
}

impl Pcm {
    /// The frames as a sequence of sequences of sample patterns.
    pub open spec fn sound(&self) -> Seq<Seq<u32>> {
        frames_view(self.frames@)
    }

    /// Every frame holds exactly one sample per channel.
    pub open spec fn channels_ok(&self) -> bool {
        forall|i: int|
            0 <= i < self.frames@.len() ==> #[trigger] self.frames@[i]@.len()
                == self.parameters.nb_channels as int
    }
}

/// Copies one frame, sample for sample.
pub fn copy_frame(f: &Frame) -> (r: Frame)
    ensures
        r@ == f@,
{
    let mut samples: Vec<u32> = Vec::new();
    let mut i: usize = 0;
    while i < f.samples.len()
        invariant
            i <= f.samples.len(),
            samples@ == f.samples@.subrange(0, i as int),
        decreases f.samples.len() - i,
    {
        samples.push(f.samples[i]);
        i = i + 1;
    }
    proof {
        assert(samples@ =~= f.samples@);
    }
    Frame { samples }
}

/// A frame of `nb_channels` zero samples: the pattern of positive zero in
/// every slot.
pub fn zero_frame(nb_channels: u16) -> (r: Frame)
    ensures
        r@.len() == nb_channels as int,
        forall|c: int| 0 <= c < nb_channels as int ==> r@[c] == 0u32,
{
    let mut samples: Vec<u32> = Vec::new();
    let mut i: usize = 0;
    while i < nb_channels as usize
        invariant
            i <= nb_channels as usize,
            samples@.len() == i as int,
            forall|c: int| 0 <= c < i as int ==> samples@[c] == 0u32,
        decreases nb_channels as usize - i,
    {
        samples.push(0u32);
        i = i + 1;
    }
    Frame { samples }
}

} // verus!
