use vstd::prelude::*;

use crate::time_scaler::{ola_val, out_len_of, TimeScaler, BLOCK_SIZE_LIMIT};
use crate::window::window_in_range;

verus! {

/// Whether a decoded chunk marks the end of the stream: the decoder hands
/// back fewer frames than were asked for exactly when the source ran dry.
pub fn is_final_chunk(chunk: &Vec<Vec<i16>>, chunk_size: usize) -> (r: bool)
    ensures
        r == exists|c: int| 0 <= c < chunk@.len() && (#[trigger] chunk@[c])@.len() < chunk_size,
{
    let mut c: usize = 0;
    while c < chunk.len()
        invariant
            0 <= c <= chunk@.len(),
            forall|i: int| 0 <= i < c ==> (#[trigger] chunk@[i])@.len() >= chunk_size,
        decreases chunk@.len() - c,
    {
        if chunk[c].len() < chunk_size {
            return true;
        }
        c = c + 1;
    }
    false
}

/// The stage composition that realizes a pitch shift without a duration
/// change: a time-scale engine at 50% overlap stretches duration by the
/// sampling ratio while keeping pitch, and an external rate converter run
/// at the inverse ratio afterwards restores the duration while shifting
/// the pitch. This type owns the verified half: the engine, its chunked
/// feeding, and the decision when the stream is exhausted. The surrounding
/// loop performs the decoding, rate conversion and encoding, and hands
/// plain sample blocks in and out.
pub struct PitchShiftPipeline {
    scaler: TimeScaler,
}

impl PitchShiftPipeline {
    /// The overlap-add engine the pipeline drives.
    pub closed spec fn engine(self) -> TimeScaler {
        self.scaler
    }

    /// Build the pipeline stage: an engine whose analysis window is one
    /// decoder chunk, advancing half a chunk per step (50% overlap), with
    /// synthesis advance `synth_hop = floor(hop * sampling_ratio)`.
    pub fn new(chunk_size: usize, synth_hop: usize, channels: usize, window: Vec<i64>) -> (r:
        PitchShiftPipeline)
        requires
            2 <= chunk_size <= BLOCK_SIZE_LIMIT,
            chunk_size % 2 == 0,
            1 <= synth_hop <= chunk_size,
            1 <= channels,
            window@.len() == chunk_size,
            window_in_range(window@.map_values(|x: i64| x as int)),
        ensures
            r.engine().wf(),
            r.engine().block_size() == chunk_size,
            r.engine().hop() == chunk_size as int / 2,
            r.engine().synth_hop() == synth_hop,
            r.engine().channels() == channels,
            r.engine().win() == window@.map_values(|x: i64| x as int),
            r.engine().in_len() == 0,
            r.engine().boundary() == 0,
            r.engine().emitted() == 0,
            forall|c: int|
                0 <= c < channels ==> #[trigger] r.engine().input(c) == Seq::<int>::empty(),
    {
        let hop = chunk_size / 2;
        PitchShiftPipeline { scaler: TimeScaler::new(chunk_size, hop, synth_hop, channels, window) }
    }

    /// Feed one decoded chunk to the engine and report whether it was the
    /// final one: a chunk shorter than the chunk size means the decoder
    /// ran dry, so the caller stops reading and moves on to draining.
    pub fn push_chunk(&mut self, chunk: &Vec<Vec<i16>>) -> (end: bool)
        requires
            old(self).engine().wf(),
            chunk@.len() == old(self).engine().channels(),
            forall|c: int|
                0 <= c < chunk@.len() ==> (#[trigger] chunk@[c])@.len() == chunk@[0]@.len(),
            old(self).engine().can_push(chunk@[0]@.len() as int),
        ensures
            final(self).engine().wf(),
            final(self).engine().block_size() == old(self).engine().block_size(),
            final(self).engine().hop() == old(self).engine().hop(),
            final(self).engine().synth_hop() == old(self).engine().synth_hop(),
            final(self).engine().channels() == old(self).engine().channels(),
            final(self).engine().win() == old(self).engine().win(),
            final(self).engine().in_len() == old(self).engine().in_len() + chunk@[0]@.len(),
            forall|c: int|
                0 <= c < old(self).engine().channels() ==> #[trigger] final(self).engine().input(c)
                    == old(self).engine().input(c) + chunk@[c]@.map_values(|x: i16| x as int),
            final(self).engine().emitted() == old(self).engine().emitted(),
            final(self).engine().boundary() == final(self).engine().steps()
                * final(self).engine().synth_hop() - old(self).engine().emitted(),
            forall|c: int, j: int|
                0 <= c < old(self).engine().channels() && 0 <= j < final(self).engine().out_seq(
                    c,
                ).len() ==> #[trigger] final(self).engine().out_seq(c)[j] == ola_val(
                    final(self).engine().win(),
                    final(self).engine().input(c),
                    final(self).engine().hop(),
                    final(self).engine().synth_hop(),
                    final(self).engine().steps(),
                    j + final(self).engine().emitted(),
                ),
            end == exists|c: int|
                0 <= c < chunk@.len() && (#[trigger] chunk@[c])@.len() < old(
                    self,
                ).engine().block_size(),
    {
        let chunk_size = self.scaler.block_size_frames();
        let end = is_final_chunk(chunk, chunk_size);
        self.scaler.push_block(chunk);
        end
    }

    /// Ask for the next `frames` output frames, as the rate converter's
    /// input demand dictates. `None` means the engine has no `frames`
    /// finalized frames left: the pipeline has produced all possible
    /// output and the drain loop stops. This is the expected termination
    /// signal, not a fault.
    pub fn next_frames(&mut self, frames: usize) -> (r: Option<Vec<Vec<i64>>>)
        requires
            old(self).engine().wf(),
        ensures
            final(self).engine().wf(),
            final(self).engine().block_size() == old(self).engine().block_size(),
            final(self).engine().hop() == old(self).engine().hop(),
            final(self).engine().synth_hop() == old(self).engine().synth_hop(),
            final(self).engine().channels() == old(self).engine().channels(),
            final(self).engine().win() == old(self).engine().win(),
            final(self).engine().in_len() == old(self).engine().in_len(),
            r is None <==> old(self).engine().boundary() < frames,
            r is None ==> *final(self) == *old(self),
            r matches Some(b) ==> {
                &&& b@.len() == old(self).engine().channels()
                &&& forall|c: int| 0 <= c < b@.len() ==> (#[trigger] b@[c])@.len() == frames
                &&& forall|c: int|
                    0 <= c < b@.len() ==> (#[trigger] b@[c])@.map_values(|x: i64| x as int) == old(
                        self,
                    ).engine().out_seq(c).take(frames as int)
                &&& forall|c: int|
                    0 <= c < old(self).engine().channels()
                        ==> #[trigger] final(self).engine().out_seq(c) == old(
                        self,
                    ).engine().out_seq(c).skip(frames as int)
                &&& final(self).engine().boundary() == old(self).engine().boundary() - frames
                &&& final(self).engine().emitted() == old(self).engine().emitted() + frames
            },
    {
        match self.scaler.pop_frames(frames) {
            Ok(block) => Some(block),
            Err(_) => None,
        }
    }
}

} // verus!
