use vstd::prelude::*;

verus! {

/// How the renderer distributes supersampling rays within one pixel.
/// Consumed by the (external) render loop; carried here so that object
/// construction can receive configuration explicitly instead of reading
/// ambient global state.
#[derive(Clone, Copy, Debug, PartialEq, Eq, Structural)]
pub enum SamplingStrategy {
    Grid4x4,
    RandomSampling { sample_count: usize },
}

impl Default for SamplingStrategy {
    fn default() -> (s: SamplingStrategy)
        ensures
            s == SamplingStrategy::Grid4x4,
    {
        SamplingStrategy::Grid4x4
    }
}

/// How textures are sampled between texels.
#[derive(Clone, Copy, Debug, PartialEq, Eq, Structural)]
pub enum TextureInterpolation {
    Nearest,
    Linear,
}

impl Default for TextureInterpolation {
    fn default() -> (t: TextureInterpolation)
        ensures
            t == TextureInterpolation::Nearest,
    {
        TextureInterpolation::Nearest
    }
}

/// Length and frame rate of an animated render.
#[derive(Clone, Copy, Debug, PartialEq, Eq, Structural)]
pub struct Animation {
    pub duration: u32,
    pub frames_per_second: u16,
}

impl Animation {
    /// Total frames rendered over the animation's duration, exact.
    pub fn total_frames(&self) -> (n: u64)
        ensures
            n == self.duration * self.frames_per_second,
    {
        proof {
            assert(self.duration * self.frames_per_second < 0x1000000000000) by (nonlinear_arith)
                requires
                    self.duration <= 0xffffffffu32,
                    self.frames_per_second <= 0xffffu16,
            ;
        }
        (self.duration as u64) * (self.frames_per_second as u64)
    }
}

} // verus!
