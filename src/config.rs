use vstd::prelude::*;

verus! {

/// Playback settings, fixed once a timeline is made. Durations are in
/// milliseconds.
#[derive(Clone, Copy, Debug)]
pub struct Config {
    pub sample_rate: u32,
    pub channel_count: u32,
    pub preload_threshold_in_millis: u64,
    pub preload_size_in_millis: u64,
}

/// The number of samples that `millis` milliseconds take at `rate` frames per
/// second with `channels` samples per frame, a partial frame counted whole.
pub open spec fn samples_for(millis: int, rate: int, channels: int) -> int {
    ((millis * rate + 999) / 1000) * channels
}

/// `samples_for`, capped at `usize::MAX`.
pub open spec fn capped_samples_for(millis: int, rate: int, channels: int) -> int {
    if samples_for(millis, rate, channels) > usize::MAX {
        usize::MAX as int
    } else {
        samples_for(millis, rate, channels)
    }
}

fn duration_in_samples(millis: u64, rate: u32, channels: u32) -> (r: usize)
    ensures
        r == capped_samples_for(millis as int, rate as int, channels as int),
{
    let m = millis as u128;
    let rt = rate as u128;
    let ch = channels as u128;
    proof {
        assert(m * rt <= 0xffff_ffff_ffff_ffffu128 * 0xffff_ffffu128) by (nonlinear_arith)
            requires
                m <= 0xffff_ffff_ffff_ffffu128,
                rt <= 0xffff_ffffu128,
        ;
    }
    let frames = (m * rt + 999) / 1000;
    proof {
        assert(frames * ch <= 0x1_0000_0000_0000_0000_0000_0000u128 * 0xffff_ffffu128) by (nonlinear_arith)
            requires
                frames <= 0x1_0000_0000_0000_0000_0000_0000u128,
                ch <= 0xffff_ffffu128,
        ;
    }
    let total = frames * ch;
    if total > usize::MAX as u128 {
        usize::MAX
    } else {
        total as usize
    }
}

impl Config {
    pub open spec fn spec_preload_threshold_in_samples(&self) -> int {
        capped_samples_for(
            self.preload_threshold_in_millis as int,
            self.sample_rate as int,
            self.channel_count as int,
        )
    }

    pub open spec fn spec_preload_size_in_samples(&self) -> int {
        capped_samples_for(
            self.preload_size_in_millis as int,
            self.sample_rate as int,
            self.channel_count as int,
        )
    }

    /// How many samples must be buffered ahead before loading may pause.
    pub fn preload_threshold_in_samples(&self) -> (r: usize)
        ensures
            r == self.spec_preload_threshold_in_samples(),
    {
        duration_in_samples(self.preload_threshold_in_millis, self.sample_rate, self.channel_count)
    }

    /// How many samples one preload asks for.
    pub fn preload_size_in_samples(&self) -> (r: usize)
        ensures
            r == self.spec_preload_size_in_samples(),
    {
        duration_in_samples(self.preload_size_in_millis, self.sample_rate, self.channel_count)
    }
}

impl Default for Config {
    fn default() -> (r: Self)
        ensures
            r.sample_rate == 48000,
            r.channel_count == 2,
            r.preload_threshold_in_millis == 10000,
            r.preload_size_in_millis == 20000,
    {
        Config {
            sample_rate: 48000,
            channel_count: 2,
            preload_threshold_in_millis: 10000,
            preload_size_in_millis: 20000,
        }
    }
}

} // verus!
