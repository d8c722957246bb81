//! Audio playback state: the buffer layout, the sample clock and the manager
//! that owns it.
use vstd::prelude::*;

verus! {

/// The layout of a decoded audio buffer.
pub struct AudioBuffer {
    pub channels: u16,
    pub sample_rate: u32,
}

impl AudioBuffer {
    pub fn new(channels: u16, sample_rate: u32) -> (r: Self)
        ensures
            r.channels == channels,
            r.sample_rate == sample_rate,
    {
        Self { channels, sample_rate }
    }
}

/// A playback position counted in samples.
#[derive(Debug, Clone, Copy)]
pub struct AudioClock {
    pub current_sample: u64,
    pub sample_rate: u32,
}

impl Default for AudioClock {
    fn default() -> (r: Self)
        ensures
            r.current_sample == 0,
            r.sample_rate == 0,
    {
        AudioClock { current_sample: 0, sample_rate: 0 }
    }
}

impl AudioClock {
    /// A clock at the start of the song.
    pub fn new(sample_rate: u32) -> (r: Self)
        ensures
            r.current_sample == 0,
            r.sample_rate == sample_rate,
    {
        Self { current_sample: 0, sample_rate }
    }
}

/// Why an audio operation failed.
#[derive(Debug, Clone, Copy, PartialEq, Eq, Structural)]
pub enum AudioError {
    /// The audio at the path could not be loaded (loading never fails yet).
    LoadFailed,
}

/// Owns the playback clock.
pub struct AudioManager {
    pub clock: AudioClock,
}

impl Default for AudioManager {
    fn default() -> (r: Self)
        ensures
            r.clock.current_sample == 0,
            r.clock.sample_rate == 0,
    {
        AudioManager { clock: AudioClock::default() }
    }
}

impl AudioManager {
    pub fn new(sample_rate: u32) -> (r: Self)
        ensures
            r.clock.current_sample == 0,
            r.clock.sample_rate == sample_rate,
    {
        Self { clock: AudioClock::new(sample_rate) }
    }

    /// Starts playback (the clock is advanced by its owner).
    pub fn play(&mut self)
        ensures
            final(self).clock == old(self).clock,
    {
    }

    /// Pauses playback (the clock is left where it is).
    pub fn pause(&mut self)
        ensures
            final(self).clock == old(self).clock,
    {
    }

    /// Prepares audio from a path; it always succeeds and leaves the clock
    /// as it is.
    pub fn load_wem_from_path(&mut self, _path: &str) -> (r: Result<(), AudioError>)
        ensures
            r is Ok,
            final(self).clock == old(self).clock,
    {
        Ok(())
    }
}

} // verus!
