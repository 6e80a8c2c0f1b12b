//! Granular synthesis engine: grain banks, rhythmic event sequences and mixing of
//! grains into stereo tracks, over fixed-point samples.
pub mod arith;
pub mod audio;
pub mod config;
pub mod random;
pub mod sampler;
pub mod sequencer;
pub mod synth;
