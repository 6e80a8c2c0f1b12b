//! Engine and track configuration, and the range checks that every configuration passes
//! before rendering. Fractional quantities are fixed-point numbers with six decimal places
//! (`MICRO` stands for 1): durations in milliseconds, percentages in percent, pitch ratios,
//! pan positions and levels as plain fractions.
use crate::arith::MICRO;
use crate::audio::AudioBuffer;
use crate::sampler::Sampler;
use crate::sequencer::Sequencer;
use vstd::prelude::*;

verus! {

/// One tenth of a millisecond, the smallest margin the checks allow between lengths.
pub const TENTH_MS: i64 = 100_000;

/// Engine-wide settings.
#[derive(Debug, Clone)]
pub struct SynthConfiguration {
    /// Length of one beat, in millionths of a millisecond.
    pub beat_length_ms: i64,
    pub engine_sampling_rate: u32,
    pub output_directory: String,
    pub output_sampling_rate: u32,
    pub output_bit_depth: u16,
}

/// A range violation found while checking a configuration. Track, beat and step numbers
/// count from one.
#[derive(Debug, Clone, Copy, PartialEq, Eq)]
pub enum ConfigError {
    BeatLength,
    EngineSamplingRate,
    OutputSamplingRate,
    OutputBitDepth,
    TrackName { track: usize },
    TrackNormalizationLevel { track: usize },
    TrackPanorama { track: usize },
    SampleFilePath { track: usize },
    GrainsCount { track: usize },
    /// A fixed grain length outside 10 ms up to the beat length.
    GrainsLength { track: usize },
    /// A grain length range whose upper end does not exceed its lower end.
    GrainsLengthOrder { track: usize },
    /// A grain length range reaching below 10 ms or up to the beat length.
    GrainsLengthBounds { track: usize },
    /// A window slope shorter than 0.1 ms.
    WindowSlope { track: usize },
    /// Window slopes that do not fit in the shortest grain.
    WindowSlopeLength { track: usize },
    PitchValue { track: usize, step: usize },
    PitchFraction { track: usize, step: usize },
    /// Step fractions that do not add up to 100%.
    PitchFractionTotal { track: usize },
    Subdivisions { track: usize, beat: usize },
    CoveragePercentage { track: usize, beat: usize },
    HumanizationPercents { track: usize, beat: usize },
    VolumeDeviationPercents { track: usize, beat: usize },
    PanoramaDeviationPercents { track: usize, beat: usize },
    /// Several tracks share the name of track `track`; `count` tracks carry it.
    DuplicateTrackName { track: usize, count: usize },
}

/// Per-track output settings.
#[derive(Debug, Clone)]
pub struct TrackProperties {
    pub track_name: String,
    /// Peak level of the finished track, a fraction of full scale.
    pub track_normalization_level: i64,
    /// Pan position from -1 (left) to 1 (right).
    pub track_panorama: i64,
}

/// Length of the grains, in millionths of a millisecond.
#[derive(Debug, Clone, Copy, PartialEq, Eq, Structural)]
pub enum GrainsLength {
    Fixed { equal: i64 },
    Range { from: i64, to: i64 },
}

/// Amplitude window at the edges of each grain; slopes in millionths of a millisecond.
#[derive(Debug, Clone, Copy, PartialEq, Eq, Structural)]
pub enum GWFunction {
    SmoothstepRegular { slope: i64 },
    SmoothstepUnregular { slope_attack: i64, slope_release: i64 },
}

/// Pitch of the grains: unchanged, or a set of (pitch ratio, percentage of grains) steps.
#[derive(Debug, Clone)]
pub enum GrainsPitch {
    Fixed,
    Steps { steps: Vec<(i64, i64)> },
}

#[derive(Debug, Clone)]
pub struct GrainsProperties {
    pub sample_file_path: String,
    pub grains_count: usize,
    pub grains_length_ms: GrainsLength,
    pub window_function: GWFunction,
    pub grains_laudness_normalization: bool,
    pub grains_pitch: GrainsPitch,
}

/// Rhythm of one beat; percentages in millionths of a percent.
#[derive(Debug, Clone, Copy, PartialEq, Eq, Structural)]
pub struct BeatConfiguration {
    pub subdivisions: usize,
    pub coverage_percentage: i64,
    pub humanization_percents: i64,
    pub volume_deviation_percents: i64,
    pub panorama_deviation_percents: i64,
}

pub open spec fn when(cond: bool, e: ConfigError) -> Seq<ConfigError> {
    if cond {
        seq![e]
    } else {
        seq![]
    }
}

pub open spec fn out_of(x: int, lo: int, hi: int) -> bool {
    x < lo || x > hi
}

impl SynthConfiguration {
    pub open spec fn errors(&self) -> Seq<ConfigError> {
        when(out_of(self.beat_length_ms as int, 100 * MICRO, 30_000 * MICRO), ConfigError::BeatLength)
            + when(
            out_of(self.engine_sampling_rate as int, 48_000, 384_000),
            ConfigError::EngineSamplingRate,
        ) + when(
            out_of(self.output_sampling_rate as int, 48_000, 384_000),
            ConfigError::OutputSamplingRate,
        ) + when(
            !(self.output_bit_depth == 16 || self.output_bit_depth == 24 || self.output_bit_depth
                == 32),
            ConfigError::OutputBitDepth,
        )
    }

    /// The ranges that every later stage relies on.
    pub open spec fn wf(&self) -> bool {
        self.errors().len() == 0
    }

    /// Checks the ranges of the engine settings (beat 100 ms to 30 s, rates 48 kHz to
    /// 384 kHz, an output depth that can be written: 16, 24 or 32 bits) and reports every
    /// violation.
    pub fn validate(&self) -> (r: Result<(), Vec<ConfigError>>)
        ensures
            match r {
                Ok(()) => self.errors().len() == 0,
                Err(v) => v@ == self.errors() && v@.len() > 0,
            },
    {
        let mut errors: Vec<ConfigError> = Vec::new();
        if self.beat_length_ms < 100 * MICRO as i64 || self.beat_length_ms > 30_000 * MICRO as i64 {
            errors.push(ConfigError::BeatLength);
        }
        if self.engine_sampling_rate < 48_000 || self.engine_sampling_rate > 384_000 {
            errors.push(ConfigError::EngineSamplingRate);
        }
        if self.output_sampling_rate < 48_000 || self.output_sampling_rate > 384_000 {
            errors.push(ConfigError::OutputSamplingRate);
        }
        if !(self.output_bit_depth == 16 || self.output_bit_depth == 24 || self.output_bit_depth
            == 32) {
            errors.push(ConfigError::OutputBitDepth);
        }
        proof {
            assert(errors@ =~= self.errors());
        }
        if errors.len() == 0 {
            Ok(())
        } else {
            Err(errors)
        }
    }
}

impl TrackProperties {
    pub open spec fn errors(&self, track: usize) -> Seq<ConfigError> {
        when(self.track_name@.len() == 0, ConfigError::TrackName { track }) + when(
            out_of(self.track_normalization_level as int, 0, MICRO as int),
            ConfigError::TrackNormalizationLevel { track },
        ) + when(
            out_of(self.track_panorama as int, -MICRO, MICRO as int),
            ConfigError::TrackPanorama { track },
        )
    }

    /// Checks the track's name, level and pan position.
    pub fn validate(&self, track_number: usize) -> (r: Result<(), Vec<ConfigError>>)
        ensures
            match r {
                Ok(()) => self.errors(track_number).len() == 0,
                Err(v) => v@ == self.errors(track_number) && v@.len() > 0,
            },
    {
        let mut errors: Vec<ConfigError> = Vec::new();
        if self.track_name.as_str().is_empty() {
            errors.push(ConfigError::TrackName { track: track_number });
        }
        if self.track_normalization_level < 0 || self.track_normalization_level > MICRO as i64 {
            errors.push(ConfigError::TrackNormalizationLevel { track: track_number });
        }
        if self.track_panorama < -(MICRO as i64) || self.track_panorama > MICRO as i64 {
            errors.push(ConfigError::TrackPanorama { track: track_number });
        }
        proof {
            assert(errors@ =~= self.errors(track_number));
        }
        if errors.len() == 0 {
            Ok(())
        } else {
            Err(errors)
        }
    }
}

impl GrainsLength {
    /// Longest grain this setting can produce, in millionths of a millisecond.
    pub open spec fn longest(&self) -> int {
        match self {
            GrainsLength::Fixed { equal } => *equal as int,
            GrainsLength::Range { to, .. } => *to as int,
        }
    }

    /// Shortest grain this setting can produce, in millionths of a millisecond.
    pub open spec fn shortest(&self) -> int {
        match self {
            GrainsLength::Fixed { equal } => *equal as int,
            GrainsLength::Range { from, .. } => *from as int,
        }
    }

    pub open spec fn error(&self, beat_length_ms: int, track: usize) -> Option<ConfigError> {
        match self {
            GrainsLength::Fixed { equal } => if *equal < 10 * MICRO || *equal > beat_length_ms
                - TENTH_MS {
                Some(ConfigError::GrainsLength { track })
            } else {
                None
            },
            GrainsLength::Range { from, to } => if *to <= *from {
                Some(ConfigError::GrainsLengthOrder { track })
            } else if *from < 10 * MICRO || *to > beat_length_ms - TENTH_MS {
                Some(ConfigError::GrainsLengthBounds { track })
            } else {
                None
            },
        }
    }

    /// Checks that grains last from 10 ms up to 0.1 ms short of a beat.
    pub fn validate(&self, synth_configuration: &SynthConfiguration, track_number: usize) -> (r:
        Result<(), ConfigError>)
        ensures
            r == match self.error(synth_configuration.beat_length_ms as int, track_number) {
                Some(e) => Err::<(), ConfigError>(e),
                None => Ok(()),
            },
    {
        let limit: i128 = synth_configuration.beat_length_ms as i128 - TENTH_MS as i128;
        match self {
            GrainsLength::Fixed { equal } => {
                if (*equal as i128) < 10 * MICRO as i128 || *equal as i128 > limit {
                    return Err(ConfigError::GrainsLength { track: track_number });
                }
            },
            GrainsLength::Range { from, to } => {
                if *to <= *from {
                    return Err(ConfigError::GrainsLengthOrder { track: track_number });
                } else if (*from as i128) < 10 * MICRO as i128 || *to as i128 > limit {
                    return Err(ConfigError::GrainsLengthBounds { track: track_number });
                }
            },
        }
        Ok(())
    }
}

impl GWFunction {
    pub open spec fn error(&self, grains_length: GrainsLength, track: usize) -> Option<
        ConfigError,
    > {
        match self {
            GWFunction::SmoothstepRegular { slope } => if *slope < TENTH_MS {
                Some(ConfigError::WindowSlope { track })
            } else if 2 * *slope + TENTH_MS > grains_length.shortest() {
                Some(ConfigError::WindowSlopeLength { track })
            } else {
                None
            },
            GWFunction::SmoothstepUnregular { slope_attack, slope_release } => if *slope_attack
                < TENTH_MS || *slope_release < TENTH_MS {
                Some(ConfigError::WindowSlope { track })
            } else if *slope_attack + *slope_release + TENTH_MS > grains_length.shortest() {
                Some(ConfigError::WindowSlopeLength { track })
            } else {
                None
            },
        }
    }

    /// Checks that slopes last at least 0.1 ms and that both edges fit in the shortest
    /// grain with 0.1 ms to spare.
    pub fn validate(&self, grains_length: &GrainsLength, track_number: usize) -> (r: Result<
        (),
        ConfigError,
    >)
        ensures
            r == match self.error(*grains_length, track_number) {
                Some(e) => Err::<(), ConfigError>(e),
                None => Ok(()),
            },
    {
        let shortest: i128 = match grains_length {
            GrainsLength::Fixed { equal } => *equal as i128,
            GrainsLength::Range { from, .. } => *from as i128,
        };
        match self {
            GWFunction::SmoothstepRegular { slope } => {
                if *slope < TENTH_MS {
                    return Err(ConfigError::WindowSlope { track: track_number });
                } else if 2 * (*slope as i128) + TENTH_MS as i128 > shortest {
                    return Err(ConfigError::WindowSlopeLength { track: track_number });
                }
            },
            GWFunction::SmoothstepUnregular { slope_attack, slope_release } => {
                if *slope_attack < TENTH_MS || *slope_release < TENTH_MS {
                    return Err(ConfigError::WindowSlope { track: track_number });
                } else if *slope_attack as i128 + *slope_release as i128 + TENTH_MS as i128
                    > shortest {
                    return Err(ConfigError::WindowSlopeLength { track: track_number });
                }
            },
        }
        Ok(())
    }
}

/// Sum of the fractions of all pitch steps.
pub open spec fn fraction_total(steps: Seq<(i64, i64)>) -> int
    decreases steps.len(),
{
    if steps.len() == 0 {
        0
    } else {
        fraction_total(steps.drop_last()) + steps.last().1
    }
}

pub open spec fn fraction_ok(f: i64) -> bool {
    0 <= f <= 100 * MICRO
}

/// Range errors of the first `n` steps, in step order.
pub open spec fn step_errors(steps: Seq<(i64, i64)>, track: usize) -> Seq<ConfigError>
    decreases steps.len(),
{
    if steps.len() == 0 {
        seq![]
    } else {
        let s = steps.last();
        let step = steps.len() as usize;
        step_errors(steps.drop_last(), track) + when(
            out_of(s.0 as int, 250_000, 5 * MICRO as int),
            ConfigError::PitchValue { track, step },
        ) + when(!fraction_ok(s.1), ConfigError::PitchFraction { track, step })
    }
}

pub proof fn lemma_no_step_errors(steps: Seq<(i64, i64)>, track: usize)
    requires
        step_errors(steps, track).len() == 0,
    ensures
        forall|i: int| 0 <= i < steps.len() ==> fraction_ok(#[trigger] steps[i].1),
    decreases steps.len(),
{
    if steps.len() > 0 {
        let t = steps.drop_last();
        lemma_no_step_errors(t, track);
        assert forall|i: int| 0 <= i < steps.len() implies fraction_ok(#[trigger] steps[i].1) by {
            if i < steps.len() - 1 {
                assert(steps[i] == t[i]);
            }
        }
    }
}

/// Whether the step fractions add up to 100% within one millionth of a percent times 100.
pub open spec fn total_ok(total: int) -> bool {
    99_999_900 <= total <= 100_000_100
}

impl GrainsPitch {
    pub open spec fn errors(&self, track: usize) -> Seq<ConfigError> {
        match self {
            GrainsPitch::Fixed => seq![],
            GrainsPitch::Steps { steps } => step_errors(steps@, track) + when(
                (forall|i: int| 0 <= i < steps@.len() ==> fraction_ok(#[trigger] steps@[i].1))
                    && !total_ok(fraction_total(steps@)),
                ConfigError::PitchFractionTotal { track },
            ),
        }
    }

    /// Checks every step (pitch ratio from 0.25 to 5, fraction from 0% to 100%) and, when all
    /// fractions are in range, that they add up to 100% within 0.0001%.
    pub fn validate(&self, track_number: usize) -> (r: Result<(), Vec<ConfigError>>)
        ensures
            match r {
                Ok(()) => self.errors(track_number).len() == 0,
                Err(v) => v@ == self.errors(track_number) && v@.len() > 0,
            },
            r is Ok ==> match self {
                GrainsPitch::Steps { steps } => total_ok(fraction_total(steps@)),
                GrainsPitch::Fixed => true,
            },
    {
        let mut errors: Vec<ConfigError> = Vec::new();
        match self {
            GrainsPitch::Fixed => {},
            GrainsPitch::Steps { steps } => {
                let mut total: i128 = 0;
                let mut all_in_range = true;
                let mut i: usize = 0;
                while i < steps.len()
                    invariant
                        i <= steps.len(),
                        errors@ == step_errors(steps@.subrange(0, i as int), track_number),
                        all_in_range == (forall|k: int|
                            0 <= k < i ==> fraction_ok(#[trigger] steps@[k].1)),
                        all_in_range ==> total == fraction_total(steps@.subrange(0, i as int)),
                        all_in_range ==> 0 <= total <= i * 100 * MICRO,
                    decreases steps.len() - i,
                {
                    let (pitch, fraction) = steps[i];
                    proof {
                        assert(steps@.subrange(0, i + 1).drop_last() == steps@.subrange(0, i as int));
                    }
                    if pitch < 250_000 || pitch > 5 * MICRO as i64 {
                        errors.push(ConfigError::PitchValue { track: track_number, step: i + 1 });
                    }
                    if fraction < 0 || fraction > 100 * MICRO as i64 {
                        errors.push(ConfigError::PitchFraction { track: track_number, step: i + 1 });
                        all_in_range = false;
                    } else if all_in_range {
                        total = total + fraction as i128;
                    }
                    proof {
                        let sub = steps@.subrange(0, i + 1);
                        assert(sub.last() == steps@[i as int]);
                        assert(errors@ =~= step_errors(sub, track_number));
                    }
                    i = i + 1;
                }
                proof {
                    assert(steps@.subrange(0, steps@.len() as int) == steps@);
                }
                if all_in_range && (total < 99_999_900 || total > 100_000_100) {
                    errors.push(ConfigError::PitchFractionTotal { track: track_number });
                }
                proof {
                    assert(errors@ =~= self.errors(track_number));
                    if errors@.len() == 0 {
                        lemma_no_step_errors(steps@, track_number);
                    }
                }
            },
        }
        if errors.len() == 0 {
            Ok(())
        } else {
            Err(errors)
        }
    }
}

impl GrainsProperties {
    pub open spec fn errors(&self, beat_length_ms: int, track: usize) -> Seq<ConfigError> {
        when(self.sample_file_path@.len() == 0, ConfigError::SampleFilePath { track }) + when(
            out_of(self.grains_count as int, 4, 1_000_000),
            ConfigError::GrainsCount { track },
        ) + match self.grains_length_ms.error(beat_length_ms, track) {
            Some(e) => seq![e],
            None => match self.window_function.error(self.grains_length_ms, track) {
                Some(e) => seq![e],
                None => seq![],
            },
        } + self.grains_pitch.errors(track)
    }

    /// Checks the sample path, the grain count (4 to 1 000 000), the grain length, the
    /// window (only when the length is valid) and the pitch steps.
    pub fn validate(&self, synth_configuration: &SynthConfiguration, track_number: usize) -> (r:
        Result<(), Vec<ConfigError>>)
        ensures
            match r {
                Ok(()) => self.errors(synth_configuration.beat_length_ms as int, track_number).len()
                    == 0,
                Err(v) => v@ == self.errors(synth_configuration.beat_length_ms as int, track_number)
                    && v@.len() > 0,
            },
    {
        let mut errors: Vec<ConfigError> = Vec::new();
        if self.sample_file_path.as_str().is_empty() {
            errors.push(ConfigError::SampleFilePath { track: track_number });
        }
        if self.grains_count < 4 || self.grains_count > 1_000_000 {
            errors.push(ConfigError::GrainsCount { track: track_number });
        }
        match self.grains_length_ms.validate(synth_configuration, track_number) {
            Err(e) => {
                errors.push(e);
            },
            Ok(()) => {
                match self.window_function.validate(&self.grains_length_ms, track_number) {
                    Err(e) => {
                        errors.push(e);
                    },
                    Ok(()) => {},
                }
            },
        }
        match self.grains_pitch.validate(track_number) {
            Err(mut e) => {
                errors.append(&mut e);
            },
            Ok(()) => {},
        }
        proof {
            assert(errors@ =~= self.errors(synth_configuration.beat_length_ms as int, track_number));
        }
        if errors.len() == 0 {
            Ok(())
        } else {
            Err(errors)
        }
    }
}

impl BeatConfiguration {
    pub open spec fn errors(&self, beat_length_ms: int, track: usize, beat: usize) -> Seq<
        ConfigError,
    > {
        when(
            beat_length_ms < 10 * MICRO * self.subdivisions,
            ConfigError::Subdivisions { track, beat },
        ) + when(
            out_of(self.coverage_percentage as int, 0, 100 * MICRO as int),
            ConfigError::CoveragePercentage { track, beat },
        ) + when(
            out_of(self.humanization_percents as int, 0, 50 * MICRO as int),
            ConfigError::HumanizationPercents { track, beat },
        ) + when(
            out_of(self.volume_deviation_percents as int, 0, 100 * MICRO as int),
            ConfigError::VolumeDeviationPercents { track, beat },
        ) + when(
            out_of(self.panorama_deviation_percents as int, 0, 100 * MICRO as int),
            ConfigError::PanoramaDeviationPercents { track, beat },
        )
    }

    /// The ranges that the sequencer relies on.
    pub open spec fn wf(&self, beat_length_ms: int) -> bool {
        self.errors(beat_length_ms, 0, 0).len() == 0
    }

    /// Checks that sub-beats last at least 10 ms, coverage and deviations lie within 0% to
    /// 100%, and humanization within 0% to 50%.
    pub fn validate(
        &self,
        synth_configuration: &SynthConfiguration,
        track_number: usize,
        beat_number: usize,
    ) -> (r: Result<(), Vec<ConfigError>>)
        ensures
            match r {
                Ok(()) => self.errors(
                    synth_configuration.beat_length_ms as int,
                    track_number,
                    beat_number,
                ).len() == 0,
                Err(v) => v@ == self.errors(
                    synth_configuration.beat_length_ms as int,
                    track_number,
                    beat_number,
                ) && v@.len() > 0,
            },
    {
        let mut errors: Vec<ConfigError> = Vec::new();
        let (track, beat) = (track_number, beat_number);
        let sub_beats: i128 = self.subdivisions as i128;
        proof {
            assert(10 * MICRO * sub_beats <= 10_000_000 * 0x1_0000_0000_0000_0000) by (nonlinear_arith)
                requires
                    0 <= sub_beats <= 0xffff_ffff_ffff_ffff,
            ;
        }
        if (synth_configuration.beat_length_ms as i128) < 10_000_000 * sub_beats {
            errors.push(ConfigError::Subdivisions { track, beat });
        }
        if self.coverage_percentage < 0 || self.coverage_percentage > 100 * MICRO as i64 {
            errors.push(ConfigError::CoveragePercentage { track, beat });
        }
        if self.humanization_percents < 0 || self.humanization_percents > 50 * MICRO as i64 {
            errors.push(ConfigError::HumanizationPercents { track, beat });
        }
        if self.volume_deviation_percents < 0 || self.volume_deviation_percents > 100 * MICRO as i64 {
            errors.push(ConfigError::VolumeDeviationPercents { track, beat });
        }
        if self.panorama_deviation_percents < 0 || self.panorama_deviation_percents > 100
            * MICRO as i64 {
            errors.push(ConfigError::PanoramaDeviationPercents { track, beat });
        }
        proof {
            assert(errors@ =~= self.errors(
                synth_configuration.beat_length_ms as int,
                track_number,
                beat_number,
            ));
        }
        if errors.len() == 0 {
            Ok(())
        } else {
            Err(errors)
        }
    }
}


/// A track: its settings, and the canvas, grain bank and event list used to render it.
#[derive(Debug)]
pub struct Track {
    pub track_properties: TrackProperties,
    pub grains_properties: GrainsProperties,
    pub beat_sequence: Vec<BeatConfiguration>,
    pub canva: AudioBuffer,
    pub sampler: Sampler,
    pub sequencer: Sequencer,
}

impl Track {
    /// A track with the given settings, an empty stereo canvas, grain bank and event list.
    pub fn new(
        track_properties: TrackProperties,
        grains_properties: GrainsProperties,
        beat_sequence: Vec<BeatConfiguration>,
    ) -> (r: Track)
        ensures
            r.track_properties == track_properties,
            r.grains_properties == grains_properties,
            r.beat_sequence@ == beat_sequence@,
            r.canva.is_stereo(),
            r.canva.frames() == 0,
            r.sampler.grains_buffer@.len() == 0,
            r.sequencer.sequence@.len() == 0,
    {
        Track {
            track_properties,
            grains_properties,
            beat_sequence,
            canva: AudioBuffer::default(),
            sampler: Sampler::default(),
            sequencer: Sequencer::default(),
        }
    }

    /// Errors of this track's settings, numbered `track`: properties, grains, then each
    /// beat in order.
    pub open spec fn errors(&self, beat_length_ms: int, track: usize) -> Seq<ConfigError> {
        self.track_properties.errors(track) + self.grains_properties.errors(beat_length_ms, track)
            + beats_errors(self.beat_sequence@, beat_length_ms, track)
    }

    /// The ranges that rendering relies on.
    pub open spec fn wf(&self, c: SynthConfiguration) -> bool {
        &&& self.track_properties.errors(0).len() == 0
        &&& self.grains_properties.errors(c.beat_length_ms as int, 0).len() == 0
        &&& forall|k: int|
            0 <= k < self.beat_sequence@.len() ==> (#[trigger] self.beat_sequence@[k]).wf(
                c.beat_length_ms as int,
            )
    }
}

/// Errors of the first beats, numbered from one.
pub open spec fn beats_errors(beats: Seq<BeatConfiguration>, beat_length_ms: int, track: usize) -> Seq<
    ConfigError,
>
    decreases beats.len(),
{
    if beats.len() == 0 {
        seq![]
    } else {
        beats_errors(beats.drop_last(), beat_length_ms, track) + beats.last().errors(
            beat_length_ms,
            track,
            beats.len() as usize,
        )
    }
}

/// Errors of the first tracks, numbered from one.
pub open spec fn tracks_errors(tracks: Seq<Track>, beat_length_ms: int) -> Seq<ConfigError>
    decreases tracks.len(),
{
    if tracks.len() == 0 {
        seq![]
    } else {
        tracks_errors(tracks.drop_last(), beat_length_ms) + tracks.last().errors(
            beat_length_ms,
            tracks.len() as usize,
        )
    }
}


impl TrackProperties {
    /// Whether the properties pass their checks.
    pub fn is_valid(&self) -> (r: bool)
        ensures
            r == (self.errors(0).len() == 0),
    {
        !self.track_name.as_str().is_empty() && 0 <= self.track_normalization_level
            && self.track_normalization_level <= MICRO as i64 && -(MICRO as i64) <= self.track_panorama
            && self.track_panorama <= MICRO as i64
    }
}

/// Whether a track's name takes part in the uniqueness check: only tracks whose properties
/// are valid do.
pub open spec fn name_counted(t: Track) -> bool {
    t.track_properties.errors(0).len() == 0
}

/// Number of counted tracks among the first `n` that carry `name`.
pub open spec fn name_count(tracks: Seq<Track>, name: Seq<char>, n: int) -> int
    decreases n,
{
    if n <= 0 {
        0
    } else {
        name_count(tracks, name, n - 1) + if name_counted(tracks[n - 1])
            && tracks[n - 1].track_properties.track_name@ == name {
            1int
        } else {
            0int
        }
    }
}

/// Track `i` is the first counted track with its name.
pub open spec fn first_of_name(tracks: Seq<Track>, i: int) -> bool {
    &&& name_counted(tracks[i])
    &&& forall|j: int|
        0 <= j < i ==> !(name_counted(#[trigger] tracks[j]) && tracks[j].track_properties.track_name@
            == tracks[i].track_properties.track_name@)
}

/// One error for each name that several counted tracks share, at its first track, for the
/// first `n` tracks.
pub open spec fn duplicate_errors(tracks: Seq<Track>, n: int) -> Seq<ConfigError>
    decreases n,
{
    if n <= 0 {
        seq![]
    } else {
        let name = tracks[n - 1].track_properties.track_name@;
        let count = name_count(tracks, name, tracks.len() as int);
        duplicate_errors(tracks, n - 1) + when(
            first_of_name(tracks, n - 1) && count > 1,
            ConfigError::DuplicateTrackName { track: n as usize, count: count as usize },
        )
    }
}

/// Every error of a set of tracks: each track's own, in order, then shared names.
pub open spec fn all_track_errors(tracks: Seq<Track>, beat_length_ms: int) -> Seq<ConfigError> {
    tracks_errors(tracks, beat_length_ms) + duplicate_errors(tracks, tracks.len() as int)
}

/// Number of counted tracks with the name of track `i`.
fn count_name(tracks: &Vec<Track>, i: usize) -> (r: usize)
    requires
        i < tracks@.len(),
    ensures
        r == name_count(tracks@, tracks@[i as int].track_properties.track_name@, tracks@.len() as int),
{
    let mut c: usize = 0;
    let mut j: usize = 0;
    while j < tracks.len()
        invariant
            i < tracks@.len(),
            j <= tracks@.len(),
            c == name_count(tracks@, tracks@[i as int].track_properties.track_name@, j as int),
            c <= j,
        decreases tracks.len() - j,
    {
        if tracks[j].track_properties.is_valid() && tracks[j].track_properties.track_name
            == tracks[i].track_properties.track_name {
            c = c + 1;
        }
        j = j + 1;
    }
    c
}

/// Whether track `i` is the first counted track with its name.
fn is_first_of_name(tracks: &Vec<Track>, i: usize) -> (r: bool)
    requires
        i < tracks@.len(),
    ensures
        r == first_of_name(tracks@, i as int),
{
    if !tracks[i].track_properties.is_valid() {
        return false;
    }
    let mut j: usize = 0;
    while j < i
        invariant
            i < tracks@.len(),
            j <= i,
            forall|k: int|
                0 <= k < j ==> !(name_counted(#[trigger] tracks@[k])
                    && tracks@[k].track_properties.track_name@
                    == tracks@[i as int].track_properties.track_name@),
        decreases i - j,
    {
        if tracks[j].track_properties.is_valid() && tracks[j].track_properties.track_name
            == tracks[i].track_properties.track_name {
            return false;
        }
        j = j + 1;
    }
    true
}

/// Checks every track (its properties, grains and beats, numbered from one) and that no two
/// tracks with valid properties share a name; reports every violation.
pub fn validate_tracks(tracks: &Vec<Track>, synth_configuration: &SynthConfiguration) -> (r: Result<
    (),
    Vec<ConfigError>,
>)
    ensures
        match r {
            Ok(()) => all_track_errors(tracks@, synth_configuration.beat_length_ms as int).len() == 0,
            Err(v) => v@ == all_track_errors(tracks@, synth_configuration.beat_length_ms as int)
                && v@.len() > 0,
        },
{
    let ghost bl = synth_configuration.beat_length_ms as int;
    let mut errors: Vec<ConfigError> = Vec::new();
    let mut i: usize = 0;
    while i < tracks.len()
        invariant
            i <= tracks@.len(),
            bl == synth_configuration.beat_length_ms as int,
            errors@ == tracks_errors(tracks@.subrange(0, i as int), bl),
        decreases tracks.len() - i,
    {
        let track = &tracks[i];
        let number = i + 1;
        match track.track_properties.validate(number) {
            Err(mut e) => errors.append(&mut e),
            Ok(()) => {},
        }
        match track.grains_properties.validate(synth_configuration, number) {
            Err(mut e) => errors.append(&mut e),
            Ok(()) => {},
        }
        let ghost mid = errors@;
        let mut b: usize = 0;
        while b < track.beat_sequence.len()
            invariant
                b <= track.beat_sequence@.len(),
                number == i + 1,
                bl == synth_configuration.beat_length_ms as int,
                errors@ == mid + beats_errors(track.beat_sequence@.subrange(0, b as int), bl, number),
            decreases track.beat_sequence.len() - b,
        {
            match track.beat_sequence[b].validate(synth_configuration, number, b + 1) {
                Err(mut e) => errors.append(&mut e),
                Ok(()) => {},
            }
            proof {
                let sub = track.beat_sequence@.subrange(0, b + 1);
                assert(sub.drop_last() == track.beat_sequence@.subrange(0, b as int));
                assert(errors@ =~= mid + beats_errors(sub, bl, number));
            }
            b = b + 1;
        }
        proof {
            assert(track.beat_sequence@.subrange(0, track.beat_sequence@.len() as int)
                == track.beat_sequence@);
            let sub = tracks@.subrange(0, i + 1);
            assert(sub.drop_last() == tracks@.subrange(0, i as int));
            assert(sub.last() == *track);
            assert(errors@ =~= tracks_errors(sub, bl));
        }
        i = i + 1;
    }
    proof {
        assert(tracks@.subrange(0, tracks@.len() as int) == tracks@);
    }
    let ghost own = errors@;
    let mut k: usize = 0;
    while k < tracks.len()
        invariant
            k <= tracks@.len(),
            errors@ == own + duplicate_errors(tracks@, k as int),
        decreases tracks.len() - k,
    {
        if is_first_of_name(tracks, k) {
            let count = count_name(tracks, k);
            if count > 1 {
                errors.push(ConfigError::DuplicateTrackName { track: k + 1, count });
            }
        }
        proof {
            assert(errors@ =~= own + duplicate_errors(tracks@, k + 1));
        }
        k = k + 1;
    }
    if errors.len() == 0 {
        Ok(())
    } else {
        Err(errors)
    }
}

} // verus!
