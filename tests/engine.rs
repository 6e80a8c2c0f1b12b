use granular_synth::audio::{channel_peak, AudioBuffer, AudioError, EncodedAudio, FULL_SCALE};
use granular_synth::config::{
    validate_tracks, BeatConfiguration, ConfigError, GWFunction, GrainsLength, GrainsPitch,
    GrainsProperties, SynthConfiguration, Track, TrackProperties,
};
use granular_synth::sampler::{Sampler, SamplerError};
use granular_synth::sequencer::Sequencer;
use granular_synth::synth::{mix_event, GranularSynth, SynthError, TrackSource};
use granular_synth::sequencer::Event;

const M: i64 = 1_000_000;

fn synth(beat_ms: i64, rate: u32) -> SynthConfiguration {
    SynthConfiguration {
        beat_length_ms: beat_ms * M,
        engine_sampling_rate: rate,
        output_directory: "out".to_string(),
        output_sampling_rate: rate,
        output_bit_depth: 16,
    }
}

fn beat(subdivisions: usize, coverage: i64, humanization: i64) -> BeatConfiguration {
    BeatConfiguration {
        subdivisions,
        coverage_percentage: coverage * M,
        humanization_percents: humanization * M,
        volume_deviation_percents: 10 * M,
        panorama_deviation_percents: 20 * M,
    }
}

fn grains(count: usize, normalize: bool, pitch: GrainsPitch) -> GrainsProperties {
    GrainsProperties {
        sample_file_path: "sample.wav".to_string(),
        grains_count: count,
        grains_length_ms: GrainsLength::Fixed { equal: 20 * M },
        window_function: GWFunction::SmoothstepRegular { slope: 2 * M },
        grains_laudness_normalization: normalize,
        grains_pitch: pitch,
    }
}

fn ramp(n: usize) -> Vec<i64> {
    (0..n).map(|i| ((i % 97) as i64 - 48) * (FULL_SCALE / 200)).collect()
}

fn peak(b: &AudioBuffer) -> u64 {
    match b {
        AudioBuffer::Mono(c) => channel_peak(c),
        AudioBuffer::Stereo(l, r) => channel_peak(l).max(channel_peak(r)),
    }
}

#[test]
fn normalize_mono_reaches_level() {
    let mut b = AudioBuffer::Mono(vec![100, -400, 200]);
    assert_eq!(b.normalize(800), Ok(()));
    assert_eq!(b, AudioBuffer::Mono(vec![200, -800, 400]));
}

#[test]
fn normalize_stereo_shares_one_factor() {
    let mut b = AudioBuffer::Stereo(vec![100, 50], vec![-1000, 10]);
    assert_eq!(b.normalize(FULL_SCALE), Ok(()));
    assert_eq!(peak(&b), FULL_SCALE as u64);
    match &b {
        AudioBuffer::Stereo(l, r) => {
            assert_eq!(r[0], -FULL_SCALE);
            assert_eq!(l[0], 100 * FULL_SCALE / 1000);
        }
        _ => panic!("variant changed"),
    }
}

#[test]
fn normalize_silent_buffer_is_an_error() {
    let mut b = AudioBuffer::Stereo(vec![0, 0], vec![0, 0]);
    assert_eq!(b.normalize(FULL_SCALE), Err(AudioError::DivisionByZero));
}

#[test]
fn channel_access_on_mono_is_invalid_variant() {
    let b = AudioBuffer::Mono(vec![1, 2]);
    assert_eq!(b.left().err(), Some(AudioError::InvalidVariant));
    assert_eq!(b.rigth().err(), Some(AudioError::InvalidVariant));
    assert!(b.stereo().is_err());
    let s = AudioBuffer::Stereo(vec![1], vec![2]);
    assert_eq!(s.rigth().unwrap(), &vec![2]);
}

#[test]
fn blank_keeps_variant_and_zeroes() {
    let mut b = AudioBuffer::default();
    b.blank(5);
    assert_eq!(b, AudioBuffer::Stereo(vec![0; 5], vec![0; 5]));
    assert_eq!(b.len(), 5);
}

#[test]
fn pcm16_round_trip_within_one_step() {
    let samples: Vec<i64> = vec![0, 1, -1, FULL_SCALE, -FULL_SCALE, FULL_SCALE / 3, -FULL_SCALE / 7, 123_456_789];
    let b = AudioBuffer::Mono(samples.clone());
    let data = b.encode(16).unwrap();
    let back = AudioBuffer::decode(&data, 1).unwrap();
    let step = FULL_SCALE / 32767 + 1;
    match back {
        AudioBuffer::Mono(c) => {
            for (a, b) in c.iter().zip(samples.iter()) {
                assert!((a - b).abs() <= step, "{} vs {}", a, b);
            }
        }
        _ => panic!("expected mono"),
    }
}

#[test]
fn pcm16_full_scale_values() {
    let b = AudioBuffer::Stereo(vec![FULL_SCALE, 0], vec![-FULL_SCALE, FULL_SCALE / 2]);
    match b.encode(16).unwrap() {
        EncodedAudio::Sixteen(v) => assert_eq!(v, vec![32767, -32767, 0, 16383]),
        _ => panic!("expected 16-bit data"),
    }
}

#[test]
fn pcm24_keeps_samples_and_saturates() {
    let b = AudioBuffer::Mono(vec![5, -7, FULL_SCALE * 2]);
    match b.encode(24).unwrap() {
        EncodedAudio::TwentyFour(v) => assert_eq!(v, vec![5, -7, i32::MAX]),
        _ => panic!("expected 24-bit data"),
    }
}

#[test]
fn unsupported_depths_and_layouts() {
    let b = AudioBuffer::Mono(vec![1]);
    assert_eq!(b.encode(8).err().map(|e| e), Some(AudioError::UnsupportedFormat));
    assert!(AudioBuffer::decode(&EncodedAudio::Eight(vec![1, 2]), 1).is_err());
    assert!(AudioBuffer::decode(&EncodedAudio::Sixteen(vec![1, 2, 3]), 3).is_err());
    assert!(AudioBuffer::decode(&EncodedAudio::Empty, 2).is_err());
}

#[test]
fn stereo_decode_splits_even_and_odd() {
    let d = EncodedAudio::TwentyFour(vec![1, 2, 3, 4, 5]);
    let b = AudioBuffer::decode(&d, 2).unwrap();
    assert_eq!(b, AudioBuffer::Stereo(vec![1, 3], vec![2, 4]));
}

#[test]
fn synth_configuration_ranges() {
    assert_eq!(synth(500, 48_000).validate(), Ok(()));
    let bad = SynthConfiguration {
        beat_length_ms: 50 * M,
        engine_sampling_rate: 8_000,
        output_directory: String::new(),
        output_sampling_rate: 48_000,
        output_bit_depth: 12,
    };
    assert_eq!(
        bad.validate(),
        Err(vec![ConfigError::BeatLength, ConfigError::EngineSamplingRate, ConfigError::OutputBitDepth])
    );
}

#[test]
fn pitch_fractions_must_total_one_hundred() {
    let ok = GrainsPitch::Steps { steps: vec![(M, 60 * M), (2 * M, 40 * M)] };
    assert_eq!(ok.validate(1), Ok(()));
    let short = GrainsPitch::Steps { steps: vec![(M, 60 * M), (2 * M, 39 * M)] };
    assert_eq!(short.validate(1), Err(vec![ConfigError::PitchFractionTotal { track: 1 }]));
    let near = GrainsPitch::Steps { steps: vec![(M, 60 * M), (2 * M, 40 * M - 50)] };
    assert_eq!(near.validate(1), Ok(()));
    let bad = GrainsPitch::Steps { steps: vec![(10 * M, 120 * M)] };
    assert_eq!(
        bad.validate(2),
        Err(vec![
            ConfigError::PitchValue { track: 2, step: 1 },
            ConfigError::PitchFraction { track: 2, step: 1 }
        ])
    );
}

#[test]
fn grain_length_and_window_checks() {
    let c = synth(500, 48_000);
    assert_eq!(GrainsLength::Fixed { equal: 5 * M }.validate(&c, 1), Err(ConfigError::GrainsLength { track: 1 }));
    assert_eq!(
        GrainsLength::Range { from: 30 * M, to: 20 * M }.validate(&c, 1),
        Err(ConfigError::GrainsLengthOrder { track: 1 })
    );
    let w = GWFunction::SmoothstepUnregular { slope_attack: 10 * M, slope_release: 10 * M };
    assert_eq!(
        w.validate(&GrainsLength::Fixed { equal: 20 * M }, 3),
        Err(ConfigError::WindowSlopeLength { track: 3 })
    );
    assert_eq!(
        GWFunction::SmoothstepRegular { slope: 50_000 }.validate(&GrainsLength::Fixed { equal: 20 * M }, 3),
        Err(ConfigError::WindowSlope { track: 3 })
    );
}

#[test]
fn beat_checks() {
    let c = synth(500, 48_000);
    assert_eq!(beat(4, 100, 10).validate(&c, 1, 1), Ok(()));
    let b = BeatConfiguration {
        subdivisions: 60,
        coverage_percentage: 101 * M,
        humanization_percents: 51 * M,
        volume_deviation_percents: -1,
        panorama_deviation_percents: 0,
    };
    assert_eq!(
        b.validate(&c, 2, 3),
        Err(vec![
            ConfigError::Subdivisions { track: 2, beat: 3 },
            ConfigError::CoveragePercentage { track: 2, beat: 3 },
            ConfigError::HumanizationPercents { track: 2, beat: 3 },
            ConfigError::VolumeDeviationPercents { track: 2, beat: 3 },
        ])
    );
}

fn track(name: &str, beats: Vec<BeatConfiguration>) -> Track {
    Track::new(
        TrackProperties { track_name: name.to_string(), track_normalization_level: 800_000, track_panorama: -250_000 },
        grains(4, true, GrainsPitch::Fixed),
        beats,
    )
}

#[test]
fn duplicate_track_names_are_reported() {
    let c = synth(500, 48_000);
    let tracks = vec![track("a", vec![]), track("b", vec![]), track("a", vec![])];
    assert_eq!(
        validate_tracks(&tracks, &c),
        Err(vec![ConfigError::DuplicateTrackName { track: 1, count: 2 }])
    );
    let ok = vec![track("a", vec![beat(4, 100, 0)]), track("b", vec![])];
    assert_eq!(validate_tracks(&ok, &c), Ok(()));
}

#[test]
fn track_errors_are_numbered() {
    let c = synth(500, 48_000);
    let mut t = track("", vec![beat(4, 100, 0), beat(4, 100, 60)]);
    t.grains_properties.grains_count = 2;
    assert_eq!(
        validate_tracks(&vec![t], &c),
        Err(vec![
            ConfigError::TrackName { track: 1 },
            ConfigError::GrainsCount { track: 1 },
            ConfigError::HumanizationPercents { track: 1, beat: 2 },
        ])
    );
}

#[test]
fn one_beat_of_four_sub_beats() {
    let c = synth(500, 48_000);
    let mut s = Sequencer::default();
    s.generate_sequence(&vec![beat(4, 100, 0)], &c);
    let starts: Vec<usize> = s.sequence.iter().map(|e| e.start_index).collect();
    assert_eq!(starts, vec![24_000, 30_000, 36_000, 42_000]);
    for e in s.sequence.iter() {
        assert!(-200_000 <= e.panorama && e.panorama < 200_000);
        assert!(900_000 <= e.volume && e.volume < 1_100_000);
    }
}

#[test]
fn humanized_events_stay_in_their_beat() {
    let c = synth(500, 48_000);
    for _ in 0..20 {
        let mut s = Sequencer::default();
        s.generate_sequence(&vec![beat(4, 100, 50)], &c);
        assert_eq!(s.sequence.len(), 4);
        for e in s.sequence.iter() {
            assert!(24_000 <= e.start_index && e.start_index < 48_000);
        }
    }
}

#[test]
fn coverage_selects_rounded_share() {
    let c = synth(1000, 48_000);
    let mut s = Sequencer::default();
    s.generate_sequence(&vec![beat(8, 50, 0), beat(5, 30, 10), beat(3, 0, 0)], &c);
    assert_eq!(s.sequence.len(), 4 + 2);
    let first: Vec<&Event> = s.sequence.iter().filter(|e| e.start_index < 96_000).collect();
    assert_eq!(first.len(), 4);
    for w in s.sequence.windows(2) {
        assert!(w[0].start_index <= w[1].start_index);
    }
}

#[test]
fn fixed_grains_have_fixed_length_and_full_peak() {
    let c = synth(500, 48_000);
    let props = grains(4, true, GrainsPitch::Fixed);
    let mut s = Sampler::default();
    let src = AudioBuffer::Mono(ramp(48_000));
    assert_eq!(s.prepare(&c, &props, 48_000, 48_000, &vec![src]), Ok(()));
    assert_eq!(s.grains_buffer.len(), 4);
    for g in s.grains_buffer.iter() {
        assert_eq!(g.len(), 960);
        assert_eq!(peak(g), FULL_SCALE as u64);
        match g {
            AudioBuffer::Mono(c) => {
                assert_eq!(c[0], 0);
                assert_eq!(c[959], 0);
            }
            _ => panic!("expected mono grain"),
        }
    }
}

#[test]
fn dispensing_keeps_the_bank() {
    let c = synth(500, 48_000);
    let props = grains(6, false, GrainsPitch::Fixed);
    let mut s = Sampler::default();
    let src = AudioBuffer::Stereo(ramp(10_000), ramp(10_000));
    assert_eq!(s.prepare(&c, &props, 10_000, 48_000, &vec![src]), Ok(()));
    let front: Vec<AudioBuffer> = s.grains_buffer[..3].to_vec();
    for _ in 0..50 {
        let before = s.grains_buffer.clone();
        let g = s.sample().clone();
        assert_eq!(s.grains_buffer.len(), 6);
        assert_eq!(s.grains_buffer[5], g);
        assert!(before[..3].contains(&g));
    }
    let g = front[0].clone();
    assert!(s.grains_buffer.contains(&g));
}

#[test]
fn short_sources_are_rejected() {
    let c = synth(500, 48_000);
    let props = grains(4, false, GrainsPitch::Fixed);
    let mut s = Sampler::default();
    assert_eq!(
        s.prepare(&c, &props, 1_000, 48_000, &vec![AudioBuffer::Mono(ramp(1_000))]),
        Err(SamplerError::TooShort)
    );
    assert_eq!(s.grains_buffer.len(), 0);
}

#[test]
fn pitch_steps_share_the_count() {
    let c = synth(500, 48_000);
    let props = grains(10, false, GrainsPitch::Steps { steps: vec![(M, 70 * M), (2 * M, 30 * M)] });
    let mut s = Sampler::default();
    let v = vec![AudioBuffer::Mono(ramp(20_000)), AudioBuffer::Mono(ramp(10_000))];
    assert_eq!(s.prepare(&c, &props, 20_000, 48_000, &v), Ok(()));
    assert_eq!(s.grains_buffer.len(), 10);
    let tiny = grains(4, false, GrainsPitch::Steps { steps: vec![(M, 99 * M), (2 * M, M)] });
    let mut t = Sampler::default();
    assert_eq!(t.prepare(&c, &tiny, 20_000, 48_000, &v), Err(SamplerError::InvalidConfig));
}

#[test]
fn mixing_applies_pan_law_and_truncates() {
    let mut canvas = AudioBuffer::Stereo(vec![10; 4], vec![10; 4]);
    let grain = AudioBuffer::Mono(vec![1_000_000, 2_000_000, 3_000_000]);
    let e = Event { start_index: 2, panorama: 500_000, volume: 2_000_000 };
    mix_event(&mut canvas, &grain, &e, -500_000);
    // left: volume 2 x event pan 0.5 x track pan 1; right: 2 x 1 x 0.5
    assert_eq!(canvas, AudioBuffer::Stereo(vec![10, 10, 1_000_010, 2_000_010], vec![10, 10, 1_000_010, 2_000_010]));
}

#[test]
fn stereo_grain_goes_side_by_side() {
    let mut canvas = AudioBuffer::Stereo(vec![0; 2], vec![0; 2]);
    let grain = AudioBuffer::Stereo(vec![100, 200], vec![-300, -400]);
    let e = Event { start_index: 0, panorama: 0, volume: 1_000_000 };
    mix_event(&mut canvas, &grain, &e, 0);
    assert_eq!(canvas, AudioBuffer::Stereo(vec![100, 200], vec![-300, -400]));
}

#[test]
fn render_one_beat_track() {
    let c = synth(500, 48_000);
    let mut engine = GranularSynth { synth_configuration: c, tracks: vec![track("t", vec![beat(4, 100, 0)])] };
    let sources = vec![TrackSource {
        source_frames: 48_000,
        source_sampling_rate: 48_000,
        variants: vec![AudioBuffer::Mono(ramp(48_000))],
    }];
    assert_eq!(engine.run(&sources), Ok(()));
    let t = &engine.tracks[0];
    assert_eq!(t.canva.len(), 72_000);
    assert_eq!(t.sequencer.sequence.len(), 4);
    assert_eq!(peak(&t.canva), (800_000u64 * FULL_SCALE as u64) / 1_000_000);
    assert_eq!(t.sampler.grains_buffer.len(), 4);
}

#[test]
fn render_reports_mismatched_sources() {
    let c = synth(500, 48_000);
    let mut engine = GranularSynth { synth_configuration: c, tracks: vec![track("t", vec![beat(4, 100, 0)])] };
    assert_eq!(engine.run(&vec![]), Err(SynthError::SourceMismatch));
    let sources = vec![TrackSource { source_frames: 100, source_sampling_rate: 48_000, variants: vec![AudioBuffer::Mono(ramp(100))] }];
    assert_eq!(engine.run(&sources), Err(SynthError::Sampler(SamplerError::TooShort)));
    assert_eq!(engine.tracks.len(), 1);
}

#[test]
fn silent_track_cannot_be_normalized() {
    let c = synth(500, 48_000);
    let mut engine = GranularSynth { synth_configuration: c, tracks: vec![track("t", vec![beat(4, 0, 0)])] };
    let sources = vec![TrackSource {
        source_frames: 48_000,
        source_sampling_rate: 48_000,
        variants: vec![AudioBuffer::Mono(ramp(48_000))],
    }];
    assert_eq!(engine.run(&sources), Err(SynthError::Audio(AudioError::DivisionByZero)));
}

#[test]
fn run_with_no_tracks_succeeds() {
    let mut engine = GranularSynth { synth_configuration: synth(500, 48_000), tracks: vec![] };
    assert_eq!(engine.run(&vec![]), Ok(()));
}

#[test]
fn variant_count_must_match_pitch_steps() {
    let c = synth(500, 48_000);
    let mut t = track("t", vec![beat(4, 100, 0)]);
    t.grains_properties.grains_pitch = GrainsPitch::Steps { steps: vec![(M, 50 * M), (2 * M, 50 * M)] };
    let mut engine = GranularSynth { synth_configuration: c, tracks: vec![t] };
    let sources = vec![TrackSource {
        source_frames: 48_000,
        source_sampling_rate: 48_000,
        variants: vec![AudioBuffer::Mono(ramp(48_000))],
    }];
    assert_eq!(engine.run(&sources), Err(SynthError::SourceMismatch));
    assert_eq!(engine.tracks[0].sampler.grains_buffer.len(), 0);
}

#[test]
fn eight_bit_output_is_rejected_early() {
    let mut c = synth(500, 48_000);
    c.output_bit_depth = 8;
    assert_eq!(c.validate(), Err(vec![ConfigError::OutputBitDepth]));
}

#[test]
fn silent_grain_to_normalize_is_reported() {
    let c = synth(500, 48_000);
    let props = grains(4, true, GrainsPitch::Fixed);
    let mut s = Sampler::default();
    let src = AudioBuffer::Mono(vec![0; 48_000]);
    assert_eq!(s.prepare(&c, &props, 48_000, 48_000, &vec![src]), Err(SamplerError::SilentGrain));
    assert_eq!(s.grains_buffer.len(), 0);
}

#[test]
fn range_lengths_include_both_ends() {
    let c = synth(500, 48_000);
    let mut props = grains(40, false, GrainsPitch::Fixed);
    props.grains_length_ms = GrainsLength::Range { from: 20 * M, to: 20 * M + 20_000 };
    let mut s = Sampler::default();
    let src = AudioBuffer::Mono(ramp(10_000));
    assert_eq!(s.prepare(&c, &props, 10_000, 48_000, &vec![src]), Ok(()));
    for g in s.grains_buffer.iter() {
        assert!(960 <= g.len() && g.len() <= 961);
    }
}
