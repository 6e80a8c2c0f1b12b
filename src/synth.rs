//! Rendering of tracks: grains handed out by each track's bank are mixed into a stereo
//! canvas at the starts of the track's events, with a linear pan law, and the canvas is
//! normalized to the track's level.
use crate::arith::{clamp, scale, scaled, MICRO};
use crate::audio::{channels_peak, zeros, AudioBuffer, AudioError, FULL_SCALE};
use crate::config::{GrainsPitch, SynthConfiguration, Track};
use crate::sampler::{
    has_empty_step, lemma_prepared_bank_can_dispense, source_too_short, variant_count, SamplerError,
};
use crate::sequencer::{
    beat_samples, drawn_without_repetition, events_match_beats, sorted_by_start, Event,
};
use crate::sampler::{from_variants, grain_length_samples, total_grains, Sampler};
use vstd::arithmetic::div_mod::*;
use vstd::arithmetic::mul::*;
use vstd::prelude::*;

verus! {

/// Scale of a mixing gain: the product of three factors in millionths.
pub const GAIN_UNIT: u64 = 1_000_000_000_000_000_000;

/// The source of one track, loaded and resampled: its length and rate before resampling,
/// and one resampled buffer per pitch variant.
#[derive(Debug)]
pub struct TrackSource {
    pub source_frames: usize,
    pub source_sampling_rate: u32,
    pub variants: Vec<AudioBuffer>,
}

#[derive(Debug, Clone, Copy, PartialEq, Eq, Structural)]
pub enum SynthError {
    Sampler(SamplerError),
    Audio(AudioError),
    /// The sources do not match the tracks: one per track, one variant per pitch variant.
    SourceMismatch,
    /// A track's canvas would not fit in memory.
    CanvasTooLarge,
}

/// The engine: settings and tracks.
#[derive(Debug)]
pub struct GranularSynth {
    pub synth_configuration: SynthConfiguration,
    pub tracks: Vec<Track>,
}

/// Pan positions beyond the ends are held at the ends.
pub open spec fn held_pan(p: int) -> int {
    clamp(p, -MICRO, MICRO as int)
}

/// Volume factors are held between 0 and 2.
pub open spec fn held_volume(v: int) -> int {
    clamp(v, 0, 2 * MICRO)
}

/// Linear pan law, left side: full to the left, fading to silence to the right.
pub open spec fn left_gain(pan: int) -> int {
    if pan < 0 {
        MICRO as int
    } else {
        MICRO - pan
    }
}

/// Linear pan law, right side.
pub open spec fn right_gain(pan: int) -> int {
    if pan < 0 {
        MICRO + pan
    } else {
        MICRO as int
    }
}

/// Gain of an event on one side, in units of `GAIN_UNIT`: its volume, its own pan gain and
/// the track's pan gain.
pub open spec fn event_gain(e: Event, track_pan: int, left: bool) -> int {
    let p = held_pan(e.panorama as int);
    held_volume(e.volume as int) * (if left {
        left_gain(p) * left_gain(track_pan)
    } else {
        right_gain(p) * right_gain(track_pan)
    })
}

/// `canvas` with `grain × gain` added from `start` on; what would fall past the end is cut
/// off, and sums are held within the 64-bit range.
pub open spec fn mixed(canvas: Seq<i64>, grain: Seq<i64>, start: int, gain: int) -> Seq<i64> {
    Seq::new(
        canvas.len(),
        |k: int|
            if start <= k < start + grain.len() {
                clamp(
                    canvas[k] + scaled(grain[k - start] as int, gain, GAIN_UNIT as int),
                    i64::MIN as int,
                    i64::MAX as int,
                ) as i64
            } else {
                canvas[k]
            },
    )
}

/// Track level as a sample value: `level` millionths of full scale.
pub open spec fn level_samples(level: int) -> int {
    level * FULL_SCALE / MICRO as int
}

/// Both canvas channels after the first `n` events were mixed in, event `i` with grain `i`.
pub open spec fn mixed_canvas(
    canvas: Seq<Seq<i64>>,
    grains: Seq<AudioBuffer>,
    events: Seq<Event>,
    track_pan: int,
    n: int,
) -> Seq<Seq<i64>>
    decreases n,
{
    if n <= 0 {
        canvas
    } else {
        let prev = mixed_canvas(canvas, grains, events, track_pan, n - 1);
        let g = grains[n - 1];
        let e = events[n - 1];
        seq![
            mixed(prev[0], g.channels()[0], e.start_index as int, event_gain(e, track_pan, true)),
            mixed(
                prev[1],
                g.channels()[if g.is_stereo() { 1int } else { 0int }],
                e.start_index as int,
                event_gain(e, track_pan, false),
            ),
        ]
    }
}

proof fn lemma_mixed_canvas_prefix(
    canvas: Seq<Seq<i64>>,
    a: Seq<AudioBuffer>,
    b: Seq<AudioBuffer>,
    events: Seq<Event>,
    track_pan: int,
    n: int,
)
    requires
        0 <= n <= a.len(),
        n <= b.len(),
        forall|i: int| 0 <= i < n ==> a[i] == b[i],
    ensures
        mixed_canvas(canvas, a, events, track_pan, n) == mixed_canvas(canvas, b, events, track_pan, n),
    decreases n,
{
    if n > 0 {
        lemma_mixed_canvas_prefix(canvas, a, b, events, track_pan, n - 1);
    }
}

/// A silent stereo canvas of `size` samples.
pub open spec fn blank_canvas(size: int) -> Seq<Seq<i64>> {
    seq![Seq::new(size as nat, |i: int| 0i64), Seq::new(size as nat, |i: int| 0i64)]
}

/// Channels scaled so that their common peak becomes `level`.
pub open spec fn normalized(chs: Seq<Seq<i64>>, level: int) -> Seq<Seq<i64>> {
    chs.map_values(|c: Seq<i64>| crate::audio::scaled_seq(c, level, crate::audio::channels_peak(chs)))
}

fn gain_of(e: &Event, track_pan: i64, left: bool) -> (g: u64)
    requires
        -MICRO <= track_pan <= MICRO,
    ensures
        g == event_gain(*e, track_pan as int, left),
        g <= 2 * GAIN_UNIT,
{
    let p: i64 = if e.panorama < -(MICRO as i64) {
        -(MICRO as i64)
    } else if e.panorama > MICRO as i64 {
        MICRO as i64
    } else {
        e.panorama
    };
    let v: i64 = if e.volume < 0 {
        0
    } else if e.volume > 2 * MICRO as i64 {
        2 * MICRO as i64
    } else {
        e.volume
    };
    let (a, b): (i64, i64) = if left {
        (if p < 0 { MICRO as i64 } else { MICRO as i64 - p }, if track_pan < 0 {
            MICRO as i64
        } else {
            MICRO as i64 - track_pan
        })
    } else {
        (if p < 0 { MICRO as i64 + p } else { MICRO as i64 }, if track_pan < 0 {
            MICRO as i64 + track_pan
        } else {
            MICRO as i64
        })
    };
    proof {
        lemma_mul_upper_bound(a as int, MICRO as int, b as int, MICRO as int);
        lemma_mul_nonnegative(a as int, b as int);
        lemma_mul_upper_bound(v as int, 2 * MICRO as int, (a as int) * (b as int), 1_000_000_000_000);
        lemma_mul_nonnegative(v as int, (a as int) * (b as int));
    }
    (v as u64) * ((a as u64) * (b as u64))
}

/// Adds `grain × gain / GAIN_UNIT` into `canvas` from `start` on.
fn mix_channel(canvas: &mut Vec<i64>, grain: &Vec<i64>, start: usize, gain: u64)
    requires
        gain <= 2 * GAIN_UNIT,
    ensures
        final(canvas)@ == mixed(old(canvas)@, grain@, start as int, gain as int),
{
    let ghost orig = canvas@;
    if start >= canvas.len() {
        proof {
            assert(canvas@ =~= mixed(orig, grain@, start as int, gain as int));
        }
        return;
    }
    let room = canvas.len() - start;
    let mut j: usize = 0;
    while j < grain.len() && j < room
        invariant
            start < canvas.len(),
            room == canvas.len() - start,
            canvas.len() == orig.len(),
            j <= grain.len(),
            j <= room,
            gain <= 2 * GAIN_UNIT,
            forall|k: int|
                0 <= k < orig.len() && !(start <= k < start + j) ==> canvas@[k] == orig[k],
            forall|k: int|
                start <= k < start + j ==> canvas@[k] == mixed(orig, grain@, start as int, gain as int)[k],
        decreases grain.len() - j,
    {
        let v = scale(grain[j], gain, GAIN_UNIT);
        proof {
            lemma_mul_upper_bound(
                crate::arith::magnitude(grain@[j as int] as int),
                0x8000_0000_0000_0000,
                gain as int,
                2 * GAIN_UNIT as int,
            );
        }
        let sum: i128 = canvas[start + j] as i128 + v;
        let held: i64 = if sum < i64::MIN as i128 {
            i64::MIN
        } else if sum > i64::MAX as i128 {
            i64::MAX
        } else {
            sum as i64
        };
        canvas.set(start + j, held);
        j = j + 1;
    }
    proof {
        assert(canvas@ =~= mixed(orig, grain@, start as int, gain as int));
    }
}

/// Mixes a grain into a stereo canvas at the event's start: a mono grain into both sides,
/// a stereo grain side by side; each side weighted by the event's volume, the event's pan
/// and the track's pan.
pub fn mix_event(canvas: &mut AudioBuffer, grain: &AudioBuffer, event: &Event, track_pan: i64)
    requires
        old(canvas).is_stereo(),
        old(canvas).wf(),
        grain.wf(),
        -MICRO <= track_pan <= MICRO,
    ensures
        final(canvas).is_stereo(),
        final(canvas).wf(),
        final(canvas).channels()[0] == mixed(
            old(canvas).channels()[0],
            grain.channels()[0],
            event.start_index as int,
            event_gain(*event, track_pan as int, true),
        ),
        final(canvas).channels()[1] == mixed(
            old(canvas).channels()[1],
            grain.channels()[if grain.is_stereo() { 1int } else { 0int }],
            event.start_index as int,
            event_gain(*event, track_pan as int, false),
        ),
{
    let gl = gain_of(event, track_pan, true);
    let gr = gain_of(event, track_pan, false);
    match canvas {
        AudioBuffer::Stereo(l, r) => match grain {
            AudioBuffer::Mono(c) => {
                mix_channel(l, c, event.start_index, gl);
                mix_channel(r, c, event.start_index, gr);
            },
            AudioBuffer::Stereo(cl, cr) => {
                mix_channel(l, cl, event.start_index, gl);
                mix_channel(r, cr, event.start_index, gr);
            },
        },
        AudioBuffer::Mono(_) => {},
    }
}


/// A track that has not been rendered yet: empty grain bank and event list.
pub open spec fn fresh(t: Track) -> bool {
    t.sampler.grains_buffer@.len() == 0 && t.sequencer.sequence@.len() == 0
}

/// The state of a track after rendering from the pitch `variants` of its source; `ok` says
/// whether the mix could be normalized. The canvas is stereo, one beat of lead-in, the beats
/// and one beat of margin long. The events are sorted and are, beat by beat, those the beat
/// configuration produces (drawn without repetition). The mix is the sum, over a silent
/// canvas, of one grain per event in ascending order of start, each cut from one of the
/// variants and handed out by the track's bank (which holds exactly the prepared grains,
/// each cut from a variant); it is normalizable exactly when it is not silent, and then the canvas is the
/// mix normalized to the track's level; otherwise the canvas is the silent mix itself.
#[verifier::opaque]
pub open spec fn rendered_from(t: Track, c: SynthConfiguration, variants: Seq<AudioBuffer>, ok: bool) -> bool {
    let bl = beat_samples(c);
    let beats = t.beat_sequence@;
    let events = t.sequencer.sequence@;
    let level = level_samples(t.track_properties.track_normalization_level as int);
    &&& t.canva.is_stereo()
    &&& t.canva.wf()
    &&& t.canva.frames() == bl * (beats.len() + 2)
    &&& sorted_by_start(events)
    &&& exists|generated: Seq<Event>, cands: Seq<Seq<usize>>, jitters: Seq<Seq<int>>|
        #![trigger events_match_beats(generated, beats, bl, beats.len() as int), drawn_without_repetition(generated, beats, bl, beats.len() as int, cands, jitters)]
        events_match_beats(generated, beats, bl, beats.len() as int) && drawn_without_repetition(
            generated,
            beats,
            bl,
            beats.len() as int,
            cands,
            jitters,
        ) && events.to_multiset() == generated.to_multiset()
    &&& exists|grains: Seq<AudioBuffer>|
        #![trigger mixed_canvas(blank_canvas(t.canva.frames() as int), grains, events, t.track_properties.track_panorama as int, grains.len() as int)]
        grains.len() == events.len() && (forall|i: int|
            0 <= i < grains.len() ==> t.sampler.grains_buffer@.contains(#[trigger] grains[i]))
            && ({
            let mix = mixed_canvas(
                blank_canvas(t.canva.frames() as int),
                grains,
                events,
                t.track_properties.track_panorama as int,
                grains.len() as int,
            );
            &&& (ok <==> channels_peak(mix) > 0)
            &&& (ok ==> t.canva.channels() == normalized(mix, level))
            &&& (!ok ==> t.canva.channels() == mix)
        })
    &&& t.sampler.grains_buffer@.len() == total_grains(t.grains_properties)
    &&& forall|k: int|
        0 <= k < t.sampler.grains_buffer@.len() ==> from_variants(
            #[trigger] t.sampler.grains_buffer@[k],
            variants,
            t.grains_properties,
            c.engine_sampling_rate as int,
        )
    &&& ok ==> t.canva.peak() == level
}

/// `b` carries the settings of `a`.
pub open spec fn same_settings(a: Track, b: Track) -> bool {
    &&& b.track_properties == a.track_properties
    &&& b.grains_properties == a.grains_properties
    &&& b.beat_sequence@ == a.beat_sequence@
}

pub open spec fn bank_wf(s: Sampler) -> bool {
    forall|k: int| 0 <= k < s.grains_buffer@.len() ==> (#[trigger] s.grains_buffer@[k]).wf()
}

/// The library's own reason to refuse a track before any random draw, in the order the
/// checks are made: sources that do not match, a canvas that cannot be allocated, a source
/// too short for the grains, a pitch step without grains.
pub open spec fn precheck(t: Track, s: TrackSource, c: SynthConfiguration) -> Option<SynthError> {
    if s.variants@.len() != variant_count(t.grains_properties.grains_pitch) || !(forall|j: int|
        0 <= j < s.variants@.len() ==> (#[trigger] s.variants@[j]).wf()) {
        Some(SynthError::SourceMismatch)
    } else if (t.beat_sequence@.len() + 2) * beat_samples(c) > usize::MAX {
        Some(SynthError::CanvasTooLarge)
    } else if source_too_short(
        s.source_frames as int,
        s.source_sampling_rate as int,
        s.variants@,
        t.grains_properties,
        c.engine_sampling_rate as int,
    ) {
        Some(SynthError::Sampler(SamplerError::TooShort))
    } else if has_empty_step(t.grains_properties) {
        Some(SynthError::Sampler(SamplerError::InvalidConfig))
    } else {
        None
    }
}

/// Mixes a handed-out grain at every event into the canvas.
fn mix_all(canva: &mut AudioBuffer, sampler: &mut Sampler, sequence: &Vec<Event>, pan: i64)
    requires
        old(canva).is_stereo(),
        old(canva).wf(),
        -MICRO <= pan <= MICRO,
        old(sampler).grains_buffer@.len() >= 2,
        bank_wf(*old(sampler)),
    ensures
        final(canva).is_stereo(),
        final(canva).wf(),
        final(canva).frames() == old(canva).frames(),
        final(sampler).grains_buffer@.to_multiset() == old(sampler).grains_buffer@.to_multiset(),
        exists|grains: Seq<AudioBuffer>|
            grains.len() == sequence@.len() && (forall|i: int|
                0 <= i < grains.len() ==> old(sampler).grains_buffer@.contains(#[trigger] grains[i]))
                && final(canva).channels() == mixed_canvas(
                old(canva).channels(),
                grains,
                sequence@,
                pan as int,
                sequence@.len() as int,
            ),
{
    let n = sequence.len();
    let ghost start = canva.channels();
    let ghost initial = sampler.grains_buffer@;
    let ghost mut grains: Seq<AudioBuffer> = Seq::empty();
    let ghost size = canva.frames();
    let mut i: usize = 0;
    while i < n
        invariant
            i <= n,
            n == sequence@.len(),
            canva.is_stereo(),
            canva.wf(),
            canva.frames() == size,
            -MICRO <= pan <= MICRO,
            sampler.grains_buffer@.len() == initial.len(),
            initial.len() >= 2,
            forall|k: int| 0 <= k < initial.len() ==> (#[trigger] initial[k]).wf(),
            sampler.grains_buffer@.to_multiset() == initial.to_multiset(),
            grains.len() == i,
            forall|k: int| 0 <= k < grains.len() ==> initial.contains(#[trigger] grains[k]),
            canva.channels() == mixed_canvas(start, grains, sequence@, pan as int, i as int),
        decreases n - i,
    {
        let ev = sequence[i];
        let ghost before = sampler.grains_buffer@;
        let grain = sampler.sample();
        proof {
            assert(exists|j: int| 0 <= j < before.len() / 2 && *grain == before[j]);
            let j = choose|j: int| 0 <= j < before.len() / 2 && *grain == before[j];
            before.to_multiset_ensures();
            initial.to_multiset_ensures();
            assert(before.to_multiset().count(before[j]) > 0);
            assert(initial.contains(before[j]));
            let p = choose|p: int| 0 <= p < initial.len() && initial[p] == before[j];
            assert(initial[p].wf());
        }
        let ghost g = *grain;
        mix_event(canva, grain, &ev, pan);
        proof {
            let g0 = grains;
            let j = choose|j: int|
                0 <= j < before.len() / 2 && sampler.grains_buffer@ == before.remove(j).push(
                    before[j],
                ) && g == before[j];
            grains = grains.push(g);
            lemma_mixed_canvas_prefix(start, g0, grains, sequence@, pan as int, i as int);
            assert(canva.channels() =~= mixed_canvas(start, grains, sequence@, pan as int, i + 1));
            assert forall|k: int| 0 <= k < grains.len() implies initial.contains(#[trigger] grains[k]) by {
                if k < g0.len() {
                    assert(grains[k] == g0[k]);
                } else {
                    before.to_multiset_ensures();
                    initial.to_multiset_ensures();
                    assert(before.to_multiset().count(before[j]) > 0);
                    assert(initial.contains(before[j]));
                }
            }
            before.to_multiset_ensures();
            before.remove(j).to_multiset_ensures();
            assert(sampler.grains_buffer@.to_multiset() =~= before.to_multiset());
        }
        i = i + 1;
    }
}

/// Fills a fresh track's grain bank from its source.
fn fill_bank(track: &mut Track, synth_configuration: &SynthConfiguration, source: &TrackSource) -> (r:
    Result<(), SynthError>)
    requires
        synth_configuration.wf(),
        old(track).wf(*synth_configuration),
        old(track).sampler.grains_buffer@.len() == 0,
        source.variants@.len() == variant_count(old(track).grains_properties.grains_pitch),
        forall|j: int| 0 <= j < source.variants@.len() ==> (#[trigger] source.variants@[j]).wf(),
    ensures
        final(track).track_properties == old(track).track_properties,
        final(track).grains_properties == old(track).grains_properties,
        final(track).beat_sequence@ == old(track).beat_sequence@,
        final(track).canva == old(track).canva,
        final(track).sequencer == old(track).sequencer,
        source_too_short(
            source.source_frames as int,
            source.source_sampling_rate as int,
            source.variants@,
            old(track).grains_properties,
            synth_configuration.engine_sampling_rate as int,
        ) || has_empty_step(old(track).grains_properties) ==> r == Err::<(), SynthError>(
            SynthError::Sampler(
                if source_too_short(
                    source.source_frames as int,
                    source.source_sampling_rate as int,
                    source.variants@,
                    old(track).grains_properties,
                    synth_configuration.engine_sampling_rate as int,
                ) {
                    SamplerError::TooShort
                } else {
                    SamplerError::InvalidConfig
                },
            ),
        ) && *final(track) == *old(track),
        !(source_too_short(
            source.source_frames as int,
            source.source_sampling_rate as int,
            source.variants@,
            old(track).grains_properties,
            synth_configuration.engine_sampling_rate as int,
        ) || has_empty_step(old(track).grains_properties)) ==> r is Ok || (r
            == Err::<(), SynthError>(SynthError::Sampler(SamplerError::SilentGrain))
            && old(track).grains_properties.grains_laudness_normalization
            && final(track).sampler.grains_buffer@ == old(track).sampler.grains_buffer@),
        r is Ok ==> final(track).sampler.grains_buffer@.len() >= 2 && bank_wf(final(track).sampler)
            && final(track).sampler.grains_buffer@.len() == total_grains(final(track).grains_properties)
            && forall|k: int|
            0 <= k < final(track).sampler.grains_buffer@.len() ==> from_variants(
                #[trigger] final(track).sampler.grains_buffer@[k],
                source.variants@,
                final(track).grains_properties,
                synth_configuration.engine_sampling_rate as int,
            ),
{
    match track.sampler.prepare(
        synth_configuration,
        &track.grains_properties,
        source.source_frames,
        source.source_sampling_rate,
        &source.variants,
    ) {
        Err(e) => {
            return Err(SynthError::Sampler(e));
        },
        Ok(()) => {},
    }
    proof {
        lemma_prepared_bank_can_dispense(track.grains_properties, synth_configuration.beat_length_ms as int);
        let bank = track.sampler.grains_buffer@;
        let rate = synth_configuration.engine_sampling_rate as int;
        assert forall|k: int| 0 <= k < bank.len() implies from_variants(
            #[trigger] bank[k],
            source.variants@,
            track.grains_properties,
            rate,
        ) && bank[k].wf() by {
            assert(!old(track).sampler.grains_buffer@.contains(bank[k]));
            let j = choose|j: int|
                0 <= j < source.variants@.len() && crate::sampler::is_grain_of(
                    bank[k],
                    #[trigger] source.variants@[j],
                    track.grains_properties,
                    rate,
                );
        }
    }
    Ok(())
}

/// A track level in millionths as a sample value.
fn level_target(level: i64) -> (r: i64)
    requires
        0 <= level <= MICRO,
    ensures
        r == level_samples(level as int),
        0 <= r <= FULL_SCALE,
{
    proof {
        lemma_mul_upper_bound(level as int, MICRO as int, FULL_SCALE as int, FULL_SCALE as int);
        lemma_mul_nonnegative(level as int, FULL_SCALE as int);
        lemma_div_is_ordered((level as int) * FULL_SCALE, MICRO * FULL_SCALE, MICRO as int);
        lemma_mul_is_commutative(MICRO as int, FULL_SCALE as int);
        lemma_div_by_multiple(FULL_SCALE as int, MICRO as int);
        lemma_div_pos_is_pos((level as int) * FULL_SCALE, MICRO as int);
    }
    ((level as u64) * (FULL_SCALE as u64) / MICRO) as i64
}

/// Renders one fresh track: fills its grain bank from `source`, generates its events,
/// mixes a handed-out grain at every event into a blank stereo canvas, and normalizes the
/// canvas to the track's level. A source too short for the grains or a pitch step without
/// grains leaves the track as it was; a silent grain that was to be normalized leaves it
/// without grains or events; a silent mix cannot be normalized; each is reported.
#[verifier::spinoff_prover]
pub fn render_track(track: &mut Track, synth_configuration: &SynthConfiguration, source: &TrackSource) -> (r:
    Result<(), SynthError>)
    requires
        synth_configuration.wf(),
        old(track).wf(*synth_configuration),
        fresh(*old(track)),
        source.variants@.len() == variant_count(old(track).grains_properties.grains_pitch),
        forall|j: int| 0 <= j < source.variants@.len() ==> (#[trigger] source.variants@[j]).wf(),
        (old(track).beat_sequence@.len() + 2) * beat_samples(*synth_configuration) <= usize::MAX,
    ensures
        final(track).track_properties == old(track).track_properties,
        final(track).grains_properties == old(track).grains_properties,
        final(track).beat_sequence@ == old(track).beat_sequence@,
        precheck(*old(track), *source, *synth_configuration) is Some ==> r == Err::<(), SynthError>(
            precheck(*old(track), *source, *synth_configuration)->0,
        ) && *final(track) == *old(track),
        precheck(*old(track), *source, *synth_configuration) is None && r == Err::<(), SynthError>(
            SynthError::Sampler(SamplerError::SilentGrain),
        ) ==> old(track).grains_properties.grains_laudness_normalization && fresh(*final(track)),
        precheck(*old(track), *source, *synth_configuration) is None && r != Err::<(), SynthError>(
            SynthError::Sampler(SamplerError::SilentGrain),
        ) ==> (r is Ok || r == Err::<(), SynthError>(SynthError::Audio(AudioError::DivisionByZero)))
            && rendered_from(*final(track), *synth_configuration, source.variants@, r is Ok),
{
    match fill_bank(track, synth_configuration, source) {
        Err(e) => {
            return Err(e);
        },
        Ok(()) => {},
    }
    let ghost empty_events = track.sequencer.sequence@;
    track.sequencer.generate_sequence(&track.beat_sequence, synth_configuration);
    let ghost events = track.sequencer.sequence@;
    proof {
        let bl_s = beat_samples(*synth_configuration);
        let beats = track.beat_sequence@;
        empty_events.to_multiset_ensures();
        vstd::multiset::lemma_multiset_empty_len(empty_events.to_multiset());
        let (g, c, j) = choose|generated: Seq<Event>, cands: Seq<Seq<usize>>, jitters: Seq<Seq<int>>|
            events_match_beats(generated, beats, bl_s, beats.len() as int) && drawn_without_repetition(
                generated,
                beats,
                bl_s,
                beats.len() as int,
                cands,
                jitters,
            ) && events.to_multiset() == empty_events.to_multiset().add(generated.to_multiset());
        assert(events.to_multiset() =~= g.to_multiset());
        assert(events_match_beats(g, beats, bl_s, beats.len() as int) && drawn_without_repetition(
            g,
            beats,
            bl_s,
            beats.len() as int,
            c,
            j,
        ) && events.to_multiset() == g.to_multiset());
    }
    let bl = grain_length_samples(synth_configuration.beat_length_ms, synth_configuration.engine_sampling_rate);
    proof {
        crate::sampler::lemma_grain_samples_positive(
            synth_configuration.beat_length_ms as int,
            synth_configuration.engine_sampling_rate as int,
        );
        lemma_mul_inequality(1, bl as int, (track.beat_sequence@.len() + 2) as int);
        lemma_mul_is_commutative(bl as int, (track.beat_sequence@.len() + 2) as int);
    }
    let size = bl * (track.beat_sequence.len() + 2);
    track.canva = AudioBuffer::Stereo(zeros(size), zeros(size));
    let pan = track.track_properties.track_panorama;
    proof {
        assert(track.canva.channels() =~= blank_canvas(size as int));
    }
    let ghost bank = track.sampler.grains_buffer@;
    mix_all(&mut track.canva, &mut track.sampler, &track.sequencer.sequence, pan);
    let target = level_target(track.track_properties.track_normalization_level);
    let ghost mixed_channels = track.canva.channels();
    let ghost used = choose|grains: Seq<AudioBuffer>|
        grains.len() == track.sequencer.sequence@.len() && (forall|i: int|
            0 <= i < grains.len() ==> bank.contains(#[trigger] grains[i])) && mixed_channels
            == mixed_canvas(
            blank_canvas(size as int),
            grains,
            track.sequencer.sequence@,
            pan as int,
            track.sequencer.sequence@.len() as int,
        );
    proof {
        let fin = track.sampler.grains_buffer@;
        bank.to_multiset_ensures();
        fin.to_multiset_ensures();
        assert forall|i: int| 0 <= i < used.len() implies fin.contains(#[trigger] used[i]) by {
            assert(bank.contains(used[i]));
            assert(bank.to_multiset().count(used[i]) > 0);
        }
        assert forall|k: int| 0 <= k < fin.len() implies from_variants(
            #[trigger] fin[k],
            source.variants@,
            track.grains_properties,
            synth_configuration.engine_sampling_rate as int,
        ) by {
            assert(fin.contains(fin[k]));
            assert(fin.to_multiset().count(fin[k]) > 0);
            assert(bank.contains(fin[k]));
            let p = choose|p: int| 0 <= p < bank.len() && bank[p] == fin[k];
            assert(from_variants(bank[p], source.variants@, track.grains_properties, synth_configuration.engine_sampling_rate as int));
        }
        assert(fin.len() == bank.len());
    }
    let result = match track.canva.normalize(target) {
        Err(e) => Err(SynthError::Audio(e)),
        Ok(()) => Ok(()),
    };
    proof {
        assert(track.canva.frames() == size);
        if result is Ok {
            assert(track.canva.channels() =~= normalized(mixed_channels, target as int));
        }
        assert(mixed_canvas(
            blank_canvas(track.canva.frames() as int),
            used,
            track.sequencer.sequence@,
            track.track_properties.track_panorama as int,
            used.len() as int,
        ) == mixed_channels);
        assert(events == track.sequencer.sequence@);
        assert(track.canva.frames() == beat_samples(*synth_configuration) * (track.beat_sequence@.len() + 2));
        reveal(rendered_from);
        assert(rendered_from(*track, *synth_configuration, source.variants@, result is Ok));
    }
    result
}

/// Number of pitch variants a track's source must come in.
pub fn variants_needed(pitch: &GrainsPitch) -> (r: usize)
    ensures
        r == variant_count(*pitch),
{
    match pitch {
        GrainsPitch::Fixed => 1,
        GrainsPitch::Steps { steps } => steps.len(),
    }
}


/// Whether every buffer has channels of one length.
fn all_consistent(v: &Vec<AudioBuffer>) -> (r: bool)
    ensures
        r == forall|j: int| 0 <= j < v@.len() ==> (#[trigger] v@[j]).wf(),
{
    let mut j: usize = 0;
    while j < v.len()
        invariant
            j <= v@.len(),
            forall|k: int| 0 <= k < j ==> (#[trigger] v@[k]).wf(),
        decreases v.len() - j,
    {
        if !v[j].is_consistent() {
            return false;
        }
        j = j + 1;
    }
    true
}

/// Checks a fresh track against its source and renders it; the outcome is `None` on
/// success, or the error.
fn check_and_render(
    track: &mut Track,
    synth_configuration: &SynthConfiguration,
    source: &TrackSource,
    bl: usize,
) -> (r: Option<SynthError>)
    requires
        synth_configuration.wf(),
        old(track).wf(*synth_configuration),
        fresh(*old(track)),
        bl == beat_samples(*synth_configuration),
        bl <= 11_520_001,
    ensures
        same_settings(*old(track), *final(track)),
        r is None ==> precheck(*old(track), *source, *synth_configuration) is None && rendered_from(
            *final(track),
            *synth_configuration,
            source.variants@,
            true,
        ),
        r matches Some(e) ==> (precheck(*old(track), *source, *synth_configuration) == Some(e)
            && *final(track) == *old(track)) || (precheck(*old(track), *source, *synth_configuration)
            is None && e == SynthError::Audio(AudioError::DivisionByZero) && rendered_from(
            *final(track),
            *synth_configuration,
            source.variants@,
            false,
        )) || (precheck(*old(track), *source, *synth_configuration) is None && e
            == SynthError::Sampler(SamplerError::SilentGrain)
            && old(track).grains_properties.grains_laudness_normalization && fresh(*final(track))),
{
    let needed = variants_needed(&track.grains_properties.grains_pitch);
    let beats = track.beat_sequence.len();
    proof {
        lemma_mul_upper_bound(beats as int + 2, 0x1_0000_0000_0000_0001, bl as int, 11_520_001);
    }
    if source.variants.len() != needed || !all_consistent(&source.variants) {
        return Some(SynthError::SourceMismatch);
    }
    if (beats as u128 + 2) * (bl as u128) > usize::MAX as u128 {
        return Some(SynthError::CanvasTooLarge);
    }
    match render_track(track, synth_configuration, source) {
        Err(e) => Some(e),
        Ok(()) => None,
    }
}

impl GranularSynth {
    /// Renders every track in declaration order from its source (one per track). The first
    /// failure stops the run: tracks before it are rendered, the failing track is as
    /// `failed_at` describes, and tracks after it are untouched; every track keeps its
    /// settings, and nothing is written anywhere.
    #[verifier::spinoff_prover]
    pub fn run(&mut self, sources: &Vec<TrackSource>) -> (r: Result<(), SynthError>)
        requires
            old(self).synth_configuration.wf(),
            forall|t: int|
                0 <= t < old(self).tracks@.len() ==> (#[trigger] old(self).tracks@[t]).wf(
                    old(self).synth_configuration,
                ) && fresh(old(self).tracks@[t]),
        ensures
            final(self).synth_configuration == old(self).synth_configuration,
            final(self).tracks@.len() == old(self).tracks@.len(),
            forall|t: int|
                0 <= t < old(self).tracks@.len() ==> same_settings(
                    #[trigger] old(self).tracks@[t],
                    final(self).tracks@[t],
                ),
            old(self).tracks@.len() == 0 && sources@.len() == 0 ==> r is Ok,
            sources@.len() != old(self).tracks@.len() ==> r == Err::<(), SynthError>(
                SynthError::SourceMismatch,
            ) && final(self).tracks@ == old(self).tracks@,
            sources@.len() == old(self).tracks@.len() && r is Ok ==> forall|t: int|
                0 <= t < old(self).tracks@.len() ==> precheck(
                    #[trigger] old(self).tracks@[t],
                    sources@[t],
                    old(self).synth_configuration,
                ) is None && rendered_from(
                    final(self).tracks@[t],
                    old(self).synth_configuration,
                    sources@[t].variants@,
                    true,
                ),
            sources@.len() == old(self).tracks@.len() ==> match r {
                Ok(()) => true,
                Err(e) => exists|k: int|
                    0 <= k < old(self).tracks@.len() && #[trigger] failed_at(
                        old(self).tracks@,
                        final(self).tracks@,
                        sources@,
                        old(self).synth_configuration,
                        k,
                        e,
                    ),
            },
    {
        if sources.len() != self.tracks.len() {
            return Err(SynthError::SourceMismatch);
        }
        let ghost original = self.tracks@;
        let mut pending: Vec<Track> = Vec::new();
        core::mem::swap(&mut self.tracks, &mut pending);
        let n = pending.len();
        let bl = grain_length_samples(
            self.synth_configuration.beat_length_ms,
            self.synth_configuration.engine_sampling_rate,
        );
        proof {
            crate::sequencer::lemma_beat_samples_bound(self.synth_configuration);
        }
        let mut i: usize = 0;
        while i < n
            invariant
                i <= n,
                n == sources@.len(),
                n == original.len(),
                original == old(self).tracks@,
                bl <= 11_520_001,
                pending@ == original.subrange(i as int, n as int),
                self.tracks@.len() == i,
                forall|t: int| 0 <= t < i ==> same_settings(#[trigger] original[t], self.tracks@[t]),
                self.synth_configuration == old(self).synth_configuration,
                self.synth_configuration.wf(),
                bl == beat_samples(self.synth_configuration),
                forall|t: int|
                    0 <= t < original.len() ==> (#[trigger] original[t]).wf(self.synth_configuration)
                        && fresh(original[t]),
                forall|t: int|
                    0 <= t < i ==> precheck(
                        #[trigger] original[t],
                        sources@[t],
                        self.synth_configuration,
                    ) is None && rendered_from(
                        self.tracks@[t],
                        self.synth_configuration,
                        sources@[t].variants@,
                        true,
                    ),
            decreases n - i,
        {
            let mut track = pending.remove(0);
            proof {
                assert(track == original[i as int]);
                assert(pending@ =~= original.subrange(i + 1, n as int));
            }
            let failure = check_and_render(&mut track, &self.synth_configuration, &sources[i], bl);
            let ghost done = self.tracks@;
            match failure {
                Some(e) => {
                    self.tracks.push(track);
                    self.tracks.append(&mut pending);
                    proof {
                        assert(self.tracks@.len() == n);
                        assert forall|u: int| 0 <= u < i implies self.tracks@[u] == done[u] by {}
                        assert forall|u: int| i < u < n implies self.tracks@[u] == original[u] by {
                            assert(self.tracks@[u] == original.subrange(i + 1, n as int)[u - i - 1]);
                        }
                        assert(failed_at(original, self.tracks@, sources@, self.synth_configuration, i as int, e));
                        assert forall|t: int| 0 <= t < n implies same_settings(
                            #[trigger] original[t],
                            self.tracks@[t],
                        ) by {
                            if i < t {
                                assert(self.tracks@[t] == original[t]);
                            } else if t < i {
                                assert(self.tracks@[t] == done[t]);
                            }
                        }
                    }
                    return Err(e);
                },
                None => {
                    self.tracks.push(track);
                    proof {
                        assert forall|t: int| 0 <= t < i + 1 implies precheck(
                            #[trigger] original[t],
                            sources@[t],
                            self.synth_configuration,
                        ) is None && rendered_from(
                            self.tracks@[t],
                            self.synth_configuration,
                            sources@[t].variants@,
                            true,
                        ) by {
                            if t < i {
                                assert(self.tracks@[t] == done[t]);
                            }
                        }
                        assert forall|t: int| 0 <= t < i + 1 implies same_settings(
                            #[trigger] original[t],
                            self.tracks@[t],
                        ) by {
                            if t < i {
                                assert(self.tracks@[t] == done[t]);
                            }
                        }
                    }
                },
            }
            i = i + 1;
        }
        Ok(())
    }
}

/// The run stopped at track `k` with error `e`: the tracks before it passed their checks and
/// were rendered; track `k` failed a check (and is unchanged), drew a silent grain that was
/// to be normalized (and holds no grains or events), or mixed to silence (and holds that
/// mix); the tracks after it are unchanged.
pub open spec fn failed_at(
    before: Seq<Track>,
    after: Seq<Track>,
    sources: Seq<TrackSource>,
    c: SynthConfiguration,
    k: int,
    e: SynthError,
) -> bool {
    &&& before.len() == after.len()
    &&& forall|j: int| 0 <= j < before.len() ==> same_settings(#[trigger] before[j], after[j])
    &&& forall|j: int|
        0 <= j < k ==> precheck(#[trigger] before[j], sources[j], c) is None && rendered_from(
            after[j],
            c,
            sources[j].variants@,
            true,
        )
    &&& forall|u: int| k < u < before.len() ==> #[trigger] after[u] == before[u]
    &&& ((precheck(before[k], sources[k], c) == Some(e) && after[k] == before[k]) || (precheck(
        before[k],
        sources[k],
        c,
    ) is None && e == SynthError::Audio(AudioError::DivisionByZero) && rendered_from(
        after[k],
        c,
        sources[k].variants@,
        false,
    )) || (precheck(before[k], sources[k], c) is None && e == SynthError::Sampler(
        SamplerError::SilentGrain,
    ) && before[k].grains_properties.grains_laudness_normalization && fresh(after[k])))
}

} // verus!
