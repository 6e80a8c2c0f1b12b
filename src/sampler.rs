//! The grain bank of one track: grains cut from a source at random places, shaped by a
//! smoothstep window at both edges, and handed out in a recirculating order.
use crate::arith::{magnitude, round_div, scale, scaled, MICRO};
use crate::audio::{channels_peak, scaled_seq, AudioBuffer, FULL_SCALE};
use crate::config::{fraction_ok, fraction_total, lemma_no_step_errors, total_ok, GWFunction, GrainsLength, GrainsPitch, GrainsProperties, SynthConfiguration};
use crate::random::{draw_index, shuffle_grains};
use rand::rngs::ThreadRng;
use vstd::arithmetic::div_mod::*;
use vstd::arithmetic::mul::*;
use vstd::prelude::*;

verus! {

/// Number of samples in `slope` millionths of a millisecond at `rate` Hz, rounded down.
pub open spec fn slope_samples(slope: int, rate: int) -> int {
    slope * rate / 1_000_000_000
}

/// Position `i` samples into an edge of `slope` millionths of a millisecond, as a fraction
/// of the edge in millionths (rounded down).
pub open spec fn ramp_position(i: int, slope: int, rate: int) -> int {
    i * 1_000_000_000_000_000 / (slope * rate)
}

/// The smoothstep curve `6t^5 - 15t^4 + 10t^3` at `t` millionths, in millionths (rounded
/// down, and held at 1 so that rounding can never amplify).
pub open spec fn smooth_gain(t: int) -> int {
    let u = MICRO as int;
    let g = (6 * (t * t * t * t * t) - 15 * (t * t * t * t) * u + 10 * (t * t * t) * (u * u)) / (
    u * u * u * u);
    if g > u {
        u
    } else {
        g
    }
}

pub open spec fn edge_gain(i: int, slope: int, rate: int) -> int {
    smooth_gain(ramp_position(i, slope, rate))
}

/// `s` with the leading edge of `slope` shaped: sample `k` is scaled by the gain at `k`
/// while `k` is within the edge.
pub open spec fn attack_applied(s: Seq<i64>, slope: int, rate: int) -> Seq<i64> {
    Seq::new(
        s.len(),
        |k: int|
            if k <= slope_samples(slope, rate) {
                scaled(s[k] as int, edge_gain(k, slope, rate), MICRO as int) as i64
            } else {
                s[k]
            },
    )
}

/// `s` with the trailing edge of `slope` shaped, counting from the last sample.
pub open spec fn release_applied(s: Seq<i64>, slope: int, rate: int) -> Seq<i64> {
    Seq::new(
        s.len(),
        |k: int|
            if s.len() - 1 - k <= slope_samples(slope, rate) {
                scaled(s[k] as int, edge_gain(s.len() - 1 - k, slope, rate), MICRO as int) as i64
            } else {
                s[k]
            },
    )
}

/// Attack and release slopes of a window, in millionths of a millisecond.
pub open spec fn slopes(w: GWFunction) -> (int, int) {
    match w {
        GWFunction::SmoothstepRegular { slope } => (slope as int, slope as int),
        GWFunction::SmoothstepUnregular { slope_attack, slope_release } => (
            slope_attack as int,
            slope_release as int,
        ),
    }
}

pub open spec fn windowed(s: Seq<i64>, w: GWFunction, rate: int) -> Seq<i64> {
    release_applied(attack_applied(s, slopes(w).0, rate), slopes(w).1, rate)
}

proof fn lemma_smooth_gain_bounds(t: int)
    requires
        0 <= t <= MICRO,
    ensures
        0 <= smooth_gain(t) <= MICRO,
        0 <= 6 * (t * t * t * t * t) - 15 * (t * t * t * t) * 1_000_000 + 10 * (t * t * t)
            * 1_000_000_000_000,
{
    let u = MICRO as int;
    let t3 = t * t * t;
    let p = 6 * (t * t * t * t * t) - 15 * (t * t * t * t) * u + 10 * (t * t * t) * (u * u);
    let q = 6 * t * t - 15 * t * u + 10 * u * u;
    assert(p == t3 * q) by (nonlinear_arith)
        requires
            p == 6 * (t * t * t * t * t) - 15 * (t * t * t * t) * u + 10 * (t * t * t) * (u * u),
            q == 6 * t * t - 15 * t * u + 10 * u * u,
            t3 == t * t * t,
    ;
    assert(96 * q == (24 * t - 30 * u) * (24 * t - 30 * u) + 60 * u * u) by (nonlinear_arith)
        requires
            q == 6 * t * t - 15 * t * u + 10 * u * u,
    ;
    assert(0 <= (24 * t - 30 * u) * (24 * t - 30 * u)) by (nonlinear_arith);
    lemma_mul_nonnegative(t * t, t);
    lemma_mul_nonnegative(t, t);
    lemma_mul_nonnegative(t3, q);
    let d = u * u * u * u;
    assert(d == 1_000_000_000_000_000_000_000_000) by (nonlinear_arith)
        requires
            u == 1_000_000,
            d == u * u * u * u,
    ;
    lemma_div_pos_is_pos(p, d);
    assert(u * u == 1_000_000_000_000);
}

/// The smoothstep gain at `t` millionths.
fn smooth_gain_at(t: u64) -> (g: u64)
    requires
        t <= MICRO,
    ensures
        g == smooth_gain(t as int),
        g <= MICRO,
{
    proof {
        lemma_smooth_gain_bounds(t as int);
    }
    let x: u128 = t as u128;
    proof {
        assert(x * x <= 1_000_000_000_000) by (nonlinear_arith)
            requires
                x <= 1_000_000,
        ;
        assert(x * x * x <= 1_000_000_000_000_000_000) by (nonlinear_arith)
            requires
                x <= 1_000_000,
                x * x <= 1_000_000_000_000,
        ;
        assert(x * x * x * x <= 1_000_000_000_000_000_000_000_000) by (nonlinear_arith)
            requires
                x <= 1_000_000,
                x * x * x <= 1_000_000_000_000_000_000,
        ;
        assert(x * x * x * x * x <= 1_000_000_000_000_000_000_000_000_000_000) by (nonlinear_arith)
            requires
                x <= 1_000_000,
                x * x * x * x <= 1_000_000_000_000_000_000_000_000,
        ;
    }
    let x2: u128 = x * x;
    let x3: u128 = x2 * x;
    let x4: u128 = x3 * x;
    let x5: u128 = x4 * x;
    let up: u128 = 6 * x5 + 10 * x3 * 1_000_000_000_000;
    let down: u128 = 15 * x4 * 1_000_000;
    assert(up >= down);
    let g: u128 = (up - down) / 1_000_000_000_000_000_000_000_000;
    if g > MICRO as u128 {
        MICRO
    } else {
        g as u64
    }
}

/// Position within an edge, in millionths of the edge.
fn ramp_position_at(i: u64, slope: u64, rate: u32) -> (t: u64)
    requires
        slope > 0,
        rate > 0,
        i as int <= slope_samples(slope as int, rate as int),
    ensures
        t == ramp_position(i as int, slope as int, rate as int),
        t <= MICRO,
{
    proof {
        lemma_mul_nonnegative(slope as int, rate as int);
        lemma_mul_upper_bound(slope as int, 0xffff_ffff_ffff_ffff, rate as int, 0xffff_ffff);
    }
    let d: u128 = (slope as u128) * (rate as u128);
    let n: u128 = (i as u128) * 1_000_000_000_000_000;
    proof {
        let sr = (slope as int) * (rate as int);
        assert(sr >= 1) by (nonlinear_arith)
            requires
                slope >= 1,
                rate >= 1,
                sr == (slope as int) * (rate as int),
        ;
        lemma_fundamental_div_mod(sr, 1_000_000_000);
        lemma_mod_bound(sr, 1_000_000_000);
        assert((i as int) * 1_000_000_000 <= sr);
        assert(n <= sr * 1_000_000);
        lemma_div_is_ordered(n as int, sr * 1_000_000, sr);
        lemma_mul_is_commutative(sr, 1_000_000);
        lemma_div_by_multiple(1_000_000, sr);
    }
    (n / d) as u64
}

/// Shapes the leading edge of a channel.
fn apply_attack(c: &mut Vec<i64>, slope: u64, rate: u32)
    requires
        slope > 0,
        rate > 0,
    ensures
        final(c)@ == attack_applied(old(c)@, slope as int, rate as int),
{
    let ghost orig = c@;
    proof {
        lemma_mul_upper_bound(slope as int, 0xffff_ffff_ffff_ffff, rate as int, 0xffff_ffff);
        lemma_mul_nonnegative(slope as int, rate as int);
    }
    let edge: u128 = (slope as u128) * (rate as u128) / 1_000_000_000;
    let mut k: usize = 0;
    while k < c.len() && (k as u128) <= edge
        invariant
            k <= c.len(),
            c.len() == orig.len(),
            slope > 0,
            rate > 0,
            edge == slope_samples(slope as int, rate as int),
            0 <= (slope as int) * (rate as int) <= 0xffff_ffff_ffff_ffff * 0xffff_ffff,
            forall|j: int| 0 <= j < k ==> c@[j] == attack_applied(orig, slope as int, rate as int)[j],
            forall|j: int| k <= j < orig.len() ==> c@[j] == orig[j],
        decreases c.len() - k,
    {
        let t = ramp_position_at(k as u64, slope, rate);
        let g = smooth_gain_at(t);
        let v = scale(c[k], g, MICRO);
        proof {
            lemma_mul_inequality(g as int, MICRO as int, magnitude(c@[k as int] as int));
            lemma_mul_is_commutative(g as int, magnitude(c@[k as int] as int));
            lemma_mul_is_commutative(MICRO as int, magnitude(c@[k as int] as int));
            lemma_div_is_ordered(magnitude(c@[k as int] as int) * g, magnitude(c@[k as int] as int) * MICRO, MICRO as int);
            lemma_div_by_multiple(magnitude(c@[k as int] as int), MICRO as int);
            lemma_mul_nonnegative(magnitude(c@[k as int] as int), g as int);
            lemma_div_pos_is_pos(magnitude(c@[k as int] as int) * g, MICRO as int);
        }
        c.set(k, v as i64);
        k = k + 1;
    }
    proof {
        assert(c@ =~= attack_applied(orig, slope as int, rate as int));
    }
}


/// Shapes the trailing edge of a channel.
fn apply_release(c: &mut Vec<i64>, slope: u64, rate: u32)
    requires
        slope > 0,
        rate > 0,
    ensures
        final(c)@ == release_applied(old(c)@, slope as int, rate as int),
{
    let ghost orig = c@;
    proof {
        lemma_mul_upper_bound(slope as int, 0xffff_ffff_ffff_ffff, rate as int, 0xffff_ffff);
        lemma_mul_nonnegative(slope as int, rate as int);
    }
    let edge: u128 = (slope as u128) * (rate as u128) / 1_000_000_000;
    let n = c.len();
    let mut j: usize = 0;
    while j < n && (j as u128) <= edge
        invariant
            j <= n,
            n == c.len(),
            c.len() == orig.len(),
            slope > 0,
            rate > 0,
            edge == slope_samples(slope as int, rate as int),
            forall|m: int| n - j <= m < n ==> c@[m] == release_applied(orig, slope as int, rate as int)[m],
            forall|m: int| 0 <= m < n - j ==> c@[m] == orig[m],
        decreases n - j,
    {
        let k = n - 1 - j;
        let t = ramp_position_at(j as u64, slope, rate);
        let g = smooth_gain_at(t);
        let v = scale(c[k], g, MICRO);
        proof {
            let a = magnitude(c@[k as int] as int);
            lemma_mul_inequality(g as int, MICRO as int, a);
            lemma_mul_is_commutative(g as int, a);
            lemma_mul_is_commutative(MICRO as int, a);
            lemma_div_is_ordered(a * g, a * MICRO, MICRO as int);
            lemma_div_by_multiple(a, MICRO as int);
            lemma_mul_nonnegative(a, g as int);
            lemma_div_pos_is_pos(a * g, MICRO as int);
        }
        c.set(k, v as i64);
        j = j + 1;
    }
    proof {
        assert(c@ =~= release_applied(orig, slope as int, rate as int));
    }
}

/// Number of samples in `ms` millionths of a millisecond at `rate` Hz, rounded to nearest.
pub open spec fn grain_samples(ms: int, rate: int) -> int {
    round_div(ms * rate, 1_000_000_000)
}

/// Whether a grain of `len` samples can come from this length setting: exactly the fixed
/// length, or one of `[from, to]` in samples.
pub open spec fn length_allowed(len: int, gl: GrainsLength, rate: int) -> bool {
    match gl {
        GrainsLength::Fixed { equal } => len == grain_samples(equal as int, rate),
        GrainsLength::Range { from, to } => {
            grain_samples(from as int, rate) <= len <= grain_samples(to as int, rate)
        },
    }
}

/// Channels of the grain cut from `start` for `len` samples and windowed, then scaled to
/// full-scale peak when `normalize` holds and the grain is not silent.
pub open spec fn grain_channels(
    source: Seq<Seq<i64>>,
    start: int,
    len: int,
    w: GWFunction,
    normalize: bool,
    rate: int,
) -> Seq<Seq<i64>> {
    let shaped = source.map_values(|c: Seq<i64>| windowed(c.subrange(start, start + len), w, rate));
    if normalize && channels_peak(shaped) > 0 {
        shaped.map_values(|c: Seq<i64>| scaled_seq(c, FULL_SCALE as int, channels_peak(shaped)))
    } else {
        shaped
    }
}

/// `g` is a grain of `source` under `props`: a window of an allowed length at some position,
/// shaped and normalized as configured (so a normalized grain peaks at full scale).
pub open spec fn is_grain_of(g: AudioBuffer, source: AudioBuffer, props: GrainsProperties, rate: int) -> bool {
    &&& g.wf()
    &&& g.is_stereo() == source.is_stereo()
    &&& props.grains_laudness_normalization ==> g.peak() == FULL_SCALE
    &&& exists|start: int, len: int|
        #![trigger grain_channels(source.channels(), start, len, props.window_function, props.grains_laudness_normalization, rate)]
        length_allowed(len, props.grains_length_ms, rate) && 0 <= start && start + len
            <= source.frames() && g.channels() == grain_channels(
            source.channels(),
            start,
            len,
            props.window_function,
            props.grains_laudness_normalization,
            rate,
        )
}

/// Grains taken for one pitch step of `fraction` millionths of a percent.
pub open spec fn step_grains(count: int, fraction: int) -> int {
    round_div(count * fraction, 100 * MICRO)
}

pub open spec fn steps_total(count: int, steps: Seq<(i64, i64)>) -> int
    decreases steps.len(),
{
    if steps.len() == 0 {
        0
    } else {
        steps_total(count, steps.drop_last()) + step_grains(count, steps.last().1 as int)
    }
}

/// Number of grains a successful preparation adds to the bank.
pub open spec fn total_grains(props: GrainsProperties) -> int {
    match props.grains_pitch {
        GrainsPitch::Fixed => props.grains_count as int,
        GrainsPitch::Steps { steps } => steps_total(props.grains_count as int, steps@),
    }
}

/// Number of pitch variants of the source: one, or one per step.
pub open spec fn variant_count(pitch: GrainsPitch) -> int {
    match pitch {
        GrainsPitch::Fixed => 1,
        GrainsPitch::Steps { steps } => steps@.len() as int,
    }
}

/// Whether some declared step would receive no grain.
pub open spec fn has_empty_step(props: GrainsProperties) -> bool {
    match props.grains_pitch {
        GrainsPitch::Fixed => false,
        GrainsPitch::Steps { steps } => exists|i: int|
            0 <= i < steps@.len() && step_grains(props.grains_count as int, #[trigger] steps@[i].1 as int)
                == 0,
    }
}

/// The source is shorter than one and a half of the longest grain, or a pitch variant of it
/// is shorter than the longest grain.
pub open spec fn source_too_short(
    source_frames: int,
    source_rate: int,
    variants: Seq<AudioBuffer>,
    props: GrainsProperties,
    rate: int,
) -> bool {
    let longest = props.grains_length_ms.longest();
    3 * longest * source_rate > 2 * source_frames * 1_000_000_000 || exists|j: int|
        0 <= j < variants.len() && (#[trigger] variants[j]).frames() < grain_samples(longest, rate)
}

proof fn lemma_steps_total_at_least(count: int, steps: Seq<(i64, i64)>)
    requires
        forall|i: int| 0 <= i < steps.len() ==> step_grains(count, #[trigger] steps[i].1 as int) >= 1,
    ensures
        steps_total(count, steps) >= steps.len(),
    decreases steps.len(),
{
    if steps.len() > 0 {
        let t = steps.drop_last();
        assert forall|i: int| 0 <= i < t.len() implies step_grains(count, #[trigger] t[i].1 as int) >= 1 by {
            assert(t[i] == steps[i]);
        }
        lemma_steps_total_at_least(count, t);
        assert(steps.last() == steps[steps.len() - 1]);
    }
}

/// A bank prepared from empty holds at least two grains, which is what handing out a grain
/// needs; since handing out keeps the bank's length, grains can then be handed out any
/// number of times.
pub proof fn lemma_prepared_bank_can_dispense(props: GrainsProperties, beat_length_ms: int)
    requires
        props.wf(beat_length_ms),
        !has_empty_step(props),
    ensures
        total_grains(props) >= 2,
{
    let count = props.grains_count as int;
    match props.grains_pitch {
        GrainsPitch::Fixed => {},
        GrainsPitch::Steps { steps } => {
            let s = steps@;
            lemma_no_step_errors(s, 0);
            assert forall|i: int| 0 <= i < s.len() implies step_grains(count, #[trigger] s[i].1 as int)
                >= 1 by {
                assert(fraction_ok(s[i].1));
                lemma_mul_nonnegative(count, s[i].1 as int);
                lemma_div_pos_is_pos(2 * count * s[i].1 + 100 * MICRO, 200 * MICRO as int);
                assert(step_grains(count, s[i].1 as int) != 0);
            }
            lemma_steps_total_at_least(count, s);
            assert(total_ok(fraction_total(s)));
            if s.len() == 1 {
                assert(s.drop_last().len() == 0);
                assert(fraction_total(s.drop_last()) == 0);
                assert(s.last() == s[0]);
                assert(fraction_total(s) == s[0].1);
                let f = s[0].1 as int;
                lemma_mul_inequality(4, count, f);
                assert(2 * count * f == 2 * (count * f)) by (nonlinear_arith);
                lemma_div_is_ordered(8 * 99_999_900 + 100 * MICRO, 2 * count * f + 100 * MICRO, 200
                    * MICRO as int);
                assert(steps_total(count, s.drop_last()) == 0);
                assert(steps_total(count, s) == step_grains(count, f));
            }
        },
    }
}

proof fn lemma_steps_total_bounds(count: int, steps: Seq<(i64, i64)>)
    requires
        count >= 0,
        forall|m: int| 0 <= m < steps.len() ==> fraction_ok(#[trigger] steps[m].1),
    ensures
        2 * count * fraction_total(steps) - steps.len() * 100 * MICRO < 200 * MICRO * steps_total(
            count,
            steps,
        ) + (if steps.len() == 0 { 1int } else { 0int }),
        200 * MICRO * steps_total(count, steps) <= 2 * count * fraction_total(steps) + steps.len()
            * 100 * MICRO,
    decreases steps.len(),
{
    if steps.len() > 0 {
        let t = steps.drop_last();
        assert forall|m: int| 0 <= m < t.len() implies fraction_ok(#[trigger] t[m].1) by {
            assert(t[m] == steps[m]);
        }
        lemma_steps_total_bounds(count, t);
        let f = steps.last().1 as int;
        assert(fraction_ok(steps[steps.len() - 1].1));
        let x = count * f;
        lemma_mul_nonnegative(count, f);
        let n = 2 * x + 100 * MICRO;
        let q = n / (200 * MICRO as int);
        lemma_fundamental_div_mod(n, 200 * MICRO as int);
        lemma_mod_bound(n, 200 * MICRO as int);
        assert(step_grains(count, f) == q) by {
            assert(2 * count * f == 2 * x) by (nonlinear_arith)
                requires
                    x == count * f,
            ;
        }
        assert(2 * count * fraction_total(steps) == 2 * count * fraction_total(t) + 2 * x) by (nonlinear_arith)
            requires
                fraction_total(steps) == fraction_total(t) + f,
                x == count * f,
        ;
        assert(steps.len() * 100 * MICRO == t.len() * 100 * MICRO + 100 * MICRO) by (nonlinear_arith)
            requires
                steps.len() == t.len() + 1,
        ;
    }
}

/// A prepared bank's size is `grains_count` up to the rounding of each pitch step's share:
/// it differs from `grains_count` by at most the number of steps.
pub proof fn lemma_bank_size_near_count(props: GrainsProperties, beat_length_ms: int)
    requires
        props.wf(beat_length_ms),
    ensures
        props.grains_pitch is Fixed ==> total_grains(props) == props.grains_count,
        props.grains_pitch matches GrainsPitch::Steps { steps } ==> {
            &&& total_grains(props) - props.grains_count <= steps@.len()
            &&& props.grains_count - total_grains(props) <= steps@.len()
        },
{
    if let GrainsPitch::Steps { steps } = props.grains_pitch {
        let s = steps@;
        let count = props.grains_count as int;
        lemma_no_step_errors(s, 0);
        assert(total_ok(fraction_total(s)));
        lemma_steps_total_bounds(count, s);
        let total = steps_total(count, s);
        let ft = fraction_total(s);
        let n = s.len() as int;
        assert(4 <= count <= 1_000_000);
        if n == 0 {
            assert(ft == 0);
        }
        assert(total - count <= n && count - total <= n) by (nonlinear_arith)
            requires
                2 * count * ft - n * 100_000_000 < 200_000_000 * total + (if n == 0 { 1int } else { 0int }),
                200_000_000 * total <= 2 * count * ft + n * 100_000_000,
                99_999_900 <= ft <= 100_000_100,
                4 <= count <= 1_000_000,
                n >= 1,
        ;
    }
}

impl GrainsProperties {
    /// The ranges that grain extraction relies on.
    pub open spec fn wf(&self, beat_length_ms: int) -> bool {
        self.errors(beat_length_ms, 0).len() == 0
    }
}

#[derive(Debug, Clone, Copy, PartialEq, Eq, Structural)]
pub enum SamplerError {
    /// The source, or one of its pitch variants, is too short for the configured grains.
    TooShort,
    /// A pitch step is too small to receive any grain.
    InvalidConfig,
    /// A grain to be normalized came out silent, so it has no peak to scale to full scale.
    SilentGrain,
}

/// The grain bank of a track and its random source.
#[derive(Debug)]
pub struct Sampler {
    pub grains_buffer: Vec<AudioBuffer>,
    pub randomness_source: ThreadRng,
}

/// A copy of `len` samples of `c` from `start`.
fn slice_channel(c: &Vec<i64>, start: usize, len: usize) -> (r: Vec<i64>)
    requires
        start + len <= c.len(),
    ensures
        r@ == c@.subrange(start as int, start + len),
{
    let mut v: Vec<i64> = Vec::with_capacity(len);
    let mut i: usize = 0;
    while i < len
        invariant
            i <= len,
            start + len <= c.len(),
            v@ == c@.subrange(start as int, start + i),
        decreases len - i,
    {
        v.push(c[start + i]);
        proof {
            assert(c@.subrange(start as int, start + i + 1) == c@.subrange(start as int, start + i).push(
                c@[start + i],
            ));
        }
        i = i + 1;
    }
    v
}

/// Number of samples in `ms` millionths of a millisecond at `rate` Hz, rounded to nearest.
pub(crate) fn grain_length_samples(ms: i64, rate: u32) -> (r: usize)
    requires
        0 <= ms <= 30_000 * MICRO,
        rate <= 384_000,
    ensures
        r == grain_samples(ms as int, rate as int),
        r <= 11_520_001,
{
    proof {
        lemma_mul_upper_bound(ms as int, 30_000 * MICRO as int, rate as int, 384_000);
        lemma_mul_nonnegative(ms as int, rate as int);
        assert(2 * (ms as int) * (rate as int) == 2 * ((ms as int) * (rate as int))) by (nonlinear_arith);
        lemma_div_is_ordered(
            2 * (ms as int) * (rate as int) + 1_000_000_000,
            2 * 30_000 * MICRO * 384_000 + 1_000_000_000,
            2_000_000_000,
        );
    }
    let n: u64 = (ms as u64) * (rate as u64);
    ((2 * n + 1_000_000_000) / 2_000_000_000) as usize
}

proof fn lemma_grain_samples_monotonic(a: int, b: int, rate: int)
    requires
        0 <= a <= b,
        0 <= rate,
    ensures
        grain_samples(a, rate) <= grain_samples(b, rate),
{
    lemma_mul_inequality(a, b, rate);
    lemma_div_is_ordered(2 * (a * rate) + 1_000_000_000, 2 * (b * rate) + 1_000_000_000, 2_000_000_000);
    assert(2 * a * rate == 2 * (a * rate)) by (nonlinear_arith);
    assert(2 * b * rate == 2 * (b * rate)) by (nonlinear_arith);
}

pub(crate) proof fn lemma_grain_samples_positive(ms: int, rate: int)
    requires
        ms >= 10 * MICRO,
        rate >= 48_000,
    ensures
        grain_samples(ms, rate) >= 1,
{
    lemma_mul_inequality(10 * MICRO as int, ms, rate);
    lemma_mul_inequality(48_000, rate, 10 * MICRO as int);
    lemma_mul_is_commutative(ms, rate);
    lemma_div_is_ordered(2_000_000_000, 2 * (ms * rate) + 1_000_000_000, 2_000_000_000);
    assert(2 * ms * rate == 2 * (ms * rate)) by (nonlinear_arith);
}

/// `g` is a grain of one of the variants.
pub open spec fn from_variants(
    g: AudioBuffer,
    variants: Seq<AudioBuffer>,
    props: GrainsProperties,
    rate: int,
) -> bool {
    exists|j: int| 0 <= j < variants.len() && is_grain_of(g, #[trigger] variants[j], props, rate)
}

/// Every grain cut under a fixed length setting of `equal` millionths of a millisecond has
/// `round(equal / 1000 × rate)` samples in each channel.
pub proof fn lemma_fixed_grain_length(g: AudioBuffer, source: AudioBuffer, props: GrainsProperties, rate: int)
    requires
        source.wf(),
        is_grain_of(g, source, props, rate),
        props.grains_length_ms is Fixed,
        props.grains_length_ms->equal >= 0,
        rate >= 0,
    ensures
        forall|c: int|
            0 <= c < g.channels().len() ==> (#[trigger] g.channels()[c]).len() == grain_samples(
                props.grains_length_ms->equal as int,
                rate,
            ),
{
    let (start, len) = choose|start: int, len: int|
        #![trigger grain_channels(source.channels(), start, len, props.window_function, props.grains_laudness_normalization, rate)]
        length_allowed(len, props.grains_length_ms, rate) && 0 <= start && start + len
            <= source.frames() && g.channels() == grain_channels(
            source.channels(),
            start,
            len,
            props.window_function,
            props.grains_laudness_normalization,
            rate,
        );
    let equal = props.grains_length_ms->equal as int;
    lemma_mul_nonnegative(equal, rate);
    lemma_div_pos_is_pos(2 * (equal * rate) + 1_000_000_000, 2_000_000_000);
    assert(2 * equal * rate == 2 * (equal * rate)) by (nonlinear_arith);
    assert(len >= 0);
    let shaped = source.channels().map_values(
        |ch: Seq<i64>| windowed(ch.subrange(start, start + len), props.window_function, rate),
    );
    assert(g.channels().len() == source.channels().len());
    assert forall|c: int| 0 <= c < g.channels().len() implies (#[trigger] g.channels()[c]).len()
        == len by {
        assert(source.channels()[c].len() == source.frames());
        let piece = source.channels()[c].subrange(start, start + len);
        assert(piece.len() == len);
        let (a, r) = slopes(props.window_function);
        assert(attack_applied(piece, a, rate).len() == len);
        assert(release_applied(attack_applied(piece, a, rate), r, rate).len() == len);
        assert(shaped[c] == windowed(piece, props.window_function, rate));
        assert(shaped[c].len() == len);
    }
}

/// The grains of all parts, part after part.
pub open spec fn concat_parts(parts: Seq<Seq<AudioBuffer>>) -> Seq<AudioBuffer>
    decreases parts.len(),
{
    if parts.len() == 0 {
        Seq::empty()
    } else {
        concat_parts(parts.drop_last()) + parts.last()
    }
}

/// `bank` holds, in some order, the grains of `old_bank` and for each pitch step `k` exactly
/// its rounded share of grains, each cut from variant `k`.
pub open spec fn filled_by_steps(
    old_bank: Seq<AudioBuffer>,
    bank: Seq<AudioBuffer>,
    steps: Seq<(i64, i64)>,
    variants: Seq<AudioBuffer>,
    props: GrainsProperties,
    rate: int,
) -> bool {
    exists|parts: Seq<Seq<AudioBuffer>>|
        #![trigger concat_parts(parts)]
        parts.len() == steps.len() && (forall|k: int|
            0 <= k < parts.len() ==> (#[trigger] parts[k]).len() == step_grains(
                props.grains_count as int,
                steps[k].1 as int,
            )) && (forall|k: int, i: int|
            0 <= k < parts.len() && 0 <= i < parts[k].len() ==> is_grain_of(
                #[trigger] parts[k][i],
                variants[k],
                props,
                rate,
            )) && bank.to_multiset() == (old_bank + concat_parts(parts)).to_multiset()
}

/// Grains for one pitch step of `fraction` millionths of a percent.
fn step_grain_count(count: usize, fraction: i64) -> (r: usize)
    requires
        count <= 1_000_000,
        fraction_ok(fraction),
    ensures
        r == step_grains(count as int, fraction as int),
{
    proof {
        lemma_mul_upper_bound(count as int, 1_000_000, fraction as int, 100 * MICRO as int);
        lemma_mul_nonnegative(count as int, fraction as int);
        assert(2 * (count as int) * (fraction as int) == 2 * ((count as int) * (fraction as int))) by (nonlinear_arith);
        lemma_div_is_ordered(
            2 * ((count as int) * (fraction as int)) + 100 * MICRO,
            2 * 100_000_000_000_000 + 100 * MICRO,
            200 * MICRO as int,
        );
    }
    let n: u64 = (count as u64) * (fraction as u64);
    ((2 * n + 100 * MICRO) / (200 * MICRO)) as usize
}

/// Whether the source, or one of its variants, is too short for the longest grain.
fn source_is_too_short(
    synth_configuration: &SynthConfiguration,
    grains_properties: &GrainsProperties,
    source_frames: usize,
    source_sampling_rate: u32,
    variants: &Vec<AudioBuffer>,
) -> (r: bool)
    requires
        synth_configuration.engine_sampling_rate <= 384_000,
        0 <= grains_properties.grains_length_ms.longest() <= 30_000 * MICRO,
    ensures
        r == source_too_short(
            source_frames as int,
            source_sampling_rate as int,
            variants@,
            *grains_properties,
            synth_configuration.engine_sampling_rate as int,
        ),
{
    let rate = synth_configuration.engine_sampling_rate;
    let longest: i64 = match grains_properties.grains_length_ms {
        GrainsLength::Fixed { equal } => equal,
        GrainsLength::Range { to, .. } => to,
    };
    assert(longest as int == grains_properties.grains_length_ms.longest());
    let longest_samples = grain_length_samples(longest, rate);
    proof {
        lemma_mul_upper_bound(3 * longest as int, 3 * 30_000 * MICRO as int, source_sampling_rate as int, 0xffff_ffff);
        lemma_mul_nonnegative(3 * longest as int, source_sampling_rate as int);
        assert(3 * (longest as int) * (source_sampling_rate as int) == (3 * longest as int) * (
        source_sampling_rate as int)) by (nonlinear_arith);
    }
    if 3 * (longest as u128) * (source_sampling_rate as u128) > 2 * (source_frames as u128)
        * 1_000_000_000 {
        return true;
    }
    let mut j: usize = 0;
    while j < variants.len()
        invariant
            j <= variants@.len(),
            rate == synth_configuration.engine_sampling_rate,
            longest_samples == grain_samples(grains_properties.grains_length_ms.longest(), rate as int),
            forall|k: int| 0 <= k < j ==> (#[trigger] variants@[k]).frames() >= longest_samples,
        decreases variants.len() - j,
    {
        if variants[j].len() < longest_samples {
            proof {
                assert(variants@[j as int].frames() < grain_samples(
                    grains_properties.grains_length_ms.longest(),
                    rate as int,
                ));
            }
            return true;
        }
        j = j + 1;
    }
    false
}

/// Whether some pitch step would receive no grain.
fn any_step_empty(grains_properties: &GrainsProperties) -> (r: bool)
    requires
        grains_properties.grains_count <= 1_000_000,
        grains_properties.grains_pitch matches GrainsPitch::Steps { steps } ==> forall|m: int|
            0 <= m < steps@.len() ==> fraction_ok(#[trigger] steps@[m].1),
    ensures
        r == has_empty_step(*grains_properties),
{
    match &grains_properties.grains_pitch {
        GrainsPitch::Fixed => false,
        GrainsPitch::Steps { steps } => {
            let count = grains_properties.grains_count;
            let mut k: usize = 0;
            while k < steps.len()
                invariant
                    k <= steps@.len(),
                    count == grains_properties.grains_count,
                    count <= 1_000_000,
                    grains_properties.grains_pitch == (GrainsPitch::Steps { steps: *steps }),
                    forall|m: int| 0 <= m < steps@.len() ==> fraction_ok(#[trigger] steps@[m].1),
                    forall|m: int| 0 <= m < k ==> step_grains(count as int, #[trigger] steps@[m].1 as int) != 0,
                decreases steps.len() - k,
            {
                if step_grain_count(count, steps[k].1) == 0 {
                    proof {
                        assert(step_grains(count as int, steps@[k as int].1 as int) == 0);
                        assert(grains_properties.grains_pitch->steps@[k as int] == steps@[k as int]);
                        assert(has_empty_step(*grains_properties));
                    }
                    return true;
                }
                k = k + 1;
            }
            false
        },
    }
}

impl Sampler {
    /// An empty bank with the thread's random source.
    pub fn default() -> (r: Sampler)
        ensures
            r.grains_buffer@.len() == 0,
    {
        Sampler { grains_buffer: Vec::new(), randomness_source: rand::thread_rng() }
    }

    /// Shapes both edges of a channel with one slope.
    fn smoothsteep_regular(&self, buffer: &mut Vec<i64>, slope: u64, rate: u32)
        requires
            slope > 0,
            rate > 0,
        ensures
            final(buffer)@ == release_applied(
                attack_applied(old(buffer)@, slope as int, rate as int),
                slope as int,
                rate as int,
            ),
    {
        apply_attack(buffer, slope, rate);
        apply_release(buffer, slope, rate);
    }

    /// Shapes the leading and trailing edges of a channel with their own slopes.
    fn smoothsteep_unregular(&self, buffer: &mut Vec<i64>, slope_attack: u64, slope_release: u64, rate: u32)
        requires
            slope_attack > 0,
            slope_release > 0,
            rate > 0,
        ensures
            final(buffer)@ == release_applied(
                attack_applied(old(buffer)@, slope_attack as int, rate as int),
                slope_release as int,
                rate as int,
            ),
    {
        apply_attack(buffer, slope_attack, rate);
        apply_release(buffer, slope_release, rate);
    }

    fn shape(&self, buffer: &mut Vec<i64>, w: GWFunction, rate: u32)
        requires
            slopes(w).0 > 0,
            slopes(w).1 > 0,
            rate > 0,
        ensures
            final(buffer)@ == windowed(old(buffer)@, w, rate as int),
    {
        match w {
            GWFunction::SmoothstepRegular { slope } => self.smoothsteep_regular(buffer, slope as u64, rate),
            GWFunction::SmoothstepUnregular { slope_attack, slope_release } => self.smoothsteep_unregular(
                buffer,
                slope_attack as u64,
                slope_release as u64,
                rate,
            ),
        }
    }

    /// Cuts one grain from `sample` at a uniformly random position: its length is the fixed
    /// length, or drawn from the range; its edges are shaped by the window; and it is
    /// normalized to full scale when so configured. A silent window cannot be normalized:
    /// that is reported as `SilentGrain`.
    pub fn get_random_grain(
        &mut self,
        sample: &AudioBuffer,
        synth_configuration: &SynthConfiguration,
        grains_properties: &GrainsProperties,
    ) -> (r: Result<AudioBuffer, SamplerError>)
        requires
            sample.wf(),
            synth_configuration.wf(),
            grains_properties.wf(synth_configuration.beat_length_ms as int),
            sample.frames() >= grain_samples(
                grains_properties.grains_length_ms.longest(),
                synth_configuration.engine_sampling_rate as int,
            ),
        ensures
            match r {
                Ok(g) => is_grain_of(
                    g,
                    *sample,
                    *grains_properties,
                    synth_configuration.engine_sampling_rate as int,
                ),
                Err(e) => e == SamplerError::SilentGrain
                    && grains_properties.grains_laudness_normalization,
            },
            final(self).grains_buffer@ == old(self).grains_buffer@,
    {
        let rate = synth_configuration.engine_sampling_rate;
        let len: usize = match grains_properties.grains_length_ms {
            GrainsLength::Fixed { equal } => grain_length_samples(equal, rate),
            GrainsLength::Range { from, to } => {
                let lo = grain_length_samples(from, rate);
                let hi = grain_length_samples(to, rate);
                proof {
                    lemma_grain_samples_monotonic(from as int, to as int, rate as int);
                }
                draw_index(&mut self.randomness_source, lo, hi + 1)
            },
        };
        proof {
            match grains_properties.grains_length_ms {
                GrainsLength::Fixed { equal } => lemma_grain_samples_positive(equal as int, rate as int),
                GrainsLength::Range { from, .. } => lemma_grain_samples_positive(from as int, rate as int),
            }
        }
        let frames = sample.len();
        let start = draw_index(&mut self.randomness_source, 0, frames - len + 1);
        let w = grains_properties.window_function;
        let ghost src = sample.channels();
        let ghost f = |c: Seq<i64>| windowed(c.subrange(start as int, start + len), w, rate as int);
        let mut grain = match sample {
            AudioBuffer::Mono(c) => {
                let mut g = slice_channel(c, start, len);
                self.shape(&mut g, w, rate);
                AudioBuffer::Mono(g)
            },
            AudioBuffer::Stereo(cl, cr) => {
                let mut gl = slice_channel(cl, start, len);
                let mut gr = slice_channel(cr, start, len);
                self.shape(&mut gl, w, rate);
                self.shape(&mut gr, w, rate);
                AudioBuffer::Stereo(gl, gr)
            },
        };
        let ghost shaped = grain.channels();
        proof {
            assert(shaped =~= src.map_values(f));
        }
        if grains_properties.grains_laudness_normalization {
            match grain.normalize(FULL_SCALE) {
                Err(_) => {
                    return Err(SamplerError::SilentGrain);
                },
                Ok(()) => {},
            }
        }
        proof {
            let gc = grain_channels(
                src,
                start as int,
                len as int,
                w,
                grains_properties.grains_laudness_normalization,
                rate as int,
            );
            assert(grain.channels() =~= gc);
        }
        Ok(grain)
    }

    /// Fills the bank from the pitch variants of a source (`source_frames` samples at
    /// `source_sampling_rate` Hz before resampling): `grains_count` grains of the single
    /// variant, in extraction order, or for each step its rounded share of `grains_count`
    /// from its own variant, after which the whole bank is shuffled. When grains are to be
    /// normalized and a drawn window is silent, the preparation fails with `SilentGrain` and
    /// the bank is left as it was.
    pub fn prepare(
        &mut self,
        synth_configuration: &SynthConfiguration,
        grains_properties: &GrainsProperties,
        source_frames: usize,
        source_sampling_rate: u32,
        variants: &Vec<AudioBuffer>,
    ) -> (r: Result<(), SamplerError>)
        requires
            synth_configuration.wf(),
            grains_properties.wf(synth_configuration.beat_length_ms as int),
            variants@.len() == variant_count(grains_properties.grains_pitch),
            forall|j: int| 0 <= j < variants@.len() ==> (#[trigger] variants@[j]).wf(),
        ensures
            r == Err::<(), SamplerError>(SamplerError::TooShort) <==> source_too_short(
                source_frames as int,
                source_sampling_rate as int,
                variants@,
                *grains_properties,
                synth_configuration.engine_sampling_rate as int,
            ),
            r == Err::<(), SamplerError>(SamplerError::InvalidConfig) <==> !source_too_short(
                source_frames as int,
                source_sampling_rate as int,
                variants@,
                *grains_properties,
                synth_configuration.engine_sampling_rate as int,
            ) && has_empty_step(*grains_properties),
            r == Err::<(), SamplerError>(SamplerError::SilentGrain) ==> !source_too_short(
                source_frames as int,
                source_sampling_rate as int,
                variants@,
                *grains_properties,
                synth_configuration.engine_sampling_rate as int,
            ) && !has_empty_step(*grains_properties) && grains_properties.grains_laudness_normalization,
            r == Err::<(), SamplerError>(SamplerError::TooShort) || r == Err::<(), SamplerError>(
                SamplerError::InvalidConfig,
            ) ==> *final(self) == *old(self),
            r is Err ==> final(self).grains_buffer@ == old(self).grains_buffer@,
            r is Ok && grains_properties.grains_pitch is Steps ==> filled_by_steps(
                old(self).grains_buffer@,
                final(self).grains_buffer@,
                grains_properties.grains_pitch->steps@,
                variants@,
                *grains_properties,
                synth_configuration.engine_sampling_rate as int,
            ),
            r is Ok ==> final(self).grains_buffer@.len() == old(self).grains_buffer@.len()
                + total_grains(*grains_properties),
            r is Ok ==> forall|i: int|
                0 <= i < final(self).grains_buffer@.len() ==> old(self).grains_buffer@.contains(
                    #[trigger] final(self).grains_buffer@[i],
                ) || from_variants(final(self).grains_buffer@[i], variants@, *grains_properties, synth_configuration.engine_sampling_rate as int),
            r is Ok && grains_properties.grains_pitch is Fixed ==> final(self).grains_buffer@.subrange(
                0,
                old(self).grains_buffer@.len() as int,
            ) == old(self).grains_buffer@ && forall|i: int|
                old(self).grains_buffer@.len() <= i < final(self).grains_buffer@.len() ==> is_grain_of(
                    #[trigger] final(self).grains_buffer@[i],
                    variants@[0],
                    *grains_properties,
                    synth_configuration.engine_sampling_rate as int,
                ),
    {
        assert(0 <= grains_properties.grains_length_ms.longest() <= 30_000 * MICRO);
        if source_is_too_short(
            synth_configuration,
            grains_properties,
            source_frames,
            source_sampling_rate,
            variants,
        ) {
            return Err(SamplerError::TooShort);
        }
        proof {
            if let GrainsPitch::Steps { steps } = &grains_properties.grains_pitch {
                lemma_no_step_errors(steps@, 0);
            }
        }
        if any_step_empty(grains_properties) {
            return Err(SamplerError::InvalidConfig);
        }
        let ghost old_bank = self.grains_buffer@;
        let rate = synth_configuration.engine_sampling_rate;
        match &grains_properties.grains_pitch {
            GrainsPitch::Fixed => {
                match self.fill_fixed(synth_configuration, grains_properties, &variants[0]) {
                    Err(e) => {
                        return Err(e);
                    },
                    Ok(()) => {},
                }
                proof {
                    assert forall|i: int| 0 <= i < self.grains_buffer@.len() implies old_bank.contains(
                        #[trigger] self.grains_buffer@[i],
                    ) || from_variants(self.grains_buffer@[i], variants@, *grains_properties, rate as int) by {
                        if i < old_bank.len() {
                            assert(old_bank[i] == self.grains_buffer@.subrange(0, old_bank.len() as int)[i]);
                        } else {
                            assert(is_grain_of(self.grains_buffer@[i], variants@[0], *grains_properties, rate as int));
                        }
                    }
                }
            },
            GrainsPitch::Steps { steps } => {
                proof {
                    lemma_no_step_errors(steps@, 0);
                }
                match self.fill_steps(synth_configuration, grains_properties, steps, variants) {
                    Err(e) => {
                        return Err(e);
                    },
                    Ok(()) => {},
                }
            },
        }
        Ok(())
    }

    /// Adds `grains_count` grains of one variant, in extraction order. A silent grain that
    /// should be normalized stops the filling and leaves the bank as it was.
    fn fill_fixed(
        &mut self,
        synth_configuration: &SynthConfiguration,
        grains_properties: &GrainsProperties,
        variant: &AudioBuffer,
    ) -> (r: Result<(), SamplerError>)
        requires
            synth_configuration.wf(),
            grains_properties.wf(synth_configuration.beat_length_ms as int),
            variant.wf(),
            variant.frames() >= grain_samples(
                grains_properties.grains_length_ms.longest(),
                synth_configuration.engine_sampling_rate as int,
            ),
        ensures
            r is Err ==> r == Err::<(), SamplerError>(SamplerError::SilentGrain)
                && grains_properties.grains_laudness_normalization && final(self).grains_buffer@
                == old(self).grains_buffer@,
            r is Ok ==> final(self).grains_buffer@.len() == old(self).grains_buffer@.len()
                + grains_properties.grains_count,
            r is Ok ==> final(self).grains_buffer@.subrange(0, old(self).grains_buffer@.len() as int)
                == old(self).grains_buffer@,
            r is Ok ==> forall|i: int|
                old(self).grains_buffer@.len() <= i < final(self).grains_buffer@.len() ==> is_grain_of(
                    #[trigger] final(self).grains_buffer@[i],
                    *variant,
                    *grains_properties,
                    synth_configuration.engine_sampling_rate as int,
                ),
    {
        let rate = synth_configuration.engine_sampling_rate;
        let count = grains_properties.grains_count;
        let ghost old_bank = self.grains_buffer@;
        let mut fresh: Vec<AudioBuffer> = Vec::new();
        let mut i: usize = 0;
        while i < count
            invariant
                i <= count,
                count == grains_properties.grains_count,
                synth_configuration.wf(),
                grains_properties.wf(synth_configuration.beat_length_ms as int),
                variant.wf(),
                variant.frames() >= grain_samples(
                    grains_properties.grains_length_ms.longest(),
                    rate as int,
                ),
                rate == synth_configuration.engine_sampling_rate,
                self.grains_buffer@ == old_bank,
                old_bank == old(self).grains_buffer@,
                fresh@.len() == i,
                forall|k: int|
                    0 <= k < fresh@.len() ==> is_grain_of(
                        #[trigger] fresh@[k],
                        *variant,
                        *grains_properties,
                        rate as int,
                    ),
            decreases count - i,
        {
            let grain = match self.get_random_grain(variant, synth_configuration, grains_properties) {
                Ok(g) => g,
                Err(e) => {
                    return Err(e);
                },
            };
            fresh.push(grain);
            i = i + 1;
        }
        let ghost added = fresh@;
        self.grains_buffer.append(&mut fresh);
        proof {
            assert(self.grains_buffer@ == old_bank + added);
            assert(self.grains_buffer@.subrange(0, old_bank.len() as int) =~= old_bank);
            assert forall|k: int|
                old_bank.len() <= k < self.grains_buffer@.len() implies is_grain_of(
                    #[trigger] self.grains_buffer@[k],
                    *variant,
                    *grains_properties,
                    rate as int,
                ) by {
                assert(self.grains_buffer@[k] == added[k - old_bank.len()]);
            }
        }
        Ok(())
    }

    /// Adds each step's share of grains from its own variant, then shuffles the whole bank.
    /// A silent grain that should be normalized stops the filling and leaves the bank as it
    /// was.
    fn fill_steps(
        &mut self,
        synth_configuration: &SynthConfiguration,
        grains_properties: &GrainsProperties,
        steps: &Vec<(i64, i64)>,
        variants: &Vec<AudioBuffer>,
    ) -> (r: Result<(), SamplerError>)
        requires
            synth_configuration.wf(),
            grains_properties.wf(synth_configuration.beat_length_ms as int),
            forall|m: int| 0 <= m < steps@.len() ==> fraction_ok(#[trigger] steps@[m].1),
            variants@.len() == steps@.len(),
            forall|j: int| 0 <= j < variants@.len() ==> (#[trigger] variants@[j]).wf(),
            forall|j: int|
                0 <= j < variants@.len() ==> (#[trigger] variants@[j]).frames() >= grain_samples(
                    grains_properties.grains_length_ms.longest(),
                    synth_configuration.engine_sampling_rate as int,
                ),
        ensures
            r is Err ==> r == Err::<(), SamplerError>(SamplerError::SilentGrain)
                && grains_properties.grains_laudness_normalization && final(self).grains_buffer@
                == old(self).grains_buffer@,
            r is Ok ==> final(self).grains_buffer@.len() == old(self).grains_buffer@.len()
                + steps_total(grains_properties.grains_count as int, steps@),
            r is Ok ==> forall|i: int|
                0 <= i < final(self).grains_buffer@.len() ==> old(self).grains_buffer@.contains(
                    #[trigger] final(self).grains_buffer@[i],
                ) || from_variants(
                    final(self).grains_buffer@[i],
                    variants@,
                    *grains_properties,
                    synth_configuration.engine_sampling_rate as int,
                ),
            r is Ok ==> filled_by_steps(
                old(self).grains_buffer@,
                final(self).grains_buffer@,
                steps@,
                variants@,
                *grains_properties,
                synth_configuration.engine_sampling_rate as int,
            ),
    {
        let rate = synth_configuration.engine_sampling_rate;
        let count = grains_properties.grains_count;
        let ghost old_bank = self.grains_buffer@;
        let ghost mut parts: Seq<Seq<AudioBuffer>> = Seq::empty();
        let mut fresh: Vec<AudioBuffer> = Vec::new();
        proof {
            assert(fresh@ =~= concat_parts(parts));
        }
        let mut k: usize = 0;
        while k < steps.len()
            invariant
                k <= steps@.len(),
                count == grains_properties.grains_count,
                rate == synth_configuration.engine_sampling_rate,
                synth_configuration.wf(),
                grains_properties.wf(synth_configuration.beat_length_ms as int),
                forall|m: int| 0 <= m < steps@.len() ==> fraction_ok(#[trigger] steps@[m].1),
                variants@.len() == steps@.len(),
                forall|j: int| 0 <= j < variants@.len() ==> (#[trigger] variants@[j]).wf(),
                forall|j: int|
                    0 <= j < variants@.len() ==> (#[trigger] variants@[j]).frames() >= grain_samples(
                        grains_properties.grains_length_ms.longest(),
                        rate as int,
                    ),
                self.grains_buffer@ == old_bank,
                old_bank == old(self).grains_buffer@,
                fresh@.len() == steps_total(count as int, steps@.subrange(0, k as int)),
                forall|p: int|
                    0 <= p < fresh@.len() ==> from_variants(#[trigger] fresh@[p], variants@, *grains_properties, rate as int),
                parts.len() == k,
                fresh@ == concat_parts(parts),
                forall|a: int|
                    0 <= a < parts.len() ==> (#[trigger] parts[a]).len() == step_grains(
                        count as int,
                        steps@[a].1 as int,
                    ),
                forall|a: int, b: int|
                    0 <= a < parts.len() && 0 <= b < parts[a].len() ==> is_grain_of(
                        #[trigger] parts[a][b],
                        variants@[a],
                        *grains_properties,
                        rate as int,
                    ),
            decreases steps.len() - k,
        {
            let n = step_grain_count(count, steps[k].1);
            let ghost before = fresh@.len();
            let ghost mut cur: Seq<AudioBuffer> = Seq::empty();
            proof {
                assert(fresh@ =~= concat_parts(parts) + cur);
            }
            let mut i: usize = 0;
            while i < n
                invariant
                    i <= n,
                    k < variants@.len(),
                    rate == synth_configuration.engine_sampling_rate,
                    synth_configuration.wf(),
                    grains_properties.wf(synth_configuration.beat_length_ms as int),
                    variants@[k as int].wf(),
                    variants@[k as int].frames() >= grain_samples(
                        grains_properties.grains_length_ms.longest(),
                        rate as int,
                    ),
                    self.grains_buffer@ == old_bank,
                    old_bank == old(self).grains_buffer@,
                    fresh@.len() == before + i,
                    forall|p: int|
                        0 <= p < fresh@.len() ==> from_variants(#[trigger] fresh@[p], variants@, *grains_properties, rate as int),
                    cur.len() == i,
                    fresh@ == concat_parts(parts) + cur,
                    forall|b: int|
                        0 <= b < cur.len() ==> is_grain_of(
                            #[trigger] cur[b],
                            variants@[k as int],
                            *grains_properties,
                            rate as int,
                        ),
                decreases n - i,
            {
                let grain = match self.get_random_grain(&variants[k], synth_configuration, grains_properties) {
                    Ok(g) => g,
                    Err(e) => {
                        return Err(e);
                    },
                };
                let ghost g = grain;
                let ghost f0 = fresh@;
                fresh.push(grain);
                proof {
                    let c0 = cur;
                    cur = cur.push(g);
                    assert(fresh@ =~= concat_parts(parts) + cur);
                    assert forall|b: int| 0 <= b < cur.len() implies is_grain_of(
                        #[trigger] cur[b],
                        variants@[k as int],
                        *grains_properties,
                        rate as int,
                    ) by {
                        if b < c0.len() {
                            assert(cur[b] == c0[b]);
                        }
                    }
                    assert forall|p: int|
                        0 <= p < fresh@.len() implies from_variants(#[trigger] fresh@[p], variants@, *grains_properties, rate as int) by {
                        if p < f0.len() {
                            assert(fresh@[p] == f0[p]);
                        } else {
                            assert(is_grain_of(g, variants@[k as int], *grains_properties, rate as int));
                        }
                    }
                }
                i = i + 1;
            }
            proof {
                assert(steps@.subrange(0, k + 1).drop_last() == steps@.subrange(0, k as int));
                let p0 = parts;
                parts = parts.push(cur);
                assert(parts.drop_last() =~= p0);
                assert(fresh@ =~= concat_parts(parts));
                assert forall|a: int|
                    0 <= a < parts.len() implies (#[trigger] parts[a]).len() == step_grains(
                        count as int,
                        steps@[a].1 as int,
                    ) by {
                    if a < p0.len() {
                        assert(parts[a] == p0[a]);
                    }
                }
                assert forall|a: int, b: int|
                    0 <= a < parts.len() && 0 <= b < parts[a].len() implies is_grain_of(
                        #[trigger] parts[a][b],
                        variants@[a],
                        *grains_properties,
                        rate as int,
                    ) by {
                    if a < p0.len() {
                        assert(parts[a] == p0[a]);
                    }
                }
            }
            k = k + 1;
        }
        proof {
            assert(steps@.subrange(0, steps@.len() as int) == steps@);
        }
        let ghost added = fresh@;
        self.grains_buffer.append(&mut fresh);
        let ghost filled = self.grains_buffer@;
        proof {
            assert(filled == old_bank + added);
        }
        shuffle_grains(&mut self.randomness_source, &mut self.grains_buffer);
        proof {
            filled.to_multiset_ensures();
            self.grains_buffer@.to_multiset_ensures();
            assert forall|i: int| 0 <= i < self.grains_buffer@.len() implies old_bank.contains(
                #[trigger] self.grains_buffer@[i],
            ) || from_variants(self.grains_buffer@[i], variants@, *grains_properties, rate as int) by {
                let x = self.grains_buffer@[i];
                assert(self.grains_buffer@.contains(x));
                assert(self.grains_buffer@.to_multiset().count(x) > 0);
                assert(filled.to_multiset().count(x) > 0);
                assert(filled.contains(x));
                let p = choose|p: int| 0 <= p < filled.len() && filled[p] == x;
                if p < old_bank.len() {
                    assert(old_bank[p] == filled[p]);
                } else {
                    assert(filled[p] == added[p - old_bank.len()]);
                }
            }
            assert(self.grains_buffer@.to_multiset() == (old_bank + concat_parts(parts)).to_multiset());
        }
        Ok(())
    }

    /// Hands out a grain: one of the front half of the bank, drawn uniformly, is moved to
    /// the back, and the result is that moved grain. The bank keeps its length.
    pub fn sample(&mut self) -> (r: &AudioBuffer)
        requires
            old(self).grains_buffer@.len() >= 2,
        ensures
            final(self).grains_buffer@.len() == old(self).grains_buffer@.len(),
            exists|i: int|
                0 <= i < old(self).grains_buffer@.len() / 2 && final(self).grains_buffer@ == old(
                    self,
                ).grains_buffer@.remove(i).push(old(self).grains_buffer@[i]) && *r == old(
                    self,
                ).grains_buffer@[i],
    {
        let half: usize = self.grains_buffer.len() / 2;
        let i = draw_index(&mut self.randomness_source, 0, half);
        let grain = self.grains_buffer.remove(i);
        self.grains_buffer.push(grain);
        let last = self.grains_buffer.len() - 1;
        &self.grains_buffer[last]
    }
}

} // verus!
