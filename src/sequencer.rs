//! Rhythmic event generation: for every beat, evenly spaced sub-beat positions with random
//! timing jitter, a random subset of them chosen by coverage, each with a random pan and
//! volume; all events kept in ascending order of their start.
use crate::arith::{round_div, MICRO};
use crate::config::{BeatConfiguration, SynthConfiguration};
use crate::random::{choose_positions, draw_offset};
use crate::sampler::{grain_length_samples, grain_samples, lemma_grain_samples_positive};
use rand::rngs::ThreadRng;
use vstd::arithmetic::div_mod::*;
use vstd::arithmetic::mul::*;
use vstd::prelude::*;

verus! {

/// One trigger of a grain: where it starts on the track, its pan position (-1 to 1) and its
/// volume factor, both in millionths.
#[derive(Debug, Clone, Copy, PartialEq, Eq, Structural)]
pub struct Event {
    pub start_index: usize,
    pub panorama: i64,
    pub volume: i64,
}

/// The event list of a track and its random source.
#[derive(Debug)]
pub struct Sequencer {
    pub sequence: Vec<Event>,
    pub randomness_source: ThreadRng,
}

pub open spec fn sorted_by_start(s: Seq<Event>) -> bool {
    forall|i: int, j: int| 0 <= i < j < s.len() ==> s[i].start_index <= s[j].start_index
}

/// Samples in one beat.
pub open spec fn beat_samples(c: SynthConfiguration) -> int {
    grain_samples(c.beat_length_ms as int, c.engine_sampling_rate as int)
}

/// Number of sub-beats of a beat that receive an event: `subdivisions × coverage / 100%`,
/// rounded to nearest.
pub open spec fn chosen_count(b: BeatConfiguration) -> int {
    round_div(b.subdivisions * b.coverage_percentage, 100 * MICRO)
}

/// Largest timing jitter of a sub-beat, in millionths of a sample (rounded down):
/// `humanization` percent of a sub-beat.
pub open spec fn max_jitter(beat_length: int, b: BeatConfiguration) -> int {
    if b.subdivisions == 0 {
        0
    } else {
        beat_length * b.humanization_percents / (b.subdivisions * 100)
    }
}

/// A jitter drawn for a sub-beat: from `[-m, m)`, or none when `m` is zero.
pub open spec fn jitter_ok(off: int, m: int) -> bool {
    if m == 0 {
        off == 0
    } else {
        -m <= off < m
    }
}

/// Start of sub-beat `i` of beat `k` with a jitter of `off` millionths of a sample: one beat
/// of lead-in, `k` whole beats, then `i` sub-beats plus the jitter, rounded to nearest and
/// held at the start of the beat.
pub open spec fn candidate(beat_length: int, subdivisions: int, i: int, off: int, k: int) -> int {
    let num = beat_length * i * MICRO + subdivisions * off;
    beat_length * (k + 1) + if num < 0 {
        0
    } else {
        round_div(num, subdivisions * MICRO)
    }
}

/// A factor drawn around `center` with deviation `dev`: from `[center - dev, center + dev)`,
/// or exactly `center` when `dev` is zero.
pub open spec fn around(x: int, center: int, dev: int) -> bool {
    if dev == 0 {
        x == center
    } else {
        center - dev <= x < center + dev
    }
}

/// `e` is an event that beat `k` can produce.
pub open spec fn event_of_beat(e: Event, beat_length: int, b: BeatConfiguration, k: int) -> bool {
    &&& exists|i: int, off: int|
        0 <= i < b.subdivisions && jitter_ok(off, max_jitter(beat_length, b)) && e.start_index
            == #[trigger] candidate(beat_length, b.subdivisions as int, i, off, k)
    &&& around(e.panorama as int, 0, b.panorama_deviation_percents / 100)
    &&& around(e.volume as int, MICRO as int, b.volume_deviation_percents / 100)
}

/// Number of events produced by the first `k` beats.
pub open spec fn events_before(beats: Seq<BeatConfiguration>, k: int) -> int
    decreases k,
{
    if k <= 0 {
        0
    } else {
        events_before(beats, k - 1) + chosen_count(beats[k - 1])
    }
}

proof fn lemma_events_before_monotonic(beats: Seq<BeatConfiguration>, a: int, b: int)
    requires
        0 <= a <= b <= beats.len(),
        forall|j: int| 0 <= j < beats.len() ==> (#[trigger] beats[j]).coverage_percentage >= 0,
    ensures
        events_before(beats, a) <= events_before(beats, b),
    decreases b - a,
{
    if a < b {
        lemma_events_before_monotonic(beats, a, b - 1);
        let x = beats[b - 1];
        lemma_mul_nonnegative(x.subdivisions as int, x.coverage_percentage as int);
        lemma_div_pos_is_pos(
            2 * ((x.subdivisions as int) * (x.coverage_percentage as int)) + 100 * MICRO,
            200 * MICRO as int,
        );
        assert(2 * (x.subdivisions as int) * (x.coverage_percentage as int) == 2 * ((
        x.subdivisions as int) * (x.coverage_percentage as int))) by (nonlinear_arith);
    }
}

/// Start indices of a run of events.
pub open spec fn starts_of(s: Seq<Event>) -> Seq<usize> {
    s.map_values(|e: Event| e.start_index)
}

/// The candidate starts of beat `b`: sub-beat `q` starts at `c[q]`, jittered by `o[q]`.
pub open spec fn candidates_of(
    c: Seq<usize>,
    o: Seq<int>,
    beat_length: int,
    beat: BeatConfiguration,
    b: int,
) -> bool {
    &&& c.len() == beat.subdivisions
    &&& o.len() == beat.subdivisions
    &&& forall|q: int|
        0 <= q < c.len() ==> jitter_ok(o[q], max_jitter(beat_length, beat)) && #[trigger] c[q]
            == candidate(beat_length, beat.subdivisions as int, q, o[q], b)
}

/// The events of each of the first `k` beats start at distinct sub-beats of that beat:
/// their starts form a sub-multiset of the beat's candidate starts (drawn without
/// repetition).
pub open spec fn drawn_without_repetition(
    generated: Seq<Event>,
    beats: Seq<BeatConfiguration>,
    beat_length: int,
    k: int,
    cands: Seq<Seq<usize>>,
    jitters: Seq<Seq<int>>,
) -> bool {
    &&& cands.len() == k
    &&& jitters.len() == k
    &&& forall|b: int|
        0 <= b < k ==> candidates_of(#[trigger] cands[b], jitters[b], beat_length, beats[b], b)
            && starts_of(
            generated.subrange(events_before(beats, b), events_before(beats, b + 1)),
        ).to_multiset().subset_of(cands[b].to_multiset())
}

/// `generated` holds, beat after beat, exactly the chosen count of events of each beat.
pub open spec fn events_match_beats(
    generated: Seq<Event>,
    beats: Seq<BeatConfiguration>,
    beat_length: int,
    k: int,
) -> bool {
    &&& generated.len() == events_before(beats, k)
    &&& forall|b: int, m: int|
        0 <= b < k && events_before(beats, b) <= m < events_before(beats, b + 1)
            ==> #[trigger] event_of_beat(generated[m], beat_length, beats[b], b)
}

/// A beat lasts at most 30 s, so at most 11 520 000 samples at 384 kHz.
pub(crate) proof fn lemma_beat_samples_bound(c: SynthConfiguration)
    requires
        c.wf(),
    ensures
        1 <= beat_samples(c) <= 11_520_001,
{
    lemma_grain_samples_positive(c.beat_length_ms as int, c.engine_sampling_rate as int);
    let ms = c.beat_length_ms as int;
    let rate = c.engine_sampling_rate as int;
    lemma_mul_upper_bound(ms, 30_000 * MICRO as int, rate, 384_000);
    lemma_mul_nonnegative(ms, rate);
    assert(2 * ms * rate == 2 * (ms * rate)) by (nonlinear_arith);
    lemma_div_is_ordered(
        2 * (ms * rate) + 1_000_000_000,
        2 * 30_000 * MICRO * 384_000 + 1_000_000_000,
        2_000_000_000,
    );
    lemma_div_pos_is_pos(2 * (ms * rate) + 1_000_000_000, 2_000_000_000);
}

/// A valid beat has at most 3000 sub-beats.
proof fn lemma_subdivisions_bound(b: BeatConfiguration, beat_length_ms: int)
    requires
        b.wf(beat_length_ms),
        beat_length_ms <= 30_000 * MICRO,
    ensures
        b.subdivisions <= 3000,
        0 <= b.humanization_percents <= 50 * MICRO,
        0 <= b.coverage_percentage <= 100 * MICRO,
        0 <= b.volume_deviation_percents <= 100 * MICRO,
        0 <= b.panorama_deviation_percents <= 100 * MICRO,
{
    assert(beat_length_ms >= 10 * MICRO * b.subdivisions);
    assert(b.subdivisions <= 3000) by (nonlinear_arith)
        requires
            beat_length_ms >= 10_000_000 * b.subdivisions,
            beat_length_ms <= 30_000_000_000,
    ;
}

/// A jittered sub-beat stays within its beat: the offset from the beat's start is at most
/// one beat length.
proof fn lemma_candidate_within_beat(bl: int, s: int, i: int, off: int, h: int)
    requires
        0 <= bl,
        1 <= s,
        0 <= i < s,
        0 <= h <= 50 * MICRO,
        jitter_ok(off, bl * h / (s * 100)),
    ensures
        ({
            let num = bl * i * MICRO + s * off;
            num >= 0 ==> round_div(num, s * MICRO) <= bl
        }),
        -(s * (bl * h / (s * 100))) <= s * off <= bl * 500_000,
{
    let m = bl * h / (s * 100);
    lemma_mul_nonnegative(bl, h);
    lemma_mul_nonnegative(s, 100);
    lemma_fundamental_div_mod(bl * h, s * 100);
    lemma_mod_bound(bl * h, s * 100);
    lemma_div_pos_is_pos(bl * h, s * 100);
    assert(s * 100 * m <= bl * h);
    assert(off <= m);
    assert(s * off <= s * m) by (nonlinear_arith)
        requires
            off <= m,
            s >= 1,
    ;
    assert(-(s * m) <= s * off) by (nonlinear_arith)
        requires
            -m <= off || off == 0,
            s >= 1,
            m >= 0,
    ;
    assert(bl * h <= bl * (50 * MICRO)) by (nonlinear_arith)
        requires
            0 <= bl,
            h <= 50 * MICRO,
    ;
    assert(s * off <= bl * 500_000) by (nonlinear_arith)
        requires
            s * off <= s * m,
            s * 100 * m <= bl * h,
            bl * h <= bl * (50 * MICRO),
    ;
    let num = bl * i * MICRO + s * off;
    let d = s * MICRO;
    if num >= 0 {
        assert(bl * i * MICRO <= bl * (s - 1) * MICRO) by (nonlinear_arith)
            requires
                0 <= bl,
                i <= s - 1,
        ;
        assert(2 * num + d < 2 * d * (bl + 1)) by (nonlinear_arith)
            requires
                num == bl * i * MICRO + s * off,
                d == s * MICRO,
                bl * i * MICRO <= bl * (s - 1) * MICRO,
                s * off <= bl * 500_000,
                s >= 1,
                bl >= 0,
        ;
        let q = (2 * num + d) / (2 * d);
        lemma_fundamental_div_mod(2 * num + d, 2 * d);
        lemma_mod_bound(2 * num + d, 2 * d);
        assert(q <= bl) by (nonlinear_arith)
            requires
                2 * num + d == 2 * d * q + (2 * num + d) % (2 * d),
                0 <= (2 * num + d) % (2 * d),
                2 * num + d < 2 * d * (bl + 1),
                d >= 1,
        ;
    }
}

proof fn lemma_chosen_at_most_subdivisions(b: BeatConfiguration)
    requires
        0 <= b.coverage_percentage <= 100 * MICRO,
    ensures
        0 <= chosen_count(b) <= b.subdivisions,
{
    let s = b.subdivisions as int;
    let c = b.coverage_percentage as int;
    lemma_mul_inequality(c, 100 * MICRO as int, s);
    lemma_mul_nonnegative(s, c);
    lemma_mul_is_commutative(c, s);
    assert(2 * s * c == 2 * (s * c)) by (nonlinear_arith);
    lemma_div_pos_is_pos(2 * (s * c) + 100 * MICRO, 200 * MICRO as int);
    assert((2 * s + 1) * (100 * MICRO) == 2 * ((100 * MICRO) * s) + 100 * MICRO) by (nonlinear_arith);
    lemma_div_is_ordered(2 * (s * c) + 100 * MICRO, (2 * s + 1) * (100 * MICRO), 200 * MICRO as int);
    lemma_fundamental_div_mod((2 * s + 1) * (100 * MICRO), 200 * MICRO as int);
    lemma_mod_bound((2 * s + 1) * (100 * MICRO), 200 * MICRO as int);
    assert((2 * s + 1) * (100 * MICRO) / (200 * MICRO as int) <= s) by (nonlinear_arith)
        requires
            (2 * s + 1) * (100 * MICRO) == 200 * MICRO * ((2 * s + 1) * (100 * MICRO) / (200
                * MICRO as int)) + (2 * s + 1) * (100 * MICRO) % (200 * MICRO as int),
            0 <= (2 * s + 1) * (100 * MICRO) % (200 * MICRO as int),
    ;
}

/// A beat with full coverage receives one event per sub-beat.
pub proof fn lemma_full_coverage(b: BeatConfiguration)
    requires
        b.coverage_percentage == 100 * MICRO,
    ensures
        chosen_count(b) == b.subdivisions,
{
    let s = b.subdivisions as int;
    assert(2 * s * (100 * MICRO) + 100 * MICRO == (2 * s + 1) * (100 * MICRO)) by (nonlinear_arith);
    assert(((2 * s + 1) * (100 * MICRO)) / (200 * MICRO as int) == s) by {
        lemma_fundamental_div_mod((2 * s + 1) * (100 * MICRO), 200 * MICRO as int);
        lemma_mod_bound((2 * s + 1) * (100 * MICRO), 200 * MICRO as int);
        let q = ((2 * s + 1) * (100 * MICRO)) / (200 * MICRO as int);
        let r = ((2 * s + 1) * (100 * MICRO)) % (200 * MICRO as int);
        assert(q == s) by (nonlinear_arith)
            requires
                (2 * s + 1) * 100_000_000 == 200_000_000 * q + r,
                0 <= r < 200_000_000,
        ;
    }
}

/// A jittered sub-beat starts before the next beat, once a beat holds at least one sample
/// per sub-beat.
proof fn lemma_candidate_before_next_beat(bl: int, s: int, i: int, off: int, h: int)
    requires
        1 <= s <= bl,
        0 <= i < s,
        0 <= h <= 50 * MICRO,
        jitter_ok(off, bl * h / (s * 100)),
    ensures
        ({
            let num = bl * i * MICRO + s * off;
            num >= 0 ==> round_div(num, s * MICRO) < bl
        }),
{
    let m = bl * h / (s * 100);
    lemma_mul_nonnegative(bl, h);
    lemma_fundamental_div_mod(bl * h, s * 100);
    lemma_mod_bound(bl * h, s * 100);
    lemma_div_pos_is_pos(bl * h, s * 100);
    assert(bl * h <= bl * (50 * MICRO)) by (nonlinear_arith)
        requires
            0 <= bl,
            h <= 50 * MICRO,
    ;
    let u = MICRO as int;
    let num = bl * i * u + s * off;
    let d = s * u;
    if num >= 0 {
        assert(bl * i * u <= bl * (s - 1) * u) by (nonlinear_arith)
            requires
                0 <= bl,
                i <= s - 1,
                u > 0,
        ;
        if m == 0 {
            assert(2 * num + d < 2 * d * bl) by (nonlinear_arith)
                requires
                    num == bl * i * u + s * off,
                    off == 0,
                    d == s * u,
                    bl * i * u <= bl * (s - 1) * u,
                    1 <= s <= bl,
                    u == 1_000_000,
            ;
        } else {
            assert(s * off <= s * m - s) by (nonlinear_arith)
                requires
                    off <= m - 1,
                    s >= 1,
            ;
            assert(2 * num + d < 2 * d * bl) by (nonlinear_arith)
                requires
                    num == bl * i * u + s * off,
                    s * off <= s * m - s,
                    s * 100 * m <= bl * h,
                    bl * h <= bl * (50 * MICRO),
                    d == s * u,
                    bl * i * u <= bl * (s - 1) * u,
                    1 <= s <= bl,
                    u == 1_000_000,
            ;
        }
        let q = (2 * num + d) / (2 * d);
        lemma_fundamental_div_mod(2 * num + d, 2 * d);
        lemma_mod_bound(2 * num + d, 2 * d);
        assert(q < bl) by (nonlinear_arith)
            requires
                2 * num + d == 2 * d * q + (2 * num + d) % (2 * d),
                0 <= (2 * num + d) % (2 * d),
                2 * num + d < 2 * d * bl,
                d >= 1,
        ;
    }
}

/// Every event a valid beat `k` can produce starts within that beat: at or after its first
/// sample (one beat of lead-in plus `k` beats) and before the next beat begins.
pub proof fn lemma_event_within_beat(e: Event, c: SynthConfiguration, b: BeatConfiguration, k: int)
    requires
        c.wf(),
        b.wf(c.beat_length_ms as int),
        k >= 0,
        event_of_beat(e, beat_samples(c), b, k),
    ensures
        beat_samples(c) * (k + 1) <= e.start_index < beat_samples(c) * (k + 2),
{
    let bl = beat_samples(c);
    lemma_subdivisions_bound(b, c.beat_length_ms as int);
    let s = b.subdivisions as int;
    let ms = c.beat_length_ms as int;
    let rate = c.engine_sampling_rate as int;
    assert(ms >= 10 * MICRO * s);
    assert(s <= bl) by {
        assert(960_000_000_000 * s <= 2 * (ms * rate)) by (nonlinear_arith)
            requires
                ms >= 10_000_000 * s,
                rate >= 48_000,
                s >= 0,
        ;
        assert(2 * ms * rate == 2 * (ms * rate)) by (nonlinear_arith);
        lemma_div_is_ordered(960_000_000_000 * s + 1_000_000_000, 2 * (ms * rate) + 1_000_000_000, 2_000_000_000);
        assert((960_000_000_000 * s + 1_000_000_000) / 2_000_000_000 >= s) by {
            lemma_fundamental_div_mod(960_000_000_000 * s + 1_000_000_000, 2_000_000_000);
            lemma_mod_bound(960_000_000_000 * s + 1_000_000_000, 2_000_000_000);
            let q = (960_000_000_000 * s + 1_000_000_000) / 2_000_000_000;
            let r = (960_000_000_000 * s + 1_000_000_000) % 2_000_000_000;
            assert(q >= s) by (nonlinear_arith)
                requires
                    960_000_000_000 * s + 1_000_000_000 == 2_000_000_000 * q + r,
                    r < 2_000_000_000,
                    s >= 0,
            ;
        }
    }
    let (i, off) = choose|i: int, off: int|
        0 <= i < b.subdivisions && jitter_ok(off, max_jitter(bl, b)) && e.start_index
            == #[trigger] candidate(bl, b.subdivisions as int, i, off, k);
    lemma_candidate_before_next_beat(bl, s, i, off, b.humanization_percents as int);
    let num = bl * i * MICRO + s * off;
    if num >= 0 {
        lemma_div_pos_is_pos(2 * num + s * MICRO, 2 * s * MICRO);
    }
    assert(bl * (k + 2) == bl * (k + 1) + bl) by (nonlinear_arith);
}

/// Places `e` after every event that starts no later, keeping the list in order.
#[verifier::spinoff_prover]
#[verifier::rlimit(30)]
fn insert_sorted(seq: &mut Vec<Event>, e: Event)
    requires
        sorted_by_start(old(seq)@),
    ensures
        sorted_by_start(final(seq)@),
        final(seq)@.to_multiset() == old(seq)@.to_multiset().insert(e),
        final(seq)@.len() == old(seq)@.len() + 1,
{
    let mut p: usize = seq.len();
    while p > 0 && seq[p - 1].start_index > e.start_index
        invariant
            p <= seq@.len(),
            forall|j: int| p <= j < seq@.len() ==> seq@[j].start_index > e.start_index,
        decreases p,
    {
        p = p - 1;
    }
    let ghost before = seq@;
    seq.insert(p, e);
    proof {
        let t = seq@;
        assert(t.remove(p as int) =~= before);
        t.to_multiset_ensures();
        assert(t[p as int] == e);
        assert(t.to_multiset() =~= before.to_multiset().insert(e));
        assert forall|i: int, j: int| 0 <= i < j < t.len() implies t[i].start_index
            <= t[j].start_index by {
            if i < p && j > p {
                assert(t[i] == before[i]);
                assert(t[j] == before[j - 1]);
            } else if i < p && j == p {
                assert(t[i] == before[i]);
                assert(before[p - 1].start_index <= e.start_index);
            } else if i == p {
                assert(t[j] == before[j - 1]);
            } else if i < p {
                assert(t[i] == before[i]);
                assert(t[j] == before[j]);
            } else {
                assert(t[i] == before[i - 1]);
                assert(t[j] == before[j - 1]);
            }
        }
    }
}


impl Sequencer {
    /// An empty event list with the thread's random source.
    pub fn default() -> (r: Sequencer)
        ensures
            r.sequence@.len() == 0,
    {
        Sequencer { sequence: Vec::new(), randomness_source: rand::thread_rng() }
    }

    /// Starts of the sub-beats of beat `k`, each with its own jitter; the jitters drawn are
    /// returned beside them.
    fn sub_beat_positions(&mut self, beat: &BeatConfiguration, bl: usize, k: usize) -> (r: (
        Vec<usize>,
        Ghost<Seq<int>>,
    ))
        requires
            beat.subdivisions <= 3000,
            0 <= beat.humanization_percents <= 50 * MICRO,
            bl <= 11_520_001,
            k + 2 <= usize::MAX,
            (k + 2) * bl <= usize::MAX,
        ensures
            r.0@.len() == beat.subdivisions,
            r.1@.len() == beat.subdivisions,
            final(self).sequence@ == old(self).sequence@,
            forall|q: int| 0 <= q < r.1@.len() ==> jitter_ok(#[trigger] r.1@[q], max_jitter(bl as int, *beat)),
            forall|q: int|
                0 <= q < r.0@.len() ==> #[trigger] r.0@[q] == candidate(
                    bl as int,
                    beat.subdivisions as int,
                    q,
                    r.1@[q],
                    k as int,
                ),
    {
        let ghost seq0 = self.sequence@;
        let s = beat.subdivisions;
        let h = beat.humanization_percents;
        proof {
            lemma_mul_upper_bound(bl as int, 11_520_001, h as int, 50 * MICRO as int);
            lemma_mul_nonnegative(bl as int, h as int);
            if s > 0 {
                lemma_div_is_ordered_by_denominator((bl as int) * (h as int), 1, (s as int) * 100);
                lemma_div_pos_is_pos((bl as int) * (h as int), (s as int) * 100);
            }
        }
        let maxh: i64 = if s == 0 {
            0
        } else {
            ((bl as u128) * (h as u128) / ((s as u128) * 100)) as i64
        };
        let mut coords: Vec<usize> = Vec::with_capacity(s);
        let ghost mut offs: Seq<int> = Seq::empty();
        let mut i: usize = 0;
        while i < s
            invariant
                i <= s,
                self.sequence@ == seq0,
                s == beat.subdivisions,
                s <= 3000,
                h == beat.humanization_percents,
                0 <= h <= 50 * MICRO,
                bl <= 11_520_001,
                k + 2 <= usize::MAX,
                (k + 2) * bl <= usize::MAX,
                maxh == max_jitter(bl as int, *beat),
                0 <= maxh <= 11_520_001 * 50 * MICRO,
                coords@.len() == i,
                offs.len() == i,
                forall|q: int| 0 <= q < i ==> jitter_ok(#[trigger] offs[q], maxh as int),
                forall|q: int|
                    0 <= q < i ==> #[trigger] coords@[q] == candidate(bl as int, s as int, q, offs[q], k as int),
            decreases s - i,
        {
            let off: i64 = if maxh > 0 {
                draw_offset(&mut self.randomness_source, -maxh, maxh)
            } else {
                0
            };
            proof {
                lemma_candidate_within_beat(bl as int, s as int, i as int, off as int, h as int);
                lemma_mul_upper_bound(bl as int, 11_520_001, i as int, 3000);
                lemma_mul_nonnegative(bl as int, i as int);
                assert(-(3000 * (11_520_001 * 50 * MICRO)) <= (s as int) * (off as int) <= 3000 * (
                11_520_001 * 50 * MICRO)) by (nonlinear_arith)
                    requires
                        0 <= s <= 3000,
                        -(11_520_001 * 50 * MICRO) <= off <= 11_520_001 * 50 * MICRO,
                ;
            }
            let num: i128 = (bl as i128) * (i as i128) * 1_000_000 + (s as i128) * (off as i128);
            let within: usize = if num < 0 {
                0
            } else {
                let d: u128 = (s as u128) * 1_000_000;
                ((2 * (num as u128) + d) / (2 * d)) as usize
            };
            proof {
                assert(within <= bl);
                lemma_mul_inequality((k + 1) as int, (k + 2) as int, bl as int);
                lemma_mul_is_commutative((k + 1) as int, bl as int);
                assert((k + 2) * bl == (k + 1) * bl + bl) by (nonlinear_arith);
            }
            let ghost before = coords@;
            coords.push(bl * (k + 1) + within);
            proof {
                let o0 = offs;
                offs = offs.push(off as int);
                assert(jitter_ok(off as int, maxh as int));
                assert(within as int == if num < 0 {
                    0
                } else {
                    round_div(num as int, s * MICRO)
                });
                assert(coords@[i as int] == candidate(bl as int, s as int, i as int, off as int, k as int));
                assert forall|q: int| 0 <= q < i + 1 implies jitter_ok(#[trigger] offs[q], maxh as int) by {
                    if q < i {
                        assert(offs[q] == o0[q]);
                    }
                }
                assert forall|q: int| 0 <= q < i + 1 implies #[trigger] coords@[q] == candidate(
                    bl as int,
                    s as int,
                    q,
                    offs[q],
                    k as int,
                ) by {
                    if q < i {
                        assert(coords@[q] == before[q]);
                        assert(offs[q] == o0[q]);
                    }
                }
            }
            i = i + 1;
        }
        (coords, Ghost(offs))
    }

    /// Adds the events of every beat: sub-beat `i` of beat `k` (counting from zero) starts
    /// `k + 1` beats plus `i` sub-beats in, moved by a jitter of up to the humanization
    /// percentage of a sub-beat; `subdivisions × coverage / 100%` (rounded) of these starts
    /// are chosen at random without repetition, each with a pan drawn within the pan
    /// deviation and a volume factor drawn within the volume deviation around 1. The list
    /// is kept in ascending order of start; the order among events that start together is
    /// left open.
    pub fn generate_sequence(
        &mut self,
        beat_sequence: &Vec<BeatConfiguration>,
        synth_configuration: &SynthConfiguration,
    )
        requires
            synth_configuration.wf(),
            forall|k: int|
                0 <= k < beat_sequence@.len() ==> (#[trigger] beat_sequence@[k]).wf(
                    synth_configuration.beat_length_ms as int,
                ),
            (beat_sequence@.len() + 2) * beat_samples(*synth_configuration) <= usize::MAX,
        ensures
            sorted_by_start(final(self).sequence@),
            final(self).sequence@.len() == old(self).sequence@.len() + events_before(
                beat_sequence@,
                beat_sequence@.len() as int,
            ),
            exists|generated: Seq<Event>, cands: Seq<Seq<usize>>, jitters: Seq<Seq<int>>|
                #![trigger events_match_beats(generated, beat_sequence@, beat_samples(*synth_configuration), beat_sequence@.len() as int), drawn_without_repetition(generated, beat_sequence@, beat_samples(*synth_configuration), beat_sequence@.len() as int, cands, jitters)]
                events_match_beats(
                    generated,
                    beat_sequence@,
                    beat_samples(*synth_configuration),
                    beat_sequence@.len() as int,
                ) && drawn_without_repetition(
                    generated,
                    beat_sequence@,
                    beat_samples(*synth_configuration),
                    beat_sequence@.len() as int,
                    cands,
                    jitters,
                ) && final(self).sequence@.to_multiset() == old(self).sequence@.to_multiset().add(
                    generated.to_multiset(),
                ),
    {
        let bl = grain_length_samples(synth_configuration.beat_length_ms, synth_configuration.engine_sampling_rate);
        proof {
            lemma_beat_samples_bound(*synth_configuration);
        }
        let ghost base = self.sequence@;
        let mut ordered: Vec<Event> = Vec::new();
        proof {
            assert(ordered@ =~= base.subrange(0, 0));
        }
        let mut i: usize = 0;
        while i < self.sequence.len()
            invariant
                i <= self.sequence@.len(),
                self.sequence@ == base,
                sorted_by_start(ordered@),
                ordered@.to_multiset() == base.subrange(0, i as int).to_multiset(),
                ordered@.len() == i,
            decreases self.sequence.len() - i,
        {
            let e = self.sequence[i];
            insert_sorted(&mut ordered, e);
            proof {
                let pre = base.subrange(0, i as int);
                assert(base.subrange(0, i + 1) =~= pre.push(e));
                pre.to_multiset_ensures();
            }
            i = i + 1;
        }
        proof {
            assert(base.subrange(0, base.len() as int) == base);
        }
        self.sequence = ordered;
        let ghost mut generated: Seq<Event> = Seq::empty();
        let ghost mut cands: Seq<Seq<usize>> = Seq::empty();
        let ghost mut jitters: Seq<Seq<int>> = Seq::empty();
        proof {
            generated.to_multiset_ensures();
            assert(self.sequence@.to_multiset() =~= base.to_multiset().add(generated.to_multiset()));
        }
        let mut k: usize = 0;
        while k < beat_sequence.len()
            invariant
                k <= beat_sequence@.len(),
                synth_configuration.wf(),
                bl == beat_samples(*synth_configuration),
                1 <= bl <= 11_520_001,
                (beat_sequence@.len() + 2) * bl <= usize::MAX,
                forall|j: int|
                    0 <= j < beat_sequence@.len() ==> (#[trigger] beat_sequence@[j]).wf(
                        synth_configuration.beat_length_ms as int,
                    ),
                sorted_by_start(self.sequence@),
                self.sequence@.to_multiset() == base.to_multiset().add(generated.to_multiset()),
                self.sequence@.len() == base.len() + generated.len(),
                events_match_beats(generated, beat_sequence@, bl as int, k as int),
                drawn_without_repetition(generated, beat_sequence@, bl as int, k as int, cands, jitters),
            decreases beat_sequence.len() - k,
        {
            let beat = beat_sequence[k];
            proof {
                lemma_subdivisions_bound(beat, synth_configuration.beat_length_ms as int);
                lemma_chosen_at_most_subdivisions(beat);
                lemma_mul_inequality((k + 2) as int, (beat_sequence@.len() + 2) as int, bl as int);
                lemma_mul_inequality(1, bl as int, (beat_sequence@.len() + 2) as int);
                lemma_mul_is_commutative((beat_sequence@.len() + 2) as int, bl as int);
            }
            let (coords, Ghost(offs)) = self.sub_beat_positions(&beat, bl, k);
            let s = beat.subdivisions;
            proof {
                lemma_mul_upper_bound(s as int, 3000, beat.coverage_percentage as int, 100 * MICRO as int);
                lemma_mul_nonnegative(s as int, beat.coverage_percentage as int);
            }
            let sc: u64 = (s as u64) * (beat.coverage_percentage as u64);
            let count: usize = ((2 * sc + 100 * MICRO) / (200 * MICRO)) as usize;
            proof {
                assert(2 * (s as int) * (beat.coverage_percentage as int) == 2 * ((s as int) * (
                beat.coverage_percentage as int))) by (nonlinear_arith);
                assert(count == chosen_count(beat));
            }
            let chosen = choose_positions(&mut self.randomness_source, &coords, count);
            let pan_dev: i64 = beat.panorama_deviation_percents / 100;
            let vol_dev: i64 = beat.volume_deviation_percents / 100;
            let ghost start = generated.len();
            let ghost before_beat = generated;
            let mut q: usize = 0;
            while q < chosen.len()
                invariant
                    q <= chosen@.len(),
                    start == before_beat.len(),
                    generated.subrange(0, start as int) == before_beat,
                    starts_of(generated.subrange(start as int, generated.len() as int)) == chosen@.subrange(0, q as int),
                    k < beat_sequence@.len(),
                    synth_configuration.wf(),
                    forall|j: int|
                        0 <= j < beat_sequence@.len() ==> (#[trigger] beat_sequence@[j]).wf(
                            synth_configuration.beat_length_ms as int,
                        ),
                    beat == beat_sequence@[k as int],
                    chosen@.len() == chosen_count(beat),
                    coords@.len() == beat.subdivisions,
                    offs.len() == beat.subdivisions,
                    forall|qq: int| 0 <= qq < offs.len() ==> jitter_ok(#[trigger] offs[qq], max_jitter(bl as int, beat)),
                    forall|qq: int|
                        0 <= qq < coords@.len() ==> #[trigger] coords@[qq] == candidate(
                            bl as int,
                            beat.subdivisions as int,
                            qq,
                            offs[qq],
                            k as int,
                        ),
                    chosen@.to_multiset().subset_of(coords@.to_multiset()),
                    pan_dev == beat.panorama_deviation_percents / 100,
                    vol_dev == beat.volume_deviation_percents / 100,
                    0 <= pan_dev <= MICRO,
                    0 <= vol_dev <= MICRO,
                    start == events_before(beat_sequence@, k as int),
                    generated.len() == start + q,
                    forall|b: int, m: int|
                        0 <= b < k && events_before(beat_sequence@, b) <= m < events_before(
                            beat_sequence@,
                            b + 1,
                        ) ==> #[trigger] event_of_beat(generated[m], bl as int, beat_sequence@[b], b),
                    forall|m: int|
                        start <= m < generated.len() ==> #[trigger] event_of_beat(
                            generated[m],
                            bl as int,
                            beat,
                            k as int,
                        ),
                    sorted_by_start(self.sequence@),
                    self.sequence@.to_multiset() == base.to_multiset().add(generated.to_multiset()),
                    self.sequence@.len() == base.len() + generated.len(),
                decreases chosen.len() - q,
            {
                let panorama: i64 = if pan_dev == 0 {
                    0
                } else {
                    draw_offset(&mut self.randomness_source, -pan_dev, pan_dev)
                };
                let volume: i64 = if vol_dev == 0 {
                    MICRO as i64
                } else {
                    draw_offset(&mut self.randomness_source, MICRO as i64 - vol_dev, MICRO as i64 + vol_dev)
                };
                let e = Event { start_index: chosen[q], panorama, volume };
                proof {
                    let x = chosen@[q as int];
                    chosen@.to_multiset_ensures();
                    coords@.to_multiset_ensures();
                    assert(chosen@.contains(x));
                    assert(chosen@.to_multiset().count(x) > 0);
                    assert(coords@.to_multiset().count(x) > 0);
                    assert(coords@.contains(x));
                    let qq = choose|qq: int| 0 <= qq < coords@.len() && coords@[qq] == x;
                    assert(x == candidate(bl as int, beat.subdivisions as int, qq, offs[qq], k as int));
                    assert(event_of_beat(e, bl as int, beat, k as int));
                }
                insert_sorted(&mut self.sequence, e);
                proof {
                    let g0 = generated;
                    generated = generated.push(e);
                    assert(generated.subrange(0, start as int) =~= g0.subrange(0, start as int));
                    assert(starts_of(generated.subrange(start as int, generated.len() as int)) =~= chosen@.subrange(0, q + 1));
                    g0.to_multiset_ensures();
                    assert(self.sequence@.to_multiset() =~= base.to_multiset().add(generated.to_multiset()));
                    assert forall|j: int| 0 <= j < beat_sequence@.len() implies (
                    #[trigger] beat_sequence@[j]).coverage_percentage >= 0 by {
                        lemma_subdivisions_bound(beat_sequence@[j], synth_configuration.beat_length_ms as int);
                    }
                    assert forall|b: int, m: int|
                        0 <= b < k && events_before(beat_sequence@, b) <= m < events_before(
                            beat_sequence@,
                            b + 1,
                        ) implies #[trigger] event_of_beat(generated[m], bl as int, beat_sequence@[b], b) by {
                        lemma_events_before_monotonic(beat_sequence@, b + 1, k as int);
                        lemma_events_before_monotonic(beat_sequence@, 0, b);
                        assert(0 <= m < g0.len());
                        assert(generated[m] == g0[m]);
                    }
                    assert forall|m: int| start <= m < generated.len() implies #[trigger] event_of_beat(
                        generated[m],
                        bl as int,
                        beat,
                        k as int,
                    ) by {
                        if m < g0.len() {
                            assert(generated[m] == g0[m]);
                        }
                    }
                }
                q = q + 1;
            }
            proof {
                assert(events_before(beat_sequence@, k + 1) == start + chosen_count(beat));
                assert(chosen@.subrange(0, chosen@.len() as int) == chosen@);
                let c0 = cands;
                let j0 = jitters;
                cands = cands.push(coords@);
                jitters = jitters.push(offs);
                assert forall|j: int| 0 <= j < beat_sequence@.len() implies (
                #[trigger] beat_sequence@[j]).coverage_percentage >= 0 by {
                    lemma_subdivisions_bound(beat_sequence@[j], synth_configuration.beat_length_ms as int);
                }
                assert forall|b: int| 0 <= b < k + 1 implies candidates_of(
                    #[trigger] cands[b],
                    jitters[b],
                    bl as int,
                    beat_sequence@[b],
                    b,
                ) && starts_of(
                    generated.subrange(
                        events_before(beat_sequence@, b),
                        events_before(beat_sequence@, b + 1),
                    ),
                ).to_multiset().subset_of(cands[b].to_multiset()) by {
                    if b < k {
                        assert(cands[b] == c0[b]);
                        assert(jitters[b] == j0[b]);
                        lemma_events_before_monotonic(beat_sequence@, 0, b);
                        lemma_events_before_monotonic(beat_sequence@, b + 1, k as int);
                        assert(generated.subrange(
                            events_before(beat_sequence@, b),
                            events_before(beat_sequence@, b + 1),
                        ) =~= before_beat.subrange(
                            events_before(beat_sequence@, b),
                            events_before(beat_sequence@, b + 1),
                        ));
                    } else {
                        assert(candidates_of(coords@, offs, bl as int, beat, k as int));
                    }
                }
            }
            k = k + 1;
        }
    }
}

} // verus!
