//! Mono and stereo sample buffers over fixed-point samples, with peak normalization and
//! conversion to and from the integer PCM layouts of a WAV container.
use crate::arith::{clamp, magnitude, magnitude_of, round_scale, rounded, scale, scaled};
use vstd::arithmetic::div_mod::*;
use vstd::arithmetic::mul::*;
use vstd::prelude::*;

verus! {

/// Sample value that stands for full scale (1.0); it is also the largest 32-bit PCM value.
pub const FULL_SCALE: i64 = 2147483647;

/// Largest 16-bit PCM value, which stands for full scale in a 16-bit container.
pub const PCM16_FULL: i64 = 32767;

#[derive(Debug, Clone, Copy, PartialEq, Eq, Structural)]
pub enum AudioError {
    /// A stereo-only operation was asked of a mono buffer.
    InvalidVariant,
    /// A silent buffer cannot be peak-normalized.
    DivisionByZero,
    /// The bit depth or channel count has no supported layout.
    UnsupportedFormat,
}

/// An audio buffer: one channel (mono) or two channels of equal length (stereo).
#[derive(Debug, Clone, PartialEq, Eq)]
pub enum AudioBuffer {
    Mono(Vec<i64>),
    Stereo(Vec<i64>, Vec<i64>),
}

/// Sample data as a WAV container holds it; multi-channel data is interleaved frame by frame.
/// `Float` carries fixed-point samples meant for an IEEE float container.
#[derive(Debug, Clone, PartialEq, Eq)]
pub enum EncodedAudio {
    Eight(Vec<u8>),
    Sixteen(Vec<i16>),
    TwentyFour(Vec<i32>),
    Float(Vec<i64>),
    Empty,
}

/// Largest sample magnitude in `s` (zero for an empty sequence).
pub open spec fn peak_of(s: Seq<i64>) -> int
    decreases s.len(),
{
    if s.len() == 0 {
        0
    } else {
        let p = peak_of(s.drop_last());
        let m = magnitude(s.last() as int);
        if p >= m {
            p
        } else {
            m
        }
    }
}

pub proof fn lemma_peak_bounds(s: Seq<i64>)
    ensures
        0 <= peak_of(s),
        forall|i: int| 0 <= i < s.len() ==> magnitude(#[trigger] s[i] as int) <= peak_of(s),
        s.len() > 0 ==> exists|i: int| 0 <= i < s.len() && magnitude(#[trigger] s[i] as int) == peak_of(s),
    decreases s.len(),
{
    if s.len() > 0 {
        let t = s.drop_last();
        lemma_peak_bounds(t);
        assert forall|i: int| 0 <= i < s.len() implies magnitude(#[trigger] s[i] as int) <= peak_of(s) by {
            if i < s.len() - 1 {
                assert(s[i] == t[i]);
            }
        }
        if peak_of(t) >= magnitude(s.last() as int) && t.len() > 0 {
            let j = choose|j: int| 0 <= j < t.len() && magnitude(#[trigger] t[j] as int) == peak_of(t);
            assert(s[j] == t[j]);
        } else {
            assert(s[s.len() - 1] == s.last());
        }
    }
}

/// The peak is the one bound that every sample meets and some sample reaches.
pub proof fn lemma_peak_is(s: Seq<i64>, v: int)
    requires
        forall|i: int| 0 <= i < s.len() ==> magnitude(#[trigger] s[i] as int) <= v,
        exists|i: int| 0 <= i < s.len() && magnitude(#[trigger] s[i] as int) == v,
    ensures
        peak_of(s) == v,
{
    lemma_peak_bounds(s);
    let i = choose|i: int| 0 <= i < s.len() && magnitude(#[trigger] s[i] as int) == v;
    let j = choose|j: int| 0 <= j < s.len() && magnitude(#[trigger] s[j] as int) == peak_of(s);
}

/// Largest sample magnitude over one or two channels.
pub open spec fn channels_peak(chs: Seq<Seq<i64>>) -> int {
    if chs.len() < 2 || peak_of(chs[0]) >= peak_of(chs[1]) {
        peak_of(chs[0])
    } else {
        peak_of(chs[1])
    }
}

/// `s` with every sample scaled by `num / den`, truncated toward zero.
pub open spec fn scaled_seq(s: Seq<i64>, num: int, den: int) -> Seq<i64> {
    Seq::new(s.len(), |i: int| scaled(s[i] as int, num, den) as i64)
}

pub open spec fn pcm16_of(s: i64) -> i16 {
    clamp(rounded(s as int, PCM16_FULL as int, FULL_SCALE as int), -32768, 32767) as i16
}

pub open spec fn sample_of_pcm16(v: i16) -> i64 {
    rounded(v as int, FULL_SCALE as int, PCM16_FULL as int) as i64
}

pub open spec fn pcm24_of(s: i64) -> i32 {
    clamp(s as int, i32::MIN as int, i32::MAX as int) as i32
}

/// Frames of a stereo pair, interleaved left then right.
pub open spec fn interleave(l: Seq<i64>, r: Seq<i64>) -> Seq<i64> {
    Seq::new(2 * l.len(), |k: int| if k % 2 == 0 { l[k / 2] } else { r[k / 2] })
}

/// Samples at even (`odd == false`) or odd positions of `s`, for every complete frame.
pub open spec fn deinterleave<T>(s: Seq<T>, odd: bool) -> Seq<T> {
    Seq::new(s.len() / 2, |i: int| if odd { s[2 * i + 1] } else { s[2 * i] })
}

impl AudioBuffer {
    pub open spec fn channels(&self) -> Seq<Seq<i64>> {
        match self {
            AudioBuffer::Mono(c) => seq![c@],
            AudioBuffer::Stereo(l, r) => seq![l@, r@],
        }
    }

    pub open spec fn is_stereo(&self) -> bool {
        self is Stereo
    }

    /// All channels have one length.
    pub open spec fn wf(&self) -> bool {
        match self {
            AudioBuffer::Mono(_) => true,
            AudioBuffer::Stereo(l, r) => l.len() == r.len(),
        }
    }

    pub open spec fn frames(&self) -> nat {
        self.channels()[0].len()
    }

    /// Largest sample magnitude over all channels.
    pub open spec fn peak(&self) -> int {
        channels_peak(self.channels())
    }

    /// The samples in container order: the channel itself, or stereo frames interleaved.
    pub open spec fn interleaved(&self) -> Seq<i64> {
        match self {
            AudioBuffer::Mono(c) => c@,
            AudioBuffer::Stereo(l, r) => interleave(l@, r@),
        }
    }

    /// An empty stereo buffer.
    pub fn default() -> (r: AudioBuffer)
        ensures
            r.is_stereo(),
            r.wf(),
            r.frames() == 0,
    {
        AudioBuffer::Stereo(Vec::new(), Vec::new())
    }

    /// Whether all channels have one length.
    pub fn is_consistent(&self) -> (r: bool)
        ensures
            r == self.wf(),
    {
        match self {
            AudioBuffer::Mono(_) => true,
            AudioBuffer::Stereo(l, r) => l.len() == r.len(),
        }
    }

    /// Number of samples per channel.
    pub fn len(&self) -> (r: usize)
        ensures
            r == self.frames(),
    {
        match self {
            AudioBuffer::Mono(c) => c.len(),
            AudioBuffer::Stereo(l, _) => l.len(),
        }
    }

    /// Replaces every channel with `size` zero samples; the variant is kept.
    pub fn blank(&mut self, size: usize)
        ensures
            final(self).is_stereo() == old(self).is_stereo(),
            final(self).wf(),
            final(self).frames() == size,
            forall|c: int|
                0 <= c < final(self).channels().len() ==> #[trigger] final(self).channels()[c]
                    == Seq::new(size as nat, |i: int| 0i64),
    {
        match self {
            AudioBuffer::Mono(c) => {
                *c = zeros(size);
            },
            AudioBuffer::Stereo(l, r) => {
                *l = zeros(size);
                *r = zeros(size);
            },
        }
    }

    /// The left channel of a stereo buffer.
    pub fn left(&self) -> (r: Result<&Vec<i64>, AudioError>)
        ensures
            match r {
                Ok(c) => self.is_stereo() && c@ == self.channels()[0],
                Err(e) => !self.is_stereo() && e == AudioError::InvalidVariant,
            },
    {
        match self {
            AudioBuffer::Stereo(l, _) => Ok(l),
            AudioBuffer::Mono(_) => Err(AudioError::InvalidVariant),
        }
    }

    /// The right channel of a stereo buffer.
    pub fn rigth(&self) -> (r: Result<&Vec<i64>, AudioError>)
        ensures
            match r {
                Ok(c) => self.is_stereo() && c@ == self.channels()[1],
                Err(e) => !self.is_stereo() && e == AudioError::InvalidVariant,
            },
    {
        match self {
            AudioBuffer::Stereo(_, r) => Ok(r),
            AudioBuffer::Mono(_) => Err(AudioError::InvalidVariant),
        }
    }

    /// Both channels of a stereo buffer.
    pub fn stereo(&self) -> (r: Result<(&Vec<i64>, &Vec<i64>), AudioError>)
        ensures
            match r {
                Ok((l, rt)) => self.is_stereo() && l@ == self.channels()[0] && rt@
                    == self.channels()[1],
                Err(e) => !self.is_stereo() && e == AudioError::InvalidVariant,
            },
    {
        match self {
            AudioBuffer::Stereo(l, r) => Ok((l, r)),
            AudioBuffer::Mono(_) => Err(AudioError::InvalidVariant),
        }
    }

    /// Scales every sample by `level / peak` so that the peak over all channels becomes
    /// `level`; stereo channels share one factor, so their balance is kept. A silent buffer
    /// is left as it is and reported.
    pub fn normalize(&mut self, level: i64) -> (r: Result<(), AudioError>)
        requires
            old(self).wf(),
            level >= 0,
        ensures
            r is Err <==> old(self).peak() == 0,
            r is Err ==> r == Err::<(), AudioError>(AudioError::DivisionByZero) && *final(self)
                == *old(self),
            r is Ok ==> {
                &&& final(self).is_stereo() == old(self).is_stereo()
                &&& final(self).wf()
                &&& final(self).channels().len() == old(self).channels().len()
                &&& forall|c: int|
                    0 <= c < old(self).channels().len() ==> #[trigger] final(self).channels()[c]
                        == scaled_seq(old(self).channels()[c], level as int, old(self).peak())
                &&& final(self).peak() == level
            },
    {
        match self {
            AudioBuffer::Mono(c) => {
                let p = channel_peak(c);
                if p == 0 {
                    return Err(AudioError::DivisionByZero);
                }
                proof {
                    lemma_scaled_peak(c@, level as int, p as int);
                }
                scale_channel(c, level as u64, p);
                Ok(())
            },
            AudioBuffer::Stereo(l, r) => {
                let pl = channel_peak(l);
                let pr = channel_peak(r);
                let p = if pl >= pr {
                    pl
                } else {
                    pr
                };
                if p == 0 {
                    return Err(AudioError::DivisionByZero);
                }
                proof {
                    lemma_scaled_peak(l@, level as int, p as int);
                    lemma_scaled_peak(r@, level as int, p as int);
                }
                scale_channel(l, level as u64, p);
                scale_channel(r, level as u64, p);
                Ok(())
            },
        }
    }

    /// The samples in container order.
    pub fn interleaved_samples(&self) -> (r: Vec<i64>)
        requires
            self.wf(),
        ensures
            r@ == self.interleaved(),
    {
        match self {
            AudioBuffer::Mono(c) => {
                let mut v: Vec<i64> = Vec::with_capacity(c.len());
                let mut i: usize = 0;
                while i < c.len()
                    invariant
                        i <= c.len(),
                        v@ == c@.subrange(0, i as int),
                    decreases c.len() - i,
                {
                    v.push(c[i]);
                    i = i + 1;
                }
                proof {
                    assert(c@.subrange(0, c@.len() as int) == c@);
                }
                v
            },
            AudioBuffer::Stereo(l, r) => {
                let mut v: Vec<i64> = Vec::new();
                let mut i: usize = 0;
                while i < l.len()
                    invariant
                        i <= l.len(),
                        l.len() == r.len(),
                        v@ == interleave(l@.subrange(0, i as int), r@.subrange(0, i as int)),
                    decreases l.len() - i,
                {
                    proof {
                        let a = interleave(l@.subrange(0, i as int), r@.subrange(0, i as int));
                        let b = interleave(l@.subrange(0, i + 1), r@.subrange(0, i + 1));
                        assert(b =~= a.push(l@[i as int]).push(r@[i as int])) by {
                            assert forall|k: int| 0 <= k < b.len() implies b[k] == a.push(
                                l@[i as int],
                            ).push(r@[i as int])[k] by {
                                if k < 2 * i {
                                    assert(k / 2 < i) by {
                                        lemma_div_is_ordered(k, 2 * i - 1, 2);
                                        lemma_fundamental_div_mod(2 * i - 1, 2);
                                    }
                                }
                            }
                        }
                    }
                    v.push(l[i]);
                    v.push(r[i]);
                    i = i + 1;
                }
                proof {
                    assert(l@.subrange(0, l@.len() as int) == l@);
                    assert(r@.subrange(0, r@.len() as int) == r@);
                }
                v
            },
        }
    }

    /// The buffer in the integer layout of the given container bit depth: 16-bit samples are
    /// rounded to 32767 steps of full scale; 24-bit samples are scaled against the 32-bit
    /// maximum rather than the 24-bit one (so files stay byte-compatible with those this
    /// format has always produced, at the cost of most of the 24-bit range) and saturate;
    /// 32-bit float output carries the samples unchanged. Any other depth is unsupported.
    pub fn encode(&self, bit_depth: u16) -> (r: Result<EncodedAudio, AudioError>)
        requires
            self.wf(),
        ensures
            match r {
                Ok(EncodedAudio::Sixteen(v)) => bit_depth == 16 && v@ == self.interleaved().map_values(
                    |s: i64| pcm16_of(s),
                ),
                Ok(EncodedAudio::TwentyFour(v)) => bit_depth == 24 && v@
                    == self.interleaved().map_values(|s: i64| pcm24_of(s)),
                Ok(EncodedAudio::Float(v)) => bit_depth == 32 && v@ == self.interleaved(),
                Ok(_) => false,
                Err(e) => bit_depth != 16 && bit_depth != 24 && bit_depth != 32 && e
                    == AudioError::UnsupportedFormat,
            },
    {
        if bit_depth != 16 && bit_depth != 24 && bit_depth != 32 {
            return Err(AudioError::UnsupportedFormat);
        }
        let samples = self.interleaved_samples();
        if bit_depth == 32 {
            return Ok(EncodedAudio::Float(samples));
        }
        if bit_depth == 16 {
            let mut v: Vec<i16> = Vec::with_capacity(samples.len());
            let mut i: usize = 0;
            while i < samples.len()
                invariant
                    i <= samples.len(),
                    v@ == samples@.subrange(0, i as int).map_values(|s: i64| pcm16_of(s)),
                decreases samples.len() - i,
            {
                v.push(to_pcm16(samples[i]));
                proof {
                    assert(samples@.subrange(0, i + 1) == samples@.subrange(0, i as int).push(
                        samples@[i as int],
                    ));
                }
                i = i + 1;
            }
            proof {
                assert(samples@.subrange(0, samples@.len() as int) == samples@);
            }
            Ok(EncodedAudio::Sixteen(v))
        } else {
            let mut v: Vec<i32> = Vec::with_capacity(samples.len());
            let mut i: usize = 0;
            while i < samples.len()
                invariant
                    i <= samples.len(),
                    v@ == samples@.subrange(0, i as int).map_values(|s: i64| pcm24_of(s)),
                decreases samples.len() - i,
            {
                v.push(to_pcm24(samples[i]));
                proof {
                    assert(samples@.subrange(0, i + 1) == samples@.subrange(0, i as int).push(
                        samples@[i as int],
                    ));
                }
                i = i + 1;
            }
            proof {
                assert(samples@.subrange(0, samples@.len() as int) == samples@);
            }
            Ok(EncodedAudio::TwentyFour(v))
        }
    }

    /// Builds a buffer from container samples: one channel as it is, two channels split into
    /// even (left) and odd (right) positions. Only 16-bit, 24-bit and float data with one or
    /// two channels is supported.
    pub fn decode(data: &EncodedAudio, channel_count: u16) -> (r: Result<AudioBuffer, AudioError>)
        ensures
            match r {
                Ok(b) => {
                    &&& b.wf()
                    &&& decodable(data)
                    &&& (channel_count == 1 ==> b is Mono && b.channels()[0] == decoded_samples(data))
                    &&& (channel_count == 2 ==> b is Stereo && b.channels()[0] == deinterleave(
                        decoded_samples(data),
                        false,
                    ) && b.channels()[1] == deinterleave(decoded_samples(data), true))
                    &&& (channel_count == 1 || channel_count == 2)
                },
                Err(e) => e == AudioError::UnsupportedFormat && !(decodable(data) && (channel_count
                    == 1 || channel_count == 2)),
            },
    {
        if channel_count != 1 && channel_count != 2 {
            return Err(AudioError::UnsupportedFormat);
        }
        let samples = match decode_samples(data) {
            Some(s) => s,
            None => {
                return Err(AudioError::UnsupportedFormat);
            },
        };
        if channel_count == 1 {
            Ok(AudioBuffer::Mono(samples))
        } else {
            let l = split_channel(&samples, false);
            let r = split_channel(&samples, true);
            Ok(AudioBuffer::Stereo(l, r))
        }
    }
}

/// `size` zero samples.
pub fn zeros(size: usize) -> (r: Vec<i64>)
    ensures
        r@ == Seq::new(size as nat, |i: int| 0i64),
{
    let mut v: Vec<i64> = Vec::with_capacity(size);
    let mut i: usize = 0;
    while i < size
        invariant
            i <= size,
            v@ == Seq::new(i as nat, |k: int| 0i64),
        decreases size - i,
    {
        v.push(0);
        i = i + 1;
    }
    v
}


/// Whether the container layout is one that buffers can be built from.
pub open spec fn decodable(data: &EncodedAudio) -> bool {
    match data {
        EncodedAudio::Sixteen(_) | EncodedAudio::TwentyFour(_) | EncodedAudio::Float(_) => true,
        _ => false,
    }
}

/// Container samples as buffer samples: 16-bit values scaled back to full scale, 24-bit
/// values and float-container samples taken as they are.
pub open spec fn decoded_samples(data: &EncodedAudio) -> Seq<i64> {
    match data {
        EncodedAudio::Sixteen(v) => v@.map_values(|x: i16| sample_of_pcm16(x)),
        EncodedAudio::TwentyFour(v) => v@.map_values(|x: i32| x as i64),
        EncodedAudio::Float(v) => v@,
        _ => Seq::empty(),
    }
}

/// Largest sample magnitude of a channel.
pub fn channel_peak(c: &Vec<i64>) -> (r: u64)
    ensures
        r == peak_of(c@),
{
    let mut p: u64 = 0;
    let mut i: usize = 0;
    while i < c.len()
        invariant
            i <= c.len(),
            p == peak_of(c@.subrange(0, i as int)),
        decreases c.len() - i,
    {
        proof {
            assert(c@.subrange(0, i + 1).drop_last() == c@.subrange(0, i as int));
        }
        let m = magnitude_of(c[i]);
        if m > p {
            p = m;
        }
        i = i + 1;
    }
    proof {
        assert(c@.subrange(0, c@.len() as int) == c@);
    }
    p
}

proof fn lemma_scaled_magnitude(s: int, level: int, p: int)
    requires
        p > 0,
        0 <= level <= i64::MAX,
        magnitude(s) <= p,
    ensures
        magnitude(scaled(s, level, p)) == magnitude(s) * level / p,
        magnitude(s) * level / p <= level,
        magnitude(s) == p ==> magnitude(s) * level / p == level,
{
    let a = magnitude(s);
    lemma_mul_inequality(a, p, level);
    lemma_mul_nonnegative(a, level);
    lemma_div_is_ordered(a * level, p * level, p);
    lemma_div_pos_is_pos(a * level, p);
    lemma_mul_is_commutative(p, level);
    lemma_div_by_multiple(level, p);
    if s < 0 {
        assert((-s) * level == a * level);
    }
}

/// Scaling by `level / p` with every sample within `p` keeps the peak within `level`, and
/// takes a peak of exactly `p` to exactly `level`.
proof fn lemma_scaled_peak(s: Seq<i64>, level: int, p: int)
    requires
        p > 0,
        0 <= level <= i64::MAX,
        peak_of(s) <= p,
    ensures
        forall|i: int|
            0 <= i < s.len() ==> magnitude(#[trigger] scaled_seq(s, level, p)[i] as int)
                <= level,
        peak_of(scaled_seq(s, level, p)) <= level,
        peak_of(s) == p ==> peak_of(scaled_seq(s, level, p)) == level,
{
    let t = scaled_seq(s, level, p);
    lemma_peak_bounds(s);
    assert forall|i: int| 0 <= i < s.len() implies magnitude(#[trigger] t[i] as int) <= level
        && scaled(s[i] as int, level, p) == t[i] as int by {
        lemma_scaled_magnitude(s[i] as int, level, p);
    }
    lemma_peak_bounds(t);
    if t.len() > 0 {
        let j = choose|j: int| 0 <= j < t.len() && magnitude(#[trigger] t[j] as int) == peak_of(t);
    }
    if peak_of(s) == p {
        let j = choose|j: int| 0 <= j < s.len() && magnitude(#[trigger] s[j] as int) == peak_of(s);
        lemma_scaled_magnitude(s[j] as int, level, p);
        assert(magnitude(t[j] as int) == level);
        lemma_peak_is(t, level);
    }
}

/// Scales every sample of a channel by `level / p`, truncated toward zero.
fn scale_channel(c: &mut Vec<i64>, level: u64, p: u64)
    requires
        p > 0,
        level <= i64::MAX,
        peak_of(old(c)@) <= p,
    ensures
        final(c)@ == scaled_seq(old(c)@, level as int, p as int),
{
    let ghost orig = c@;
    proof {
        lemma_scaled_peak(orig, level as int, p as int);
        lemma_peak_bounds(orig);
    }
    let mut i: usize = 0;
    while i < c.len()
        invariant
            i <= c.len(),
            c.len() == orig.len(),
            p > 0,
            level <= i64::MAX,
            forall|k: int| 0 <= k < orig.len() ==> magnitude(#[trigger] orig[k] as int) <= p,
            forall|k: int| 0 <= k < i ==> c@[k] == scaled_seq(orig, level as int, p as int)[k],
            forall|k: int| i <= k < orig.len() ==> c@[k] == orig[k],
        decreases c.len() - i,
    {
        let v = scale(c[i], level, p);
        proof {
            lemma_scaled_magnitude(orig[i as int] as int, level as int, p as int);
        }
        c.set(i, v as i64);
        i = i + 1;
    }
    proof {
        assert(c@ =~= scaled_seq(orig, level as int, p as int));
    }
}

/// A sample as a 16-bit PCM value.
pub fn to_pcm16(s: i64) -> (r: i16)
    ensures
        r == pcm16_of(s),
{
    let v = round_scale(s, PCM16_FULL as u64, FULL_SCALE as u64);
    if v < -32768 {
        -32768
    } else if v > 32767 {
        32767
    } else {
        v as i16
    }
}

proof fn lemma_pcm16_round_trip_magnitude(m: int)
    requires
        0 <= m <= FULL_SCALE,
    ensures
        0 <= (2 * m * PCM16_FULL + FULL_SCALE) / (2 * FULL_SCALE) <= PCM16_FULL,
        ({
            let q = (2 * m * PCM16_FULL + FULL_SCALE) / (2 * FULL_SCALE);
            let x = (2 * q * FULL_SCALE + PCM16_FULL) / (2 * PCM16_FULL);
            -FULL_SCALE <= PCM16_FULL * (x - m) <= FULL_SCALE
        }),
{
    let k = PCM16_FULL as int;
    let f = FULL_SCALE as int;
    let n1 = 2 * m * k + f;
    let q = n1 / (2 * f);
    lemma_fundamental_div_mod(n1, 2 * f);
    lemma_mod_bound(n1, 2 * f);
    let r1 = n1 % (2 * f);
    assert(n1 == 2 * f * q + r1);
    assert(m * k <= f * k) by (nonlinear_arith)
        requires
            0 <= m <= f,
            k > 0,
    ;
    assert(0 <= q <= k) by (nonlinear_arith)
        requires
            n1 == 2 * f * q + r1,
            0 <= r1 < 2 * f,
            n1 == 2 * m * k + f,
            m * k <= f * k,
            0 <= m,
            f > 0,
            k > 0,
    ;
    let n2 = 2 * q * f + k;
    let x = n2 / (2 * k);
    lemma_fundamental_div_mod(n2, 2 * k);
    lemma_mod_bound(n2, 2 * k);
    let r2 = n2 % (2 * k);
    assert(n2 == 2 * k * x + r2);
    assert(-f <= k * (x - m) <= f) by (nonlinear_arith)
        requires
            n1 == 2 * f * q + r1,
            0 <= r1 < 2 * f,
            n1 == 2 * m * k + f,
            n2 == 2 * k * x + r2,
            0 <= r2 < 2 * k,
            n2 == 2 * q * f + k,
            k <= f,
    ;
}

/// Writing a sample within full scale as 16-bit PCM and reading it back moves it by at
/// most one 16-bit step, `FULL_SCALE / 32767`.
pub proof fn lemma_pcm16_round_trip(s: i64)
    requires
        -FULL_SCALE <= s <= FULL_SCALE,
    ensures
        PCM16_FULL * magnitude(sample_of_pcm16(pcm16_of(s)) - s) <= FULL_SCALE,
{
    let m = magnitude(s as int);
    lemma_pcm16_round_trip_magnitude(m);
    let q = (2 * m * PCM16_FULL + FULL_SCALE) / (2 * FULL_SCALE);
    let x = (2 * q * FULL_SCALE + PCM16_FULL) / (2 * PCM16_FULL);
    assert(-FULL_SCALE <= PCM16_FULL * (x - m) <= FULL_SCALE);
    if s >= 0 {
        assert(pcm16_of(s) as int == q);
        assert(sample_of_pcm16(pcm16_of(s)) as int == x) by {
            lemma_div_pos_is_pos(2 * q * FULL_SCALE + PCM16_FULL, 2 * PCM16_FULL);
            lemma_div_is_ordered(
                2 * q * FULL_SCALE + PCM16_FULL,
                (0x1_0000_0000_0000 * 65534) as int,
                65534,
            );
            lemma_div_by_multiple(0x1_0000_0000_0000, 65534);
        }
        assert(PCM16_FULL * magnitude(x - s) <= FULL_SCALE) by (nonlinear_arith)
            requires
                -FULL_SCALE <= PCM16_FULL * (x - m) <= FULL_SCALE,
                m == s,
        ;
    } else {
        assert(pcm16_of(s) as int == -q);
        assert((-q) < 0 || q == 0);
        assert(sample_of_pcm16(pcm16_of(s)) as int == -x) by {
            lemma_div_pos_is_pos(2 * q * FULL_SCALE + PCM16_FULL, 2 * PCM16_FULL);
            lemma_div_is_ordered(
                2 * q * FULL_SCALE + PCM16_FULL,
                (0x1_0000_0000_0000 * 65534) as int,
                65534,
            );
            lemma_div_by_multiple(0x1_0000_0000_0000, 65534);
            if q == 0 {
                assert(x == (PCM16_FULL as int) / (2 * PCM16_FULL));
            }
        }
        assert(PCM16_FULL * magnitude(-x - s) <= FULL_SCALE) by (nonlinear_arith)
            requires
                -FULL_SCALE <= PCM16_FULL * (x - m) <= FULL_SCALE,
                m == -s,
        ;
    }
}

/// Samples of a buffer written as 16-bit PCM and read back, in container order.
pub open spec fn pcm16_round_trip(b: AudioBuffer) -> Seq<i64> {
    b.interleaved().map_values(|x: i64| pcm16_of(x)).map_values(|v: i16| sample_of_pcm16(v))
}

/// Writing a buffer within full scale as 16-bit PCM (`encode(16)`) and reading it back with
/// its channel count (`decode`) gives a buffer of the same shape whose every sample lies
/// within one 16-bit step of the original.
pub proof fn lemma_pcm16_buffer_round_trip(b: AudioBuffer)
    requires
        b.wf(),
        forall|c: int, i: int|
            0 <= c < b.channels().len() && 0 <= i < b.channels()[c].len() ==> -FULL_SCALE
                <= #[trigger] b.channels()[c][i] <= FULL_SCALE,
    ensures
        match b {
            AudioBuffer::Mono(m) => {
                let d = pcm16_round_trip(b);
                &&& d.len() == m@.len()
                &&& forall|i: int|
                    0 <= i < d.len() ==> PCM16_FULL * magnitude(#[trigger] d[i] - m@[i])
                        <= FULL_SCALE
            },
            AudioBuffer::Stereo(l, r) => {
                let dl = deinterleave(pcm16_round_trip(b), false);
                let dr = deinterleave(pcm16_round_trip(b), true);
                &&& dl.len() == l@.len()
                &&& dr.len() == r@.len()
                &&& forall|i: int|
                    0 <= i < dl.len() ==> PCM16_FULL * magnitude(#[trigger] dl[i] - l@[i])
                        <= FULL_SCALE
                &&& forall|i: int|
                    0 <= i < dr.len() ==> PCM16_FULL * magnitude(#[trigger] dr[i] - r@[i])
                        <= FULL_SCALE
            },
        },
{
    let d = pcm16_round_trip(b);
    match b {
        AudioBuffer::Mono(m) => {
            assert forall|i: int| 0 <= i < d.len() implies PCM16_FULL * magnitude(
                #[trigger] d[i] - m@[i],
            ) <= FULL_SCALE by {
                assert(b.channels()[0][i] == m@[i]);
                lemma_pcm16_round_trip(m@[i]);
            }
        },
        AudioBuffer::Stereo(l, r) => {
            let dl = deinterleave(d, false);
            let dr = deinterleave(d, true);
            assert(d.len() == 2 * l@.len());
            assert forall|i: int| 0 <= i < dl.len() implies PCM16_FULL * magnitude(
                #[trigger] dl[i] - l@[i],
            ) <= FULL_SCALE by {
                assert((2 * i) % 2 == 0 && (2 * i) / 2 == i);
                assert(b.interleaved()[2 * i] == l@[i]);
                assert(b.channels()[0][i] == l@[i]);
                lemma_pcm16_round_trip(l@[i]);
            }
            assert forall|i: int| 0 <= i < dr.len() implies PCM16_FULL * magnitude(
                #[trigger] dr[i] - r@[i],
            ) <= FULL_SCALE by {
                assert((2 * i + 1) % 2 == 1 && (2 * i + 1) / 2 == i);
                assert(b.interleaved()[2 * i + 1] == r@[i]);
                assert(b.channels()[1][i] == r@[i]);
                lemma_pcm16_round_trip(r@[i]);
            }
        },
    }
}

/// A sample as a 24-bit PCM value stored in 32 bits.
pub fn to_pcm24(s: i64) -> (r: i32)
    ensures
        r == pcm24_of(s),
{
    if s < i32::MIN as i64 {
        i32::MIN
    } else if s > i32::MAX as i64 {
        i32::MAX
    } else {
        s as i32
    }
}

/// A 16-bit PCM value as a sample.
pub fn from_pcm16(v: i16) -> (r: i64)
    ensures
        r == sample_of_pcm16(v),
        r as int == rounded(v as int, FULL_SCALE as int, PCM16_FULL as int),
{
    let x = round_scale(v as i64, FULL_SCALE as u64, PCM16_FULL as u64);
    proof {
        let m = magnitude(v as int);
        lemma_mul_upper_bound(m, 32768, FULL_SCALE as int, FULL_SCALE as int);
        lemma_mul_nonnegative(m, FULL_SCALE as int);
        let n = 2 * m * FULL_SCALE + PCM16_FULL;
        assert(2 * m * FULL_SCALE == 2 * (m * FULL_SCALE)) by (nonlinear_arith);
        lemma_div_is_ordered(n, (0x1_0000_0000_0000 * 65534) as int, 65534);
        lemma_div_by_multiple(0x1_0000_0000_0000, 65534);
        lemma_div_pos_is_pos(n, 65534);
    }
    x as i64
}

fn decode_samples(data: &EncodedAudio) -> (r: Option<Vec<i64>>)
    ensures
        match r {
            Some(v) => decodable(data) && v@ == decoded_samples(data),
            None => !decodable(data),
        },
{
    match data {
        EncodedAudio::Sixteen(d) => {
            let mut v: Vec<i64> = Vec::with_capacity(d.len());
            let mut i: usize = 0;
            while i < d.len()
                invariant
                    i <= d.len(),
                    v@ == d@.subrange(0, i as int).map_values(|x: i16| sample_of_pcm16(x)),
                decreases d.len() - i,
            {
                v.push(from_pcm16(d[i]));
                proof {
                    assert(d@.subrange(0, i + 1) == d@.subrange(0, i as int).push(d@[i as int]));
                }
                i = i + 1;
            }
            proof {
                assert(d@.subrange(0, d@.len() as int) == d@);
            }
            Some(v)
        },
        EncodedAudio::TwentyFour(d) => {
            let mut v: Vec<i64> = Vec::with_capacity(d.len());
            let mut i: usize = 0;
            while i < d.len()
                invariant
                    i <= d.len(),
                    v@ == d@.subrange(0, i as int).map_values(|x: i32| x as i64),
                decreases d.len() - i,
            {
                v.push(d[i] as i64);
                proof {
                    assert(d@.subrange(0, i + 1) == d@.subrange(0, i as int).push(d@[i as int]));
                }
                i = i + 1;
            }
            proof {
                assert(d@.subrange(0, d@.len() as int) == d@);
            }
            Some(v)
        },
        EncodedAudio::Float(d) => Some(d.clone()),
        _ => None,
    }
}

/// The samples at even or odd positions, one per complete frame.
fn split_channel(s: &Vec<i64>, odd: bool) -> (r: Vec<i64>)
    ensures
        r@ == deinterleave(s@, odd),
{
    let frames = s.len() / 2;
    let mut v: Vec<i64> = Vec::with_capacity(frames);
    let mut i: usize = 0;
    while i < frames
        invariant
            i <= frames,
            frames == s.len() / 2,
            v@ == deinterleave(s@, odd).subrange(0, i as int),
        decreases frames - i,
    {
        let k: usize = if odd {
            2 * i + 1
        } else {
            2 * i
        };
        v.push(s[k]);
        proof {
            assert(deinterleave(s@, odd).subrange(0, i + 1) == deinterleave(s@, odd).subrange(
                0,
                i as int,
            ).push(s@[k as int]));
        }
        i = i + 1;
    }
    proof {
        assert(deinterleave(s@, odd).subrange(0, frames as int) == deinterleave(s@, odd));
    }
    v
}

} // verus!
