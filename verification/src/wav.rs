//! Recordings: WAV files as sources of samples.
//!
//! A recording of IQ has two channels, I and Q, as single-precision numbers or as 16-bit
//! integers. Its centre frequency comes from a file beside it.

use crate::dyadic::Dyadic;
use crate::level::Single;
use crate::report::Sample;
use vstd::arithmetic::power2::*;
use vstd::prelude::*;

verus! {

/// The one rate at which a recording of a receiver's audio can be.
pub const AUDIO_RATE_HZ: u32 = 48_000;

/// Samples that are read at once when a recording is read to its end.
pub const READ_ALL_CHUNK: usize = 65_536;

/// What the header of a WAV file says.
#[derive(Debug, Clone, Copy, PartialEq, Eq, Structural)]
pub struct WavLayout {
    pub channels: u16,
    pub sample_rate: u32,
    pub bits_per_sample: u16,
    /// The samples are floating-point numbers, not integers.
    pub float: bool,
}

/// Why a recording cannot be read.
#[derive(Debug, Clone, Copy, PartialEq, Eq, Structural)]
pub enum WavError {
    /// It is no WAV file.
    NotWav,
    /// It has not two channels.
    Channels(u16),
    /// Its numbers are of a kind that is not read.
    Unsupported { float: bool, bits_per_sample: u16 },
    /// Its samples cannot be read.
    Unreadable,
}

/// The kinds of numbers that are read.
#[derive(Debug, Clone, Copy, PartialEq, Eq, Structural)]
pub enum WavFormat {
    Float32,
    Int16,
}

/// What `hound` reads from the header of a WAV file.
pub uninterp spec fn wav_layout(bytes: Seq<u8>) -> Option<WavLayout>;

/// What `hound` reads from a WAV file as 16-bit integers, all channels in turn.
pub uninterp spec fn wav_i16(bytes: Seq<u8>) -> Option<Seq<i16>>;

/// `hound::WavReader::new` and `spec`. What they give depends on the bytes alone; it is
/// `None` where the reader refuses the file.
#[verifier::external_body]
fn read_layout(bytes: &[u8]) -> (layout: Option<WavLayout>)
    ensures
        layout == wav_layout(bytes@),
{
    match hound::WavReader::new(bytes) {
        Ok(reader) => {
            let spec = reader.spec();
            Some(WavLayout {
                channels: spec.channels,
                sample_rate: spec.sample_rate,
                bits_per_sample: spec.bits_per_sample,
                float: matches!(spec.sample_format, hound::SampleFormat::Float),
            })
        },
        Err(_) => None,
    }
}

/// `hound::WavReader::into_samples`, for 16-bit integers. What it gives depends on the bytes
/// alone; it is `None` where the reader refuses the file or any sample of it.
#[verifier::external_body]
fn read_i16(bytes: &[u8]) -> (samples: Option<Vec<i16>>)
    ensures
        match samples {
            Some(v) => wav_i16(bytes@) == Some(v@),
            None => wav_i16(bytes@) is None,
        },
{
    match hound::WavReader::new(bytes) {
        Ok(reader) => reader.into_samples::<i16>().collect::<Result<Vec<i16>, _>>().ok(),
        Err(_) => None,
    }
}

/// How a file with such a header is read.
pub open spec fn format_of(layout: Option<WavLayout>) -> Result<WavFormat, WavError> {
    match layout {
        None => Err(WavError::NotWav),
        Some(l) => if l.channels != 2 {
            Err(WavError::Channels(l.channels))
        } else if l.float && l.bits_per_sample == 32 {
            Ok(WavFormat::Float32)
        } else if !l.float && l.bits_per_sample == 16 {
            Ok(WavFormat::Int16)
        } else {
            Err(WavError::Unsupported { float: l.float, bits_per_sample: l.bits_per_sample })
        },
    }
}

/// How a file with such a header is read.
pub fn choose_format(layout: Option<WavLayout>) -> (r: Result<WavFormat, WavError>)
    ensures
        r == format_of(layout),
{
    match layout {
        None => Err(WavError::NotWav),
        Some(l) => {
            if l.channels != 2 {
                Err(WavError::Channels(l.channels))
            } else if l.float && l.bits_per_sample == 32 {
                Ok(WavFormat::Float32)
            } else if !l.float && l.bits_per_sample == 16 {
                Ok(WavFormat::Int16)
            } else {
                Err(WavError::Unsupported { float: l.float, bits_per_sample: l.bits_per_sample })
            }
        },
    }
}

/// What the header of a recording says, where it is a WAV file.
pub fn wav_header(bytes: &[u8]) -> (layout: Option<WavLayout>)
    ensures
        layout == wav_layout(bytes@),
{
    read_layout(bytes)
}

/// How a recording is read.
pub fn wav_format(bytes: &[u8]) -> (r: Result<WavFormat, WavError>)
    ensures
        r == format_of(wav_layout(bytes@)),
{
    choose_format(read_layout(bytes))
}

/// The place of the highest bit of a number.
pub open spec fn high_bit(n: nat) -> nat
    decreases n,
{
    if n <= 1 {
        0
    } else {
        high_bit(n / 2) + 1
    }
}

/// The bit pattern of `n / 32768`, for `n` up to 32768.
pub open spec fn fraction_bits(n: nat) -> int {
    if n == 0 {
        0
    } else {
        let h = high_bit(n);
        (h + 112) * 0x80_0000 + (n - pow2(h)) * pow2((23 - h) as nat)
    }
}

/// The number `v / 32768`.
pub open spec fn normalized(v: i16) -> Single {
    Single {
        bits: if v < 0 {
            0x8000_0000 + fraction_bits((-(v as int)) as nat)
        } else {
            fraction_bits(v as nat)
        } as u32,
    }
}

proof fn lemma_high_bit(n: nat)
    requires
        0 < n,
    ensures
        pow2(high_bit(n)) <= n < 2 * pow2(high_bit(n)),
    decreases n,
{
    lemma2_to64();
    if n > 1 {
        lemma_high_bit(n / 2);
        lemma_pow2_unfold(high_bit(n));
    }
}

proof fn lemma_high_bit_is_unique(n: nat, h: nat)
    requires
        0 < n,
        pow2(h) <= n < 2 * pow2(h),
    ensures
        h == high_bit(n),
{
    lemma_high_bit(n);
    let g = high_bit(n);
    if g < h {
        lemma_pow2_unfold((g + 1) as nat);
        if g + 1 < h {
            lemma_pow2_strictly_increases(g + 1, h);
        }
    } else if h < g {
        lemma_pow2_unfold((h + 1) as nat);
        if h + 1 < g {
            lemma_pow2_strictly_increases(h + 1, g);
        }
    }
}

/// A 16-bit sample as a part of full scale, `v / 32768`.
pub fn normalize(v: i16) -> (x: Single)
    ensures
        x == normalized(v),
{
    if v == 0 {
        return Single { bits: 0 };
    }
    let n: u32 = if v < 0 {
        (-(v as i32)) as u32
    } else {
        v as u32
    };
    let mut h: u32 = 15;
    let mut top: u32 = 32_768;
    let mut scale: u32 = 256;
    proof {
        lemma2_to64();
    }
    while top > n
        invariant
            0 < n <= 32_768,
            h <= 15,
            top == pow2(h as nat),
            scale == pow2((23 - h) as nat),
            n < 2 * top,
            top <= 32_768,
            scale * top == 0x80_0000,
        decreases h,
    {
        proof {
            lemma2_to64();
            lemma_pow2_unfold(h as nat);
            lemma_pow2_unfold((24 - h) as nat);
            let half = pow2((h - 1) as nat);
            assert((2 * scale) * half == scale * (2 * half)) by (nonlinear_arith);
            assert(scale <= 0x80_0000) by (nonlinear_arith)
                requires
                    scale * top == 0x80_0000,
                    top > 0,
            ;
        }
        h = h - 1;
        top = top / 2;
        scale = scale * 2;
    }
    proof {
        lemma_high_bit_is_unique(n as nat, h as nat);
        assert(0 <= (n - top) * scale <= top * scale) by (nonlinear_arith)
            requires
                top <= n < 2 * top,
                scale >= 0,
        ;
        assert(top * scale == scale * top) by (nonlinear_arith);
    }
    let bits: u32 = (h + 112) * 0x80_0000 + (n - top) * scale;
    if v < 0 {
        Single { bits: 0x8000_0000 + bits }
    } else {
        Single { bits }
    }
}

/// A 16-bit sample loses nothing when it becomes a part of full scale: in units of the
/// smallest positive single-precision number, of which there are 2^149 in one, the number is
/// `v * 2^134`. It has a minus sign if and only if the sample is negative.
pub proof fn law_normalizing_is_exact(v: i16)
    ensures
        crate::level::single_is_finite(normalized(v).bits),
        crate::level::single_value(normalized(v).bits) == v * pow2(134),
        v < 0 <==> normalized(v).bits >= 0x8000_0000,
{
    let bits = normalized(v).bits;
    let n = if v < 0 {
        (-(v as int)) as nat
    } else {
        v as nat
    };
    lemma2_to64();
    if n > 0 {
        let h = high_bit(n);
        lemma_high_bit(n);
        if h > 15 {
            lemma_pow2_strictly_increases(15, h);
        }
        let scale = pow2((23 - h) as nat);
        let p = pow2(h);
        lemma_pow2_adds(h, (23 - h) as nat);
        let fraction = (n - p) * scale;
        assert(0 <= fraction < 0x80_0000) by (nonlinear_arith)
            requires
                fraction == (n - p) * scale,
                p * scale == 0x80_0000,
                p <= n < 2 * p,
                scale > 0,
        ;
        let magnitude = (h + 112) * 0x80_0000 + fraction;
        assert(magnitude == fraction_bits(n));
        assert((bits as int) % 0x8000_0000 == magnitude);
        assert(magnitude / 0x80_0000 == h + 112 && magnitude % 0x80_0000 == fraction);
        assert(0x80_0000 + fraction == n * scale) by (nonlinear_arith)
            requires
                fraction == (n - p) * scale,
                p * scale == 0x80_0000,
        ;
        lemma_pow2_adds((23 - h) as nat, (h + 111) as nat);
        let q = pow2((h + 111) as nat);
        assert((n * scale) * q == n * (scale * q)) by (nonlinear_arith);
        assert(-(n * pow2(134)) == (-n) * pow2(134)) by (nonlinear_arith);
    } else {
        assert(0 * pow2(134) == 0) by (nonlinear_arith);
    }
}

/// Numbers taken two by two.
pub open spec fn pairs(v: Seq<Single>) -> Seq<Sample> {
    Seq::new(v.len() / 2, |k: int| Sample { re: v[2 * k], im: v[2 * k + 1] })
}

/// What a recording holds, given what is read from it.
pub open spec fn recorded(
    layout: Option<WavLayout>,
    integers: Option<Seq<i16>>,
    singles: Option<Seq<Single>>,
) -> Result<Seq<Sample>, WavError> {
    match format_of(layout) {
        Err(e) => Err(e),
        Ok(WavFormat::Float32) => match singles {
            Some(v) => Ok(pairs(v)),
            None => Err(WavError::Unreadable),
        },
        Ok(WavFormat::Int16) => match integers {
            Some(v) => Ok(pairs(Seq::new(v.len(), |k: int| normalized(v[k])))),
            None => Err(WavError::Unreadable),
        },
    }
}

fn pair_up(v: &Vec<Single>) -> (out: Vec<Sample>)
    ensures
        out@ == pairs(v@),
{
    let mut out: Vec<Sample> = Vec::new();
    let len: usize = v.len();
    let n: usize = len / 2;
    let mut k: usize = 0;
    while k < n
        invariant
            k <= n,
            n == len / 2,
            len == v@.len(),
            out@.len() == k,
            forall|j: int| 0 <= j < k ==> out@[j] == #[trigger] pairs(v@)[j],
        decreases n - k,
    {
        out.push(Sample { re: v[2 * k], im: v[2 * k + 1] });
        assert(out@[k as int] == pairs(v@)[k as int]);
        k = k + 1;
    }
    assert(out@ =~= pairs(v@));
    out
}

fn normalize_all(v: &Vec<i16>) -> (out: Vec<Single>)
    ensures
        out@ == Seq::new(v@.len(), |k: int| normalized(v@[k])),
{
    let mut out: Vec<Single> = Vec::new();
    let mut k: usize = 0;
    while k < v.len()
        invariant
            k <= v@.len(),
            out@.len() == k,
            forall|j: int| 0 <= j < k ==> #[trigger] out@[j] == normalized(v@[j]),
        decreases v@.len() - k,
    {
        out.push(normalize(v[k]));
        k = k + 1;
    }
    assert(out@ =~= Seq::new(v@.len(), |k: int| normalized(v@[k])));
    out
}

/// The samples of a recording, given what is read from it.
pub fn assemble(
    layout: Option<WavLayout>,
    integers: Option<Vec<i16>>,
    singles: Option<Vec<Single>>,
) -> (r: Result<Vec<Sample>, WavError>)
    ensures
        ({
            let want = recorded(
                layout,
                match integers {
                    Some(v) => Some(v@),
                    None => None,
                },
                match singles {
                    Some(v) => Some(v@),
                    None => None,
                },
            );
            match r {
                Ok(v) => want == Ok::<Seq<Sample>, WavError>(v@),
                Err(e) => want == Err::<Seq<Sample>, WavError>(e),
            }
        }),
{
    match choose_format(layout) {
        Err(e) => Err(e),
        Ok(WavFormat::Float32) => match singles {
            Some(v) => Ok(pair_up(&v)),
            None => Err(WavError::Unreadable),
        },
        Ok(WavFormat::Int16) => match integers {
            Some(v) => {
                let numbers: Vec<Single> = normalize_all(&v);
                Ok(pair_up(&numbers))
            },
            None => Err(WavError::Unreadable),
        },
    }
}

/// A recording of IQ, read from its start to its end.
pub struct WavIqSource {
    samples: Vec<Sample>,
    cursor: usize,
    sample_rate: u32,
    center_freq_hz: Dyadic,
}

/// What a recording is.
#[verifier::ext_equal]
pub ghost struct WavModel {
    pub samples: Seq<Sample>,
    /// How many were read.
    pub cursor: int,
    pub sample_rate: u32,
    pub center_freq_hz: Dyadic,
}

impl WavModel {
    /// No more was read than there is.
    pub open spec fn wf(self) -> bool {
        0 <= self.cursor <= self.samples.len()
    }

    /// How many samples a read of up to `max` gives.
    pub open spec fn available(self, max: int) -> int {
        if self.samples.len() - self.cursor < max {
            self.samples.len() - self.cursor
        } else {
            max
        }
    }

    /// What is left.
    pub open spec fn rest(self) -> Seq<Sample> {
        self.samples.skip(self.cursor)
    }
}

/// The recording that a file holds: nothing of it is read yet, and its frequency is the one
/// beside it, or zero.
pub open spec fn opened(
    bytes: Seq<u8>,
    singles: Option<Seq<Single>>,
    center_freq_hz: Option<Dyadic>,
) -> Result<WavModel, WavError> {
    match recorded(wav_layout(bytes), wav_i16(bytes), singles) {
        Err(e) => Err(e),
        Ok(samples) => Ok(
            WavModel {
                samples,
                cursor: 0,
                sample_rate: wav_layout(bytes)->0.sample_rate,
                center_freq_hz: match center_freq_hz {
                    Some(f) => f,
                    None => Dyadic::Finite { negative: false, mantissa: 0, exponent: 0 },
                },
            },
        ),
    }
}

impl WavIqSource {
    /// What the recording is.
    pub closed spec fn view(&self) -> WavModel {
        WavModel {
            samples: self.samples@,
            cursor: self.cursor as int,
            sample_rate: self.sample_rate,
            center_freq_hz: self.center_freq_hz,
        }
    }

    /// Opens a recording. `singles` is what it holds as single-precision numbers, all
    /// channels in turn, where it holds such and they can be read; `center_freq_hz` is the
    /// frequency beside it, where there is one, and zero stands for none.
    pub fn open(bytes: &[u8], singles: Option<Vec<Single>>, center_freq_hz: Option<Dyadic>) -> (r:
        Result<WavIqSource, WavError>)
        ensures
            match r {
                Ok(src) => src@.wf() && opened(
                    bytes@,
                    match singles {
                        Some(v) => Some(v@),
                        None => None,
                    },
                    center_freq_hz,
                ) == Ok::<WavModel, WavError>(src@),
                Err(e) => opened(
                    bytes@,
                    match singles {
                        Some(v) => Some(v@),
                        None => None,
                    },
                    center_freq_hz,
                ) == Err::<WavModel, WavError>(e),
            },
    {
        let layout: Option<WavLayout> = read_layout(bytes);
        let integers: Option<Vec<i16>> = read_i16(bytes);
        let sample_rate: u32 = match layout {
            Some(l) => l.sample_rate,
            None => 0,
        };
        match assemble(layout, integers, singles) {
            Err(e) => Err(e),
            Ok(samples) => Ok(
                WavIqSource {
                    samples,
                    cursor: 0,
                    sample_rate,
                    center_freq_hz: match center_freq_hz {
                        Some(f) => f,
                        None => Dyadic::whole(0),
                    },
                },
            ),
        }
    }

    /// Samples per second.
    pub fn sample_rate(&self) -> (fs: u32)
        ensures
            fs == self@.sample_rate,
    {
        self.sample_rate
    }

    /// The centre frequency, zero where it is not known.
    pub fn center_freq_hz(&self) -> (f: Dyadic)
        ensures
            f == self@.center_freq_hz,
    {
        self.center_freq_hz
    }

    /// Reads up to `max` samples; none at the end.
    pub fn read(&mut self, max: usize) -> (out: Vec<Sample>)
        requires
            old(self)@.wf(),
        ensures
            final(self)@.wf(),
            out@ == old(self)@.rest().take(old(self)@.available(max as int)),
            final(self)@ == (WavModel {
                cursor: old(self)@.cursor + old(self)@.available(max as int),
                ..old(self)@
            }),
    {
        let len: usize = self.samples.len();
        let left: usize = len - self.cursor;
        let n: usize = if left < max {
            left
        } else {
            max
        };
        let mut out: Vec<Sample> = Vec::new();
        let mut k: usize = 0;
        while k < n
            invariant
                k <= n,
                n <= len - self.cursor,
                len == self.samples@.len(),
                self@ == old(self)@,
                out@ == self@.rest().take(k as int),
            decreases n - k,
        {
            out.push(self.samples[self.cursor + k]);
            k = k + 1;
            assert(out@ =~= self@.rest().take(k as int));
        }
        self.cursor = self.cursor + n;
        out
    }

    /// Reads all that is left.
    pub fn read_all(&mut self) -> (all: Vec<Sample>)
        requires
            old(self)@.wf(),
        ensures
            final(self)@.wf(),
            all@ == old(self)@.rest(),
            final(self)@ == (WavModel {
                cursor: old(self)@.samples.len() as int,
                ..old(self)@
            }),
    {
        let mut all: Vec<Sample> = Vec::new();
        let mut more: bool = true;
        while more
            invariant
                self@.wf(),
                self@ == (WavModel { cursor: self@.cursor, ..old(self)@ }),
                old(self)@.cursor <= self@.cursor,
                all@ + self@.rest() == old(self)@.rest(),
                !more ==> self@.cursor == self@.samples.len(),
            decreases
                self@.samples.len() - self@.cursor + if more {
                    1int
                } else {
                    0int
                },
        {
            let ghost before = *self;
            let ghost had = all@;
            let mut part: Vec<Sample> = self.read(READ_ALL_CHUNK);
            if part.len() == 0 {
                more = false;
                assert(self@.rest() =~= before@.rest());
            } else {
                proof {
                    assert(had + before@.rest() =~= (had + part@) + self@.rest());
                }
                all.append(&mut part);
            }
        }
        assert(self@.rest() =~= Seq::<Sample>::empty());
        assert(all@ + self@.rest() =~= all@);
        all
    }
}

/// Reading in pieces gives what reading at once would have.
pub proof fn law_recordings_may_be_read_in_pieces(m: WavModel, a: int, b: int)
    requires
        m.wf(),
        0 <= a,
        0 <= b,
    ensures
        ({
            let first = m.available(a);
            let then = WavModel { cursor: m.cursor + first, ..m };
            &&& then.wf()
            &&& m.rest().take(first) + then.rest().take(then.available(b)) == m.rest().take(
                m.available(a + b),
            )
            &&& first + then.available(b) == m.available(a + b)
        }),
{
    let first = m.available(a);
    let then = WavModel { cursor: m.cursor + first, ..m };
    assert(m.rest().take(first) + then.rest().take(then.available(b)) =~= m.rest().take(
        m.available(a + b),
    ));
}

/// What an opened file has to give is what was recorded, all of it, and depends on the file
/// and on what stands beside it alone.
pub proof fn law_a_file_is_read_whole(
    bytes: Seq<u8>,
    singles: Option<Seq<Single>>,
    center_freq_hz: Option<Dyadic>,
    m: WavModel,
)
    requires
        opened(bytes, singles, center_freq_hz) == Ok::<WavModel, WavError>(m),
    ensures
        m.wf(),
        recorded(wav_layout(bytes), wav_i16(bytes), singles) == Ok::<Seq<Sample>, WavError>(
            m.rest(),
        ),
{
    assert(m.rest() =~= m.samples);
}

/// A recording is read if and only if it is a WAV file with two channels, of single-precision
/// numbers or of 16-bit integers; otherwise what is wrong with it is told, the number of
/// channels before the kind of numbers.
pub proof fn law_what_recordings_are_read(l: WavLayout)
    ensures
        format_of(None) == Err::<WavFormat, WavError>(WavError::NotWav),
        l.channels != 2 ==> format_of(Some(l)) == Err::<WavFormat, WavError>(
            WavError::Channels(l.channels),
        ),
        format_of(Some(l)) == Ok::<WavFormat, WavError>(WavFormat::Float32) <==> l.channels == 2
            && l.float && l.bits_per_sample == 32,
        format_of(Some(l)) == Ok::<WavFormat, WavError>(WavFormat::Int16) <==> l.channels == 2
            && !l.float && l.bits_per_sample == 16,
        l.channels == 2 && format_of(Some(l)) is Err ==> format_of(Some(l)) == Err::<
            WavFormat,
            WavError,
        >(WavError::Unsupported { float: l.float, bits_per_sample: l.bits_per_sample }),
{
}

/// The samples of a recording are its numbers, two by two, the first of each two being I and
/// the second Q: single-precision numbers as they stand, and 16-bit integers as parts of full
/// scale, in units of the smallest positive single-precision number `v * 2^134`.
pub proof fn law_a_recording_comes_back(
    l: WavLayout,
    integers: Option<Seq<i16>>,
    singles: Option<Seq<Single>>,
    samples: Seq<Sample>,
    k: int,
)
    requires
        recorded(Some(l), integers, singles) == Ok::<Seq<Sample>, WavError>(samples),
        0 <= k < samples.len(),
    ensures
        l.float ==> {
            let v = singles->0;
            &&& singles is Some
            &&& samples.len() == v.len() / 2
            &&& samples[k].re == v[2 * k]
            &&& samples[k].im == v[2 * k + 1]
        },
        !l.float ==> {
            let v = integers->0;
            &&& integers is Some
            &&& samples.len() == v.len() / 2
            &&& crate::level::single_value(samples[k].re.bits) == v[2 * k] * pow2(134)
            &&& crate::level::single_value(samples[k].im.bits) == v[2 * k + 1] * pow2(134)
        },
{
    if !l.float {
        let v = integers->0;
        law_normalizing_is_exact(v[2 * k]);
        law_normalizing_is_exact(v[2 * k + 1]);
    }
}

/// A read gives the samples that come next, in order, as many as are asked for or as there are
/// left, and goes on behind them.
pub proof fn law_a_read_gives_what_comes_next(m: WavModel, max: int)
    requires
        m.wf(),
        max >= 0,
    ensures
        ({
            let n = m.available(max);
            let out = m.rest().take(n);
            &&& 0 <= n <= max
            &&& m.cursor + n <= m.samples.len()
            &&& n == max || m.cursor + n == m.samples.len()
            &&& out.len() == n
            &&& forall|i: int| 0 <= i < n ==> #[trigger] out[i] == m.samples[m.cursor + i]
        }),
{
}

/// An opened recording is at its start, and has the rate of its header and the frequency beside
/// it, or zero where there is none.
pub proof fn law_a_recording_opens_at_its_start(
    bytes: Seq<u8>,
    singles: Option<Seq<Single>>,
    center_freq_hz: Option<Dyadic>,
    m: WavModel,
)
    requires
        opened(bytes, singles, center_freq_hz) == Ok::<WavModel, WavError>(m),
    ensures
        m.cursor == 0,
        wav_layout(bytes) is Some && m.sample_rate == wav_layout(bytes)->0.sample_rate,
        center_freq_hz is Some ==> m.center_freq_hz == center_freq_hz->0,
        center_freq_hz is None ==> m.center_freq_hz.equals(0),
{
    if center_freq_hz is None {
        assert(0 * pow2(0) == 0) by (nonlinear_arith);
    }
}

} // verus!
