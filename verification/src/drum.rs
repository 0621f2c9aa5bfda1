use crate::chunks::{CommonChunk, FormChunk, SoundDataChunk, AIFF, RATE_44100};
use crate::format::{FormView, SoundDataView};
use crate::op1::{is_new_drum, is_new_sampler, OP1Data};
use crate::util::i16_be;
use vstd::prelude::*;

verus! {

/// Most bytes of samples in a drum kit: twelve seconds at 44100 Hz, two
/// bytes a sample.
pub const DRUM_BYTES: usize = 1_058_400;

/// Most bytes of samples in a sampler patch: six seconds.
pub const SYNTH_BYTES: usize = 529_200;

/// Units of a region boundary per byte of samples.
pub const UNITS_PER_BYTE: u32 = 2029;

/// Sample rate that the device takes.
pub const SAMPLE_RATE: u32 = 44100;

/// Audio format number of linear PCM.
pub const PCM: u16 = 1;

/// The samples of an audio file, by the width at which they were stored.
/// Samples stored as numbers with a fraction are given as the whole numbers
/// they were cut to.
#[derive(Debug, Clone)]
pub enum Samples {
    Eight(Vec<u8>),
    Sixteen(Vec<i16>),
    TwentyFour(Vec<i32>),
    ThirtyTwo(Vec<i32>),
    Empty,
}

/// Why an audio file cannot be taken into a patch.
#[derive(Debug, Clone, Copy, PartialEq, Eq, Structural)]
pub enum WavError {
    /// A sample rate other than 44100 Hz.
    SampleRate(u32),
    /// An audio format other than linear PCM.
    NotPcm(u16),
    /// No channel at all.
    NoChannels,
}

/// Why a drum kit cannot be made.
#[derive(Debug, Clone, Copy, PartialEq, Eq, Structural)]
pub enum DrumError {
    /// An octave outside 1..=10.
    Octave(u8),
    /// More samples than keys are left above the first key used.
    TooManyKeys,
    /// More than twelve seconds of samples.
    TooLong,
}

/// The 16-bit sample that an 8-bit sample becomes: its bits moved up by
/// eight places, the top bit becoming the sign.
pub open spec fn widened(x: u8) -> i16 {
    if x < 128 {
        (x as int * 256) as i16
    } else {
        (x as int * 256 - 65536) as i16
    }
}

/// The 16-bit sample that a wider sample becomes: its top 16 bits.
pub open spec fn narrowed(x: i32) -> i16 {
    (x as int / 65536) as i16
}

/// The samples of a file as 16-bit samples.
pub open spec fn samples_16(data: Samples) -> Seq<i16> {
    match data {
        Samples::Eight(d) => d@.map_values(|x: u8| widened(x)),
        Samples::Sixteen(d) => d@,
        Samples::TwentyFour(d) => d@.map_values(|x: i32| narrowed(x)),
        Samples::ThirtyTwo(d) => d@.map_values(|x: i32| narrowed(x)),
        Samples::Empty => Seq::empty(),
    }
}

/// Brings wide samples to 16 bits.
fn narrow_all(d: &Vec<i32>) -> (out: Vec<i16>)
    ensures
        out@ == d@.map_values(|x: i32| narrowed(x)),
{
    let mut out: Vec<i16> = Vec::new();
    let mut i: usize = 0;
    while i < d.len()
        invariant
            i <= d@.len(),
            out@.len() == i,
            forall|k: int| 0 <= k < i ==> out@[k] == narrowed(d@[k]),
        decreases d@.len() - i,
    {
        let x = d[i];
        let y: i32 = if x >= 0 {
            x / 65536
        } else {
            -((-(x + 1)) / 65536) - 1
        };
        out.push(y as i16);
        i += 1;
    }
    assert(out@ =~= d@.map_values(|x: i32| narrowed(x)));
    out
}

/// Brings the samples of a file to 16 bits.
pub fn wav_data_to_i16(data: &Samples) -> (out: Vec<i16>)
    ensures
        out@ == samples_16(*data),
{
    match data {
        Samples::Eight(d) => {
            let mut out: Vec<i16> = Vec::new();
            let mut i: usize = 0;
            while i < d.len()
                invariant
                    i <= d@.len(),
                    out@.len() == i,
                    forall|k: int| 0 <= k < i ==> out@[k] == widened(d@[k]),
                decreases d@.len() - i,
            {
                let x = d[i];
                let y: i32 = if x < 128 {
                    x as i32 * 256
                } else {
                    x as i32 * 256 - 65536
                };
                out.push(y as i16);
                i += 1;
            }
            assert(out@ =~= d@.map_values(|x: u8| widened(x)));
            out
        },
        Samples::Sixteen(d) => {
            let mut out: Vec<i16> = Vec::new();
            out.extend_from_slice(d.as_slice());
            assert(out@ =~= d@);
            out
        },
        Samples::TwentyFour(d) => narrow_all(d),
        Samples::ThirtyTwo(d) => narrow_all(d),
        Samples::Empty => Vec::new(),
    }
}

/// Samples on the wire: two bytes each, high byte first.
pub open spec fn sample_bytes(data: Seq<i16>) -> Seq<u8>
    decreases data.len(),
{
    if data.len() == 0 {
        Seq::empty()
    } else {
        sample_bytes(data.drop_last()) + i16_be(data.last())
    }
}

/// Writes samples as bytes, high byte first.
pub fn wav_i16_to_bytes(data: &[i16]) -> (out: Vec<u8>)
    ensures
        out@ == sample_bytes(data@),
{
    let mut out: Vec<u8> = Vec::new();
    let mut i: usize = 0;
    assert(data@.take(0) =~= Seq::<i16>::empty());
    while i < data.len()
        invariant
            i <= data@.len(),
            out@ == sample_bytes(data@.take(i as int)),
        decreases data@.len() - i,
    {
        assert(data@.take(i + 1).drop_last() =~= data@.take(i as int));
        assert(data@.take(i + 1).last() == data@[i as int]);
        crate::util::put_i16_be(&mut out, data[i]);
        i += 1;
    }
    assert(data@.take(i as int) =~= data@);
    out
}

/// Number of frames in `len` samples of `channels` channels, a last frame
/// that is not whole counted too.
pub open spec fn frame_count(len: int, channels: int) -> int {
    (len + channels - 1) / channels
}

/// The first channel of interleaved samples: every `channels`-th sample.
pub open spec fn first_channel(data: Seq<i16>, channels: int) -> Seq<i16> {
    Seq::new(frame_count(data.len() as int, channels) as nat, |k: int| data[k * channels])
}

/// Keeps the first channel of interleaved samples and drops the others.
pub fn drop_channels(data: &[i16], num_channels: usize) -> (out: Vec<i16>)
    requires
        num_channels > 0,
    ensures
        out@ == first_channel(data@, num_channels as int),
{
    let len = data.len();
    let ghost n = num_channels as int;
    let frames: usize = if len == 0 {
        0
    } else {
        (len - 1) / num_channels + 1
    };
    proof {
        lemma_frames(len as int, n);
    }
    let mut out: Vec<i16> = Vec::new();
    let mut k: usize = 0;
    while k < frames
        invariant
            k <= frames,
            len == data@.len(),
            n == num_channels > 0,
            frames == frame_count(len as int, n),
            forall|j: int| 0 <= j < frames ==> 0 <= #[trigger] (j * n) < len,
            out@.len() == k,
            forall|j: int| 0 <= j < k ==> out@[j] == data@[j * n],
        decreases frames - k,
    {
        assert(0 <= k * n < len);
        out.push(data[k * num_channels]);
        k += 1;
    }
    assert(out@ =~= first_channel(data@, n));
    out
}

/// Counting frames: every frame begins at a sample that is there.
proof fn lemma_frames(len: int, n: int)
    requires
        n > 0,
        0 <= len,
    ensures
        len == 0 ==> frame_count(len, n) == 0,
        len > 0 ==> frame_count(len, n) == (len - 1) / n + 1,
        forall|j: int| 0 <= j < frame_count(len, n) ==> 0 <= #[trigger] (j * n) < len,
{
    if len == 0 {
        vstd::arithmetic::div_mod::lemma_basic_div(n - 1, n);
    } else {
        let q = (len - 1) / n;
        vstd::arithmetic::div_mod::lemma_fundamental_div_mod(len - 1, n);
        vstd::arithmetic::div_mod::lemma_div_plus_one(len - 1, n);
        assert(len + n - 1 == n + (len - 1));
        vstd::arithmetic::div_mod::lemma_div_pos_is_pos(len - 1, n);
        assert forall|j: int| 0 <= j < q + 1 implies 0 <= #[trigger] (j * n) < len by {
            assert(j * n <= q * n) by (nonlinear_arith)
                requires
                    0 <= j <= q,
                    n > 0,
            ;
            assert(n * q == q * n) by (nonlinear_arith);
            assert(j * n >= 0) by (nonlinear_arith)
                requires
                    0 <= j,
                    n > 0,
            ;
        }
    }
}

/// The bytes that an audio file gives to a patch: the first channel of its
/// samples at 16 bits, high byte first. Only linear PCM at 44100 Hz is
/// taken; the sample rate is judged first.
pub open spec fn wav_bytes(
    sampling_rate: u32,
    audio_format: u16,
    channel_count: u16,
    data: Samples,
) -> Result<Seq<u8>, WavError> {
    if sampling_rate != SAMPLE_RATE {
        Err(WavError::SampleRate(sampling_rate))
    } else if audio_format != PCM {
        Err(WavError::NotPcm(audio_format))
    } else if channel_count == 0 {
        Err(WavError::NoChannels)
    } else if channel_count == 1 {
        Ok(sample_bytes(samples_16(data)))
    } else {
        Ok(sample_bytes(first_channel(samples_16(data), channel_count as int)))
    }
}

/// Takes the samples of an audio file into the form that a patch holds.
pub fn wav_to_bytes(
    sampling_rate: u32,
    audio_format: u16,
    channel_count: u16,
    data: &Samples,
) -> (out:
    Result<Vec<u8>, WavError>)
    ensures
        match wav_bytes(sampling_rate, audio_format, channel_count, *data) {
            Ok(bytes) => out matches Ok(got) && got@ == bytes,
            Err(e) => out matches Err(got) && got == e,
        },
{
    if sampling_rate != SAMPLE_RATE {
        return Err(WavError::SampleRate(sampling_rate));
    }
    if audio_format != PCM {
        return Err(WavError::NotPcm(audio_format));
    }
    if channel_count == 0 {
        return Err(WavError::NoChannels);
    }
    let mut samples = wav_data_to_i16(data);
    if channel_count != 1 {
        samples = drop_channels(samples.as_slice(), channel_count as usize);
    }
    Ok(wav_i16_to_bytes(samples.as_slice()))
}

/// A container for one channel of 16-bit samples at 44100 Hz that holds
/// the given samples and no other chunk but the common chunk.
pub open spec fn sound_form(sound: Seq<u8>) -> FormView {
    FormView {
        size: 0,
        form_type: AIFF,
        common: CommonChunk {
            num_channels: 1,
            num_sample_frames: (sound.len() / 2) as u32,
            bit_rate: 16,
            sample_rate: RATE_44100,
        },
        sound: Some(
            SoundDataView {
                size: (sound.len() + 8) as i32,
                offset: 0,
                block_size: 0,
                sound_data: sound,
            },
        ),
        comments: None,
        instrument: None,
        recording: None,
        markers: None,
        texts: Seq::empty(),
        midi: Seq::empty(),
        app: Seq::empty(),
    }
}

/// Makes the container that holds the given samples.
fn form_of_sound(sound_data: Vec<u8>) -> (form: FormChunk)
    requires
        sound_data@.len() <= DRUM_BYTES,
    ensures
        form@ == sound_form(sound_data@),
{
    let mut form = FormChunk::default();
    let len = sound_data.len();
    form.common.num_sample_frames = (len / 2) as u32;
    form.sound = Some(
        SoundDataChunk { size: (len + 8) as i32, offset: 0, block_size: 0, sound_data },
    );
    form
}

/// The samples that a sampler patch keeps: the first six seconds.
pub open spec fn synth_sound(sound: Seq<u8>) -> Seq<u8> {
    if sound.len() > SYNTH_BYTES {
        sound.take(SYNTH_BYTES as int)
    } else {
        sound
    }
}

/// Makes a sampler patch of the given samples and base frequency: the
/// container with the first six seconds of the samples, and the patch
/// metadata that goes with it.
pub fn synth(sound_data: Vec<u8>, base_freq: u16) -> (out: (FormChunk, OP1Data))
    ensures
        out.0@ == sound_form(synth_sound(sound_data@)),
        is_new_sampler(out.1, base_freq),
{
    let mut sound_data = sound_data;
    if sound_data.len() > SYNTH_BYTES {
        sound_data.truncate(SYNTH_BYTES);
    }
    (form_of_sound(sound_data), OP1Data::new_sampler(base_freq))
}

/// Pieces of sound, one after the other.
pub open spec fn joined(parts: Seq<Seq<u8>>) -> Seq<u8>
    decreases parts.len(),
{
    if parts.len() == 0 {
        Seq::empty()
    } else {
        joined(parts.drop_last()) + parts.last()
    }
}

/// The samples of a kit as values.
pub open spec fn parts(samples: Seq<Vec<u8>>) -> Seq<Seq<u8>> {
    samples.map_values(|sample: Vec<u8>| sample@)
}

/// How a kit is laid out on the keys: `count` samples from key `shift + 1`
/// on, and whether the keys below and above them are filled.
pub ghost struct Layout {
    pub shift: int,
    pub count: int,
    pub fill: bool,
    pub pitch_fill: bool,
}

impl Layout {
    /// The sample that the key of slot `i` plays, if it plays one: its own
    /// where it has one, and with filling the first sample on the keys below
    /// and the last on the keys above.
    pub open spec fn sample_at(self, i: int) -> Option<int> {
        if self.shift <= i < self.shift + self.count {
            Some(i - self.shift)
        } else if self.fill && self.count > 0 {
            if i < self.shift {
                Some(0)
            } else {
                Some(self.count - 1)
            }
        } else {
            None
        }
    }

    /// Detuning of the key of slot `i`, in semitones: with pitch filling, a
    /// filled key is detuned by its distance from the nearest key that has a
    /// sample of its own.
    pub open spec fn semitones_at(self, i: int) -> int {
        if self.pitch_fill && self.count > 0 {
            if i < self.shift {
                i - self.shift
            } else if i >= self.shift + self.count {
                i - (self.shift + self.count - 1)
            } else {
                0
            }
        } else {
            0
        }
    }
}

/// Where the region of the key of slot `i` starts.
pub open spec fn region_start(sounds: Seq<Seq<u8>>, layout: Layout, i: int) -> u32 {
    match layout.sample_at(i) {
        None => 0,
        Some(k) => (joined(sounds.take(k)).len() * UNITS_PER_BYTE) as u32,
    }
}

/// Where the region of the key of slot `i` ends.
pub open spec fn region_end(sounds: Seq<Seq<u8>>, layout: Layout, i: int) -> u32 {
    match layout.sample_at(i) {
        None => 0,
        Some(k) => (joined(sounds.take(k + 1)).len() * UNITS_PER_BYTE) as u32,
    }
}

/// The octave setting of a kit whose root is the octave `octave`: the
/// distance from octave 5 as a byte, the octaves below 5 counted down from
/// 256.
pub open spec fn octave_setting(octave: u8) -> u8 {
    if octave >= 5 {
        (octave - 5) as u8
    } else {
        (octave + 251) as u8
    }
}

/// Whether a kit of `count` samples from key `shift + 1` on at the octave
/// `octave` can be laid out. The octave is judged first.
pub open spec fn kit_refused(octave: u8, shift: usize, count: usize) -> Option<DrumError> {
    if octave < 1 || octave > 10 {
        Some(DrumError::Octave(octave))
    } else if shift + count > 24 {
        Some(DrumError::TooManyKeys)
    } else {
        None
    }
}

/// Judges the layout of a kit before its samples are looked at.
pub fn check_kit(octave: u8, shift: usize, count: usize) -> (out: Result<(), DrumError>)
    ensures
        out == match kit_refused(octave, shift, count) {
            Some(e) => Err::<(), DrumError>(e),
            None => Ok(()),
        },
{
    if octave < 1 || octave > 10 {
        return Err(DrumError::Octave(octave));
    }
    if shift > 24 || count > 24 - shift {
        return Err(DrumError::TooManyKeys);
    }
    Ok(())
}

/// More pieces of sound are longer.
pub proof fn lemma_joined_grows(sounds: Seq<Seq<u8>>, k: int)
    requires
        0 <= k <= sounds.len(),
    ensures
        joined(sounds.take(k)).len() <= joined(sounds).len(),
    decreases sounds.len() - k,
{
    if k < sounds.len() {
        lemma_joined_grows(sounds, k + 1);
        assert(sounds.take(k + 1).drop_last() =~= sounds.take(k));
    } else {
        assert(sounds.take(k) =~= sounds);
    }
}

/// Why a kit of the given samples cannot be made, if it cannot: the layout
/// is judged first, then the length of the samples together.
pub open spec fn drum_refused(sounds: Seq<Seq<u8>>, shift: usize, octave: u8) -> Option<DrumError> {
    match kit_refused(octave, shift, sounds.len() as usize) {
        Some(e) => Some(e),
        None => if joined(sounds).len() > DRUM_BYTES {
            Some(DrumError::TooLong)
        } else {
            None
        },
    }
}

/// The start of every key's region.
pub open spec fn region_starts(sounds: Seq<Seq<u8>>, layout: Layout) -> Seq<u32> {
    Seq::new(24, |i: int| region_start(sounds, layout, i))
}

/// The end of every key's region.
pub open spec fn region_ends(sounds: Seq<Seq<u8>>, layout: Layout) -> Seq<u32> {
    Seq::new(24, |i: int| region_end(sounds, layout, i))
}

/// The pitch-table entry of every key: 512 units per semitone.
pub open spec fn region_pitches(layout: Layout) -> Seq<i16> {
    Seq::new(24, |i: int| (layout.semitones_at(i) * 512) as i16)
}

/// Puts the samples one after the other and notes where each begins and
/// ends.
fn lay_out(samples: &Vec<Vec<u8>>, shift: usize) -> (out: Option<(Vec<u8>, [u32; 24], [u32; 24])>)
    requires
        shift + samples@.len() <= 24,
    ensures
        out is None == (joined(parts(samples@)).len() > DRUM_BYTES),
        out matches Some((sound, starts, ends)) ==> {
            let layout = Layout {
                shift: shift as int,
                count: samples@.len() as int,
                fill: false,
                pitch_fill: false,
            };
            &&& sound@ == joined(parts(samples@))
            &&& starts@ == region_starts(parts(samples@), layout)
            &&& ends@ == region_ends(parts(samples@), layout)
        },
{
    let ghost sounds = parts(samples@);
    let n = samples.len();
    let mut sound: Vec<u8> = Vec::new();
    let mut starts: [u32; 24] = [0;24];
    let mut ends: [u32; 24] = [0;24];
    let mut k: usize = 0;
    assert(sounds.take(0) =~= Seq::<Seq<u8>>::empty());
    while k < n
        invariant
            k <= n == samples@.len(),
            shift + n <= 24,
            sounds == parts(samples@),
            sound@ == joined(sounds.take(k as int)),
            sound@.len() <= DRUM_BYTES,
            forall|i: int|
                0 <= i < 24 ==> starts@[i] == (if shift <= i < shift + k {
                    (joined(sounds.take(i - shift)).len() * UNITS_PER_BYTE) as u32
                } else {
                    0
                }),
            forall|i: int|
                0 <= i < 24 ==> ends@[i] == (if shift <= i < shift + k {
                    (joined(sounds.take(i - shift + 1)).len() * UNITS_PER_BYTE) as u32
                } else {
                    0
                }),
        decreases n - k,
    {
        let data = &samples[k];
        proof {
            assert(sounds.take(k + 1).drop_last() =~= sounds.take(k as int));
            assert(sounds.take(k + 1).last() == data@);
            lemma_joined_grows(sounds, k + 1);
        }
        if data.len() > DRUM_BYTES - sound.len() {
            return None;
        }
        starts[shift + k] = sound.len() as u32 * UNITS_PER_BYTE;
        crate::util::put_bytes(&mut sound, data.as_slice());
        ends[shift + k] = sound.len() as u32 * UNITS_PER_BYTE;
        k += 1;
    }
    proof {
        assert(sounds.take(n as int) =~= sounds);
        let layout = Layout {
            shift: shift as int,
            count: n as int,
            fill: false,
            pitch_fill: false,
        };
        assert(starts@ =~= region_starts(sounds, layout));
        assert(ends@ =~= region_ends(sounds, layout));
    }
    Some((sound, starts, ends))
}

/// Fills the keys below the first sample and above the last, where that is
/// asked for, and sets the detuning of every key.
fn fill_keys(
    starts: &[u32; 24],
    ends: &[u32; 24],
    shift: usize,
    count: usize,
    fill: bool,
    pitch_fill: bool,
    Ghost(sounds): Ghost<Seq<Seq<u8>>>,
) -> (out: ([u32; 24], [u32; 24], [i16; 24]))
    requires
        shift + count <= 24,
        count == sounds.len(),
        starts@ == region_starts(
            sounds,
            Layout { shift: shift as int, count: count as int, fill: false, pitch_fill: false },
        ),
        ends@ == region_ends(
            sounds,
            Layout { shift: shift as int, count: count as int, fill: false, pitch_fill: false },
        ),
    ensures
        ({
            let layout = Layout {
                shift: shift as int,
                count: count as int,
                fill: fill || pitch_fill,
                pitch_fill,
            };
            &&& out.0@ == region_starts(sounds, layout)
            &&& out.1@ == region_ends(sounds, layout)
            &&& out.2@ == region_pitches(layout)
        }),
{
    let ghost bare = Layout {
        shift: shift as int,
        count: count as int,
        fill: false,
        pitch_fill: false,
    };
    let ghost layout = Layout {
        shift: shift as int,
        count: count as int,
        fill: fill || pitch_fill,
        pitch_fill,
    };
    let mut new_starts: [u32; 24] = [0;24];
    let mut new_ends: [u32; 24] = [0;24];
    let mut pitches: [i16; 24] = [0;24];
    let mut i: usize = 0;
    while i < 24
        invariant
            i <= 24,
            shift + count <= 24,
            starts@ == region_starts(sounds, bare),
            ends@ == region_ends(sounds, bare),
            bare == (Layout {
                shift: shift as int,
                count: count as int,
                fill: false,
                pitch_fill: false,
            }),
            layout == (Layout {
                shift: shift as int,
                count: count as int,
                fill: fill || pitch_fill,
                pitch_fill,
            }),
            forall|j: int| 0 <= j < i ==> new_starts@[j] == region_start(sounds, layout, j),
            forall|j: int| 0 <= j < i ==> new_ends@[j] == region_end(sounds, layout, j),
            forall|j: int| 0 <= j < i ==> pitches@[j] == (layout.semitones_at(j) * 512) as i16,
            forall|j: int| i <= j < 24 ==> pitches@[j] == 0,
        decreases 24 - i,
    {
        let from: usize = if (fill || pitch_fill) && count > 0 {
            if i < shift {
                shift
            } else if i >= shift + count {
                shift + count - 1
            } else {
                i
            }
        } else {
            i
        };
        assert(region_start(sounds, layout, i as int) == region_start(sounds, bare, from as int));
        assert(region_end(sounds, layout, i as int) == region_end(sounds, bare, from as int));
        assert(starts@[from as int] == region_start(sounds, bare, from as int));
        assert(ends@[from as int] == region_end(sounds, bare, from as int));
        new_starts[i] = starts[from];
        new_ends[i] = ends[from];
        if pitch_fill && count > 0 {
            if i < shift {
                pitches[i] = -((shift - i) as i16 * 512);
            } else if i >= shift + count {
                pitches[i] = (i - (shift + count - 1)) as i16 * 512;
            }
        }
        i += 1;
    }
    assert(new_starts@ =~= region_starts(sounds, layout));
    assert(new_ends@ =~= region_ends(sounds, layout));
    assert(pitches@ =~= region_pitches(layout));
    (new_starts, new_ends, pitches)
}

/// Makes a drum kit of up to 24 samples: the container with the samples one
/// after the other, and the patch metadata that gives the `k`-th sample to
/// key `shift + k`. A region boundary is the number of bytes before it times
/// 2029. With `copy_remaining` the keys below the first sample play the
/// first sample and the keys above the last play the last; with
/// `pitch_shift_remaining` they do so detuned by one semitone for each key
/// of distance.
pub fn drum(
    samples: &Vec<Vec<u8>>,
    shift: usize,
    octave: u8,
    copy_remaining: bool,
    pitch_shift_remaining: bool,
) -> (out: Result<(FormChunk, OP1Data), DrumError>)
    ensures
        match drum_refused(parts(samples@), shift, octave) {
            Some(e) => out matches Err(got) && got == e,
            None => {
                let layout = Layout {
                    shift: shift as int,
                    count: samples@.len() as int,
                    fill: copy_remaining || pitch_shift_remaining,
                    pitch_fill: pitch_shift_remaining,
                };
                &&& out matches Ok((form, patch))
                &&& form@ == sound_form(joined(parts(samples@)))
                &&& is_new_drum(
                    patch,
                    octave_setting(octave),
                    region_starts(parts(samples@), layout),
                    region_ends(parts(samples@), layout),
                    region_pitches(layout),
                )
            },
        },
{
    match check_kit(octave, shift, samples.len()) {
        Err(e) => { return Err(e); },
        Ok(()) => {},
    }
    let (sound, starts, ends) = match lay_out(samples, shift) {
        None => { return Err(DrumError::TooLong); },
        Some(laid) => laid,
    };
    let (starts, ends, pitches) = fill_keys(
        &starts,
        &ends,
        shift,
        samples.len(),
        copy_remaining,
        pitch_shift_remaining,
        Ghost(parts(samples@)),
    );
    let setting: u8 = if octave >= 5 {
        octave - 5
    } else {
        octave + 251
    };
    Ok((form_of_sound(sound), OP1Data::new_drum(setting, starts, ends, pitches)))
}

} // verus!
