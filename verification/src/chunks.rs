use crate::format::{
    app_bytes, app_fits, chunk_kind, comment_bytes, comment_fits, comments_bytes,
    comments_chunk_bytes, comments_chunk_fits, common_bytes, frames, get_app, get_child,
    get_children, get_comment, get_comments, get_comments_chunk, get_common, get_form,
    get_instrument, get_loop, get_marker, get_marker_chunk, get_markers, get_midi, get_notes,
    get_recording, get_sound, get_text_chunk, instrument_bytes, lemma_child_advances, loop_bytes,
    marker_bytes, marker_chunk_bytes, marker_chunk_fits, marker_fits, markers_bytes, midi_bytes,
    midi_fits, recording_bytes, sound_bytes, sound_fits, text_chunk_bytes, text_end, text_fits,
    text_kind, AppView, ChildView, Children, CommentView, CommentsView, FormView, MarkerView,
    MarkersView, MidiDataView, SoundDataView, TextView,
};
use crate::util::{
    came, came_as, get_i32, get_u16, i32_be, put_bytes, put_i16_be, put_i32_be, put_i8_be,
    put_padding, put_pstring, put_text, put_u16_be, put_u32_be, read_chunk_id, read_i16_be,
    read_i32_be, read_i8_be, read_pstring, read_text, read_u16_be, read_u32_be, read_utf8,
    text_len, u16_be, Cursor, Failed, Parsed, Stream,
};
use vstd::prelude::*;

verus! {

/// Four bytes that name a chunk, a form type or an application.
pub type ChunkID = [u8; 4];

/// `FORM`, the container.
pub const FORM: ChunkID = [0x46, 0x4f, 0x52, 0x4d];

/// `AIFF`, the form type of uncompressed audio.
pub const AIFF: ChunkID = [0x41, 0x49, 0x46, 0x46];

/// `AIFC`, the form type of the later revision.
pub const AIFF_C: ChunkID = [0x41, 0x49, 0x46, 0x43];

/// `COMM`, the common chunk.
pub const COMMON: ChunkID = [0x43, 0x4f, 0x4d, 0x4d];

/// `SSND`, the sound data.
pub const SOUND: ChunkID = [0x53, 0x53, 0x4e, 0x44];

/// `MARK`, the markers.
pub const MARKER: ChunkID = [0x4d, 0x41, 0x52, 0x4b];

/// `INST`, the instrument chunk.
pub const INSTRUMENT: ChunkID = [0x49, 0x4e, 0x53, 0x54];

/// `MIDI`, MIDI data.
pub const MIDI: ChunkID = [0x4d, 0x49, 0x44, 0x49];

/// `AESD`, the audio recording chunk.
pub const RECORDING: ChunkID = [0x41, 0x45, 0x53, 0x44];

/// `APPL`, an application-specific chunk.
pub const APPLICATION: ChunkID = [0x41, 0x50, 0x50, 0x4c];

/// `COMT`, the comments.
pub const COMMENTS: ChunkID = [0x43, 0x4f, 0x4d, 0x54];

/// `NAME`, the name of the sound.
pub const NAME: ChunkID = [0x4e, 0x41, 0x4d, 0x45];

/// `AUTH`, its author.
pub const AUTHOR: ChunkID = [0x41, 0x55, 0x54, 0x48];

/// `(c) `, the copyright notice.
pub const COPYRIGHT: ChunkID = [0x28, 0x63, 0x29, 0x20];

/// `ANNO`, an annotation.
pub const ANNOTATION: ChunkID = [0x41, 0x4e, 0x4e, 0x4f];

/// `FVER`, the format version, which marks a container that is not supported.
pub const FORMAT_VER: ChunkID = [0x46, 0x56, 0x45, 0x52];

/// `op-1`, the application signature of patch metadata.
pub const OP_1: ChunkID = [0x6f, 0x70, 0x2d, 0x31];

/// Why a container could not be read.
#[derive(Debug, Clone, PartialEq, Eq)]
pub enum ChunkError {
    /// A chunk identifier that names no known chunk, or a container that
    /// does not begin with the container identifier.
    InvalidID(ChunkID),
    /// A form type that is neither of the two accepted.
    InvalidFormType(ChunkID),
    /// A declared size that the chunk's layout rules out: the size the layout
    /// asks for (its least size, for a chunk of variable length), then the
    /// size declared.
    InvalidSize(i32, i32),
    /// Patch metadata that could not be decoded, with the decoder's message.
    InvalidData(String),
    /// The input ended inside a field.
    UnexpectedEof,
    /// A text field that is not UTF-8.
    InvalidText,
    /// A format-version chunk, which marks a container that is not supported.
    Unsupported,
    /// A container without a common chunk.
    MissingCommon,
}

/// The kinds of chunk that a container can hold.
#[derive(Debug, Clone, Copy, PartialEq, Eq, Structural)]
pub enum ChunkKind {
    Common,
    Sound,
    Marker,
    Instrument,
    Midi,
    Recording,
    Application,
    Comments,
    /// One of the four kinds of text.
    Text,
    /// The format version, which is known and not supported.
    FormatVersion,
}

/// Compares two identifiers.
pub fn same_id(a: &ChunkID, b: &ChunkID) -> (same: bool)
    ensures
        same == (*a == *b),
{
    let same = a[0] == b[0] && a[1] == b[1] && a[2] == b[2] && a[3] == b[3];
    assert(same ==> *a =~= *b);
    same
}

/// A kind of chunk: how it is read and how it is written. A chunk is read
/// from behind its identifier, which tells its kind; the container alone is
/// read from its identifier on. Every chunk is written identifier first.
pub trait Chunk: View + Sized {
    /// What reading gives, for each input and position.
    spec fn decoded(s: Stream) -> Parsed<Self::V>;

    /// The bytes that writing appends.
    spec fn encoded(v: Self::V) -> Seq<u8>;

    /// Whether every length in the value fits the field that is to hold it
    /// on the wire, and the value is one that reading could have given.
    spec fn fits(v: Self::V) -> bool;

    /// Reads one chunk.
    fn parse(buf: &mut Cursor) -> (out: Result<Self, ChunkError>)
        ensures
            final(buf)@.data == old(buf)@.data,
            came_as(out, final(buf)@, Self::decoded(old(buf)@)),
    ;

    /// Tells whether the chunk can be written.
    fn writable(&self) -> (ok: bool)
        ensures
            ok == Self::fits(self@),
    ;

    /// Number of bytes that the chunk takes on the wire, the eight of
    /// identifier and size included.
    fn byte_len(&self) -> (n: usize)
        requires
            Self::fits(self@),
        ensures
            n == Self::encoded(self@).len(),
            n <= u32::MAX,
    ;

    /// Appends the chunk to `out` and returns the number of bytes appended,
    /// the eight of identifier and size included.
    fn write(&self, out: &mut Vec<u8>) -> (n: usize)
        requires
            Self::fits(self@),
        ensures
            final(out)@ == old(out)@ + Self::encoded(self@),
            n == Self::encoded(self@).len(),
    ;
}

/// The common chunk: the shape of the audio.
#[derive(Debug, Clone, Copy)]
pub struct CommonChunk {
    pub num_channels: i16,
    /// Number of sample frames. Reading a container sets it from the sound
    /// data, whatever the common chunk said.
    pub num_sample_frames: u32,
    /// Bits per sample.
    pub bit_rate: i16,
    /// Sample rate, an 80-bit extended number kept as its ten bytes.
    pub sample_rate: [u8; 10],
}

impl View for CommonChunk {
    type V = CommonChunk;

    open spec fn view(&self) -> CommonChunk {
        *self
    }
}

impl Chunk for CommonChunk {
    open spec fn decoded(s: Stream) -> Parsed<CommonChunk> {
        get_common(s)
    }

    open spec fn encoded(v: CommonChunk) -> Seq<u8> {
        common_bytes(v)
    }

    open spec fn fits(v: CommonChunk) -> bool {
        true
    }

    fn parse(buf: &mut Cursor) -> (out: Result<CommonChunk, ChunkError>) {
        let _size = match read_i32_be(buf) {
            Err(e) => { return Err(e); },
            Ok(v) => v,
        };
        let num_channels = match read_i16_be(buf) {
            Err(e) => { return Err(e); },
            Ok(v) => v,
        };
        let num_sample_frames = match read_u32_be(buf) {
            Err(e) => { return Err(e); },
            Ok(v) => v,
        };
        let bit_rate = match read_i16_be(buf) {
            Err(e) => { return Err(e); },
            Ok(v) => v,
        };
        let b = match buf.read_bytes(10) {
            Err(e) => { return Err(e); },
            Ok(v) => v,
        };
        Ok(
            CommonChunk {
                num_channels,
                num_sample_frames,
                bit_rate,
                sample_rate: [b[0], b[1], b[2], b[3], b[4], b[5], b[6], b[7], b[8], b[9]],
            },
        )
    }

    fn writable(&self) -> (ok: bool) {
        true
    }

    fn byte_len(&self) -> (n: usize) {
        proof {
            crate::util::lemma_numbers_round_trip();
        }
        26
    }

    fn write(&self, out: &mut Vec<u8>) -> (n: usize) {
        put_bytes(out, COMMON.as_slice());
        put_i32_be(out, 18);
        put_i16_be(out, self.num_channels);
        put_u32_be(out, self.num_sample_frames);
        put_i16_be(out, self.bit_rate);
        put_bytes(out, self.sample_rate.as_slice());
        assert(out@ =~= old(out)@ + common_bytes(*self));
        26
    }
}

/// One of the four kinds of text that a container can carry.
#[derive(Debug, Clone, Copy, PartialEq, Eq, Structural)]
pub enum TextChunkType {
    Name,
    Author,
    Copyright,
    Annotation,
}

/// A loop of the instrument chunk.
#[derive(Debug, Clone, Copy)]
pub struct Loop {
    /// 0 is no loop, 1 a forward loop, 2 a loop forward and backward.
    pub play_mode: i16,
    /// Marker where the loop begins.
    pub begin_loop: i16,
    /// Marker where the loop ends.
    pub end_loop: i16,
}

/// The instrument chunk: how a sampler should play the sound.
#[derive(Debug, Clone, Copy)]
pub struct InstrumentChunk {
    pub size: i32,
    pub base_note: i8,
    pub detune: i8,
    pub low_note: i8,
    pub high_note: i8,
    pub low_velocity: i8,
    pub high_velocity: i8,
    pub gain: i16,
    pub sustain_loop: Loop,
    pub release_loop: Loop,
}

/// The audio recording chunk: 24 bytes of channel status data.
#[derive(Debug, Clone, Copy)]
pub struct AudioRecordingChunk {
    pub size: i32,
    pub data: [u8; 24],
}

impl View for Loop {
    type V = Loop;

    open spec fn view(&self) -> Loop {
        *self
    }
}

impl View for InstrumentChunk {
    type V = InstrumentChunk;

    open spec fn view(&self) -> InstrumentChunk {
        *self
    }
}

impl View for AudioRecordingChunk {
    type V = AudioRecordingChunk;

    open spec fn view(&self) -> AudioRecordingChunk {
        *self
    }
}

/// The sound data: the samples, two bytes each.
#[derive(Debug, Clone)]
pub struct SoundDataChunk {
    /// Size as declared: the samples and the eight bytes before them.
    pub size: i32,
    pub offset: u32,
    pub block_size: u32,
    pub sound_data: Vec<u8>,
}

impl View for SoundDataChunk {
    type V = SoundDataView;

    open spec fn view(&self) -> SoundDataView {
        SoundDataView {
            size: self.size,
            offset: self.offset,
            block_size: self.block_size,
            sound_data: self.sound_data@,
        }
    }
}

impl SoundDataChunk {
    /// Number of sample frames: one for every two bytes. A count that does
    /// not fit the field is cut to its low 32 bits.
    pub fn sample_frames(&self) -> (count: u32)
        ensures
            count == frames(Some(self@)),
    {
        #[verifier::truncate]
        ((self.sound_data.len() / 2) as u32)
    }
}

impl Chunk for SoundDataChunk {
    open spec fn decoded(s: Stream) -> Parsed<SoundDataView> {
        get_sound(s)
    }

    open spec fn encoded(v: SoundDataView) -> Seq<u8> {
        sound_bytes(v)
    }

    open spec fn fits(v: SoundDataView) -> bool {
        sound_fits(v)
    }

    fn parse(buf: &mut Cursor) -> (out: Result<SoundDataChunk, ChunkError>) {
        let size = match read_i32_be(buf) {
            Err(e) => { return Err(e); },
            Ok(v) => v,
        };
        let offset = match read_u32_be(buf) {
            Err(e) => { return Err(e); },
            Ok(v) => v,
        };
        let block_size = match read_u32_be(buf) {
            Err(e) => { return Err(e); },
            Ok(v) => v,
        };
        if size < 8 {
            return Err(ChunkError::InvalidSize(8, size));
        }
        let want: u32 = (size - 8) as u32;
        let left = buf.remaining();
        let got: usize = if want as u64 <= left as u64 {
            want as usize
        } else {
            left
        };
        let sound_data = match buf.read_bytes(got) {
            Err(e) => { return Err(e); },
            Ok(v) => v,
        };
        if got % 2 == 1 && buf.remaining() >= 1 {
            match buf.read_bytes(1) {
                Err(e) => { return Err(e); },
                Ok(_) => {},
            }
        }
        Ok(SoundDataChunk { size: got as i32 + 8, offset, block_size, sound_data })
    }

    fn writable(&self) -> (ok: bool) {
        self.sound_data.len() <= 0x7fff_fff7
    }

    fn byte_len(&self) -> (n: usize) {
        proof {
            crate::util::lemma_numbers_round_trip();
        }
        let len = self.sound_data.len();
        16 + len + len % 2
    }

    fn write(&self, out: &mut Vec<u8>) -> (n: usize) {
        let len = self.sound_data.len();
        put_bytes(out, SOUND.as_slice());
        put_i32_be(out, (len + 8) as i32);
        put_u32_be(out, self.offset);
        put_u32_be(out, self.block_size);
        put_bytes(out, self.sound_data.as_slice());
        put_padding(out, len);
        assert(out@ =~= old(out)@ + sound_bytes(self@));
        16 + len + len % 2
    }
}

/// MIDI data, kept as its bytes.
#[derive(Debug, Clone)]
pub struct MIDIDataChunk {
    pub size: i32,
    pub data: Vec<u8>,
}

impl View for MIDIDataChunk {
    type V = MidiDataView;

    open spec fn view(&self) -> MidiDataView {
        MidiDataView { size: self.size, data: self.data@ }
    }
}

impl Chunk for MIDIDataChunk {
    open spec fn decoded(s: Stream) -> Parsed<MidiDataView> {
        get_midi(s)
    }

    open spec fn encoded(v: MidiDataView) -> Seq<u8> {
        midi_bytes(v)
    }

    open spec fn fits(v: MidiDataView) -> bool {
        midi_fits(v)
    }

    fn parse(buf: &mut Cursor) -> (out: Result<MIDIDataChunk, ChunkError>) {
        let size = match read_i32_be(buf) {
            Err(e) => { return Err(e); },
            Ok(v) => v,
        };
        if size < 0 {
            return Err(ChunkError::InvalidSize(0, size));
        }
        let data = match buf.read_bytes(size as usize) {
            Err(e) => { return Err(e); },
            Ok(v) => v,
        };
        match buf.read_bytes((size % 2) as usize) {
            Err(e) => { return Err(e); },
            Ok(_) => {},
        }
        Ok(MIDIDataChunk { size, data })
    }

    fn writable(&self) -> (ok: bool) {
        self.data.len() <= 0x7fff_ffff
    }

    fn byte_len(&self) -> (n: usize) {
        proof {
            crate::util::lemma_numbers_round_trip();
        }
        let len = self.data.len();
        8 + len + len % 2
    }

    fn write(&self, out: &mut Vec<u8>) -> (n: usize) {
        let len = self.data.len();
        put_bytes(out, MIDI.as_slice());
        put_i32_be(out, len as i32);
        put_bytes(out, self.data.as_slice());
        put_padding(out, len);
        assert(out@ =~= old(out)@ + midi_bytes(self@));
        8 + len + len % 2
    }
}

impl Chunk for AudioRecordingChunk {
    open spec fn decoded(s: Stream) -> Parsed<AudioRecordingChunk> {
        get_recording(s)
    }

    open spec fn encoded(v: AudioRecordingChunk) -> Seq<u8> {
        recording_bytes(v)
    }

    open spec fn fits(v: AudioRecordingChunk) -> bool {
        true
    }

    fn parse(buf: &mut Cursor) -> (out: Result<AudioRecordingChunk, ChunkError>) {
        let size = match read_i32_be(buf) {
            Err(e) => { return Err(e); },
            Ok(v) => v,
        };
        if size != 24 {
            return Err(ChunkError::InvalidSize(24, size));
        }
        let b = match buf.read_bytes(24) {
            Err(e) => { return Err(e); },
            Ok(v) => v,
        };
        Ok(
            AudioRecordingChunk {
                size,
                data: [
                    b[0],
                    b[1],
                    b[2],
                    b[3],
                    b[4],
                    b[5],
                    b[6],
                    b[7],
                    b[8],
                    b[9],
                    b[10],
                    b[11],
                    b[12],
                    b[13],
                    b[14],
                    b[15],
                    b[16],
                    b[17],
                    b[18],
                    b[19],
                    b[20],
                    b[21],
                    b[22],
                    b[23],
                ],
            },
        )
    }

    fn writable(&self) -> (ok: bool) {
        true
    }

    fn byte_len(&self) -> (n: usize) {
        proof {
            crate::util::lemma_numbers_round_trip();
        }
        32
    }

    fn write(&self, out: &mut Vec<u8>) -> (n: usize) {
        put_bytes(out, RECORDING.as_slice());
        put_i32_be(out, 24);
        put_bytes(out, self.data.as_slice());
        assert(out@ =~= old(out)@ + recording_bytes(*self));
        32
    }
}

impl Loop {
    /// Reads a loop.
    pub fn from_reader(r: &mut Cursor) -> (out: Result<Loop, ChunkError>)
        ensures
            final(r)@.data == old(r)@.data,
            came(out, final(r)@, get_loop(old(r)@)),
    {
        let play_mode = match read_i16_be(r) {
            Err(e) => { return Err(e); },
            Ok(v) => v,
        };
        let begin_loop = match read_i16_be(r) {
            Err(e) => { return Err(e); },
            Ok(v) => v,
        };
        let end_loop = match read_i16_be(r) {
            Err(e) => { return Err(e); },
            Ok(v) => v,
        };
        Ok(Loop { play_mode, begin_loop, end_loop })
    }

    /// Appends a loop.
    pub fn write(&self, out: &mut Vec<u8>)
        ensures
            final(out)@ == old(out)@ + loop_bytes(*self),
    {
        put_i16_be(out, self.play_mode);
        put_i16_be(out, self.begin_loop);
        put_i16_be(out, self.end_loop);
        assert(out@ =~= old(out)@ + loop_bytes(*self));
    }
}

/// Reads the six note and velocity bytes of the instrument chunk.
fn read_notes(r: &mut Cursor) -> (out: Result<(i8, i8, i8, i8, i8, i8), ChunkError>)
    ensures
        final(r)@.data == old(r)@.data,
        came(out, final(r)@, get_notes(old(r)@)),
{
    let base_note = match read_i8_be(r) {
        Err(e) => { return Err(e); },
        Ok(v) => v,
    };
    let detune = match read_i8_be(r) {
        Err(e) => { return Err(e); },
        Ok(v) => v,
    };
    let low_note = match read_i8_be(r) {
        Err(e) => { return Err(e); },
        Ok(v) => v,
    };
    let high_note = match read_i8_be(r) {
        Err(e) => { return Err(e); },
        Ok(v) => v,
    };
    let low_velocity = match read_i8_be(r) {
        Err(e) => { return Err(e); },
        Ok(v) => v,
    };
    let high_velocity = match read_i8_be(r) {
        Err(e) => { return Err(e); },
        Ok(v) => v,
    };
    Ok((base_note, detune, low_note, high_note, low_velocity, high_velocity))
}

impl Chunk for InstrumentChunk {
    open spec fn decoded(s: Stream) -> Parsed<InstrumentChunk> {
        get_instrument(s)
    }

    open spec fn encoded(v: InstrumentChunk) -> Seq<u8> {
        instrument_bytes(v)
    }

    open spec fn fits(v: InstrumentChunk) -> bool {
        true
    }

    fn parse(buf: &mut Cursor) -> (out: Result<InstrumentChunk, ChunkError>) {
        let size = match read_i32_be(buf) {
            Err(e) => { return Err(e); },
            Ok(v) => v,
        };
        let notes = match read_notes(buf) {
            Err(e) => { return Err(e); },
            Ok(v) => v,
        };
        let gain = match read_i16_be(buf) {
            Err(e) => { return Err(e); },
            Ok(v) => v,
        };
        let sustain_loop = match Loop::from_reader(buf) {
            Err(e) => { return Err(e); },
            Ok(v) => v,
        };
        let release_loop = match Loop::from_reader(buf) {
            Err(e) => { return Err(e); },
            Ok(v) => v,
        };
        Ok(
            InstrumentChunk {
                size,
                base_note: notes.0,
                detune: notes.1,
                low_note: notes.2,
                high_note: notes.3,
                low_velocity: notes.4,
                high_velocity: notes.5,
                gain,
                sustain_loop,
                release_loop,
            },
        )
    }

    fn writable(&self) -> (ok: bool) {
        true
    }

    fn byte_len(&self) -> (n: usize) {
        proof {
            crate::util::lemma_numbers_round_trip();
        }
        28
    }

    fn write(&self, out: &mut Vec<u8>) -> (n: usize) {
        put_bytes(out, INSTRUMENT.as_slice());
        put_i32_be(out, 20);
        put_i8_be(out, self.base_note);
        put_i8_be(out, self.detune);
        put_i8_be(out, self.low_note);
        put_i8_be(out, self.high_note);
        put_i8_be(out, self.low_velocity);
        put_i8_be(out, self.high_velocity);
        put_i16_be(out, self.gain);
        self.sustain_loop.write(out);
        self.release_loop.write(out);
        assert(out@ =~= old(out)@ + instrument_bytes(*self));
        28
    }
}

/// A text chunk: name, author, copyright notice or annotation.
#[derive(Debug, Clone)]
pub struct TextChunk {
    pub chunk_type: TextChunkType,
    pub size: i32,
    pub text: String,
}

impl View for TextChunk {
    type V = TextView;

    open spec fn view(&self) -> TextView {
        TextView { chunk_type: self.chunk_type, size: self.size, text: self.text@ }
    }
}

/// Tells the kind of text that an identifier names.
pub fn text_kind_of(id: &ChunkID) -> (kind: Option<TextChunkType>)
    ensures
        kind == text_kind(*id),
{
    if same_id(id, &NAME) {
        Some(TextChunkType::Name)
    } else if same_id(id, &AUTHOR) {
        Some(TextChunkType::Author)
    } else if same_id(id, &COPYRIGHT) {
        Some(TextChunkType::Copyright)
    } else if same_id(id, &ANNOTATION) {
        Some(TextChunkType::Annotation)
    } else {
        None
    }
}

impl Chunk for TextChunk {
    open spec fn decoded(s: Stream) -> Parsed<TextView> {
        get_text_chunk(s)
    }

    open spec fn encoded(v: TextView) -> Seq<u8> {
        text_chunk_bytes(v)
    }

    open spec fn fits(v: TextView) -> bool {
        text_fits(v)
    }

    fn parse(buf: &mut Cursor) -> (out: Result<TextChunk, ChunkError>) {
        let pos = buf.position();
        if pos < 4 {
            return Err(ChunkError::UnexpectedEof);
        }
        match buf.seek(pos - 4) {
            Err(e) => { return Err(e); },
            Ok(()) => {},
        }
        let id = match read_chunk_id(buf) {
            Err(e) => { return Err(e); },
            Ok(v) => v,
        };
        let chunk_type = match text_kind_of(&id) {
            None => { return Err(ChunkError::InvalidID(id)); },
            Some(v) => v,
        };
        let size = match read_i32_be(buf) {
            Err(e) => { return Err(e); },
            Ok(v) => v,
        };
        if size < 0 {
            return Err(ChunkError::InvalidSize(0, size));
        }
        let text = match read_text(buf, size as usize) {
            Err(e) => { return Err(e); },
            Ok(v) => v,
        };
        Ok(TextChunk { chunk_type, size, text })
    }

    fn writable(&self) -> (ok: bool) {
        text_len(&self.text) <= 0x7fff_ffff
    }

    fn byte_len(&self) -> (n: usize) {
        proof {
            crate::util::lemma_numbers_round_trip();
        }
        let len = text_len(&self.text);
        8 + len + len % 2
    }

    fn write(&self, out: &mut Vec<u8>) -> (n: usize) {
        let len = text_len(&self.text);
        let id = match self.chunk_type {
            TextChunkType::Name => NAME,
            TextChunkType::Author => AUTHOR,
            TextChunkType::Copyright => COPYRIGHT,
            TextChunkType::Annotation => ANNOTATION,
        };
        put_bytes(out, id.as_slice());
        put_i32_be(out, len as i32);
        put_text(out, &self.text);
        assert(out@ =~= old(out)@ + text_chunk_bytes(self@));
        8 + len + len % 2
    }
}

/// An application-specific chunk.
#[derive(Debug, Clone)]
pub enum ApplicationSpecificChunk {
    /// Patch metadata, by its text: the bytes before the terminating zero.
    OP1 { data: Vec<u8> },
    /// The chunk of another application, kept as it came.
    UnknownApplication { size: i32, application_signature: ChunkID, data: Vec<u8> },
}

impl View for ApplicationSpecificChunk {
    type V = AppView;

    open spec fn view(&self) -> AppView {
        match *self {
            ApplicationSpecificChunk::OP1 { data } => AppView::OP1 { data: data@ },
            ApplicationSpecificChunk::UnknownApplication {
                size,
                application_signature,
                data,
            } => AppView::UnknownApplication { size, application_signature, data: data@ },
        }
    }
}

/// Counts the bytes before the first zero byte.
pub fn find_text_end(data: &[u8]) -> (end: usize)
    ensures
        end == text_end(data@),
        end <= data@.len(),
{
    let mut i: usize = 0;
    assert(data@.skip(0) =~= data@);
    while i < data.len() && data[i] != 0
        invariant
            i <= data@.len(),
            text_end(data@) == i + text_end(data@.skip(i as int)),
        decreases data@.len() - i,
    {
        assert(data@.skip(i as int)[0] == data@[i as int]);
        assert(data@.skip(i as int).skip(1) =~= data@.skip(i + 1));
        i += 1;
    }
    proof {
        if i < data@.len() {
            assert(data@.skip(i as int)[0] == data@[i as int]);
        }
    }
    i
}

impl Chunk for ApplicationSpecificChunk {
    open spec fn decoded(s: Stream) -> Parsed<AppView> {
        get_app(s)
    }

    open spec fn encoded(v: AppView) -> Seq<u8> {
        app_bytes(v)
    }

    open spec fn fits(v: AppView) -> bool {
        app_fits(v)
    }

    fn parse(buf: &mut Cursor) -> (out: Result<ApplicationSpecificChunk, ChunkError>) {
        let size = match read_i32_be(buf) {
            Err(e) => { return Err(e); },
            Ok(v) => v,
        };
        let application_signature = match read_chunk_id(buf) {
            Err(e) => { return Err(e); },
            Ok(v) => v,
        };
        if size < 4 {
            return Err(ChunkError::InvalidSize(4, size));
        }
        let mut data = match buf.read_bytes((size - 4) as usize) {
            Err(e) => { return Err(e); },
            Ok(v) => v,
        };
        match buf.read_bytes((size % 2) as usize) {
            Err(e) => { return Err(e); },
            Ok(_) => {},
        }
        if same_id(&application_signature, &OP_1) {
            let end = find_text_end(data.as_slice());
            data.truncate(end);
            Ok(ApplicationSpecificChunk::OP1 { data })
        } else {
            Ok(ApplicationSpecificChunk::UnknownApplication { size, application_signature, data })
        }
    }

    fn writable(&self) -> (ok: bool) {
        match self {
            ApplicationSpecificChunk::OP1 { data } => data.len() <= 0x7fff_fffa && find_text_end(
                data.as_slice(),
            ) == data.len(),
            ApplicationSpecificChunk::UnknownApplication { application_signature, data, .. } => {
                data.len() <= 0x7fff_fffb && !same_id(application_signature, &OP_1)
            },
        }
    }

    fn byte_len(&self) -> (n: usize) {
        proof {
            crate::util::lemma_numbers_round_trip();
        }
        match self {
            ApplicationSpecificChunk::OP1 { data } => 12 + data.len() + data.len() % 2,
            ApplicationSpecificChunk::UnknownApplication { data, .. } => 12 + data.len()
                + data.len() % 2,
        }
    }

    fn write(&self, out: &mut Vec<u8>) -> (n: usize) {
        put_bytes(out, APPLICATION.as_slice());
        match self {
            ApplicationSpecificChunk::OP1 { data } => {
                let len = data.len();
                put_i32_be(out, (len + len % 2 + 4) as i32);
                put_bytes(out, OP_1.as_slice());
                put_bytes(out, data.as_slice());
                put_padding(out, len);
                assert(out@ =~= old(out)@ + app_bytes(self@));
                12 + len + len % 2
            },
            ApplicationSpecificChunk::UnknownApplication { application_signature, data, .. } => {
                let len = data.len();
                put_i32_be(out, (len + 4) as i32);
                put_bytes(out, application_signature.as_slice());
                put_bytes(out, data.as_slice());
                put_padding(out, len);
                assert(out@ =~= old(out)@ + app_bytes(self@));
                12 + len + len % 2
            },
        }
    }
}

/// A marker: a named position in the sound.
#[derive(Debug, Clone)]
pub struct Marker {
    pub id: i16,
    pub position: u32,
    pub marker_name: String,
}

impl View for Marker {
    type V = MarkerView;

    open spec fn view(&self) -> MarkerView {
        MarkerView { id: self.id, position: self.position, marker_name: self.marker_name@ }
    }
}

impl Marker {
    /// Reads a marker.
    pub fn from_reader(r: &mut Cursor) -> (out: Result<Marker, ChunkError>)
        ensures
            final(r)@.data == old(r)@.data,
            came_as(out, final(r)@, get_marker(old(r)@)),
    {
        let id = match read_i16_be(r) {
            Err(e) => { return Err(e); },
            Ok(v) => v,
        };
        let position = match read_u32_be(r) {
            Err(e) => { return Err(e); },
            Ok(v) => v,
        };
        let marker_name = match read_pstring(r) {
            Err(e) => { return Err(e); },
            Ok(v) => v,
        };
        Ok(Marker { id, position, marker_name })
    }

    /// Appends a marker whose name fits its length byte.
    pub fn write(&self, out: &mut Vec<u8>)
        requires
            marker_fits(self@),
        ensures
            final(out)@ == old(out)@ + marker_bytes(self@),
    {
        put_i16_be(out, self.id);
        put_u32_be(out, self.position);
        put_pstring(out, &self.marker_name);
        assert(out@ =~= old(out)@ + marker_bytes(self@));
    }
}

/// The markers as values.
pub open spec fn marker_views(markers: Seq<Marker>) -> Seq<MarkerView> {
    markers.map_values(|m: Marker| m@)
}

/// The marker chunk.
#[derive(Debug, Clone)]
pub struct MarkerChunk {
    pub size: i32,
    pub num_markers: u16,
    pub markers: Vec<Marker>,
}

impl View for MarkerChunk {
    type V = MarkersView;

    open spec fn view(&self) -> MarkersView {
        MarkersView {
            size: self.size,
            num_markers: self.num_markers,
            markers: marker_views(self.markers@),
        }
    }
}

/// Once a marker cannot be read, no longer run of markers can.
pub proof fn lemma_markers_fail(s: Stream, k: nat, n: nat)
    requires
        k <= n,
        get_markers(s, k) is Err,
    ensures
        get_markers(s, n) == get_markers(s, k),
    decreases n,
{
    if k < n {
        lemma_markers_fail(s, k, (n - 1) as nat);
    }
}

/// A marker takes at most 263 bytes.
pub proof fn lemma_markers_len(markers: Seq<MarkerView>)
    requires
        forall|i: int| 0 <= i < markers.len() ==> marker_fits(#[trigger] markers[i]),
    ensures
        markers_bytes(markers).len() <= 263 * markers.len(),
    decreases markers.len(),
{
    if markers.len() > 0 {
        crate::util::lemma_numbers_round_trip();
        lemma_markers_len(markers.drop_last());
        assert(marker_fits(markers[markers.len() - 1]));
    }
}

impl Chunk for MarkerChunk {
    open spec fn decoded(s: Stream) -> Parsed<MarkersView> {
        get_marker_chunk(s)
    }

    open spec fn encoded(v: MarkersView) -> Seq<u8> {
        marker_chunk_bytes(v)
    }

    open spec fn fits(v: MarkersView) -> bool {
        marker_chunk_fits(v)
    }

    fn parse(buf: &mut Cursor) -> (out: Result<MarkerChunk, ChunkError>) {
        let size = match read_i32_be(buf) {
            Err(e) => { return Err(e); },
            Ok(v) => v,
        };
        let start = buf.position();
        let num_markers = match read_u16_be(buf) {
            Err(e) => { return Err(e); },
            Ok(v) => v,
        };
        let ghost first = buf@;
        let mut markers: Vec<Marker> = Vec::new();
        let mut i: u16 = 0;
        assert(marker_views(markers@) =~= Seq::<MarkerView>::empty());
        while i < num_markers
            invariant
                i <= num_markers,
                buf@.data == old(buf)@.data,
                get_i32(old(buf)@) == Ok::<(i32, Stream), Failed>((size, first.advance(-2))),
                get_u16(first.advance(-2)) == Ok::<(u16, Stream), Failed>(
                    (num_markers, first),
                ),
                first.pos == start + 2,
                first.pos <= buf@.pos,
                get_markers(first, i as nat) == Ok::<(Seq<MarkerView>, Stream), Failed>(
                    (marker_views(markers@), buf@),
                ),
            decreases num_markers - i,
        {
            let ghost before = markers@;
            match Marker::from_reader(buf) {
                Err(e) => {
                    proof {
                        lemma_markers_fail(first, (i + 1) as nat, num_markers as nat);
                    }
                    return Err(e);
                },
                Ok(marker) => {
                    markers.push(marker);
                    assert(marker_views(markers@) =~= marker_views(before).push(marker@));
                },
            }
            i += 1;
        }
        let end = buf.position();
        match buf.read_bytes((end - start) % 2) {
            Err(e) => { return Err(e); },
            Ok(_) => {},
        }
        Ok(MarkerChunk { size, num_markers, markers })
    }

    fn writable(&self) -> (ok: bool) {
        if self.num_markers as usize != self.markers.len() {
            return false;
        }
        let mut i: usize = 0;
        while i < self.markers.len()
            invariant
                i <= self.markers@.len(),
                forall|k: int|
                    0 <= k < i ==> marker_fits(#[trigger] marker_views(self.markers@)[k]),
            decreases self.markers@.len() - i,
        {
            if text_len(&self.markers[i].marker_name) > 255 {
                assert(!marker_fits(marker_views(self.markers@)[i as int]));
                return false;
            }
            i += 1;
        }
        true
    }

    fn byte_len(&self) -> (n: usize) {
        proof {
            lemma_markers_len(marker_views(self.markers@));
            crate::util::lemma_numbers_round_trip();
        }
        let mut scratch: Vec<u8> = Vec::new();
        self.write(&mut scratch)
    }

    fn write(&self, out: &mut Vec<u8>) -> (n: usize) {
        let ghost views = marker_views(self.markers@);
        let mut body: Vec<u8> = Vec::new();
        put_u16_be(&mut body, self.num_markers);
        let mut i: usize = 0;
        assert(views.take(0) =~= Seq::<MarkerView>::empty());
        assert(body@ =~= u16_be(self.num_markers) + markers_bytes(views.take(0)));
        while i < self.markers.len()
            invariant
                i <= self.markers@.len(),
                views == marker_views(self.markers@),
                marker_chunk_fits(self@),
                body@ == u16_be(self.num_markers) + markers_bytes(views.take(i as int)),
            decreases self.markers@.len() - i,
        {
            assert(views.take(i + 1).drop_last() =~= views.take(i as int));
            assert(views.take(i + 1).last() == views[i as int]);
            assert(marker_fits(views[i as int]));
            self.markers[i].write(&mut body);
            i += 1;
            assert(body@ =~= u16_be(self.num_markers) + markers_bytes(
                views.take(i as int),
            ));
        }
        proof {
            assert(views.take(i as int) =~= views);
            lemma_markers_len(views);
            crate::util::lemma_numbers_round_trip();
        }
        let len = body.len();
        put_bytes(out, MARKER.as_slice());
        put_i32_be(out, len as i32);
        put_bytes(out, body.as_slice());
        put_padding(out, len);
        assert(out@ =~= old(out)@ + marker_chunk_bytes(self@));
        8 + len + len % 2
    }
}

/// A comment: a dated remark, on a marker or on the sound as a whole.
#[derive(Debug, Clone)]
pub struct Comment {
    pub timestamp: u32,
    pub marker_id: i16,
    /// Number of bytes of the text.
    pub count: u16,
    pub text: String,
}

impl View for Comment {
    type V = CommentView;

    open spec fn view(&self) -> CommentView {
        CommentView {
            timestamp: self.timestamp,
            marker_id: self.marker_id,
            count: self.count,
            text: self.text@,
        }
    }
}

impl Comment {
    /// Reads a comment.
    pub fn from_reader(r: &mut Cursor) -> (out: Result<Comment, ChunkError>)
        ensures
            final(r)@.data == old(r)@.data,
            came_as(out, final(r)@, get_comment(old(r)@)),
    {
        let timestamp = match read_u32_be(r) {
            Err(e) => { return Err(e); },
            Ok(v) => v,
        };
        let marker_id = match read_i16_be(r) {
            Err(e) => { return Err(e); },
            Ok(v) => v,
        };
        let count = match read_u16_be(r) {
            Err(e) => { return Err(e); },
            Ok(v) => v,
        };
        let text = match read_utf8(r, count as usize) {
            Err(e) => { return Err(e); },
            Ok(v) => v,
        };
        Ok(Comment { timestamp, marker_id, count, text })
    }

    /// Appends a comment that records the length of its text.
    pub fn write(&self, out: &mut Vec<u8>)
        requires
            comment_fits(self@),
        ensures
            final(out)@ == old(out)@ + comment_bytes(self@),
    {
        put_u32_be(out, self.timestamp);
        put_i16_be(out, self.marker_id);
        put_u16_be(out, self.count);
        put_bytes(out, self.text.as_str().as_bytes());
        assert(out@ =~= old(out)@ + comment_bytes(self@));
    }
}

/// The comments as values.
pub open spec fn comment_views(comments: Seq<Comment>) -> Seq<CommentView> {
    comments.map_values(|c: Comment| c@)
}

/// The comments chunk.
#[derive(Debug, Clone)]
pub struct CommentsChunk {
    pub size: i32,
    pub num_comments: u16,
    pub comments: Vec<Comment>,
}

impl View for CommentsChunk {
    type V = CommentsView;

    open spec fn view(&self) -> CommentsView {
        CommentsView {
            size: self.size,
            num_comments: self.num_comments,
            comments: comment_views(self.comments@),
        }
    }
}

/// Once a comment cannot be read, no longer run of comments can.
pub proof fn lemma_comments_fail(s: Stream, k: nat, n: nat)
    requires
        k <= n,
        get_comments(s, k) is Err,
    ensures
        get_comments(s, n) == get_comments(s, k),
    decreases n,
{
    if k < n {
        lemma_comments_fail(s, k, (n - 1) as nat);
    }
}

impl Chunk for CommentsChunk {
    open spec fn decoded(s: Stream) -> Parsed<CommentsView> {
        get_comments_chunk(s)
    }

    open spec fn encoded(v: CommentsView) -> Seq<u8> {
        comments_chunk_bytes(v)
    }

    open spec fn fits(v: CommentsView) -> bool {
        comments_chunk_fits(v)
    }

    fn parse(buf: &mut Cursor) -> (out: Result<CommentsChunk, ChunkError>) {
        let size = match read_i32_be(buf) {
            Err(e) => { return Err(e); },
            Ok(v) => v,
        };
        let start = buf.position();
        let num_comments = match read_u16_be(buf) {
            Err(e) => { return Err(e); },
            Ok(v) => v,
        };
        let ghost first = buf@;
        let mut comments: Vec<Comment> = Vec::new();
        let mut i: u16 = 0;
        assert(comment_views(comments@) =~= Seq::<CommentView>::empty());
        while i < num_comments
            invariant
                i <= num_comments,
                buf@.data == old(buf)@.data,
                get_i32(old(buf)@) == Ok::<(i32, Stream), Failed>((size, first.advance(-2))),
                get_u16(first.advance(-2)) == Ok::<(u16, Stream), Failed>(
                    (num_comments, first),
                ),
                first.pos == start + 2,
                first.pos <= buf@.pos,
                get_comments(first, i as nat) == Ok::<(Seq<CommentView>, Stream), Failed>(
                    (comment_views(comments@), buf@),
                ),
            decreases num_comments - i,
        {
            let ghost before = comments@;
            match Comment::from_reader(buf) {
                Err(e) => {
                    proof {
                        lemma_comments_fail(first, (i + 1) as nat, num_comments as nat);
                    }
                    return Err(e);
                },
                Ok(comment) => {
                    comments.push(comment);
                    assert(comment_views(comments@) =~= comment_views(before).push(comment@));
                },
            }
            i += 1;
        }
        let end = buf.position();
        match buf.read_bytes((end - start) % 2) {
            Err(e) => { return Err(e); },
            Ok(_) => {},
        }
        Ok(CommentsChunk { size, num_comments, comments })
    }

    fn writable(&self) -> (ok: bool) {
        if self.num_comments as usize != self.comments.len() {
            return false;
        }
        let ghost views = comment_views(self.comments@);
        let mut total: u64 = 2;
        let mut i: usize = 0;
        assert(views.take(0) =~= Seq::<CommentView>::empty());
        while i < self.comments.len()
            invariant
                i <= self.comments@.len(),
                self.comments@.len() <= 0xffff,
                views == comment_views(self.comments@),
                forall|k: int| 0 <= k < i ==> comment_fits(#[trigger] views[k]),
                total == 2 + comments_bytes(views.take(i as int)).len(),
                total <= 2 + 0x1_0007 * i,
            decreases self.comments@.len() - i,
        {
            let comment = &self.comments[i];
            if text_len(&comment.text) != comment.count as usize {
                assert(!comment_fits(views[i as int]));
                return false;
            }
            proof {
                assert(views.take(i + 1).drop_last() =~= views.take(i as int));
                assert(views.take(i + 1).last() == views[i as int]);
                crate::util::lemma_numbers_round_trip();
            }
            total = total + 8 + comment.count as u64;
            i += 1;
        }
        assert(views.take(i as int) =~= views);
        total <= 0x7fff_ffff
    }

    fn byte_len(&self) -> (n: usize) {
        proof {
            crate::util::lemma_numbers_round_trip();
        }
        let mut scratch: Vec<u8> = Vec::new();
        self.write(&mut scratch)
    }

    fn write(&self, out: &mut Vec<u8>) -> (n: usize) {
        let ghost views = comment_views(self.comments@);
        let mut body: Vec<u8> = Vec::new();
        put_u16_be(&mut body, self.num_comments);
        let mut i: usize = 0;
        assert(views.take(0) =~= Seq::<CommentView>::empty());
        assert(body@ =~= u16_be(self.num_comments) + comments_bytes(views.take(0)));
        while i < self.comments.len()
            invariant
                i <= self.comments@.len(),
                views == comment_views(self.comments@),
                comments_chunk_fits(self@),
                body@ == u16_be(self.num_comments) + comments_bytes(views.take(i as int)),
            decreases self.comments@.len() - i,
        {
            assert(views.take(i + 1).drop_last() =~= views.take(i as int));
            assert(views.take(i + 1).last() == views[i as int]);
            assert(comment_fits(views[i as int]));
            self.comments[i].write(&mut body);
            i += 1;
            assert(body@ =~= u16_be(self.num_comments) + comments_bytes(views.take(i as int)));
        }
        proof {
            assert(views.take(i as int) =~= views);
            crate::util::lemma_numbers_round_trip();
        }
        let len = body.len();
        put_bytes(out, COMMENTS.as_slice());
        put_i32_be(out, len as i32);
        put_bytes(out, body.as_slice());
        put_padding(out, len);
        assert(out@ =~= old(out)@ + comments_chunk_bytes(self@));
        8 + len + len % 2
    }
}

/// The items of a list as values.
pub open spec fn views<T: View>(items: Seq<T>) -> Seq<T::V> {
    items.map_values(|item: T| item@)
}

/// An item that may be absent, as a value.
pub open spec fn view_of<T: View>(item: Option<T>) -> Option<T::V> {
    match item {
        None => None,
        Some(item) => Some(item@),
    }
}

/// Tells the kind of chunk that an identifier names.
pub fn kind_of(id: &ChunkID) -> (kind: Option<ChunkKind>)
    ensures
        kind == chunk_kind(*id),
{
    if same_id(id, &COMMON) {
        Some(ChunkKind::Common)
    } else if same_id(id, &SOUND) {
        Some(ChunkKind::Sound)
    } else if same_id(id, &MARKER) {
        Some(ChunkKind::Marker)
    } else if same_id(id, &INSTRUMENT) {
        Some(ChunkKind::Instrument)
    } else if same_id(id, &MIDI) {
        Some(ChunkKind::Midi)
    } else if same_id(id, &RECORDING) {
        Some(ChunkKind::Recording)
    } else if same_id(id, &APPLICATION) {
        Some(ChunkKind::Application)
    } else if same_id(id, &COMMENTS) {
        Some(ChunkKind::Comments)
    } else if text_kind_of(id).is_some() {
        Some(ChunkKind::Text)
    } else if same_id(id, &FORMAT_VER) {
        Some(ChunkKind::FormatVersion)
    } else {
        None
    }
}

/// A container: the common chunk, which every container has, and the chunks
/// that it may have.
#[derive(Debug, Clone)]
pub struct FormChunk {
    /// Size as declared: the form type and the chunks.
    pub size: i32,
    pub form_type: ChunkID,
    pub common: CommonChunk,
    pub sound: Option<SoundDataChunk>,
    pub comments: Option<CommentsChunk>,
    pub instrument: Option<InstrumentChunk>,
    pub recording: Option<AudioRecordingChunk>,
    pub markers: Option<MarkerChunk>,
    pub texts: Vec<TextChunk>,
    pub midi: Vec<MIDIDataChunk>,
    pub app: Vec<ApplicationSpecificChunk>,
}

impl View for FormChunk {
    type V = FormView;

    open spec fn view(&self) -> FormView {
        FormView {
            size: self.size,
            form_type: self.form_type,
            common: self.common,
            sound: view_of(self.sound),
            comments: view_of(self.comments),
            instrument: self.instrument,
            recording: self.recording,
            markers: view_of(self.markers),
            texts: views(self.texts@),
            midi: views(self.midi@),
            app: views(self.app@),
        }
    }
}

/// One chunk of a container.
pub enum Child {
    Common(CommonChunk),
    Sound(SoundDataChunk),
    Markers(MarkerChunk),
    Instrument(InstrumentChunk),
    Midi(MIDIDataChunk),
    Recording(AudioRecordingChunk),
    App(ApplicationSpecificChunk),
    Comments(CommentsChunk),
    Text(TextChunk),
}

impl View for Child {
    type V = ChildView;

    open spec fn view(&self) -> ChildView {
        match *self {
            Child::Common(c) => ChildView::Common(c),
            Child::Sound(c) => ChildView::Sound(c@),
            Child::Markers(c) => ChildView::Markers(c@),
            Child::Instrument(c) => ChildView::Instrument(c),
            Child::Midi(c) => ChildView::Midi(c@),
            Child::Recording(c) => ChildView::Recording(c),
            Child::App(c) => ChildView::App(c@),
            Child::Comments(c) => ChildView::Comments(c@),
            Child::Text(c) => ChildView::Text(c@),
        }
    }
}

impl Child {
    /// Reads the chunk behind the identifier `id`.
    pub fn parse(id: &ChunkID, buf: &mut Cursor) -> (out: Result<Child, ChunkError>)
        ensures
            final(buf)@.data == old(buf)@.data,
            came_as(out, final(buf)@, get_child(*id, old(buf)@)),
    {
        proof {
            reveal(get_child);
        }
        match kind_of(id) {
            None => Err(ChunkError::InvalidID(*id)),
            Some(ChunkKind::FormatVersion) => Err(ChunkError::Unsupported),
            Some(ChunkKind::Common) => match CommonChunk::parse(buf) {
                Err(e) => Err(e),
                Ok(chunk) => Ok(Child::Common(chunk)),
            },
            Some(ChunkKind::Sound) => match SoundDataChunk::parse(buf) {
                Err(e) => Err(e),
                Ok(chunk) => Ok(Child::Sound(chunk)),
            },
            Some(ChunkKind::Marker) => match MarkerChunk::parse(buf) {
                Err(e) => Err(e),
                Ok(chunk) => Ok(Child::Markers(chunk)),
            },
            Some(ChunkKind::Instrument) => match InstrumentChunk::parse(buf) {
                Err(e) => Err(e),
                Ok(chunk) => Ok(Child::Instrument(chunk)),
            },
            Some(ChunkKind::Midi) => match MIDIDataChunk::parse(buf) {
                Err(e) => Err(e),
                Ok(chunk) => Ok(Child::Midi(chunk)),
            },
            Some(ChunkKind::Recording) => match AudioRecordingChunk::parse(buf) {
                Err(e) => Err(e),
                Ok(chunk) => Ok(Child::Recording(chunk)),
            },
            Some(ChunkKind::Application) => match ApplicationSpecificChunk::parse(buf) {
                Err(e) => Err(e),
                Ok(chunk) => Ok(Child::App(chunk)),
            },
            Some(ChunkKind::Comments) => match CommentsChunk::parse(buf) {
                Err(e) => Err(e),
                Ok(chunk) => Ok(Child::Comments(chunk)),
            },
            Some(ChunkKind::Text) => match TextChunk::parse(buf) {
                Err(e) => Err(e),
                Ok(chunk) => Ok(Child::Text(chunk)),
            },
        }
    }
}

/// The chunks met so far while a container is read.
struct Found {
    common: Option<CommonChunk>,
    sound: Option<SoundDataChunk>,
    comments: Option<CommentsChunk>,
    instrument: Option<InstrumentChunk>,
    recording: Option<AudioRecordingChunk>,
    markers: Option<MarkerChunk>,
    texts: Vec<TextChunk>,
    midi: Vec<MIDIDataChunk>,
    app: Vec<ApplicationSpecificChunk>,
}

impl View for Found {
    type V = Children;

    closed spec fn view(&self) -> Children {
        Children {
            common: self.common,
            sound: view_of(self.sound),
            comments: view_of(self.comments),
            instrument: self.instrument,
            recording: self.recording,
            markers: view_of(self.markers),
            texts: views(self.texts@),
            midi: views(self.midi@),
            app: views(self.app@),
        }
    }
}

impl Found {
    /// No chunk met yet.
    fn new() -> (found: Found)
        ensures
            found@ == Children::none(),
    {
        let found = Found {
            common: None,
            sound: None,
            comments: None,
            instrument: None,
            recording: None,
            markers: None,
            texts: Vec::new(),
            midi: Vec::new(),
            app: Vec::new(),
        };
        assert(found@.texts =~= Seq::empty());
        assert(found@.midi =~= Seq::empty());
        assert(found@.app =~= Seq::empty());
        found
    }

    /// Takes one more chunk.
    fn add(&mut self, child: Child)
        ensures
            final(self)@ == old(self)@.with(child@),
    {
        match child {
            Child::Common(c) => {
                self.common = Some(c);
            },
            Child::Sound(c) => {
                self.sound = Some(c);
            },
            Child::Markers(c) => {
                self.markers = Some(c);
            },
            Child::Instrument(c) => {
                self.instrument = Some(c);
            },
            Child::Midi(c) => {
                self.midi.push(c);
                assert(self@.midi =~= old(self)@.midi.push(c@));
            },
            Child::Recording(c) => {
                self.recording = Some(c);
            },
            Child::App(c) => {
                self.app.push(c);
                assert(self@.app =~= old(self)@.app.push(c@));
            },
            Child::Comments(c) => {
                self.comments = Some(c);
            },
            Child::Text(c) => {
                self.texts.push(c);
                assert(self@.texts =~= old(self)@.texts.push(c@));
            },
        }
    }
}

impl Found {
    /// Reads chunks to the end of the input.
    fn read(buf: &mut Cursor) -> (out: Result<Found, ChunkError>)
        ensures
            final(buf)@.data == old(buf)@.data,
            came_as(out, final(buf)@, get_children(old(buf)@, Children::none())),
    {
        let mut found = Found::new();
        let mut left = buf.remaining();
        while left >= 4
            invariant
                buf@.data == old(buf)@.data,
                left == buf@.left(),
                buf@.pos >= 0,
                get_children(old(buf)@, Children::none()) == get_children(buf@, found@),
            decreases left,
        {
            let id = match read_chunk_id(buf) {
                Err(e) => { return Err(e); },
                Ok(id) => id,
            };
            proof {
                reveal(get_children);
                lemma_child_advances(id, buf@);
            }
            match Child::parse(&id, buf) {
                Err(e) => { return Err(e); },
                Ok(child) => {
                    found.add(child);
                },
            }
            left = buf.remaining();
        }
        proof {
            reveal(get_children);
        }
        Ok(found)
    }

    /// Makes the container of the chunks met.
    fn finish(self, size: i32, form_type: ChunkID) -> (out: Result<FormChunk, ChunkError>)
        ensures
            match self@.common {
                None => out matches Err(e) && e == ChunkError::MissingCommon,
                Some(common) => out matches Ok(form) && form@ == (FormView {
                    size,
                    form_type,
                    common: CommonChunk { num_sample_frames: frames(self@.sound), ..common },
                    sound: self@.sound,
                    comments: self@.comments,
                    instrument: self@.instrument,
                    recording: self@.recording,
                    markers: self@.markers,
                    texts: self@.texts,
                    midi: self@.midi,
                    app: self@.app,
                }),
            },
    {
        let Found { common, sound, comments, instrument, recording, markers, texts, midi, app } =
            self;
        let mut common = match common {
            None => { return Err(ChunkError::MissingCommon); },
            Some(common) => common,
        };
        common.num_sample_frames = match &sound {
            None => 0,
            Some(sound) => sound.sample_frames(),
        };
        Ok(
            FormChunk {
                size,
                form_type,
                common,
                sound,
                comments,
                instrument,
                recording,
                markers,
                texts,
                midi,
                app,
            },
        )
    }
}

/// Chunks of one kind on the wire, one after the other.
pub open spec fn all_encoded<T: Chunk>(items: Seq<T::V>) -> Seq<u8>
    decreases items.len(),
{
    if items.len() == 0 {
        Seq::empty()
    } else {
        all_encoded::<T>(items.drop_last()) + T::encoded(items.last())
    }
}

/// A chunk that may be absent, on the wire.
pub open spec fn optional_encoded<T: Chunk>(item: Option<T::V>) -> Seq<u8> {
    match item {
        None => Seq::empty(),
        Some(item) => T::encoded(item),
    }
}

/// Whether every chunk of a list can be written.
pub open spec fn all_fit<T: Chunk>(items: Seq<T::V>) -> bool {
    forall|i: int| 0 <= i < items.len() ==> T::fits(#[trigger] items[i])
}

/// Whether a chunk that may be absent can be written.
pub open spec fn optional_fits<T: Chunk>(item: Option<T::V>) -> bool {
    item matches Some(item) ==> T::fits(item)
}

/// The chunks of a container on the wire, in the order in which they are
/// written: application chunks, MIDI data and texts, then comments,
/// instrument, recording and markers, then the common chunk, and the sound
/// data last.
pub open spec fn children_bytes(v: FormView) -> Seq<u8> {
    all_encoded::<ApplicationSpecificChunk>(v.app) + (all_encoded::<MIDIDataChunk>(v.midi) + (
    all_encoded::<TextChunk>(v.texts) + (optional_encoded::<CommentsChunk>(v.comments) + (
    optional_encoded::<InstrumentChunk>(v.instrument) + (optional_encoded::<AudioRecordingChunk>(
        v.recording,
    ) + (optional_encoded::<MarkerChunk>(v.markers) + (common_bytes(v.common)
        + optional_encoded::<SoundDataChunk>(v.sound))))))))
}

/// Whether every chunk of the container can be written.
pub open spec fn children_fit(v: FormView) -> bool {
    &&& all_fit::<ApplicationSpecificChunk>(v.app)
    &&& all_fit::<MIDIDataChunk>(v.midi)
    &&& all_fit::<TextChunk>(v.texts)
    &&& optional_fits::<CommentsChunk>(v.comments)
    &&& optional_fits::<MarkerChunk>(v.markers)
    &&& optional_fits::<SoundDataChunk>(v.sound)
}

/// Whether the container can be written and read back: every chunk in it
/// can, the form type is one of the two accepted, the common chunk has the
/// number of sample frames that the sound data holds, and the chunks fit
/// the container's size field.
pub open spec fn form_fits(v: FormView) -> bool {
    &&& v.form_type == AIFF || v.form_type == AIFF_C
    &&& v.common.num_sample_frames == frames(v.sound)
    &&& children_fit(v)
    &&& 4 + children_bytes(v).len() <= i32::MAX
}

/// A container on the wire. The size counts the form type and the chunks.
pub open spec fn form_bytes(v: FormView) -> Seq<u8> {
    FORM@ + (i32_be((4 + children_bytes(v).len()) as i32) + (v.form_type@ + children_bytes(v)))
}

/// One more chunk on the wire behind the others.
pub proof fn lemma_all_encoded_step<T: Chunk>(items: Seq<T::V>, i: int)
    requires
        0 <= i < items.len(),
    ensures
        all_encoded::<T>(items.take(i + 1)) == all_encoded::<T>(items.take(i)) + T::encoded(
            items[i],
        ),
{
    assert(items.take(i + 1).drop_last() =~= items.take(i));
    assert(items.take(i + 1).last() == items[i]);
}

/// Tells whether every chunk of a list can be written and, if so, how many
/// bytes they take together.
fn total_len<T: Chunk>(items: &Vec<T>) -> (out: Option<u128>)
    ensures
        out is Some == all_fit::<T>(views(items@)),
        out matches Some(n) ==> n == all_encoded::<T>(views(items@)).len() && n
            <= 0x1_0000_0000_0000_0000_0000_0000,
{
    let ghost all = views(items@);
    let mut total: u128 = 0;
    let mut i: usize = 0;
    assert(all.take(0) =~= Seq::<T::V>::empty());
    while i < items.len()
        invariant
            i <= items@.len(),
            all == views(items@),
            forall|k: int| 0 <= k < i ==> T::fits(#[trigger] all[k]),
            total == all_encoded::<T>(all.take(i as int)).len(),
            total <= i * 0x1_0000_0000,
        decreases items@.len() - i,
    {
        if !items[i].writable() {
            assert(!T::fits(all[i as int]));
            return None;
        }
        proof {
            lemma_all_encoded_step::<T>(all, i as int);
        }
        let n = items[i].byte_len();
        total = total + n as u128;
        i += 1;
    }
    assert(all.take(i as int) =~= all);
    Some(total)
}

/// Appends the chunks of a list, one after the other.
fn write_all<T: Chunk>(items: &Vec<T>, out: &mut Vec<u8>)
    requires
        all_fit::<T>(views(items@)),
    ensures
        final(out)@ == old(out)@ + all_encoded::<T>(views(items@)),
{
    let ghost all = views(items@);
    let mut i: usize = 0;
    assert(all.take(0) =~= Seq::<T::V>::empty());
    assert(out@ =~= old(out)@ + all_encoded::<T>(all.take(0)));
    while i < items.len()
        invariant
            i <= items@.len(),
            all == views(items@),
            all_fit::<T>(all),
            out@ == old(out)@ + all_encoded::<T>(all.take(i as int)),
        decreases items@.len() - i,
    {
        proof {
            lemma_all_encoded_step::<T>(all, i as int);
            assert(T::fits(all[i as int]));
        }
        let _ = items[i].write(out);
        i += 1;
        assert(out@ =~= old(out)@ + all_encoded::<T>(all.take(i as int)));
    }
    assert(all.take(i as int) =~= all);
}

/// Tells whether a chunk that may be absent can be written and, if so, how
/// many bytes it takes.
fn optional_len<T: Chunk>(item: &Option<T>) -> (out: Option<usize>)
    ensures
        out is Some == optional_fits::<T>(view_of(*item)),
        out matches Some(n) ==> n == optional_encoded::<T>(view_of(*item)).len() && n
            <= u32::MAX,
{
    match item {
        None => Some(0),
        Some(item) => if item.writable() {
            Some(item.byte_len())
        } else {
            None
        },
    }
}

/// Appends a chunk that may be absent.
fn write_optional<T: Chunk>(item: &Option<T>, out: &mut Vec<u8>)
    requires
        optional_fits::<T>(view_of(*item)),
    ensures
        final(out)@ == old(out)@ + optional_encoded::<T>(view_of(*item)),
{
    match item {
        None => {
            assert(out@ =~= old(out)@ + Seq::<u8>::empty());
        },
        Some(item) => {
            let _ = item.write(out);
        },
    }
}

/// The sample rate 44100 Hz as an 80-bit extended number.
pub const RATE_44100: [u8; 10] = [0x40, 0x0e, 0xac, 0x44, 0, 0, 0, 0, 0, 0];

impl FormChunk {
    /// Tells whether every chunk can be written and, if so, how many bytes
    /// they take together.
    fn children_len(&self) -> (out: Option<u128>)
        ensures
            out is Some == children_fit(self@),
            out matches Some(n) ==> n == children_bytes(self@).len(),
    {
        let app = match total_len(&self.app) {
            None => { return None; },
            Some(n) => n,
        };
        let midi = match total_len(&self.midi) {
            None => { return None; },
            Some(n) => n,
        };
        let texts = match total_len(&self.texts) {
            None => { return None; },
            Some(n) => n,
        };
        let comments = match optional_len(&self.comments) {
            None => { return None; },
            Some(n) => n,
        };
        let instrument = match optional_len(&self.instrument) {
            None => { return None; },
            Some(n) => n,
        };
        let recording = match optional_len(&self.recording) {
            None => { return None; },
            Some(n) => n,
        };
        let markers = match optional_len(&self.markers) {
            None => { return None; },
            Some(n) => n,
        };
        let common = self.common.byte_len();
        let sound = match optional_len(&self.sound) {
            None => { return None; },
            Some(n) => n,
        };
        Some(
            app + midi + texts + comments as u128 + instrument as u128 + recording as u128
                + markers as u128 + common as u128 + sound as u128,
        )
    }
}

impl Chunk for FormChunk {
    open spec fn decoded(s: Stream) -> Parsed<FormView> {
        get_form(s)
    }

    open spec fn encoded(v: FormView) -> Seq<u8> {
        form_bytes(v)
    }

    open spec fn fits(v: FormView) -> bool {
        form_fits(v)
    }

    /// Reads a container from its identifier on.
    fn parse(buf: &mut Cursor) -> (out: Result<FormChunk, ChunkError>) {
        let id = match read_chunk_id(buf) {
            Err(e) => { return Err(e); },
            Ok(v) => v,
        };
        if !same_id(&id, &FORM) {
            return Err(ChunkError::InvalidID(id));
        }
        let size = match read_i32_be(buf) {
            Err(e) => { return Err(e); },
            Ok(v) => v,
        };
        let form_type = match read_chunk_id(buf) {
            Err(e) => { return Err(e); },
            Ok(v) => v,
        };
        if !same_id(&form_type, &AIFF) && !same_id(&form_type, &AIFF_C) {
            return Err(ChunkError::InvalidFormType(form_type));
        }
        match Found::read(buf) {
            Err(e) => Err(e),
            Ok(found) => found.finish(size, form_type),
        }
    }

    fn writable(&self) -> (ok: bool) {
        if !same_id(&self.form_type, &AIFF) && !same_id(&self.form_type, &AIFF_C) {
            return false;
        }
        let count = match &self.sound {
            None => 0,
            Some(sound) => sound.sample_frames(),
        };
        if self.common.num_sample_frames != count {
            return false;
        }
        match self.children_len() {
            None => false,
            Some(n) => n <= 0x7fff_fffb,
        }
    }

    fn byte_len(&self) -> (n: usize) {
        proof {
            crate::util::lemma_numbers_round_trip();
        }
        match self.children_len() {
            None => 0,
            Some(n) => 12 + n as usize,
        }
    }

    /// Appends the container. The size is written as zero first and set
    /// once the chunks have been written.
    #[verifier::rlimit(40)]
    fn write(&self, out: &mut Vec<u8>) -> (n: usize) {
        let ghost base = out@;
        let ghost children = children_bytes(self@);
        let start = out.len();
        put_bytes(out, FORM.as_slice());
        put_i32_be(out, 0);
        put_bytes(out, self.form_type.as_slice());
        self.write_children(out);
        let ghost written = out@;
        assert(written == (((base + FORM@) + i32_be(0)) + self.form_type@) + children);
        proof {
            lemma_size_len(base, FORM@, i32_be(0), self.form_type@, children);
        }
        let size: u32 = (out.len() - start - 8) as u32;
        assert(size == 4 + children.len());
        set_size(out, start + 4, size);
        proof {
            assert(crate::util::u32_be(size) == i32_be(size as i32));
            lemma_size_set(
                base,
                FORM@,
                i32_be(0),
                i32_be(size as i32),
                self.form_type@,
                children,
            );
            assert(out@ == base + (FORM@ + (i32_be(size as i32) + (self.form_type@ + children))));
            assert(form_bytes(self@) == FORM@ + (i32_be(size as i32) + (self.form_type@
                + children)));
            lemma_form_len(FORM@, i32_be(size as i32), self.form_type@, children);
        }
        size as usize + 8
    }
}

/// Length of a container on the wire.
proof fn lemma_form_len(id: Seq<u8>, size: Seq<u8>, form_type: Seq<u8>, children: Seq<u8>)
    requires
        id.len() == 4,
        size.len() == 4,
        form_type.len() == 4,
    ensures
        (id + (size + (form_type + children))).len() == 12 + children.len(),
{
}

/// Length of a container written with a size yet to be set.
proof fn lemma_size_len(
    base: Seq<u8>,
    id: Seq<u8>,
    zero: Seq<u8>,
    form_type: Seq<u8>,
    children: Seq<u8>,
)
    requires
        id.len() == 4,
        form_type.len() == 4,
        zero == i32_be(0),
    ensures
        ((((base + id) + zero) + form_type) + children).len() == base.len() + 12 + children.len(),
{
    crate::util::lemma_numbers_round_trip();
}

/// Four bytes behind a prefix and an identifier, replaced.
proof fn lemma_size_set(
    base: Seq<u8>,
    id: Seq<u8>,
    zero: Seq<u8>,
    size: Seq<u8>,
    form_type: Seq<u8>,
    children: Seq<u8>,
)
    requires
        id.len() == 4,
        zero == i32_be(0),
        size.len() == 4,
    ensures
        ({
            let written = (((base + id) + zero) + form_type) + children;
            written.subrange(0, (base.len() + 4) as int) + size + written.subrange(
                (base.len() + 8) as int,
                written.len() as int,
            )
        }) == base + (id + (size + (form_type + children))),
{
    crate::util::lemma_numbers_round_trip();
    let written = (((base + id) + zero) + form_type) + children;
    assert(written.subrange(0, (base.len() + 4) as int) + size + written.subrange(
        (base.len() + 8) as int,
        written.len() as int,
    ) =~= base + (id + (size + (form_type + children))));
}

/// Nine pieces appended one by one are their concatenation appended.
proof fn lemma_nine_appended(
    o: Seq<u8>,
    a: Seq<u8>,
    b: Seq<u8>,
    c: Seq<u8>,
    d: Seq<u8>,
    e: Seq<u8>,
    f: Seq<u8>,
    g: Seq<u8>,
    h: Seq<u8>,
    i: Seq<u8>,
)
    ensures
        ((((((((o + a) + b) + c) + d) + e) + f) + g) + h) + i == o + (a + (b + (c + (d + (e + (f + (
        g + (h + i)))))))),
{
    assert(((((((((o + a) + b) + c) + d) + e) + f) + g) + h) + i =~= o + (a + (b + (c + (d + (e + (
    f + (g + (h + i)))))))));
}

/// Writes `size` over the four bytes at `at`.
fn set_size(out: &mut Vec<u8>, at: usize, size: u32)
    requires
        at + 4 <= old(out)@.len(),
    ensures
        final(out)@ == old(out)@.subrange(0, at as int) + crate::util::u32_be(size) + old(
            out,
        )@.subrange(at + 4, old(out)@.len() as int),
{
    let len = out.len();
    out[at] = (size / 0x100_0000) as u8;
    out[at + 1] = (size / 0x1_0000 % 0x100) as u8;
    out[at + 2] = (size / 0x100 % 0x100) as u8;
    out[at + 3] = (size % 0x100) as u8;
    assert(out@ =~= old(out)@.subrange(0, at as int) + crate::util::u32_be(size) + old(
        out,
    )@.subrange(at + 4, old(out)@.len() as int));
}

impl FormChunk {
    /// Appends the chunks of the container in the order of writing.
    fn write_children(&self, out: &mut Vec<u8>)
        requires
            children_fit(self@),
        ensures
            final(out)@ == old(out)@ + children_bytes(self@),
    {
        write_all(&self.app, out);
        write_all(&self.midi, out);
        write_all(&self.texts, out);
        write_optional(&self.comments, out);
        write_optional(&self.instrument, out);
        write_optional(&self.recording, out);
        write_optional(&self.markers, out);
        let _ = self.common.write(out);
        write_optional(&self.sound, out);
        proof {
            lemma_nine_appended(
                old(out)@,
                all_encoded::<ApplicationSpecificChunk>(self@.app),
                all_encoded::<MIDIDataChunk>(self@.midi),
                all_encoded::<TextChunk>(self@.texts),
                optional_encoded::<CommentsChunk>(self@.comments),
                optional_encoded::<InstrumentChunk>(self@.instrument),
                optional_encoded::<AudioRecordingChunk>(self@.recording),
                optional_encoded::<MarkerChunk>(self@.markers),
                common_bytes(self@.common),
                optional_encoded::<SoundDataChunk>(self@.sound),
            );
        }
    }
}

impl Default for FormChunk {
    /// A container of form type `AIFF` for one channel of 16-bit samples at
    /// 44100 Hz, with no samples and no other chunk.
    fn default() -> (form: FormChunk)
        ensures
            form@ == (FormView {
                size: 0,
                form_type: AIFF,
                common: CommonChunk {
                    num_channels: 1,
                    num_sample_frames: 0,
                    bit_rate: 16,
                    sample_rate: RATE_44100,
                },
                sound: None,
                comments: None,
                instrument: None,
                recording: None,
                markers: None,
                texts: Seq::empty(),
                midi: Seq::empty(),
                app: Seq::empty(),
            }),
    {
        let form = FormChunk {
            size: 0,
            form_type: AIFF,
            common: CommonChunk {
                num_channels: 1,
                num_sample_frames: 0,
                bit_rate: 16,
                sample_rate: RATE_44100,
            },
            sound: None,
            comments: None,
            instrument: None,
            recording: None,
            markers: None,
            texts: Vec::new(),
            midi: Vec::new(),
            app: Vec::new(),
        };
        assert(form@.texts =~= Seq::empty());
        assert(form@.midi =~= Seq::empty());
        assert(form@.app =~= Seq::empty());
        form
    }
}

/// Reads a container from the bytes of a file.
pub fn read_aif(data: Vec<u8>) -> (out: Result<FormChunk, ChunkError>)
    ensures
        match get_form(Stream { data: data@, pos: 0 }) {
            Ok((form, _)) => out matches Ok(got) && got@ == form,
            Err((e, _)) => out matches Err(got) && got == e,
        },
{
    let mut cursor = Cursor::new(data);
    FormChunk::parse(&mut cursor)
}

impl FormChunk {
    /// Whether the first application-specific chunk of the container is
    /// patch metadata.
    pub open spec fn has_patch(v: FormView) -> bool {
        v.app.len() > 0 && v.app[0] is OP1
    }

    /// The text of the patch metadata, where the first application-specific
    /// chunk of the container is patch metadata.
    pub fn patch_text(&self) -> (out: Option<&Vec<u8>>)
        ensures
            out is Some == FormChunk::has_patch(self@),
            out matches Some(text) ==> self@.app[0] == (AppView::OP1 { data: text@ }),
    {
        if self.app.len() == 0 {
            return None;
        }
        match &self.app[0] {
            ApplicationSpecificChunk::OP1 { data } => Some(data),
            ApplicationSpecificChunk::UnknownApplication { .. } => None,
        }
    }

    /// Replaces the text of the patch metadata, where the first
    /// application-specific chunk of the container is patch metadata.
    /// Otherwise nothing is changed, and the result is `false`.
    pub fn set_patch_text(&mut self, text: Vec<u8>) -> (done: bool)
        ensures
            done == FormChunk::has_patch(old(self)@),
            done ==> final(self)@ == (FormView {
                app: old(self)@.app.update(0, AppView::OP1 { data: text@ }),
                ..old(self)@
            }),
            !done ==> final(self)@ == old(self)@,
    {
        if self.app.len() == 0 {
            return false;
        }
        match &self.app[0] {
            ApplicationSpecificChunk::UnknownApplication { .. } => {
                return false;
            },
            ApplicationSpecificChunk::OP1 { .. } => {},
        }
        let ghost before = self.app@;
        self.app[0] = ApplicationSpecificChunk::OP1 { data: text };
        assert(views(self.app@) =~= views(before).update(0, AppView::OP1 { data: text@ }));
        true
    }

    /// Adds patch metadata, by its text, behind the application-specific
    /// chunks that the container has.
    pub fn add_patch_text(&mut self, text: Vec<u8>)
        ensures
            final(self)@ == (FormView {
                app: old(self)@.app.push(AppView::OP1 { data: text@ }),
                ..old(self)@
            }),
    {
        let ghost before = self.app@;
        self.app.push(ApplicationSpecificChunk::OP1 { data: text });
        assert(views(self.app@) =~= views(before).push(AppView::OP1 { data: text@ }));
    }
}

} // verus!
