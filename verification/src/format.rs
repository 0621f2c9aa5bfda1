use crate::chunks::{
    AIFF, AIFF_C, ANNOTATION, APPLICATION, AUTHOR, COMMENTS, COMMON, COPYRIGHT, FORM, FORMAT_VER,
    INSTRUMENT, MARKER, MIDI, NAME, OP_1, RECORDING, SOUND, AudioRecordingChunk, ChunkError,
    ChunkID, ChunkKind, CommonChunk, InstrumentChunk, Loop, TextChunkType,
};
use crate::util::{
    get_bytes, get_i16, get_i32, get_i8, get_id, get_pstring, get_text, get_u16, get_u32, get_utf8,
    i16_be, i32_be, i8_be, padding, pstring_bytes, text_bytes, u16_be, u32_be, Parsed, Stream,
};
use vstd::prelude::*;
use vstd::utf8::encode_utf8;

verus! {

/// Sound data as a value: the declared size, the two header fields and the
/// samples.
pub ghost struct SoundDataView {
    pub size: i32,
    pub offset: u32,
    pub block_size: u32,
    pub sound_data: Seq<u8>,
}

/// MIDI data as a value.
pub ghost struct MidiDataView {
    pub size: i32,
    pub data: Seq<u8>,
}

/// A text chunk as a value.
pub ghost struct TextView {
    pub chunk_type: TextChunkType,
    pub size: i32,
    pub text: Seq<char>,
}

/// An application-specific chunk as a value: patch metadata by its text, or
/// the chunk of another application by its signature and bytes.
pub ghost enum AppView {
    OP1 { data: Seq<u8> },
    UnknownApplication { size: i32, application_signature: ChunkID, data: Seq<u8> },
}

/// A marker as a value.
pub ghost struct MarkerView {
    pub id: i16,
    pub position: u32,
    pub marker_name: Seq<char>,
}

/// The marker chunk as a value.
pub ghost struct MarkersView {
    pub size: i32,
    pub num_markers: u16,
    pub markers: Seq<MarkerView>,
}

/// A comment as a value.
pub ghost struct CommentView {
    pub timestamp: u32,
    pub marker_id: i16,
    pub count: u16,
    pub text: Seq<char>,
}

/// The comments chunk as a value.
pub ghost struct CommentsView {
    pub size: i32,
    pub num_comments: u16,
    pub comments: Seq<CommentView>,
}

/// The common chunk behind its identifier: the declared size, which is not
/// looked at, then channels, frames, bits per sample and the ten bytes of the
/// sample rate.
pub open spec fn get_common(s: Stream) -> Parsed<CommonChunk> {
    match get_i32(s) {
        Err(e) => Err(e),
        Ok((_, s)) => match get_i16(s) {
            Err(e) => Err(e),
            Ok((num_channels, s)) => match get_u32(s) {
                Err(e) => Err(e),
                Ok((num_sample_frames, s)) => match get_i16(s) {
                    Err(e) => Err(e),
                    Ok((bit_rate, s)) => match get_bytes(s, 10) {
                        Err(e) => Err(e),
                        Ok((b, s)) => Ok(
                            (
                                CommonChunk {
                                    num_channels,
                                    num_sample_frames,
                                    bit_rate,
                                    sample_rate: [
                                        b[0],
                                        b[1],
                                        b[2],
                                        b[3],
                                        b[4],
                                        b[5],
                                        b[6],
                                        b[7],
                                        b[8],
                                        b[9],
                                    ],
                                },
                                s,
                            ),
                        ),
                    },
                },
            },
        },
    }
}

/// The common chunk on the wire: 18 bytes behind identifier and size.
pub open spec fn common_bytes(v: CommonChunk) -> Seq<u8> {
    COMMON@ + (i32_be(18) + (i16_be(v.num_channels) + (u32_be(v.num_sample_frames) + (i16_be(
        v.bit_rate,
    ) + v.sample_rate@))))
}

/// Sound data behind its identifier: the declared size, offset and block
/// size, then the samples. The size counts the eight bytes of offset and
/// block size, so one below eight is refused. Where the input ends before
/// the declared number of samples, the samples are what is there, and the
/// size of the value is corrected to them. A pad byte behind an odd number of
/// samples is passed over where there is one.
pub open spec fn get_sound(s: Stream) -> Parsed<SoundDataView> {
    match get_i32(s) {
        Err(e) => Err(e),
        Ok((size, s)) => match get_u32(s) {
            Err(e) => Err(e),
            Ok((offset, s)) => match get_u32(s) {
                Err(e) => Err(e),
                Ok((block_size, s)) => if size < 8 {
                    Err((ChunkError::InvalidSize(8, size), s))
                } else {
                    let got = if size - 8 <= s.left() {
                        size - 8
                    } else {
                        s.left()
                    };
                    let behind = s.advance(got);
                    Ok(
                        (
                            SoundDataView {
                                size: (got + 8) as i32,
                                offset,
                                block_size,
                                sound_data: s.data.subrange(s.pos, s.pos + got),
                            },
                            if got % 2 == 1 && behind.left() >= 1 {
                                behind.advance(1)
                            } else {
                                behind
                            },
                        ),
                    )
                },
            },
        },
    }
}

/// Whether the samples are few enough for the size field.
pub open spec fn sound_fits(v: SoundDataView) -> bool {
    v.sound_data.len() + 8 <= i32::MAX
}

/// Sound data on the wire, padded to an even number of bytes.
pub open spec fn sound_bytes(v: SoundDataView) -> Seq<u8> {
    SOUND@ + (i32_be((v.sound_data.len() + 8) as i32) + (u32_be(v.offset) + (u32_be(v.block_size)
        + (v.sound_data + padding(v.sound_data.len() as int)))))
}

/// MIDI data behind its identifier: the size, that many bytes, and a pad
/// byte behind an odd number of them.
pub open spec fn get_midi(s: Stream) -> Parsed<MidiDataView> {
    match get_i32(s) {
        Err(e) => Err(e),
        Ok((size, s)) => if size < 0 {
            Err((ChunkError::InvalidSize(0, size), s))
        } else {
            match get_bytes(s, size as int) {
                Err(e) => Err(e),
                Ok((data, s)) => match get_bytes(s, size as int % 2) {
                    Err(e) => Err(e),
                    Ok((_, s)) => Ok((MidiDataView { size, data }, s)),
                },
            }
        },
    }
}

/// Whether the data is short enough for the size field.
pub open spec fn midi_fits(v: MidiDataView) -> bool {
    v.data.len() <= i32::MAX
}

/// MIDI data on the wire.
pub open spec fn midi_bytes(v: MidiDataView) -> Seq<u8> {
    MIDI@ + (i32_be(v.data.len() as i32) + (v.data + padding(v.data.len() as int)))
}

/// The audio recording chunk behind its identifier: a size, which must be
/// 24, and 24 bytes of channel status data.
pub open spec fn get_recording(s: Stream) -> Parsed<AudioRecordingChunk> {
    match get_i32(s) {
        Err(e) => Err(e),
        Ok((size, s)) => if size != 24 {
            Err((ChunkError::InvalidSize(24, size), s))
        } else {
            match get_bytes(s, 24) {
                Err(e) => Err(e),
                Ok((b, s)) => Ok(
                    (
                        AudioRecordingChunk {
                            size,
                            data: [
                                b[0],
                                b[1],
                                b[2],
                                b[3],
                                b[4],
                                b[5],
                                b[6],
                                b[7],
                                b[8],
                                b[9],
                                b[10],
                                b[11],
                                b[12],
                                b[13],
                                b[14],
                                b[15],
                                b[16],
                                b[17],
                                b[18],
                                b[19],
                                b[20],
                                b[21],
                                b[22],
                                b[23],
                            ],
                        },
                        s,
                    ),
                ),
            }
        },
    }
}

/// The audio recording chunk on the wire.
pub open spec fn recording_bytes(v: AudioRecordingChunk) -> Seq<u8> {
    RECORDING@ + (i32_be(24) + v.data@)
}

/// A loop: play mode and the markers where it begins and ends.
pub open spec fn get_loop(s: Stream) -> Parsed<Loop> {
    match get_i16(s) {
        Err(e) => Err(e),
        Ok((play_mode, s)) => match get_i16(s) {
            Err(e) => Err(e),
            Ok((begin_loop, s)) => match get_i16(s) {
                Err(e) => Err(e),
                Ok((end_loop, s)) => Ok((Loop { play_mode, begin_loop, end_loop }, s)),
            },
        },
    }
}

/// A loop on the wire.
pub open spec fn loop_bytes(v: Loop) -> Seq<u8> {
    i16_be(v.play_mode) + (i16_be(v.begin_loop) + i16_be(v.end_loop))
}

/// The six note and velocity bytes of the instrument chunk.
pub open spec fn get_notes(s: Stream) -> Parsed<(i8, i8, i8, i8, i8, i8)> {
    match get_i8(s) {
        Err(e) => Err(e),
        Ok((base_note, s)) => match get_i8(s) {
            Err(e) => Err(e),
            Ok((detune, s)) => match get_i8(s) {
                Err(e) => Err(e),
                Ok((low_note, s)) => match get_i8(s) {
                    Err(e) => Err(e),
                    Ok((high_note, s)) => match get_i8(s) {
                        Err(e) => Err(e),
                        Ok((low_velocity, s)) => match get_i8(s) {
                            Err(e) => Err(e),
                            Ok((high_velocity, s)) => Ok(
                                (
                                    (
                                        base_note,
                                        detune,
                                        low_note,
                                        high_note,
                                        low_velocity,
                                        high_velocity,
                                    ),
                                    s,
                                ),
                            ),
                        },
                    },
                },
            },
        },
    }
}

/// The instrument chunk behind its identifier: the declared size, six note
/// and velocity bytes, the gain and the two loops.
pub open spec fn get_instrument(s: Stream) -> Parsed<InstrumentChunk> {
    match get_i32(s) {
        Err(e) => Err(e),
        Ok((size, s)) => match get_notes(s) {
            Err(e) => Err(e),
            Ok((notes, s)) => match get_i16(s) {
                Err(e) => Err(e),
                Ok((gain, s)) => match get_loop(s) {
                    Err(e) => Err(e),
                    Ok((sustain_loop, s)) => match get_loop(s) {
                        Err(e) => Err(e),
                        Ok((release_loop, s)) => Ok(
                            (
                                InstrumentChunk {
                                    size,
                                    base_note: notes.0,
                                    detune: notes.1,
                                    low_note: notes.2,
                                    high_note: notes.3,
                                    low_velocity: notes.4,
                                    high_velocity: notes.5,
                                    gain,
                                    sustain_loop,
                                    release_loop,
                                },
                                s,
                            ),
                        ),
                    },
                },
            },
        },
    }
}

/// The instrument chunk on the wire: 20 bytes behind identifier and size.
pub open spec fn instrument_bytes(v: InstrumentChunk) -> Seq<u8> {
    INSTRUMENT@ + (i32_be(20) + (i8_be(v.base_note) + (i8_be(v.detune) + (i8_be(v.low_note) + (
    i8_be(v.high_note) + (i8_be(v.low_velocity) + (i8_be(v.high_velocity) + (i16_be(v.gain) + (
    loop_bytes(v.sustain_loop) + loop_bytes(v.release_loop))))))))))
}

/// The kind of text that an identifier names, if it names one.
pub open spec fn text_kind(id: ChunkID) -> Option<TextChunkType> {
    if id == NAME {
        Some(TextChunkType::Name)
    } else if id == AUTHOR {
        Some(TextChunkType::Author)
    } else if id == COPYRIGHT {
        Some(TextChunkType::Copyright)
    } else if id == ANNOTATION {
        Some(TextChunkType::Annotation)
    } else {
        None
    }
}

/// The identifier of a kind of text.
pub open spec fn text_id(kind: TextChunkType) -> ChunkID {
    match kind {
        TextChunkType::Name => NAME,
        TextChunkType::Author => AUTHOR,
        TextChunkType::Copyright => COPYRIGHT,
        TextChunkType::Annotation => ANNOTATION,
    }
}

/// A text chunk behind its identifier. The four bytes before the position
/// are read again as the identifier and tell the kind of text. Then come the
/// size, the text and its pad.
pub open spec fn get_text_chunk(s: Stream) -> Parsed<TextView> {
    if s.pos < 4 {
        Err((ChunkError::UnexpectedEof, s))
    } else {
        match get_id(s.advance(-4)) {
            Err(e) => Err(e),
            Ok((id, s)) => match text_kind(id) {
                None => Err((ChunkError::InvalidID(id), s)),
                Some(chunk_type) => match get_i32(s) {
                    Err(e) => Err(e),
                    Ok((size, s)) => if size < 0 {
                        Err((ChunkError::InvalidSize(0, size), s))
                    } else {
                        match get_text(s, size as int) {
                            Err(e) => Err(e),
                            Ok((text, s)) => Ok((TextView { chunk_type, size, text }, s)),
                        }
                    },
                },
            },
        }
    }
}

/// Whether the text is short enough for the size field.
pub open spec fn text_fits(v: TextView) -> bool {
    encode_utf8(v.text).len() <= i32::MAX
}

/// A text chunk on the wire.
pub open spec fn text_chunk_bytes(v: TextView) -> Seq<u8> {
    text_id(v.chunk_type)@ + (i32_be(encode_utf8(v.text).len() as i32) + text_bytes(v.text))
}

/// Number of bytes before the first zero byte, or of all where none is zero.
pub open spec fn text_end(data: Seq<u8>) -> int
    decreases data.len(),
{
    if data.len() == 0 || data[0] == 0 {
        0
    } else {
        1 + text_end(data.skip(1))
    }
}

/// An application-specific chunk behind its identifier: the size, the
/// application's signature, the data and a pad byte behind an odd size. The
/// size counts the signature, so one below four is refused. Data under the
/// patch signature is patch metadata: its text ends before the first zero
/// byte.
pub open spec fn get_app(s: Stream) -> Parsed<AppView> {
    match get_i32(s) {
        Err(e) => Err(e),
        Ok((size, s)) => match get_id(s) {
            Err(e) => Err(e),
            Ok((application_signature, s)) => if size < 4 {
                Err((ChunkError::InvalidSize(4, size), s))
            } else {
                match get_bytes(s, size - 4) {
                    Err(e) => Err(e),
                    Ok((data, s)) => match get_bytes(s, size as int % 2) {
                        Err(e) => Err(e),
                        Ok((_, s)) => if application_signature == OP_1 {
                            Ok((AppView::OP1 { data: data.subrange(0, text_end(data)) }, s))
                        } else {
                            Ok(
                                (
                                    AppView::UnknownApplication {
                                        size,
                                        application_signature,
                                        data,
                                    },
                                    s,
                                ),
                            )
                        },
                    },
                }
            },
        },
    }
}

/// Whether the chunk can be written and read back: the data is short enough
/// for the size field, patch text holds no zero byte, and the chunk of
/// another application does not bear the patch signature.
pub open spec fn app_fits(v: AppView) -> bool {
    match v {
        AppView::OP1 { data } => data.len() + 5 <= i32::MAX && text_end(data) == data.len(),
        AppView::UnknownApplication { application_signature, data, .. } => data.len() + 4
            <= i32::MAX && application_signature != OP_1,
    }
}

/// An application-specific chunk on the wire. Patch text is brought to an
/// even length by a zero byte that the size counts; the data of another
/// application is written as it is, and padded behind the chunk.
pub open spec fn app_bytes(v: AppView) -> Seq<u8> {
    match v {
        AppView::OP1 { data } => APPLICATION@ + (i32_be(
            (data.len() + data.len() % 2 + 4) as i32,
        ) + (OP_1@ + (data + padding(data.len() as int)))),
        AppView::UnknownApplication { application_signature, data, .. } => APPLICATION@ + (i32_be(
            (data.len() + 4) as i32,
        ) + (application_signature@ + (data + padding(data.len() as int)))),
    }
}

/// A marker: its id, its position in sample frames and its name.
pub open spec fn get_marker(s: Stream) -> Parsed<MarkerView> {
    match get_i16(s) {
        Err(e) => Err(e),
        Ok((id, s)) => match get_u32(s) {
            Err(e) => Err(e),
            Ok((position, s)) => match get_pstring(s) {
                Err(e) => Err(e),
                Ok((marker_name, s)) => Ok((MarkerView { id, position, marker_name }, s)),
            },
        },
    }
}

/// Whether the name is short enough for its length byte.
pub open spec fn marker_fits(v: MarkerView) -> bool {
    encode_utf8(v.marker_name).len() <= 255
}

/// A marker on the wire.
pub open spec fn marker_bytes(v: MarkerView) -> Seq<u8> {
    i16_be(v.id) + (u32_be(v.position) + pstring_bytes(v.marker_name))
}

/// The first `n` markers of a chunk, read one after the other.
pub open spec fn get_markers(s: Stream, n: nat) -> Parsed<Seq<MarkerView>>
    decreases n,
{
    if n == 0 {
        Ok((Seq::empty(), s))
    } else {
        match get_markers(s, (n - 1) as nat) {
            Err(e) => Err(e),
            Ok((markers, s)) => match get_marker(s) {
                Err(e) => Err(e),
                Ok((marker, s)) => Ok((markers.push(marker), s)),
            },
        }
    }
}

/// Markers on the wire, one after the other.
pub open spec fn markers_bytes(markers: Seq<MarkerView>) -> Seq<u8>
    decreases markers.len(),
{
    if markers.len() == 0 {
        Seq::empty()
    } else {
        markers_bytes(markers.drop_last()) + marker_bytes(markers.last())
    }
}

/// The marker chunk behind its identifier: the declared size, the number of
/// markers, the markers, and a pad byte where count and markers make an odd
/// number of bytes.
pub open spec fn get_marker_chunk(s: Stream) -> Parsed<MarkersView> {
    match get_i32(s) {
        Err(e) => Err(e),
        Ok((size, body)) => match get_u16(body) {
            Err(e) => Err(e),
            Ok((num_markers, s)) => match get_markers(s, num_markers as nat) {
                Err(e) => Err(e),
                Ok((markers, s)) => match get_bytes(s, (s.pos - body.pos) % 2) {
                    Err(e) => Err(e),
                    Ok((_, s)) => Ok((MarkersView { size, num_markers, markers }, s)),
                },
            },
        },
    }
}

/// Whether the markers can be written: their number is the one recorded,
/// and every name fits its length byte.
pub open spec fn marker_chunk_fits(v: MarkersView) -> bool {
    &&& v.num_markers == v.markers.len()
    &&& forall|i: int| 0 <= i < v.markers.len() ==> marker_fits(#[trigger] v.markers[i])
}

/// The marker chunk on the wire.
pub open spec fn marker_chunk_bytes(v: MarkersView) -> Seq<u8> {
    let body = u16_be(v.num_markers) + markers_bytes(v.markers);
    MARKER@ + (i32_be(body.len() as i32) + (body + padding(body.len() as int)))
}

/// A comment: time stamp, the marker it belongs to, the length of its text,
/// and the text.
pub open spec fn get_comment(s: Stream) -> Parsed<CommentView> {
    match get_u32(s) {
        Err(e) => Err(e),
        Ok((timestamp, s)) => match get_i16(s) {
            Err(e) => Err(e),
            Ok((marker_id, s)) => match get_u16(s) {
                Err(e) => Err(e),
                Ok((count, s)) => match get_utf8(s, count as int) {
                    Err(e) => Err(e),
                    Ok((text, s)) => Ok((CommentView { timestamp, marker_id, count, text }, s)),
                },
            },
        },
    }
}

/// Whether the comment can be written: the recorded length is that of the
/// text.
pub open spec fn comment_fits(v: CommentView) -> bool {
    v.count == encode_utf8(v.text).len()
}

/// A comment on the wire.
pub open spec fn comment_bytes(v: CommentView) -> Seq<u8> {
    u32_be(v.timestamp) + (i16_be(v.marker_id) + (u16_be(v.count) + encode_utf8(v.text)))
}

/// The first `n` comments of a chunk, read one after the other.
pub open spec fn get_comments(s: Stream, n: nat) -> Parsed<Seq<CommentView>>
    decreases n,
{
    if n == 0 {
        Ok((Seq::empty(), s))
    } else {
        match get_comments(s, (n - 1) as nat) {
            Err(e) => Err(e),
            Ok((comments, s)) => match get_comment(s) {
                Err(e) => Err(e),
                Ok((comment, s)) => Ok((comments.push(comment), s)),
            },
        }
    }
}

/// Comments on the wire, one after the other.
pub open spec fn comments_bytes(comments: Seq<CommentView>) -> Seq<u8>
    decreases comments.len(),
{
    if comments.len() == 0 {
        Seq::empty()
    } else {
        comments_bytes(comments.drop_last()) + comment_bytes(comments.last())
    }
}

/// The comments chunk behind its identifier: the declared size, the number
/// of comments, the comments, and a pad byte where count and comments make
/// an odd number of bytes.
pub open spec fn get_comments_chunk(s: Stream) -> Parsed<CommentsView> {
    match get_i32(s) {
        Err(e) => Err(e),
        Ok((size, body)) => match get_u16(body) {
            Err(e) => Err(e),
            Ok((num_comments, s)) => match get_comments(s, num_comments as nat) {
                Err(e) => Err(e),
                Ok((comments, s)) => match get_bytes(s, (s.pos - body.pos) % 2) {
                    Err(e) => Err(e),
                    Ok((_, s)) => Ok((CommentsView { size, num_comments, comments }, s)),
                },
            },
        },
    }
}

/// Whether the comments can be written: their number is the one recorded,
/// each has the length it records, and together they fit the size field.
pub open spec fn comments_chunk_fits(v: CommentsView) -> bool {
    &&& v.num_comments == v.comments.len()
    &&& forall|i: int| 0 <= i < v.comments.len() ==> comment_fits(#[trigger] v.comments[i])
    &&& 2 + comments_bytes(v.comments).len() <= i32::MAX
}

/// The comments chunk on the wire.
pub open spec fn comments_chunk_bytes(v: CommentsView) -> Seq<u8> {
    let body = u16_be(v.num_comments) + comments_bytes(v.comments);
    COMMENTS@ + (i32_be(body.len() as i32) + (body + padding(body.len() as int)))
}

/// A container as a value.
pub ghost struct FormView {
    pub size: i32,
    pub form_type: ChunkID,
    pub common: CommonChunk,
    pub sound: Option<SoundDataView>,
    pub comments: Option<CommentsView>,
    pub instrument: Option<InstrumentChunk>,
    pub recording: Option<AudioRecordingChunk>,
    pub markers: Option<MarkersView>,
    pub texts: Seq<TextView>,
    pub midi: Seq<MidiDataView>,
    pub app: Seq<AppView>,
}

/// One chunk of a container as a value.
pub ghost enum ChildView {
    Common(CommonChunk),
    Sound(SoundDataView),
    Markers(MarkersView),
    Instrument(InstrumentChunk),
    Midi(MidiDataView),
    Recording(AudioRecordingChunk),
    App(AppView),
    Comments(CommentsView),
    Text(TextView),
}

/// The chunks met so far while a container is read.
pub ghost struct Children {
    pub common: Option<CommonChunk>,
    pub sound: Option<SoundDataView>,
    pub comments: Option<CommentsView>,
    pub instrument: Option<InstrumentChunk>,
    pub recording: Option<AudioRecordingChunk>,
    pub markers: Option<MarkersView>,
    pub texts: Seq<TextView>,
    pub midi: Seq<MidiDataView>,
    pub app: Seq<AppView>,
}

impl Children {
    /// No chunk met yet.
    pub open spec fn none() -> Children {
        Children {
            common: None,
            sound: None,
            comments: None,
            instrument: None,
            recording: None,
            markers: None,
            texts: Seq::empty(),
            midi: Seq::empty(),
            app: Seq::empty(),
        }
    }

    /// One more chunk met. Of the chunks that a container holds once, a
    /// later one takes the place of an earlier one; texts, MIDI data and
    /// application chunks are kept in the order met.
    pub open spec fn with(self, child: ChildView) -> Children {
        match child {
            ChildView::Common(c) => Children { common: Some(c), ..self },
            ChildView::Sound(c) => Children { sound: Some(c), ..self },
            ChildView::Markers(c) => Children { markers: Some(c), ..self },
            ChildView::Instrument(c) => Children { instrument: Some(c), ..self },
            ChildView::Midi(c) => Children { midi: self.midi.push(c), ..self },
            ChildView::Recording(c) => Children { recording: Some(c), ..self },
            ChildView::App(c) => Children { app: self.app.push(c), ..self },
            ChildView::Comments(c) => Children { comments: Some(c), ..self },
            ChildView::Text(c) => Children { texts: self.texts.push(c), ..self },
        }
    }
}

/// The kind of chunk that an identifier names, if it names one.
pub open spec fn chunk_kind(id: ChunkID) -> Option<ChunkKind> {
    if id == COMMON {
        Some(ChunkKind::Common)
    } else if id == SOUND {
        Some(ChunkKind::Sound)
    } else if id == MARKER {
        Some(ChunkKind::Marker)
    } else if id == INSTRUMENT {
        Some(ChunkKind::Instrument)
    } else if id == MIDI {
        Some(ChunkKind::Midi)
    } else if id == RECORDING {
        Some(ChunkKind::Recording)
    } else if id == APPLICATION {
        Some(ChunkKind::Application)
    } else if id == COMMENTS {
        Some(ChunkKind::Comments)
    } else if text_kind(id) is Some {
        Some(ChunkKind::Text)
    } else if id == FORMAT_VER {
        Some(ChunkKind::FormatVersion)
    } else {
        None
    }
}

/// A value read, as a chunk of the container.
pub open spec fn as_child<T>(got: Parsed<T>, wrap: spec_fn(T) -> ChildView) -> Parsed<ChildView> {
    match got {
        Err(e) => Err(e),
        Ok((value, s)) => Ok((wrap(value), s)),
    }
}

/// The chunk behind the identifier `id`. An identifier that names no chunk
/// is refused, and so is the format version.
#[verifier::opaque]
pub open spec fn get_child(id: ChunkID, s: Stream) -> Parsed<ChildView> {
    match chunk_kind(id) {
        None => Err((ChunkError::InvalidID(id), s)),
        Some(ChunkKind::FormatVersion) => Err((ChunkError::Unsupported, s)),
        Some(ChunkKind::Common) => as_child(get_common(s), |c| ChildView::Common(c)),
        Some(ChunkKind::Sound) => as_child(get_sound(s), |c| ChildView::Sound(c)),
        Some(ChunkKind::Marker) => as_child(get_marker_chunk(s), |c| ChildView::Markers(c)),
        Some(ChunkKind::Instrument) => as_child(get_instrument(s), |c| ChildView::Instrument(c)),
        Some(ChunkKind::Midi) => as_child(get_midi(s), |c| ChildView::Midi(c)),
        Some(ChunkKind::Recording) => as_child(get_recording(s), |c| ChildView::Recording(c)),
        Some(ChunkKind::Application) => as_child(get_app(s), |c| ChildView::App(c)),
        Some(ChunkKind::Comments) => as_child(get_comments_chunk(s), |c| ChildView::Comments(c)),
        Some(ChunkKind::Text) => as_child(get_text_chunk(s), |c| ChildView::Text(c)),
    }
}

/// The chunks of a container from `s` on, added to those met before. Chunks
/// are read until fewer than four bytes are left; what is left then is not
/// looked at.
#[verifier::opaque]
pub open spec fn get_children(s: Stream, met: Children) -> Parsed<Children>
    decreases s.left(),
{
    match get_id(s) {
        Err(_) => Ok((met, s)),
        Ok((id, body)) => match get_child(id, body) {
            Err(e) => Err(e),
            Ok((child, rest)) => if 0 <= rest.left() < s.left() {
                get_children(rest, met.with(child))
            } else {
                Ok((met.with(child), rest))
            },
        },
    }
}

/// Number of sample frames in the sound data: one for every two bytes, and
/// none without sound data.
pub open spec fn frames(sound: Option<SoundDataView>) -> u32 {
    match sound {
        None => 0,
        Some(sound) => (sound.sound_data.len() / 2) as u32,
    }
}

/// The container that the chunks met make, or the refusal where they could
/// not be read or no common chunk is among them. The number of sample frames
/// of the common chunk is set from the sound data.
pub open spec fn assembled(size: i32, form_type: ChunkID, got: Parsed<Children>) -> Parsed<
    FormView,
> {
    match got {
        Err(e) => Err(e),
        Ok((met, s)) => match met.common {
            None => Err((ChunkError::MissingCommon, s)),
            Some(common) => Ok(
                (
                    FormView {
                        size,
                        form_type,
                        common: CommonChunk { num_sample_frames: frames(met.sound), ..common },
                        sound: met.sound,
                        comments: met.comments,
                        instrument: met.instrument,
                        recording: met.recording,
                        markers: met.markers,
                        texts: met.texts,
                        midi: met.midi,
                        app: met.app,
                    },
                    s,
                ),
            ),
        },
    }
}

/// A container: the container identifier, the declared size, which is not
/// looked at, the form type, and the chunks to the end of the input.
pub open spec fn get_form(s: Stream) -> Parsed<FormView> {
    match get_id(s) {
        Err(e) => Err(e),
        Ok((id, s)) => if id != FORM {
            Err((ChunkError::InvalidID(id), s))
        } else {
            match get_i32(s) {
                Err(e) => Err(e),
                Ok((size, s)) => match get_id(s) {
                    Err(e) => Err(e),
                    Ok((form_type, s)) => if form_type != AIFF && form_type != AIFF_C {
                        Err((ChunkError::InvalidFormType(form_type), s))
                    } else {
                        assembled(size, form_type, get_children(s, Children::none()))
                    },
                },
            }
        },
    }
}

/// Reading markers only moves forward in the same input.
pub proof fn lemma_markers_advance(s: Stream, n: nat)
    ensures
        get_markers(s, n) matches Ok((_, rest)) ==> rest.data == s.data && rest.pos >= s.pos,
    decreases n,
{
    if n > 0 {
        lemma_markers_advance(s, (n - 1) as nat);
        if let Ok((_, rest)) = get_markers(s, (n - 1) as nat) {
            lemma_marker_forward(rest);
        }
    }
}

/// Reading comments only moves forward in the same input.
pub proof fn lemma_comments_advance(s: Stream, n: nat)
    ensures
        get_comments(s, n) matches Ok((_, rest)) ==> rest.data == s.data && rest.pos >= s.pos,
    decreases n,
{
    if n > 0 {
        lemma_comments_advance(s, (n - 1) as nat);
    }
}

/// Whether a read, where it gave a value, left the stream in the same input
/// and not before `s`.
pub open spec fn forward<T>(s: Stream, got: Parsed<T>) -> bool {
    got matches Ok((_, rest)) ==> rest.data == s.data && rest.pos >= s.pos
}

/// Reading a marker only moves forward.
pub proof fn lemma_marker_forward(s: Stream)
    ensures
        forward(s, get_marker(s)),
{
}

/// Reading a loop only moves forward.
pub proof fn lemma_loop_forward(s: Stream)
    ensures
        forward(s, get_loop(s)),
{
}

/// Reading the note bytes only moves forward.
pub proof fn lemma_notes_forward(s: Stream)
    ensures
        forward(s, get_notes(s)),
{
}

/// Reading the instrument chunk only moves forward.
pub proof fn lemma_instrument_forward(s: Stream)
    ensures
        forward(s, get_instrument(s)),
{
    if let Ok((_, a)) = get_i32(s) {
        lemma_notes_forward(a);
        if let Ok((_, b)) = get_notes(a) {
            if let Ok((_, c)) = get_i16(b) {
                lemma_loop_forward(c);
                if let Ok((_, d)) = get_loop(c) {
                    lemma_loop_forward(d);
                }
            }
        }
    }
}

/// Reading the marker chunk only moves forward.
pub proof fn lemma_marker_chunk_forward(s: Stream)
    ensures
        forward(s, get_marker_chunk(s)),
{
    if let Ok((_, body)) = get_i32(s) {
        if let Ok((n, first)) = get_u16(body) {
            lemma_markers_advance(first, n as nat);
        }
    }
}

/// Reading the comments chunk only moves forward.
pub proof fn lemma_comments_chunk_forward(s: Stream)
    ensures
        forward(s, get_comments_chunk(s)),
{
    if let Ok((_, body)) = get_i32(s) {
        if let Ok((n, first)) = get_u16(body) {
            lemma_comments_advance(first, n as nat);
        }
    }
}

/// Reading a chunk only moves forward in the same input.
pub proof fn lemma_child_advances(id: ChunkID, s: Stream)
    ensures
        forward(s, get_child(id, s)),
{
    reveal(get_child);
    match chunk_kind(id) {
        Some(ChunkKind::Common) => {
            assert(forward(s, get_common(s)));
        },
        Some(ChunkKind::Sound) => {
            assert(forward(s, get_sound(s)));
        },
        Some(ChunkKind::Marker) => {
            lemma_marker_chunk_forward(s);
        },
        Some(ChunkKind::Instrument) => {
            lemma_instrument_forward(s);
        },
        Some(ChunkKind::Midi) => {
            assert(forward(s, get_midi(s)));
        },
        Some(ChunkKind::Recording) => {
            assert(forward(s, get_recording(s)));
        },
        Some(ChunkKind::Application) => {
            assert(forward(s, get_app(s)));
        },
        Some(ChunkKind::Comments) => {
            lemma_comments_chunk_forward(s);
        },
        Some(ChunkKind::Text) => {
            assert(forward(s, get_text_chunk(s)));
        },
        _ => {},
    }
}

} // verus!
