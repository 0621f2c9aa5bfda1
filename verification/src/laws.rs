use crate::chunks::{
    all_encoded, all_fit, children_bytes, children_fit, form_bytes, form_fits, optional_encoded,
    optional_fits, AIFF, AIFF_C, ANNOTATION, APPLICATION, AUTHOR, COMMENTS, COMMON, COPYRIGHT,
    FORM, FORMAT_VER, INSTRUMENT, MARKER, MIDI, NAME, OP_1, RECORDING, SOUND,
    ApplicationSpecificChunk, AudioRecordingChunk, Chunk, ChunkError, ChunkID, ChunkKind,
    CommentsChunk, CommonChunk, InstrumentChunk, Loop, MIDIDataChunk, MarkerChunk, SoundDataChunk,
    TextChunk, TextChunkType,
};
use crate::format::{
    app_bytes, app_fits, assembled, chunk_kind, comment_bytes, comment_fits, comments_bytes,
    comments_chunk_bytes, comments_chunk_fits, common_bytes, frames, get_app, get_child,
    get_children, get_comment, get_comments, get_comments_chunk, get_common, get_form,
    get_instrument, get_loop, get_marker, get_marker_chunk, get_markers, get_midi, get_notes,
    get_recording, get_sound, get_text_chunk, instrument_bytes, loop_bytes, marker_bytes,
    marker_chunk_bytes, marker_chunk_fits, marker_fits, markers_bytes, midi_bytes, midi_fits,
    recording_bytes, sound_bytes, sound_fits, text_chunk_bytes, text_end, text_fits, text_id,
    text_kind, AppView, ChildView, Children, CommentView, CommentsView, FormView, MarkerView,
    MarkersView, MidiDataView, SoundDataView, TextView,
};
use crate::util::{
    be_i32, be_u32, get_bytes, get_i16, get_i32, get_i8, get_id, get_pstring, get_text, get_u16,
    get_u32, get_u8, get_utf8, holds, i16_be, i32_be, i8_be, lemma_holds_split,
    lemma_numbers_round_trip, padding, pstring_bytes, text_bytes, u16_be, u32_be, Failed, Stream,
};
use vstd::utf8::{
    decode_utf8_encode_utf8, encode_utf8, encode_utf8_decode_utf8, encode_utf8_valid_utf8,
    valid_utf8,
};
use vstd::prelude::*;

verus! {

/// A 16-bit unsigned number that the stream holds is read back.
pub proof fn lemma_read_u16(s: Stream, v: u16, rest: Seq<u8>)
    requires
        holds(s, u16_be(v) + rest),
    ensures
        get_u16(s) == Ok::<(u16, Stream), Failed>((v, s.advance(2))),
        holds(s.advance(2), rest),
{
    lemma_numbers_round_trip();
    lemma_holds_split(s, u16_be(v), rest);
}

/// A 32-bit unsigned number that the stream holds is read back.
pub proof fn lemma_read_u32(s: Stream, v: u32, rest: Seq<u8>)
    requires
        holds(s, u32_be(v) + rest),
    ensures
        get_u32(s) == Ok::<(u32, Stream), Failed>((v, s.advance(4))),
        holds(s.advance(4), rest),
{
    lemma_numbers_round_trip();
    lemma_holds_split(s, u32_be(v), rest);
}

/// An 8-bit signed number that the stream holds is read back.
pub proof fn lemma_read_i8(s: Stream, v: i8, rest: Seq<u8>)
    requires
        holds(s, i8_be(v) + rest),
    ensures
        get_i8(s) == Ok::<(i8, Stream), Failed>((v, s.advance(1))),
        holds(s.advance(1), rest),
{
    lemma_numbers_round_trip();
    lemma_holds_split(s, i8_be(v), rest);
}

/// A 16-bit signed number that the stream holds is read back.
pub proof fn lemma_read_i16(s: Stream, v: i16, rest: Seq<u8>)
    requires
        holds(s, i16_be(v) + rest),
    ensures
        get_i16(s) == Ok::<(i16, Stream), Failed>((v, s.advance(2))),
        holds(s.advance(2), rest),
{
    lemma_numbers_round_trip();
    lemma_holds_split(s, i16_be(v), rest);
}

/// A 32-bit signed number that the stream holds is read back.
pub proof fn lemma_read_i32(s: Stream, v: i32, rest: Seq<u8>)
    requires
        holds(s, i32_be(v) + rest),
    ensures
        get_i32(s) == Ok::<(i32, Stream), Failed>((v, s.advance(4))),
        holds(s.advance(4), rest),
{
    lemma_numbers_round_trip();
    lemma_holds_split(s, i32_be(v), rest);
}

/// The stream behind an identifier that it holds.
pub proof fn lemma_behind_id(s: Stream, id: Seq<u8>, body: Seq<u8>)
    requires
        id.len() == 4,
        holds(s.advance(-4), id + body),
    ensures
        holds(s, body),
{
    lemma_holds_split(s.advance(-4), id, body);
    assert(s.advance(-4).advance(4) == s);
}

/// A common chunk that was written is read back as it was.
pub proof fn lemma_common_round_trip(v: CommonChunk, s: Stream, rest: Seq<u8>)
    requires
        holds(s.advance(-4), common_bytes(v) + rest),
    ensures
        get_common(s) == Ok::<(CommonChunk, Stream), Failed>((v, s.advance(22))),
        holds(s.advance(22), rest),
{
    let body = i32_be(18) + (i16_be(v.num_channels) + (u32_be(v.num_sample_frames) + (i16_be(
        v.bit_rate,
    ) + (v.sample_rate@ + rest))));
    assert(common_bytes(v) + rest =~= COMMON@ + body);
    lemma_behind_id(s, COMMON@, body);
    lemma_read_i32(
        s,
        18,
        i16_be(v.num_channels) + (u32_be(v.num_sample_frames) + (i16_be(v.bit_rate) + (
        v.sample_rate@ + rest))),
    );
    let s1 = s.advance(4);
    lemma_read_i16(
        s1,
        v.num_channels,
        u32_be(v.num_sample_frames) + (i16_be(v.bit_rate) + (v.sample_rate@ + rest)),
    );
    let s2 = s1.advance(2);
    lemma_read_u32(s2, v.num_sample_frames, i16_be(v.bit_rate) + (v.sample_rate@ + rest));
    let s3 = s2.advance(4);
    lemma_read_i16(s3, v.bit_rate, v.sample_rate@ + rest);
    let s4 = s3.advance(2);
    lemma_holds_split(s4, v.sample_rate@, rest);
    let b = v.sample_rate@;
    assert([b[0], b[1], b[2], b[3], b[4], b[5], b[6], b[7], b[8], b[9]] =~= v.sample_rate);
    assert(s4.advance(10) == s.advance(22));
}

/// The pad behind `n` bytes is passed over when `n % 2` bytes are read.
pub proof fn lemma_read_padding(s: Stream, n: int, rest: Seq<u8>)
    requires
        0 <= n,
        holds(s, padding(n) + rest),
    ensures
        get_bytes(s, n % 2) matches Ok((_, behind)) && behind == s.advance(n % 2),
        holds(s.advance(n % 2), rest),
{
    lemma_holds_split(s, padding(n), rest);
}

/// Sound data as it is read back: with the size that was written.
pub open spec fn normal_sound(v: SoundDataView) -> SoundDataView {
    SoundDataView { size: (v.sound_data.len() + 8) as i32, ..v }
}

/// Number of bytes that the samples and their pad take.
pub open spec fn padded(n: nat) -> int {
    (n + n % 2) as int
}

/// Sound data that was written is read back.
pub proof fn lemma_sound_round_trip(v: SoundDataView, s: Stream, rest: Seq<u8>)
    requires
        sound_fits(v),
        holds(s.advance(-4), sound_bytes(v) + rest),
    ensures
        get_sound(s) == Ok::<(SoundDataView, Stream), Failed>(
            (normal_sound(v), s.advance(12 + padded(v.sound_data.len()))),
        ),
        holds(s.advance(12 + padded(v.sound_data.len())), rest),
{
    let len = v.sound_data.len();
    let size = (len + 8) as i32;
    let body = i32_be(size) + (u32_be(v.offset) + (u32_be(v.block_size) + (v.sound_data + (
    padding(len as int) + rest))));
    assert(sound_bytes(v) + rest =~= SOUND@ + body);
    lemma_behind_id(s, SOUND@, body);
    lemma_read_i32(
        s,
        size,
        u32_be(v.offset) + (u32_be(v.block_size) + (v.sound_data + (padding(len as int) + rest))),
    );
    let s1 = s.advance(4);
    lemma_read_u32(
        s1,
        v.offset,
        u32_be(v.block_size) + (v.sound_data + (padding(len as int) + rest)),
    );
    let s2 = s1.advance(4);
    lemma_read_u32(s2, v.block_size, v.sound_data + (padding(len as int) + rest));
    let s3 = s2.advance(4);
    lemma_holds_split(s3, v.sound_data, padding(len as int) + rest);
    let s4 = s3.advance(len as int);
    lemma_read_padding(s4, len as int, rest);
    assert(s4.advance(len as int % 2) == s.advance(12 + padded(len)));
    assert(s3.data.subrange(s3.pos, s3.pos + len) == v.sound_data);
}

/// MIDI data as it is read back: with the size that was written.
pub open spec fn normal_midi(v: MidiDataView) -> MidiDataView {
    MidiDataView { size: v.data.len() as i32, ..v }
}

/// MIDI data that was written is read back.
pub proof fn lemma_midi_round_trip(v: MidiDataView, s: Stream, rest: Seq<u8>)
    requires
        midi_fits(v),
        holds(s.advance(-4), midi_bytes(v) + rest),
    ensures
        get_midi(s) == Ok::<(MidiDataView, Stream), Failed>(
            (normal_midi(v), s.advance(4 + padded(v.data.len()))),
        ),
        holds(s.advance(4 + padded(v.data.len())), rest),
{
    let len = v.data.len();
    let body = i32_be(len as i32) + (v.data + (padding(len as int) + rest));
    assert(midi_bytes(v) + rest =~= MIDI@ + body);
    lemma_behind_id(s, MIDI@, body);
    lemma_read_i32(s, len as i32, v.data + (padding(len as int) + rest));
    let s1 = s.advance(4);
    lemma_holds_split(s1, v.data, padding(len as int) + rest);
    let s2 = s1.advance(len as int);
    lemma_read_padding(s2, len as int, rest);
    assert(s2.advance(len as int % 2) == s.advance(4 + padded(len)));
}

/// The recording chunk as it is read back: with the size 24.
pub open spec fn normal_recording(v: AudioRecordingChunk) -> AudioRecordingChunk {
    AudioRecordingChunk { size: 24, ..v }
}

/// A recording chunk that was written is read back.
pub proof fn lemma_recording_round_trip(v: AudioRecordingChunk, s: Stream, rest: Seq<u8>)
    requires
        holds(s.advance(-4), recording_bytes(v) + rest),
    ensures
        get_recording(s) == Ok::<(AudioRecordingChunk, Stream), Failed>(
            (normal_recording(v), s.advance(28)),
        ),
        holds(s.advance(28), rest),
{
    let body = i32_be(24) + (v.data@ + rest);
    assert(recording_bytes(v) + rest =~= RECORDING@ + body);
    lemma_behind_id(s, RECORDING@, body);
    lemma_read_i32(s, 24, v.data@ + rest);
    let s1 = s.advance(4);
    lemma_holds_split(s1, v.data@, rest);
    let b = v.data@;
    assert([
        b[0],
        b[1],
        b[2],
        b[3],
        b[4],
        b[5],
        b[6],
        b[7],
        b[8],
        b[9],
        b[10],
        b[11],
        b[12],
        b[13],
        b[14],
        b[15],
        b[16],
        b[17],
        b[18],
        b[19],
        b[20],
        b[21],
        b[22],
        b[23],
    ] =~= v.data);
    assert(s1.advance(24) == s.advance(28));
}

/// A loop that was written is read back.
pub proof fn lemma_loop_round_trip(v: Loop, s: Stream, rest: Seq<u8>)
    requires
        holds(s, loop_bytes(v) + rest),
    ensures
        get_loop(s) == Ok::<(Loop, Stream), Failed>((v, s.advance(6))),
        holds(s.advance(6), rest),
{
    assert(loop_bytes(v) + rest =~= i16_be(v.play_mode) + (i16_be(v.begin_loop) + (i16_be(
        v.end_loop,
    ) + rest)));
    lemma_read_i16(s, v.play_mode, i16_be(v.begin_loop) + (i16_be(v.end_loop) + rest));
    lemma_read_i16(s.advance(2), v.begin_loop, i16_be(v.end_loop) + rest);
    lemma_read_i16(s.advance(2).advance(2), v.end_loop, rest);
    assert(s.advance(2).advance(2).advance(2) == s.advance(6));
}

/// The instrument chunk as it is read back: with the size 20.
pub open spec fn normal_instrument(v: InstrumentChunk) -> InstrumentChunk {
    InstrumentChunk { size: 20, ..v }
}

/// The six note and velocity bytes that were written are read back.
pub proof fn lemma_notes_round_trip(v: InstrumentChunk, s: Stream, rest: Seq<u8>)
    requires
        holds(
            s,
            i8_be(v.base_note) + (i8_be(v.detune) + (i8_be(v.low_note) + (i8_be(v.high_note) + (
            i8_be(v.low_velocity) + (i8_be(v.high_velocity) + rest))))),
        ),
    ensures
        get_notes(s) == Ok::<((i8, i8, i8, i8, i8, i8), Stream), Failed>(
            (
                (
                    v.base_note,
                    v.detune,
                    v.low_note,
                    v.high_note,
                    v.low_velocity,
                    v.high_velocity,
                ),
                s.advance(6),
            ),
        ),
        holds(s.advance(6), rest),
{
    lemma_read_i8(
        s,
        v.base_note,
        i8_be(v.detune) + (i8_be(v.low_note) + (i8_be(v.high_note) + (i8_be(v.low_velocity) + (
        i8_be(v.high_velocity) + rest)))),
    );
    let s1 = s.advance(1);
    lemma_read_i8(
        s1,
        v.detune,
        i8_be(v.low_note) + (i8_be(v.high_note) + (i8_be(v.low_velocity) + (i8_be(
            v.high_velocity,
        ) + rest))),
    );
    let s2 = s1.advance(1);
    lemma_read_i8(
        s2,
        v.low_note,
        i8_be(v.high_note) + (i8_be(v.low_velocity) + (i8_be(v.high_velocity) + rest)),
    );
    let s3 = s2.advance(1);
    lemma_read_i8(s3, v.high_note, i8_be(v.low_velocity) + (i8_be(v.high_velocity) + rest));
    let s4 = s3.advance(1);
    lemma_read_i8(s4, v.low_velocity, i8_be(v.high_velocity) + rest);
    let s5 = s4.advance(1);
    lemma_read_i8(s5, v.high_velocity, rest);
    assert(s5.advance(1) == s.advance(6));
}

/// An instrument chunk that was written is read back.
#[verifier::rlimit(40)]
pub proof fn lemma_instrument_round_trip(v: InstrumentChunk, s: Stream, rest: Seq<u8>)
    requires
        holds(s.advance(-4), instrument_bytes(v) + rest),
    ensures
        get_instrument(s) == Ok::<(InstrumentChunk, Stream), Failed>(
            (normal_instrument(v), s.advance(24)),
        ),
        holds(s.advance(24), rest),
{
    let loops = i16_be(v.gain) + (loop_bytes(v.sustain_loop) + (loop_bytes(v.release_loop) + rest));
    let notes = i8_be(v.base_note) + (i8_be(v.detune) + (i8_be(v.low_note) + (i8_be(v.high_note)
        + (i8_be(v.low_velocity) + (i8_be(v.high_velocity) + loops)))));
    let body = i32_be(20) + notes;
    assert(instrument_bytes(v) + rest =~= INSTRUMENT@ + body);
    lemma_behind_id(s, INSTRUMENT@, body);
    lemma_read_i32(s, 20, notes);
    let s1 = s.advance(4);
    lemma_notes_round_trip(v, s1, loops);
    let s2 = s1.advance(6);
    lemma_read_i16(s2, v.gain, loop_bytes(v.sustain_loop) + (loop_bytes(v.release_loop) + rest));
    let s3 = s2.advance(2);
    lemma_loop_round_trip(v.sustain_loop, s3, loop_bytes(v.release_loop) + rest);
    let s4 = s3.advance(6);
    lemma_loop_round_trip(v.release_loop, s4, rest);
    assert(s4.advance(6) == s.advance(24));
}

/// Text that the stream holds is read back.
pub proof fn lemma_read_utf8(s: Stream, text: Seq<char>, rest: Seq<u8>)
    requires
        holds(s, encode_utf8(text) + rest),
    ensures
        get_utf8(s, encode_utf8(text).len() as int) == Ok::<(Seq<char>, Stream), Failed>(
            (text, s.advance(encode_utf8(text).len() as int)),
        ),
        holds(s.advance(encode_utf8(text).len() as int), rest),
{
    encode_utf8_valid_utf8(text);
    encode_utf8_decode_utf8(text);
    lemma_holds_split(s, encode_utf8(text), rest);
}

/// Text and its pad that the stream holds are read back.
pub proof fn lemma_read_text(s: Stream, text: Seq<char>, rest: Seq<u8>)
    requires
        holds(s, text_bytes(text) + rest),
    ensures
        get_text(s, encode_utf8(text).len() as int) == Ok::<(Seq<char>, Stream), Failed>(
            (text, s.advance(padded(encode_utf8(text).len()))),
        ),
        holds(s.advance(padded(encode_utf8(text).len())), rest),
{
    let bytes = encode_utf8(text);
    let len = bytes.len() as int;
    encode_utf8_valid_utf8(text);
    encode_utf8_decode_utf8(text);
    assert(text_bytes(text) + rest =~= bytes + (padding(len) + rest));
    lemma_holds_split(s, bytes, padding(len) + rest);
    lemma_read_padding(s.advance(len), len, rest);
    assert(s.advance(len).advance(len % 2) == s.advance(padded(bytes.len())));
}

/// A string with its length byte that the stream holds is read back.
pub proof fn lemma_read_pstring(s: Stream, text: Seq<char>, rest: Seq<u8>)
    requires
        encode_utf8(text).len() <= 255,
        holds(s, pstring_bytes(text) + rest),
    ensures
        get_pstring(s) == Ok::<(Seq<char>, Stream), Failed>(
            (text, s.advance(1 + padded(encode_utf8(text).len()))),
        ),
        holds(s.advance(1 + padded(encode_utf8(text).len())), rest),
{
    let len = encode_utf8(text).len();
    assert(pstring_bytes(text) + rest =~= seq![len as u8] + (text_bytes(text) + rest));
    lemma_holds_split(s, seq![len as u8], text_bytes(text) + rest);
    lemma_read_text(s.advance(1), text, rest);
    assert(s.advance(1).advance(padded(len)) == s.advance(1 + padded(len)));
}

/// A text chunk as it is read back: with the size that was written.
pub open spec fn normal_text(v: TextView) -> TextView {
    TextView { size: encode_utf8(v.text).len() as i32, ..v }
}

/// Each kind of text is told by its identifier.
pub proof fn lemma_text_kinds(kind: TextChunkType)
    ensures
        text_kind(text_id(kind)) == Some(kind),
{
    assert(NAME@[0] != AUTHOR@[0]);
    assert(NAME@[0] != COPYRIGHT@[0]);
    assert(NAME@[0] != ANNOTATION@[0]);
    assert(AUTHOR@[0] != COPYRIGHT@[0]);
    assert(AUTHOR@[1] != ANNOTATION@[1]);
    assert(COPYRIGHT@[0] != ANNOTATION@[0]);
}

/// A text chunk that was written is read back.
pub proof fn lemma_text_round_trip(v: TextView, s: Stream, rest: Seq<u8>)
    requires
        text_fits(v),
        holds(s.advance(-4), text_chunk_bytes(v) + rest),
    ensures
        get_text_chunk(s) == Ok::<(TextView, Stream), Failed>(
            (normal_text(v), s.advance(4 + padded(encode_utf8(v.text).len()))),
        ),
        holds(s.advance(4 + padded(encode_utf8(v.text).len())), rest),
{
    let len = encode_utf8(v.text).len();
    let id = text_id(v.chunk_type);
    let body = i32_be(len as i32) + (text_bytes(v.text) + rest);
    assert(text_chunk_bytes(v) + rest =~= id@ + body);
    lemma_holds_split(s.advance(-4), id@, body);
    assert(s.advance(-4).advance(4) == s);
    let b = id@;
    assert([b[0], b[1], b[2], b[3]] =~= id);
    lemma_text_kinds(v.chunk_type);
    lemma_read_i32(s, len as i32, text_bytes(v.text) + rest);
    lemma_read_text(s.advance(4), v.text, rest);
    assert(s.advance(4).advance(padded(len)) == s.advance(4 + padded(len)));
}

/// Text without a zero byte ends where a zero byte or nothing follows it.
pub proof fn lemma_text_end_padded(data: Seq<u8>, n: int)
    requires
        text_end(data) == data.len(),
    ensures
        text_end(data + padding(n)) == data.len(),
    decreases data.len(),
{
    if data.len() == 0 {
        assert(data + padding(n) =~= padding(n));
    } else {
        assert((data + padding(n)).skip(1) =~= data.skip(1) + padding(n));
        lemma_text_end_padded(data.skip(1), n);
    }
}

/// An application-specific chunk as it is read back: with the size that
/// was written.
pub open spec fn normal_app(v: AppView) -> AppView {
    match v {
        AppView::OP1 { data } => v,
        AppView::UnknownApplication { size, application_signature, data } => {
            AppView::UnknownApplication {
                size: (data.len() + 4) as i32,
                application_signature,
                data,
            }
        },
    }
}

/// The data of an application-specific chunk.
pub open spec fn app_data(v: AppView) -> Seq<u8> {
    match v {
        AppView::OP1 { data } => data,
        AppView::UnknownApplication { data, .. } => data,
    }
}

/// Patch text that was written is read back as the same text.
pub proof fn lemma_patch_round_trip(data: Seq<u8>, s: Stream, rest: Seq<u8>)
    requires
        app_fits(AppView::OP1 { data }),
        holds(s.advance(-4), app_bytes(AppView::OP1 { data }) + rest),
    ensures
        get_app(s) == Ok::<(AppView, Stream), Failed>(
            (AppView::OP1 { data }, s.advance(8 + padded(data.len()))),
        ),
        holds(s.advance(8 + padded(data.len())), rest),
{
    let v = AppView::OP1 { data };
    let len = data.len();
    let size = (len + len % 2 + 4) as i32;
    let whole = data + padding(len as int);
    let body = i32_be(size) + (OP_1@ + (whole + rest));
    assert(app_bytes(v) + rest =~= APPLICATION@ + body);
    lemma_behind_id(s, APPLICATION@, body);
    lemma_read_i32(s, size, OP_1@ + (whole + rest));
    let s1 = s.advance(4);
    lemma_read_id(s1, OP_1, whole + rest);
    let s2 = s1.advance(4);
    lemma_holds_split(s2, whole, rest);
    let s3 = s2.advance(whole.len() as int);
    assert(s3 == s.advance(8 + padded(len)));
    lemma_text_end_padded(data, len as int);
    assert(whole.subrange(0, len as int) =~= data);
    assert(get_bytes(s3, size as int % 2) == Ok::<(Seq<u8>, Stream), Failed>(
        (s3.data.subrange(s3.pos, s3.pos), s3),
    ));
}

/// The chunk of another application that was written is read back byte
/// for byte, whatever the length of its data.
pub proof fn lemma_unknown_round_trip(
    size: i32,
    application_signature: ChunkID,
    data: Seq<u8>,
    s: Stream,
    rest: Seq<u8>,
)
    requires
        app_fits(AppView::UnknownApplication { size, application_signature, data }),
        holds(
            s.advance(-4),
            app_bytes(AppView::UnknownApplication { size, application_signature, data }) + rest,
        ),
    ensures
        get_app(s) == Ok::<(AppView, Stream), Failed>(
            (
                AppView::UnknownApplication {
                    size: (data.len() + 4) as i32,
                    application_signature,
                    data,
                },
                s.advance(8 + padded(data.len())),
            ),
        ),
        holds(s.advance(8 + padded(data.len())), rest),
{
    let v = AppView::UnknownApplication { size, application_signature, data };
    let len = data.len();
    let written = (len + 4) as i32;
    let body = i32_be(written) + (application_signature@ + (data + (padding(len as int) + rest)));
    assert(app_bytes(v) + rest =~= APPLICATION@ + body);
    lemma_behind_id(s, APPLICATION@, body);
    lemma_read_i32(s, written, application_signature@ + (data + (padding(len as int) + rest)));
    let s1 = s.advance(4);
    lemma_read_id(s1, application_signature, data + (padding(len as int) + rest));
    let s2 = s1.advance(4);
    lemma_holds_split(s2, data, padding(len as int) + rest);
    let s3 = s2.advance(len as int);
    lemma_read_padding(s3, len as int, rest);
    assert(s3.advance(len as int % 2) == s.advance(8 + padded(len)));
}

/// An application-specific chunk that was written is read back.
pub proof fn lemma_app_round_trip(v: AppView, s: Stream, rest: Seq<u8>)
    requires
        app_fits(v),
        holds(s.advance(-4), app_bytes(v) + rest),
    ensures
        get_app(s) == Ok::<(AppView, Stream), Failed>(
            (normal_app(v), s.advance(8 + padded(app_data(v).len()))),
        ),
        holds(s.advance(8 + padded(app_data(v).len())), rest),
{
    match v {
        AppView::OP1 { data } => {
            lemma_patch_round_trip(data, s, rest);
        },
        AppView::UnknownApplication { size, application_signature, data } => {
            lemma_unknown_round_trip(size, application_signature, data, s, rest);
        },
    }
}

/// A marker that was written is read back.
pub proof fn lemma_marker_round_trip(v: MarkerView, s: Stream, rest: Seq<u8>)
    requires
        marker_fits(v),
        holds(s, marker_bytes(v) + rest),
    ensures
        get_marker(s) == Ok::<(MarkerView, Stream), Failed>(
            (v, s.advance(marker_bytes(v).len() as int)),
        ),
        holds(s.advance(marker_bytes(v).len() as int), rest),
{
    lemma_numbers_round_trip();
    assert(marker_bytes(v) + rest =~= i16_be(v.id) + (u32_be(v.position) + (pstring_bytes(
        v.marker_name,
    ) + rest)));
    lemma_read_i16(s, v.id, u32_be(v.position) + (pstring_bytes(v.marker_name) + rest));
    lemma_read_u32(s.advance(2), v.position, pstring_bytes(v.marker_name) + rest);
    lemma_read_pstring(s.advance(2).advance(4), v.marker_name, rest);
    let len = encode_utf8(v.marker_name).len();
    assert(s.advance(2).advance(4).advance(1 + padded(len)) == s.advance(
        marker_bytes(v).len() as int,
    ));
}

/// Markers that were written are read back.
pub proof fn lemma_markers_round_trip(markers: Seq<MarkerView>, s: Stream, rest: Seq<u8>)
    requires
        forall|i: int| 0 <= i < markers.len() ==> marker_fits(#[trigger] markers[i]),
        holds(s, markers_bytes(markers) + rest),
    ensures
        get_markers(s, markers.len()) == Ok::<(Seq<MarkerView>, Stream), Failed>(
            (markers, s.advance(markers_bytes(markers).len() as int)),
        ),
        holds(s.advance(markers_bytes(markers).len() as int), rest),
    decreases markers.len(),
{
    if markers.len() == 0 {
        assert(markers_bytes(markers) + rest =~= rest);
        assert(s.advance(0) == s);
        assert(markers =~= Seq::<MarkerView>::empty());
    } else {
        let init = markers.drop_last();
        let last = markers.last();
        assert(markers_bytes(markers) + rest =~= markers_bytes(init) + (marker_bytes(last) + rest));
        lemma_markers_round_trip(init, s, marker_bytes(last) + rest);
        let s1 = s.advance(markers_bytes(init).len() as int);
        lemma_marker_round_trip(last, s1, rest);
        assert(s1.advance(marker_bytes(last).len() as int) == s.advance(
            markers_bytes(markers).len() as int,
        ));
        assert(init.push(last) =~= markers);
    }
}

/// The marker chunk as it is read back: with the size that was written.
pub open spec fn normal_markers(v: MarkersView) -> MarkersView {
    MarkersView { size: (2 + markers_bytes(v.markers).len()) as i32, ..v }
}

/// A marker chunk that was written is read back.
pub proof fn lemma_marker_chunk_round_trip(v: MarkersView, s: Stream, rest: Seq<u8>)
    requires
        marker_chunk_fits(v),
        holds(s.advance(-4), marker_chunk_bytes(v) + rest),
    ensures
        get_marker_chunk(s) == Ok::<(MarkersView, Stream), Failed>(
            (normal_markers(v), s.advance(4 + padded(2 + markers_bytes(v.markers).len()))),
        ),
        holds(s.advance(4 + padded(2 + markers_bytes(v.markers).len())), rest),
{
    lemma_numbers_round_trip();
    crate::chunks::lemma_markers_len(v.markers);
    let list = markers_bytes(v.markers);
    let len = 2 + list.len();
    let size = len as i32;
    let body = i32_be(size) + (u16_be(v.num_markers) + (list + (padding(len as int) + rest)));
    assert(marker_chunk_bytes(v) + rest =~= MARKER@ + body);
    lemma_behind_id(s, MARKER@, body);
    lemma_read_i32(s, size, u16_be(v.num_markers) + (list + (padding(len as int) + rest)));
    let s1 = s.advance(4);
    lemma_read_u16(s1, v.num_markers, list + (padding(len as int) + rest));
    let s2 = s1.advance(2);
    lemma_markers_round_trip(v.markers, s2, padding(len as int) + rest);
    let s3 = s2.advance(list.len() as int);
    lemma_read_padding(s3, len as int, rest);
    assert(s3.advance(len as int % 2) == s.advance(4 + padded(len)));
}

/// A comment that was written is read back.
pub proof fn lemma_comment_round_trip(v: CommentView, s: Stream, rest: Seq<u8>)
    requires
        comment_fits(v),
        holds(s, comment_bytes(v) + rest),
    ensures
        get_comment(s) == Ok::<(CommentView, Stream), Failed>(
            (v, s.advance(comment_bytes(v).len() as int)),
        ),
        holds(s.advance(comment_bytes(v).len() as int), rest),
{
    lemma_numbers_round_trip();
    assert(comment_bytes(v) + rest =~= u32_be(v.timestamp) + (i16_be(v.marker_id) + (u16_be(
        v.count,
    ) + (encode_utf8(v.text) + rest))));
    lemma_read_u32(
        s,
        v.timestamp,
        i16_be(v.marker_id) + (u16_be(v.count) + (encode_utf8(v.text) + rest)),
    );
    lemma_read_i16(s.advance(4), v.marker_id, u16_be(v.count) + (encode_utf8(v.text) + rest));
    lemma_read_u16(s.advance(4).advance(2), v.count, encode_utf8(v.text) + rest);
    lemma_read_utf8(s.advance(4).advance(2).advance(2), v.text, rest);
    assert(s.advance(4).advance(2).advance(2).advance(encode_utf8(v.text).len() as int)
        == s.advance(comment_bytes(v).len() as int));
}

/// Comments that were written are read back.
pub proof fn lemma_comments_round_trip(comments: Seq<CommentView>, s: Stream, rest: Seq<u8>)
    requires
        forall|i: int| 0 <= i < comments.len() ==> comment_fits(#[trigger] comments[i]),
        holds(s, comments_bytes(comments) + rest),
    ensures
        get_comments(s, comments.len()) == Ok::<(Seq<CommentView>, Stream), Failed>(
            (comments, s.advance(comments_bytes(comments).len() as int)),
        ),
        holds(s.advance(comments_bytes(comments).len() as int), rest),
    decreases comments.len(),
{
    if comments.len() == 0 {
        assert(comments_bytes(comments) + rest =~= rest);
        assert(s.advance(0) == s);
        assert(comments =~= Seq::<CommentView>::empty());
    } else {
        let init = comments.drop_last();
        let last = comments.last();
        assert(comments_bytes(comments) + rest =~= comments_bytes(init) + (comment_bytes(last)
            + rest));
        lemma_comments_round_trip(init, s, comment_bytes(last) + rest);
        let s1 = s.advance(comments_bytes(init).len() as int);
        lemma_comment_round_trip(last, s1, rest);
        assert(s1.advance(comment_bytes(last).len() as int) == s.advance(
            comments_bytes(comments).len() as int,
        ));
        assert(init.push(last) =~= comments);
    }
}

/// The comments chunk as it is read back: with the size that was written.
pub open spec fn normal_comments(v: CommentsView) -> CommentsView {
    CommentsView { size: (2 + comments_bytes(v.comments).len()) as i32, ..v }
}

/// A comments chunk that was written is read back.
pub proof fn lemma_comments_chunk_round_trip(v: CommentsView, s: Stream, rest: Seq<u8>)
    requires
        comments_chunk_fits(v),
        holds(s.advance(-4), comments_chunk_bytes(v) + rest),
    ensures
        get_comments_chunk(s) == Ok::<(CommentsView, Stream), Failed>(
            (normal_comments(v), s.advance(4 + padded(2 + comments_bytes(v.comments).len()))),
        ),
        holds(s.advance(4 + padded(2 + comments_bytes(v.comments).len())), rest),
{
    lemma_numbers_round_trip();
    let list = comments_bytes(v.comments);
    let len = 2 + list.len();
    let size = len as i32;
    let body = i32_be(size) + (u16_be(v.num_comments) + (list + (padding(len as int) + rest)));
    assert(comments_chunk_bytes(v) + rest =~= COMMENTS@ + body);
    lemma_behind_id(s, COMMENTS@, body);
    lemma_read_i32(s, size, u16_be(v.num_comments) + (list + (padding(len as int) + rest)));
    let s1 = s.advance(4);
    lemma_read_u16(s1, v.num_comments, list + (padding(len as int) + rest));
    let s2 = s1.advance(2);
    lemma_comments_round_trip(v.comments, s2, padding(len as int) + rest);
    let s3 = s2.advance(list.len() as int);
    lemma_read_padding(s3, len as int, rest);
    assert(s3.advance(len as int % 2) == s.advance(4 + padded(len)));
}

/// The identifiers byte by byte.
pub proof fn lemma_id_bytes()
    ensures
        COMMON@ =~= seq![0x43u8, 0x4f, 0x4d, 0x4d],
        SOUND@ =~= seq![0x53u8, 0x53, 0x4e, 0x44],
        MARKER@ =~= seq![0x4du8, 0x41, 0x52, 0x4b],
        INSTRUMENT@ =~= seq![0x49u8, 0x4e, 0x53, 0x54],
        MIDI@ =~= seq![0x4du8, 0x49, 0x44, 0x49],
        RECORDING@ =~= seq![0x41u8, 0x45, 0x53, 0x44],
        APPLICATION@ =~= seq![0x41u8, 0x50, 0x50, 0x4c],
        COMMENTS@ =~= seq![0x43u8, 0x4f, 0x4d, 0x54],
        NAME@ =~= seq![0x4eu8, 0x41, 0x4d, 0x45],
        AUTHOR@ =~= seq![0x41u8, 0x55, 0x54, 0x48],
        COPYRIGHT@ =~= seq![0x28u8, 0x63, 0x29, 0x20],
        ANNOTATION@ =~= seq![0x41u8, 0x4e, 0x4e, 0x4f],
        FORMAT_VER@ =~= seq![0x46u8, 0x56, 0x45, 0x52],
        FORM@ =~= seq![0x46u8, 0x4f, 0x52, 0x4d],
{
}

/// Each kind of chunk is told by its identifier.
pub proof fn lemma_chunk_kinds()
    ensures
        chunk_kind(COMMON) == Some(ChunkKind::Common),
        chunk_kind(SOUND) == Some(ChunkKind::Sound),
        chunk_kind(MARKER) == Some(ChunkKind::Marker),
        chunk_kind(INSTRUMENT) == Some(ChunkKind::Instrument),
        chunk_kind(MIDI) == Some(ChunkKind::Midi),
        chunk_kind(RECORDING) == Some(ChunkKind::Recording),
        chunk_kind(APPLICATION) == Some(ChunkKind::Application),
        chunk_kind(COMMENTS) == Some(ChunkKind::Comments),
        forall|kind: TextChunkType| chunk_kind(#[trigger] text_id(kind)) == Some(ChunkKind::Text),
        chunk_kind(FORMAT_VER) == Some(ChunkKind::FormatVersion),
{
    lemma_id_bytes();
    assert(COMMON@[3] != COMMENTS@[3]);
    assert(MARKER@[1] != MIDI@[1]);
    assert(RECORDING@[1] != APPLICATION@[1]);
    assert forall|kind: TextChunkType| chunk_kind(#[trigger] text_id(kind)) == Some(
        ChunkKind::Text,
    ) by {
        lemma_text_kinds(kind);
        let id = text_id(kind);
        assert(id@[0] != COMMON@[0] || id@[1] != COMMON@[1]);
        assert(id@[0] != SOUND@[0]);
        assert(id@[0] != MARKER@[0]);
        assert(id@[0] != INSTRUMENT@[0]);
        assert(id@[0] != MIDI@[0]);
        assert(id@[1] != RECORDING@[1]);
        assert(id@[1] != APPLICATION@[1]);
        assert(id@[0] != COMMENTS@[0] || id@[1] != COMMENTS@[1]);
    }
    assert(text_kind(FORMAT_VER) is None) by {
        assert(FORMAT_VER@[0] != NAME@[0]);
        assert(FORMAT_VER@[0] != AUTHOR@[0]);
        assert(FORMAT_VER@[0] != COPYRIGHT@[0]);
        assert(FORMAT_VER@[0] != ANNOTATION@[0]);
    }
    assert(text_kind(COMMENTS) is None) by {
        assert(COMMENTS@[0] != NAME@[0]);
        assert(COMMENTS@[0] != AUTHOR@[0]);
        assert(COMMENTS@[0] != COPYRIGHT@[0]);
        assert(COMMENTS@[0] != ANNOTATION@[0]);
    }
}

/// An identifier that the stream holds is read back.
pub proof fn lemma_read_id(s: Stream, id: ChunkID, rest: Seq<u8>)
    requires
        holds(s, id@ + rest),
    ensures
        get_id(s) == Ok::<(ChunkID, Stream), Failed>((id, s.advance(4))),
        holds(s.advance(4), rest),
{
    lemma_holds_split(s, id@, rest);
    let b = id@;
    assert([b[0], b[1], b[2], b[3]] =~= id);
}

/// Reading a container's chunks goes on behind a chunk that can be read.
pub proof fn lemma_children_step(s: Stream, met: Children, id: ChunkID, child: ChildView, n: int)
    requires
        0 < n <= s.left(),
        get_id(s) == Ok::<(ChunkID, Stream), Failed>((id, s.advance(4))),
        get_child(id, s.advance(4)) == Ok::<(ChildView, Stream), Failed>(
            (child, s.advance(n)),
        ),
    ensures
        get_children(s, met) == get_children(s.advance(n), met.with(child)),
{
    reveal(get_children);
}

/// Where fewer than four bytes are left, the chunks met are all there are.
pub proof fn lemma_children_end(s: Stream, met: Children)
    requires
        s.left() < 4,
    ensures
        get_children(s, met) == Ok::<(Children, Stream), Failed>((met, s)),
{
    reveal(get_children);
}

/// What is read behind the identifier `COMMON`.
pub proof fn lemma_dispatch_common(s: Stream, v: CommonChunk, behind: Stream)
    requires
        get_common(s) == Ok::<(CommonChunk, Stream), Failed>((v, behind)),
    ensures
        get_child(COMMON, s) == Ok::<(ChildView, Stream), Failed>(
            (ChildView::Common(v), behind),
        ),
{
    reveal(get_child);
    lemma_chunk_kinds();
}

/// What is read behind the identifier `SOUND`.
pub proof fn lemma_dispatch_sound(s: Stream, v: SoundDataView, behind: Stream)
    requires
        get_sound(s) == Ok::<(SoundDataView, Stream), Failed>((v, behind)),
    ensures
        get_child(SOUND, s) == Ok::<(ChildView, Stream), Failed>(
            (ChildView::Sound(v), behind),
        ),
{
    reveal(get_child);
    lemma_chunk_kinds();
}

/// What is read behind the identifier `MARKER`.
pub proof fn lemma_dispatch_markers(s: Stream, v: MarkersView, behind: Stream)
    requires
        get_marker_chunk(s) == Ok::<(MarkersView, Stream), Failed>((v, behind)),
    ensures
        get_child(MARKER, s) == Ok::<(ChildView, Stream), Failed>(
            (ChildView::Markers(v), behind),
        ),
{
    reveal(get_child);
    lemma_chunk_kinds();
}

/// What is read behind the identifier `INSTRUMENT`.
pub proof fn lemma_dispatch_instrument(s: Stream, v: InstrumentChunk, behind: Stream)
    requires
        get_instrument(s) == Ok::<(InstrumentChunk, Stream), Failed>((v, behind)),
    ensures
        get_child(INSTRUMENT, s) == Ok::<(ChildView, Stream), Failed>(
            (ChildView::Instrument(v), behind),
        ),
{
    reveal(get_child);
    lemma_chunk_kinds();
}

/// What is read behind the identifier `MIDI`.
pub proof fn lemma_dispatch_midi(s: Stream, v: MidiDataView, behind: Stream)
    requires
        get_midi(s) == Ok::<(MidiDataView, Stream), Failed>((v, behind)),
    ensures
        get_child(MIDI, s) == Ok::<(ChildView, Stream), Failed>(
            (ChildView::Midi(v), behind),
        ),
{
    reveal(get_child);
    lemma_chunk_kinds();
}

/// What is read behind the identifier `RECORDING`.
pub proof fn lemma_dispatch_recording(s: Stream, v: AudioRecordingChunk, behind: Stream)
    requires
        get_recording(s) == Ok::<(AudioRecordingChunk, Stream), Failed>((v, behind)),
    ensures
        get_child(RECORDING, s) == Ok::<(ChildView, Stream), Failed>(
            (ChildView::Recording(v), behind),
        ),
{
    reveal(get_child);
    lemma_chunk_kinds();
}

/// What is read behind the identifier `APPLICATION`.
pub proof fn lemma_dispatch_app(s: Stream, v: AppView, behind: Stream)
    requires
        get_app(s) == Ok::<(AppView, Stream), Failed>((v, behind)),
    ensures
        get_child(APPLICATION, s) == Ok::<(ChildView, Stream), Failed>(
            (ChildView::App(v), behind),
        ),
{
    reveal(get_child);
    lemma_chunk_kinds();
}

/// What is read behind the identifier `COMMENTS`.
pub proof fn lemma_dispatch_comments(s: Stream, v: CommentsView, behind: Stream)
    requires
        get_comments_chunk(s) == Ok::<(CommentsView, Stream), Failed>((v, behind)),
    ensures
        get_child(COMMENTS, s) == Ok::<(ChildView, Stream), Failed>(
            (ChildView::Comments(v), behind),
        ),
{
    reveal(get_child);
    lemma_chunk_kinds();
}

/// What is read behind the identifier of a kind of text.
pub proof fn lemma_dispatch_text(s: Stream, kind: TextChunkType, v: TextView, behind: Stream)
    requires
        get_text_chunk(s) == Ok::<(TextView, Stream), Failed>((v, behind)),
    ensures
        get_child(text_id(kind), s) == Ok::<(ChildView, Stream), Failed>(
            (ChildView::Text(v), behind),
        ),
{
    reveal(get_child);
    lemma_chunk_kinds();
}

/// A common chunk that was written is met when the chunks of a container are
/// read, and reading goes on behind it.
pub proof fn lemma_child_common(v: CommonChunk, s: Stream, met: Children, rest: Seq<u8>)
    requires
        holds(s, common_bytes(v) + rest),
    ensures
        get_children(s, met) == get_children(
            s.advance(common_bytes(v).len() as int),
            met.with(ChildView::Common(v)),
        ),
        holds(s.advance(common_bytes(v).len() as int), rest),
{
    let id = COMMON;
    let n = common_bytes(v).len() as int;
    let whole = common_bytes(v) + rest;
    assert(whole =~= id@ + whole.skip(4)) by {
        lemma_numbers_round_trip();
    }
    lemma_read_id(s, id, whole.skip(4));
    let body = s.advance(4);
    assert(body.advance(-4) == s);
    lemma_common_round_trip(v, body, rest);
    assert(n == 4 + (22)) by {
        lemma_numbers_round_trip();
    }
    assert(body.advance(22) == s.advance(n));
    lemma_dispatch_common(body, v, s.advance(n));
    lemma_children_step(s, met, id, ChildView::Common(v), n);
}

/// Sound data that was written is met when the chunks of a container are
/// read, and reading goes on behind it.
pub proof fn lemma_child_sound(v: SoundDataView, s: Stream, met: Children, rest: Seq<u8>)
    requires
        sound_fits(v),
        holds(s, sound_bytes(v) + rest),
    ensures
        get_children(s, met) == get_children(
            s.advance(sound_bytes(v).len() as int),
            met.with(ChildView::Sound(normal_sound(v))),
        ),
        holds(s.advance(sound_bytes(v).len() as int), rest),
{
    let id = SOUND;
    let n = sound_bytes(v).len() as int;
    let whole = sound_bytes(v) + rest;
    assert(whole =~= id@ + whole.skip(4)) by {
        lemma_numbers_round_trip();
    }
    lemma_read_id(s, id, whole.skip(4));
    let body = s.advance(4);
    assert(body.advance(-4) == s);
    lemma_sound_round_trip(v, body, rest);
    assert(n == 4 + (12 + padded(v.sound_data.len()))) by {
        lemma_numbers_round_trip();
    }
    assert(body.advance(12 + padded(v.sound_data.len())) == s.advance(n));
    lemma_dispatch_sound(body, normal_sound(v), s.advance(n));
    lemma_children_step(s, met, id, ChildView::Sound(normal_sound(v)), n);
}

/// A marker chunk that was written is met when the chunks of a container are
/// read, and reading goes on behind it.
pub proof fn lemma_child_markers(v: MarkersView, s: Stream, met: Children, rest: Seq<u8>)
    requires
        marker_chunk_fits(v),
        holds(s, marker_chunk_bytes(v) + rest),
    ensures
        get_children(s, met) == get_children(
            s.advance(marker_chunk_bytes(v).len() as int),
            met.with(ChildView::Markers(normal_markers(v))),
        ),
        holds(s.advance(marker_chunk_bytes(v).len() as int), rest),
{
    let id = MARKER;
    let n = marker_chunk_bytes(v).len() as int;
    let whole = marker_chunk_bytes(v) + rest;
    assert(whole =~= id@ + whole.skip(4)) by {
        lemma_numbers_round_trip();
    }
    lemma_read_id(s, id, whole.skip(4));
    let body = s.advance(4);
    assert(body.advance(-4) == s);
    lemma_marker_chunk_round_trip(v, body, rest);
    assert(n == 4 + (4 + padded(2 + markers_bytes(v.markers).len()))) by {
        lemma_numbers_round_trip();
    }
    assert(body.advance(4 + padded(2 + markers_bytes(v.markers).len())) == s.advance(n));
    lemma_dispatch_markers(body, normal_markers(v), s.advance(n));
    lemma_children_step(s, met, id, ChildView::Markers(normal_markers(v)), n);
}

/// An instrument chunk that was written is met when the chunks of a container are
/// read, and reading goes on behind it.
pub proof fn lemma_child_instrument(v: InstrumentChunk, s: Stream, met: Children, rest: Seq<u8>)
    requires
        holds(s, instrument_bytes(v) + rest),
    ensures
        get_children(s, met) == get_children(
            s.advance(instrument_bytes(v).len() as int),
            met.with(ChildView::Instrument(normal_instrument(v))),
        ),
        holds(s.advance(instrument_bytes(v).len() as int), rest),
{
    let id = INSTRUMENT;
    let n = instrument_bytes(v).len() as int;
    let whole = instrument_bytes(v) + rest;
    assert(whole =~= id@ + whole.skip(4)) by {
        lemma_numbers_round_trip();
    }
    lemma_read_id(s, id, whole.skip(4));
    let body = s.advance(4);
    assert(body.advance(-4) == s);
    lemma_instrument_round_trip(v, body, rest);
    assert(n == 4 + (24)) by {
        lemma_numbers_round_trip();
    }
    assert(body.advance(24) == s.advance(n));
    lemma_dispatch_instrument(body, normal_instrument(v), s.advance(n));
    lemma_children_step(s, met, id, ChildView::Instrument(normal_instrument(v)), n);
}

/// MIDI data that was written is met when the chunks of a container are
/// read, and reading goes on behind it.
pub proof fn lemma_child_midi(v: MidiDataView, s: Stream, met: Children, rest: Seq<u8>)
    requires
        midi_fits(v),
        holds(s, midi_bytes(v) + rest),
    ensures
        get_children(s, met) == get_children(
            s.advance(midi_bytes(v).len() as int),
            met.with(ChildView::Midi(normal_midi(v))),
        ),
        holds(s.advance(midi_bytes(v).len() as int), rest),
{
    let id = MIDI;
    let n = midi_bytes(v).len() as int;
    let whole = midi_bytes(v) + rest;
    assert(whole =~= id@ + whole.skip(4)) by {
        lemma_numbers_round_trip();
    }
    lemma_read_id(s, id, whole.skip(4));
    let body = s.advance(4);
    assert(body.advance(-4) == s);
    lemma_midi_round_trip(v, body, rest);
    assert(n == 4 + (4 + padded(v.data.len()))) by {
        lemma_numbers_round_trip();
    }
    assert(body.advance(4 + padded(v.data.len())) == s.advance(n));
    lemma_dispatch_midi(body, normal_midi(v), s.advance(n));
    lemma_children_step(s, met, id, ChildView::Midi(normal_midi(v)), n);
}

/// A recording chunk that was written is met when the chunks of a container are
/// read, and reading goes on behind it.
pub proof fn lemma_child_recording(v: AudioRecordingChunk, s: Stream, met: Children, rest: Seq<u8>)
    requires
        holds(s, recording_bytes(v) + rest),
    ensures
        get_children(s, met) == get_children(
            s.advance(recording_bytes(v).len() as int),
            met.with(ChildView::Recording(normal_recording(v))),
        ),
        holds(s.advance(recording_bytes(v).len() as int), rest),
{
    let id = RECORDING;
    let n = recording_bytes(v).len() as int;
    let whole = recording_bytes(v) + rest;
    assert(whole =~= id@ + whole.skip(4)) by {
        lemma_numbers_round_trip();
    }
    lemma_read_id(s, id, whole.skip(4));
    let body = s.advance(4);
    assert(body.advance(-4) == s);
    lemma_recording_round_trip(v, body, rest);
    assert(n == 4 + (28)) by {
        lemma_numbers_round_trip();
    }
    assert(body.advance(28) == s.advance(n));
    lemma_dispatch_recording(body, normal_recording(v), s.advance(n));
    lemma_children_step(s, met, id, ChildView::Recording(normal_recording(v)), n);
}

/// An application-specific chunk on the wire begins with its identifier
/// and takes twelve bytes more than its padded data.
pub proof fn lemma_app_bytes(v: AppView, rest: Seq<u8>)
    requires
        app_fits(v),
    ensures
        app_bytes(v).len() == 12 + padded(app_data(v).len()),
        app_bytes(v) + rest =~= APPLICATION@ + (app_bytes(v) + rest).skip(4),
{
    lemma_numbers_round_trip();
    match v {
        AppView::OP1 { data } => {
            assert(app_bytes(v).len() == 12 + padded(data.len()));
        },
        AppView::UnknownApplication { data, .. } => {
            assert(app_bytes(v).len() == 12 + padded(data.len()));
        },
    }
}

/// An application-specific chunk that was written is met when the chunks
/// of a container are read, and reading goes on behind it.
pub proof fn lemma_child_app(v: AppView, s: Stream, met: Children, rest: Seq<u8>)
    requires
        app_fits(v),
        holds(s, app_bytes(v) + rest),
    ensures
        get_children(s, met) == get_children(
            s.advance(app_bytes(v).len() as int),
            met.with(ChildView::App(normal_app(v))),
        ),
        holds(s.advance(app_bytes(v).len() as int), rest),
{
    lemma_app_bytes(v, rest);
    let n = app_bytes(v).len() as int;
    let whole = app_bytes(v) + rest;
    lemma_read_id(s, APPLICATION, whole.skip(4));
    let body = s.advance(4);
    assert(body.advance(-4) == s);
    lemma_app_round_trip(v, body, rest);
    assert(body.advance(8 + padded(app_data(v).len())) == s.advance(n));
    lemma_dispatch_app(body, normal_app(v), s.advance(n));
    lemma_children_step(s, met, APPLICATION, ChildView::App(normal_app(v)), n);
}

/// A comments chunk that was written is met when the chunks of a container are
/// read, and reading goes on behind it.
pub proof fn lemma_child_comments(v: CommentsView, s: Stream, met: Children, rest: Seq<u8>)
    requires
        comments_chunk_fits(v),
        holds(s, comments_chunk_bytes(v) + rest),
    ensures
        get_children(s, met) == get_children(
            s.advance(comments_chunk_bytes(v).len() as int),
            met.with(ChildView::Comments(normal_comments(v))),
        ),
        holds(s.advance(comments_chunk_bytes(v).len() as int), rest),
{
    let id = COMMENTS;
    let n = comments_chunk_bytes(v).len() as int;
    let whole = comments_chunk_bytes(v) + rest;
    assert(whole =~= id@ + whole.skip(4)) by {
        lemma_numbers_round_trip();
    }
    lemma_read_id(s, id, whole.skip(4));
    let body = s.advance(4);
    assert(body.advance(-4) == s);
    lemma_comments_chunk_round_trip(v, body, rest);
    assert(n == 4 + (4 + padded(2 + comments_bytes(v.comments).len()))) by {
        lemma_numbers_round_trip();
    }
    assert(body.advance(4 + padded(2 + comments_bytes(v.comments).len())) == s.advance(n));
    lemma_dispatch_comments(body, normal_comments(v), s.advance(n));
    lemma_children_step(s, met, id, ChildView::Comments(normal_comments(v)), n);
}

/// A text chunk that was written is met when the chunks of a container are
/// read, and reading goes on behind it.
pub proof fn lemma_child_text(v: TextView, s: Stream, met: Children, rest: Seq<u8>)
    requires
        text_fits(v),
        holds(s, text_chunk_bytes(v) + rest),
    ensures
        get_children(s, met) == get_children(
            s.advance(text_chunk_bytes(v).len() as int),
            met.with(ChildView::Text(normal_text(v))),
        ),
        holds(s.advance(text_chunk_bytes(v).len() as int), rest),
{
    let id = text_id(v.chunk_type);
    let n = text_chunk_bytes(v).len() as int;
    let whole = text_chunk_bytes(v) + rest;
    assert(whole =~= id@ + whole.skip(4)) by {
        lemma_numbers_round_trip();
    }
    lemma_read_id(s, id, whole.skip(4));
    let body = s.advance(4);
    assert(body.advance(-4) == s);
    lemma_text_round_trip(v, body, rest);
    assert(n == 4 + (4 + padded(encode_utf8(v.text).len()))) by {
        lemma_numbers_round_trip();
    }
    assert(body.advance(4 + padded(encode_utf8(v.text).len())) == s.advance(n));
    lemma_dispatch_text(body, v.chunk_type, normal_text(v), s.advance(n));
    lemma_children_step(s, met, id, ChildView::Text(normal_text(v)), n);
}

/// A list of application-specific chunks as it is read back.
pub open spec fn normal_apps(items: Seq<AppView>) -> Seq<AppView> {
    items.map_values(|v: AppView| normal_app(v))
}

/// A run of application-specific chunks that was written is met when the chunks of a container
/// are read, and reading goes on behind it.
pub proof fn lemma_children_apps(items: Seq<AppView>, s: Stream, met: Children, rest: Seq<u8>)
    requires
        all_fit::<ApplicationSpecificChunk>(items),
        holds(s, all_encoded::<ApplicationSpecificChunk>(items) + rest),
    ensures
        get_children(s, met) == get_children(
            s.advance(all_encoded::<ApplicationSpecificChunk>(items).len() as int),
            Children { app: met.app + normal_apps(items), ..met },
        ),
        holds(s.advance(all_encoded::<ApplicationSpecificChunk>(items).len() as int), rest),
    decreases items.len(),
{
    if items.len() == 0 {
        assert(all_encoded::<ApplicationSpecificChunk>(items) + rest =~= rest);
        assert(s.advance(0) == s);
        assert(met.app + normal_apps(items) =~= met.app);
    } else {
        let init = items.drop_last();
        let last = items.last();
        let behind = ApplicationSpecificChunk::encoded(last) + rest;
        assert(all_encoded::<ApplicationSpecificChunk>(items) + rest =~= all_encoded::<
            ApplicationSpecificChunk,
        >(init) + behind);
        assert(all_fit::<ApplicationSpecificChunk>(init)) by {
            assert forall|i: int| 0 <= i < init.len() implies ApplicationSpecificChunk::fits(
                #[trigger] init[i],
            ) by {
                assert(init[i] == items[i]);
            }
        }
        lemma_children_apps(init, s, met, behind);
        let s1 = s.advance(all_encoded::<ApplicationSpecificChunk>(init).len() as int);
        let met1 = Children { app: met.app + normal_apps(init), ..met };
        assert(ApplicationSpecificChunk::fits(items[items.len() - 1]));
        lemma_child_app(last, s1, met1, rest);
        assert(s1.advance(ApplicationSpecificChunk::encoded(last).len() as int) == s.advance(
            all_encoded::<ApplicationSpecificChunk>(items).len() as int,
        ));
        assert((met.app + normal_apps(init)).push(normal_app(last)) =~= met.app
            + normal_apps(items));
    }
}

/// A list of MIDI data chunks as it is read back.
pub open spec fn normal_midis(items: Seq<MidiDataView>) -> Seq<MidiDataView> {
    items.map_values(|v: MidiDataView| normal_midi(v))
}

/// A run of MIDI data chunks that was written is met when the chunks of a container
/// are read, and reading goes on behind it.
pub proof fn lemma_children_midis(items: Seq<MidiDataView>, s: Stream, met: Children, rest: Seq<u8>)
    requires
        all_fit::<MIDIDataChunk>(items),
        holds(s, all_encoded::<MIDIDataChunk>(items) + rest),
    ensures
        get_children(s, met) == get_children(
            s.advance(all_encoded::<MIDIDataChunk>(items).len() as int),
            Children { midi: met.midi + normal_midis(items), ..met },
        ),
        holds(s.advance(all_encoded::<MIDIDataChunk>(items).len() as int), rest),
    decreases items.len(),
{
    if items.len() == 0 {
        assert(all_encoded::<MIDIDataChunk>(items) + rest =~= rest);
        assert(s.advance(0) == s);
        assert(met.midi + normal_midis(items) =~= met.midi);
    } else {
        let init = items.drop_last();
        let last = items.last();
        let behind = MIDIDataChunk::encoded(last) + rest;
        assert(all_encoded::<MIDIDataChunk>(items) + rest =~= all_encoded::<MIDIDataChunk>(init)
            + behind);
        assert(all_fit::<MIDIDataChunk>(init)) by {
            assert forall|i: int| 0 <= i < init.len() implies MIDIDataChunk::fits(
                #[trigger] init[i],
            ) by {
                assert(init[i] == items[i]);
            }
        }
        lemma_children_midis(init, s, met, behind);
        let s1 = s.advance(all_encoded::<MIDIDataChunk>(init).len() as int);
        let met1 = Children { midi: met.midi + normal_midis(init), ..met };
        assert(MIDIDataChunk::fits(items[items.len() - 1]));
        lemma_child_midi(last, s1, met1, rest);
        assert(s1.advance(MIDIDataChunk::encoded(last).len() as int) == s.advance(
            all_encoded::<MIDIDataChunk>(items).len() as int,
        ));
        assert((met.midi + normal_midis(init)).push(normal_midi(last)) =~= met.midi
            + normal_midis(items));
    }
}

/// A list of text chunks as it is read back.
pub open spec fn normal_texts(items: Seq<TextView>) -> Seq<TextView> {
    items.map_values(|v: TextView| normal_text(v))
}

/// A run of text chunks that was written is met when the chunks of a container
/// are read, and reading goes on behind it.
pub proof fn lemma_children_texts(items: Seq<TextView>, s: Stream, met: Children, rest: Seq<u8>)
    requires
        all_fit::<TextChunk>(items),
        holds(s, all_encoded::<TextChunk>(items) + rest),
    ensures
        get_children(s, met) == get_children(
            s.advance(all_encoded::<TextChunk>(items).len() as int),
            Children { texts: met.texts + normal_texts(items), ..met },
        ),
        holds(s.advance(all_encoded::<TextChunk>(items).len() as int), rest),
    decreases items.len(),
{
    if items.len() == 0 {
        assert(all_encoded::<TextChunk>(items) + rest =~= rest);
        assert(s.advance(0) == s);
        assert(met.texts + normal_texts(items) =~= met.texts);
    } else {
        let init = items.drop_last();
        let last = items.last();
        let behind = TextChunk::encoded(last) + rest;
        assert(all_encoded::<TextChunk>(items) + rest =~= all_encoded::<TextChunk>(init) + behind);
        assert(all_fit::<TextChunk>(init)) by {
            assert forall|i: int| 0 <= i < init.len() implies TextChunk::fits(
                #[trigger] init[i],
            ) by {
                assert(init[i] == items[i]);
            }
        }
        lemma_children_texts(init, s, met, behind);
        let s1 = s.advance(all_encoded::<TextChunk>(init).len() as int);
        let met1 = Children { texts: met.texts + normal_texts(init), ..met };
        assert(TextChunk::fits(items[items.len() - 1]));
        lemma_child_text(last, s1, met1, rest);
        assert(s1.advance(TextChunk::encoded(last).len() as int) == s.advance(
            all_encoded::<TextChunk>(items).len() as int,
        ));
        assert((met.texts + normal_texts(init)).push(normal_text(last)) =~= met.texts
            + normal_texts(items));
    }
}

/// A comments chunk that may be absent, as it is read back.
pub open spec fn normal_optional_comments(item: Option<CommentsView>) -> Option<CommentsView> {
    match item {
        None => None,
        Some(v) => Some(normal_comments(v)),
    }
}

/// A comments chunk that was written, if there was one, is met when the chunks of a
/// container are read, and reading goes on behind it.
pub proof fn lemma_children_comments(
    item: Option<CommentsView>,
    s: Stream,
    met: Children,
    rest: Seq<u8>,
)
    requires
        optional_fits::<CommentsChunk>(item),
        holds(s, optional_encoded::<CommentsChunk>(item) + rest),
    ensures
        get_children(s, met) == get_children(
            s.advance(optional_encoded::<CommentsChunk>(item).len() as int),
            match item {
                None => met,
                Some(v) => Children { comments: Some(normal_comments(v)), ..met },
            },
        ),
        holds(s.advance(optional_encoded::<CommentsChunk>(item).len() as int), rest),
{
    match item {
        None => {
            assert(optional_encoded::<CommentsChunk>(item) + rest =~= rest);
            assert(s.advance(0) == s);
        },
        Some(v) => {
            lemma_child_comments(v, s, met, rest);
        },
    }
}

/// A instrument chunk that may be absent, as it is read back.
pub open spec fn normal_optional_instrument(
    item: Option<InstrumentChunk>,
) -> Option<InstrumentChunk> {
    match item {
        None => None,
        Some(v) => Some(normal_instrument(v)),
    }
}

/// A instrument chunk that was written, if there was one, is met when the chunks of a
/// container are read, and reading goes on behind it.
pub proof fn lemma_children_instrument(
    item: Option<InstrumentChunk>,
    s: Stream,
    met: Children,
    rest: Seq<u8>,
)
    requires
        optional_fits::<InstrumentChunk>(item),
        holds(s, optional_encoded::<InstrumentChunk>(item) + rest),
    ensures
        get_children(s, met) == get_children(
            s.advance(optional_encoded::<InstrumentChunk>(item).len() as int),
            match item {
                None => met,
                Some(v) => Children { instrument: Some(normal_instrument(v)), ..met },
            },
        ),
        holds(s.advance(optional_encoded::<InstrumentChunk>(item).len() as int), rest),
{
    match item {
        None => {
            assert(optional_encoded::<InstrumentChunk>(item) + rest =~= rest);
            assert(s.advance(0) == s);
        },
        Some(v) => {
            lemma_child_instrument(v, s, met, rest);
        },
    }
}

/// A recording chunk that may be absent, as it is read back.
pub open spec fn normal_optional_recording(
    item: Option<AudioRecordingChunk>,
) -> Option<AudioRecordingChunk> {
    match item {
        None => None,
        Some(v) => Some(normal_recording(v)),
    }
}

/// A recording chunk that was written, if there was one, is met when the chunks of a
/// container are read, and reading goes on behind it.
pub proof fn lemma_children_recording(
    item: Option<AudioRecordingChunk>,
    s: Stream,
    met: Children,
    rest: Seq<u8>,
)
    requires
        optional_fits::<AudioRecordingChunk>(item),
        holds(s, optional_encoded::<AudioRecordingChunk>(item) + rest),
    ensures
        get_children(s, met) == get_children(
            s.advance(optional_encoded::<AudioRecordingChunk>(item).len() as int),
            match item {
                None => met,
                Some(v) => Children { recording: Some(normal_recording(v)), ..met },
            },
        ),
        holds(s.advance(optional_encoded::<AudioRecordingChunk>(item).len() as int), rest),
{
    match item {
        None => {
            assert(optional_encoded::<AudioRecordingChunk>(item) + rest =~= rest);
            assert(s.advance(0) == s);
        },
        Some(v) => {
            lemma_child_recording(v, s, met, rest);
        },
    }
}

/// A marker chunk that may be absent, as it is read back.
pub open spec fn normal_optional_markers(item: Option<MarkersView>) -> Option<MarkersView> {
    match item {
        None => None,
        Some(v) => Some(normal_markers(v)),
    }
}

/// A marker chunk that was written, if there was one, is met when the chunks of a
/// container are read, and reading goes on behind it.
pub proof fn lemma_children_markers(
    item: Option<MarkersView>,
    s: Stream,
    met: Children,
    rest: Seq<u8>,
)
    requires
        optional_fits::<MarkerChunk>(item),
        holds(s, optional_encoded::<MarkerChunk>(item) + rest),
    ensures
        get_children(s, met) == get_children(
            s.advance(optional_encoded::<MarkerChunk>(item).len() as int),
            match item {
                None => met,
                Some(v) => Children { markers: Some(normal_markers(v)), ..met },
            },
        ),
        holds(s.advance(optional_encoded::<MarkerChunk>(item).len() as int), rest),
{
    match item {
        None => {
            assert(optional_encoded::<MarkerChunk>(item) + rest =~= rest);
            assert(s.advance(0) == s);
        },
        Some(v) => {
            lemma_child_markers(v, s, met, rest);
        },
    }
}

/// A sound data that may be absent, as it is read back.
pub open spec fn normal_optional_sound(item: Option<SoundDataView>) -> Option<SoundDataView> {
    match item {
        None => None,
        Some(v) => Some(normal_sound(v)),
    }
}

/// A sound data that was written, if there was one, is met when the chunks of a
/// container are read, and reading goes on behind it.
pub proof fn lemma_children_sound(
    item: Option<SoundDataView>,
    s: Stream,
    met: Children,
    rest: Seq<u8>,
)
    requires
        optional_fits::<SoundDataChunk>(item),
        holds(s, optional_encoded::<SoundDataChunk>(item) + rest),
    ensures
        get_children(s, met) == get_children(
            s.advance(optional_encoded::<SoundDataChunk>(item).len() as int),
            match item {
                None => met,
                Some(v) => Children { sound: Some(normal_sound(v)), ..met },
            },
        ),
        holds(s.advance(optional_encoded::<SoundDataChunk>(item).len() as int), rest),
{
    match item {
        None => {
            assert(optional_encoded::<SoundDataChunk>(item) + rest =~= rest);
            assert(s.advance(0) == s);
        },
        Some(v) => {
            lemma_child_sound(v, s, met, rest);
        },
    }
}

/// A container as it is read back: with every size as it was written.
pub open spec fn normal_form(v: FormView) -> FormView {
    FormView {
        size: (4 + children_bytes(v).len()) as i32,
        form_type: v.form_type,
        common: v.common,
        sound: normal_optional_sound(v.sound),
        comments: normal_optional_comments(v.comments),
        instrument: normal_optional_instrument(v.instrument),
        recording: normal_optional_recording(v.recording),
        markers: normal_optional_markers(v.markers),
        texts: normal_texts(v.texts),
        midi: normal_midis(v.midi),
        app: normal_apps(v.app),
    }
}

/// The chunks of a container as they are met when it is read back.
pub open spec fn normal_children(v: FormView) -> Children {
    Children {
        common: Some(v.common),
        sound: normal_optional_sound(v.sound),
        comments: normal_optional_comments(v.comments),
        instrument: normal_optional_instrument(v.instrument),
        recording: normal_optional_recording(v.recording),
        markers: normal_optional_markers(v.markers),
        texts: normal_texts(v.texts),
        midi: normal_midis(v.midi),
        app: normal_apps(v.app),
    }
}

/// The chunks of a container that were written are read back, each as it
/// was written, up to the end of the input.
#[verifier::rlimit(60)]
pub proof fn lemma_children_round_trip(v: FormView, s: Stream)
    requires
        children_fit(v),
        holds(s, children_bytes(v)),
        s.left() == children_bytes(v).len(),
    ensures
        get_children(s, Children::none()) == Ok::<(Children, Stream), Failed>(
            (normal_children(v), s.advance(children_bytes(v).len() as int)),
        ),
{
    let t8 = optional_encoded::<SoundDataChunk>(v.sound);
    let t7 = common_bytes(v.common) + t8;
    let t6 = optional_encoded::<MarkerChunk>(v.markers) + t7;
    let t5 = optional_encoded::<AudioRecordingChunk>(v.recording) + t6;
    let t4 = optional_encoded::<InstrumentChunk>(v.instrument) + t5;
    let t3 = optional_encoded::<CommentsChunk>(v.comments) + t4;
    let t2 = all_encoded::<TextChunk>(v.texts) + t3;
    let t1 = all_encoded::<MIDIDataChunk>(v.midi) + t2;
    let m0 = Children::none();
    lemma_children_apps(v.app, s, m0, t1);
    let s1 = s.advance(all_encoded::<ApplicationSpecificChunk>(v.app).len() as int);
    let m1 = Children { app: m0.app + normal_apps(v.app), ..m0 };
    lemma_children_midis(v.midi, s1, m1, t2);
    let s2 = s1.advance(all_encoded::<MIDIDataChunk>(v.midi).len() as int);
    let m2 = Children { midi: m1.midi + normal_midis(v.midi), ..m1 };
    lemma_children_texts(v.texts, s2, m2, t3);
    let s3 = s2.advance(all_encoded::<TextChunk>(v.texts).len() as int);
    let m3 = Children { texts: m2.texts + normal_texts(v.texts), ..m2 };
    lemma_children_comments(v.comments, s3, m3, t4);
    let s4 = s3.advance(optional_encoded::<CommentsChunk>(v.comments).len() as int);
    let m4 = Children { comments: normal_optional_comments(v.comments), ..m3 };
    lemma_children_instrument(v.instrument, s4, m4, t5);
    let s5 = s4.advance(optional_encoded::<InstrumentChunk>(v.instrument).len() as int);
    let m5 = Children { instrument: normal_optional_instrument(v.instrument), ..m4 };
    lemma_children_recording(v.recording, s5, m5, t6);
    let s6 = s5.advance(optional_encoded::<AudioRecordingChunk>(v.recording).len() as int);
    let m6 = Children { recording: normal_optional_recording(v.recording), ..m5 };
    lemma_children_markers(v.markers, s6, m6, t7);
    let s7 = s6.advance(optional_encoded::<MarkerChunk>(v.markers).len() as int);
    let m7 = Children { markers: normal_optional_markers(v.markers), ..m6 };
    lemma_child_common(v.common, s7, m7, t8);
    let s8 = s7.advance(common_bytes(v.common).len() as int);
    let m8 = Children { common: Some(v.common), ..m7 };
    assert(t8 + Seq::<u8>::empty() =~= t8);
    lemma_children_sound(v.sound, s8, m8, Seq::empty());
    let s9 = s8.advance(t8.len() as int);
    let m9 = Children { sound: normal_optional_sound(v.sound), ..m8 };
    assert(s9 == s.advance(children_bytes(v).len() as int));
    lemma_children_end(s9, m9);
    assert(m0.app + normal_apps(v.app) =~= normal_apps(v.app));
    assert(m1.midi + normal_midis(v.midi) =~= normal_midis(v.midi));
    assert(m2.texts + normal_texts(v.texts) =~= normal_texts(v.texts));
    assert(m9 == normal_children(v));
}

/// A container behind whose identifier, size and form type the chunks are
/// read is made of those chunks.
pub proof fn lemma_form_of_children(s: Stream, size: i32, form_type: ChunkID)
    requires
        get_id(s) == Ok::<(ChunkID, Stream), Failed>((FORM, s.advance(4))),
        get_i32(s.advance(4)) == Ok::<(i32, Stream), Failed>((size, s.advance(8))),
        get_id(s.advance(8)) == Ok::<(ChunkID, Stream), Failed>((form_type, s.advance(12))),
        form_type == AIFF || form_type == AIFF_C,
    ensures
        get_form(s) == assembled(size, form_type, get_children(s.advance(12), Children::none())),
{
}

/// What the written container holds at its start.
#[verifier::rlimit(40)]
pub proof fn lemma_form_header(v: FormView)
    ensures
        form_bytes(v).len() == 12 + children_bytes(v).len(),
        holds(Stream { data: form_bytes(v), pos: 0 }, form_bytes(v)),
        holds(Stream { data: form_bytes(v), pos: 12 }, children_bytes(v)),
{
    lemma_numbers_round_trip();
    let data = form_bytes(v);
    assert(data.subrange(0, data.len() as int) =~= data);
    assert(data.subrange(12, data.len() as int) =~= children_bytes(v));
}

/// A container that was written is read back as it was, but for the size
/// fields, which have the sizes that were written: the size of the container
/// is the number of bytes behind its first eight, and the size of each chunk
/// the number of bytes of its data.
#[verifier::rlimit(40)]
pub proof fn lemma_form_round_trip(v: FormView)
    requires
        form_fits(v),
    ensures
        get_form(Stream { data: form_bytes(v), pos: 0 }) == Ok::<(FormView, Stream), Failed>(
            (normal_form(v), Stream { data: form_bytes(v), pos: form_bytes(v).len() as int }),
        ),
{
    let data = form_bytes(v);
    let s = Stream { data, pos: 0 };
    let size = (4 + children_bytes(v).len()) as i32;
    let children = children_bytes(v);
    lemma_form_header(v);
    lemma_read_id(s, FORM, i32_be(size) + (v.form_type@ + children));
    lemma_read_i32(s.advance(4), size, v.form_type@ + children);
    assert(s.advance(4).advance(4) == s.advance(8));
    lemma_read_id(s.advance(8), v.form_type, children);
    assert(s.advance(8).advance(4) == s.advance(12));
    lemma_form_of_children(s, size, v.form_type);
    lemma_children_round_trip(v, s.advance(12));
    assert(s.advance(12).advance(children.len() as int) == Stream {
        data,
        pos: data.len() as int,
    });
}

/// A container whose form type is neither of the two accepted is refused,
/// and the refusal names the four bytes of the form type.
pub proof fn lemma_form_type_refused(data: Seq<u8>)
    requires
        data.len() >= 12,
        data.subrange(0, 4) == FORM@,
        data.subrange(8, 12) != AIFF@,
        data.subrange(8, 12) != AIFF_C@,
    ensures
        get_form(Stream { data, pos: 0 }) == Err::<(FormView, Stream), Failed>(
            (
                ChunkError::InvalidFormType([data[8], data[9], data[10], data[11]]),
                Stream { data, pos: 12 },
            ),
        ),
{
    let s = Stream { data, pos: 0 };
    let id: ChunkID = [data[0], data[1], data[2], data[3]];
    assert(id@ =~= data.subrange(0, 4));
    assert(id =~= FORM);
    let form_type: ChunkID = [data[8], data[9], data[10], data[11]];
    assert(form_type@ =~= data.subrange(8, 12));
    let b = data.subrange(0, 4);
    assert([b[0], b[1], b[2], b[3]] =~= id);
    let t = data.subrange(8, 12);
    assert([t[0], t[1], t[2], t[3]] =~= form_type);
    assert(get_id(s) == Ok::<(ChunkID, Stream), Failed>((id, s.advance(4))));
    assert(get_i32(s.advance(4)) is Ok);
    assert(get_id(s.advance(4).advance(4)) == Ok::<(ChunkID, Stream), Failed>(
        (form_type, s.advance(4).advance(4).advance(4)),
    ));
}

/// Whether an application-specific chunk is one that reading could have
/// given: patch text without a zero byte, or the chunk of another
/// application under another signature.
pub open spec fn app_readable(v: AppView) -> bool {
    match v {
        AppView::OP1 { data } => text_end(data) == data.len(),
        AppView::UnknownApplication { application_signature, .. } => application_signature
            != OP_1,
    }
}

/// Whether the marker chunk records the number of its markers and every
/// name fits its length byte.
pub open spec fn markers_readable(v: Option<MarkersView>) -> bool {
    v matches Some(c) ==> marker_chunk_fits(c)
}

/// Whether the comments chunk records the number of its comments and each
/// comment the length of its text.
pub open spec fn comments_readable(v: Option<CommentsView>) -> bool {
    v matches Some(c) ==> c.num_comments == c.comments.len() && forall|i: int|
        0 <= i < c.comments.len() ==> comment_fits(#[trigger] c.comments[i])
}

/// Whether the chunks met are such as reading gives.
pub open spec fn children_readable(met: Children) -> bool {
    &&& forall|i: int| 0 <= i < met.app.len() ==> app_readable(#[trigger] met.app[i])
    &&& markers_readable(met.markers)
    &&& comments_readable(met.comments)
}

/// Whether a container is such as reading gives: what `form_fits` asks
/// but for the lengths.
pub open spec fn form_readable(v: FormView) -> bool {
    &&& v.form_type == AIFF || v.form_type == AIFF_C
    &&& v.common.num_sample_frames == frames(v.sound)
    &&& forall|i: int| 0 <= i < v.app.len() ==> app_readable(#[trigger] v.app[i])
    &&& markers_readable(v.markers)
    &&& comments_readable(v.comments)
}

/// The text before the first zero byte holds no zero byte.
pub proof fn lemma_text_end_prefix(data: Seq<u8>)
    ensures
        0 <= text_end(data) <= data.len(),
        text_end(data.subrange(0, text_end(data))) == text_end(data),
    decreases data.len(),
{
    if data.len() == 0 || data[0] == 0 {
        assert(data.subrange(0, 0).len() == 0);
    } else {
        lemma_text_end_prefix(data.skip(1));
        let end = text_end(data);
        assert(data.subrange(0, end).skip(1) =~= data.skip(1).subrange(0, end - 1));
        assert(data.subrange(0, end)[0] == data[0]);
    }
}

/// An application-specific chunk that was read is patch text without a
/// zero byte, or the chunk of another application.
pub proof fn lemma_read_app_readable(s: Stream)
    ensures
        get_app(s) matches Ok((v, _)) ==> app_readable(v),
{
    if let Ok((size, s1)) = get_i32(s) {
        if let Ok((id, s2)) = get_id(s1) {
            if size >= 4 {
                if let Ok((data, s3)) = get_bytes(s2, size - 4) {
                    lemma_text_end_prefix(data);
                }
            }
        }
    }
}

/// Text that was read takes as many bytes as were read for it.
pub proof fn lemma_read_utf8_len(s: Stream, n: int)
    ensures
        get_utf8(s, n) matches Ok((text, _)) ==> encode_utf8(text).len() == n,
        get_text(s, n) matches Ok((text, _)) ==> encode_utf8(text).len() == n,
{
    if let Ok((bytes, _)) = get_bytes(s, n) {
        if valid_utf8(bytes) {
            decode_utf8_encode_utf8(bytes);
        }
    }
}

/// A marker that was read has a name that fits its length byte.
pub proof fn lemma_read_marker_fits(s: Stream)
    ensures
        get_marker(s) matches Ok((v, _)) ==> marker_fits(v),
{
    if let Ok((_, s1)) = get_i16(s) {
        if let Ok((_, s2)) = get_u32(s1) {
            if let Ok((len, s3)) = get_u8(s2) {
                lemma_read_utf8_len(s3, len as int);
            }
        }
    }
}

/// Markers that were read are as many as were asked for, and each fits.
pub proof fn lemma_read_markers_fit(s: Stream, n: nat)
    ensures
        get_markers(s, n) matches Ok((markers, _)) ==> markers.len() == n && forall|i: int|
            0 <= i < markers.len() ==> marker_fits(#[trigger] markers[i]),
    decreases n,
{
    if n > 0 {
        lemma_read_markers_fit(s, (n - 1) as nat);
        if let Ok((_, s1)) = get_markers(s, (n - 1) as nat) {
            lemma_read_marker_fits(s1);
        }
    }
}

/// A comment that was read records the length of its text.
pub proof fn lemma_read_comment_fits(s: Stream)
    ensures
        get_comment(s) matches Ok((v, _)) ==> comment_fits(v),
{
    if let Ok((_, s1)) = get_u32(s) {
        if let Ok((_, s2)) = get_i16(s1) {
            if let Ok((count, s3)) = get_u16(s2) {
                lemma_read_utf8_len(s3, count as int);
            }
        }
    }
}

/// Comments that were read are as many as were asked for, and each records
/// the length of its text.
pub proof fn lemma_read_comments_fit(s: Stream, n: nat)
    ensures
        get_comments(s, n) matches Ok((comments, _)) ==> comments.len() == n && forall|i: int|
            0 <= i < comments.len() ==> comment_fits(#[trigger] comments[i]),
    decreases n,
{
    if n > 0 {
        lemma_read_comments_fit(s, (n - 1) as nat);
        if let Ok((_, s1)) = get_comments(s, (n - 1) as nat) {
            lemma_read_comment_fits(s1);
        }
    }
}

/// A marker chunk that was read can be written.
pub proof fn lemma_read_marker_chunk_fits(s: Stream)
    ensures
        get_marker_chunk(s) matches Ok((v, _)) ==> marker_chunk_fits(v),
{
    if let Ok((_, s1)) = get_i32(s) {
        if let Ok((n, s2)) = get_u16(s1) {
            lemma_read_markers_fit(s2, n as nat);
        }
    }
}

/// A comments chunk that was read records the number of its comments and
/// the length of each.
pub proof fn lemma_read_comments_chunk_fits(s: Stream)
    ensures
        get_comments_chunk(s) matches Ok((v, _)) ==> comments_readable(Some(v)),
{
    if let Ok((_, s1)) = get_i32(s) {
        if let Ok((n, s2)) = get_u16(s1) {
            lemma_read_comments_fit(s2, n as nat);
        }
    }
}

/// One more chunk read keeps the chunks met such as reading gives.
pub proof fn lemma_read_child_readable(id: ChunkID, s: Stream, met: Children)
    requires
        children_readable(met),
    ensures
        get_child(id, s) matches Ok((child, _)) ==> children_readable(met.with(child)),
{
    reveal(get_child);
    match chunk_kind(id) {
        Some(ChunkKind::Marker) => {
            lemma_read_marker_chunk_fits(s);
        },
        Some(ChunkKind::Comments) => {
            lemma_read_comments_chunk_fits(s);
        },
        Some(ChunkKind::Application) => {
            lemma_read_app_readable(s);
            if let Ok((v, _)) = get_app(s) {
                let after = met.with(ChildView::App(v));
                assert forall|i: int| 0 <= i < after.app.len() implies app_readable(
                    #[trigger] after.app[i],
                ) by {
                    if i < met.app.len() {
                        assert(after.app[i] == met.app[i]);
                    }
                }
            }
        },
        _ => {},
    }
}

/// The chunks of a container that were read are such as reading gives.
pub proof fn lemma_read_children_readable(s: Stream, met: Children)
    requires
        children_readable(met),
    ensures
        get_children(s, met) matches Ok((all, _)) ==> children_readable(all),
    decreases s.left(),
{
    reveal(get_children);
    if let Ok((id, body)) = get_id(s) {
        lemma_read_child_readable(id, body, met);
        if let Ok((child, rest)) = get_child(id, body) {
            if 0 <= rest.left() < s.left() {
                lemma_read_children_readable(rest, met.with(child));
            }
        }
    }
}

/// A container that was read is such as reading gives.
pub proof fn lemma_read_form_readable(s: Stream)
    ensures
        get_form(s) matches Ok((v, _)) ==> form_readable(v),
{
    if let Ok((id, s1)) = get_id(s) {
        if let Ok((size, s2)) = get_i32(s1) {
            if let Ok((form_type, s3)) = get_id(s2) {
                lemma_read_children_readable(s3, Children::none());
            }
        }
    }
}

/// A chunk of a list takes no more bytes than the list.
pub proof fn lemma_all_encoded_bound<T: Chunk>(items: Seq<T::V>, i: int)
    requires
        0 <= i < items.len(),
    ensures
        T::encoded(items[i]).len() <= all_encoded::<T>(items).len(),
    decreases items.len(),
{
    if i < items.len() - 1 {
        lemma_all_encoded_bound::<T>(items.drop_last(), i);
    }
}

/// A container such as reading gives can be written if its chunks fit the
/// container's size field.
pub proof fn lemma_readable_fits(v: FormView)
    requires
        form_readable(v),
        4 + children_bytes(v).len() <= i32::MAX,
    ensures
        form_fits(v),
{
    lemma_numbers_round_trip();
    assert forall|i: int| 0 <= i < v.app.len() implies app_fits(#[trigger] v.app[i]) by {
        lemma_all_encoded_bound::<ApplicationSpecificChunk>(v.app, i);
        assert(app_readable(v.app[i]));
    }
    assert forall|i: int| 0 <= i < v.midi.len() implies midi_fits(#[trigger] v.midi[i]) by {
        lemma_all_encoded_bound::<MIDIDataChunk>(v.midi, i);
    }
    assert forall|i: int| 0 <= i < v.texts.len() implies text_fits(#[trigger] v.texts[i]) by {
        lemma_all_encoded_bound::<TextChunk>(v.texts, i);
    }
}

/// Reading a container, writing what was read and reading that again gives
/// what was read the first time, but for the size fields, which then have
/// the sizes that were written. This holds of every container that can be
/// read and is small enough for its size field when written.
pub proof fn lemma_read_write_read(data: Seq<u8>, v: FormView)
    requires
        get_form(Stream { data, pos: 0 }) matches Ok((got, _)) && got == v,
        4 + children_bytes(v).len() <= i32::MAX,
    ensures
        form_fits(v),
        get_form(Stream { data: form_bytes(v), pos: 0 }) matches Ok((again, _)) && again
            == normal_form(v),
{
    lemma_read_form_readable(Stream { data, pos: 0 });
    lemma_readable_fits(v);
    lemma_form_round_trip(v);
}

/// Writing an unsigned number that four bytes spell gives the four bytes.
pub proof fn lemma_unsigned_bytes_round_trip(b: Seq<u8>)
    requires
        b.len() == 4,
    ensures
        u32_be(be_u32(b)) == b,
{
    let u = b[0] as int * 0x100_0000 + b[1] as int * 0x1_0000 + b[2] as int * 0x100 + b[3] as int;
    assert(be_u32(b) as int == u);
    assert(u / 0x100_0000 == b[0] as int);
    assert(u / 0x1_0000 == b[0] as int * 0x100 + b[1] as int);
    assert(u / 0x100 == b[0] as int * 0x1_0000 + b[1] as int * 0x100 + b[2] as int);
    assert(u / 0x1_0000 % 0x100 == b[1] as int);
    assert(u / 0x100 % 0x100 == b[2] as int);
    assert(u % 0x100 == b[3] as int);
    assert(u32_be(be_u32(b)) =~= b);
}

/// Writing a signed number that four bytes spell gives the four bytes.
pub proof fn lemma_bytes_round_trip(b: Seq<u8>)
    requires
        b.len() == 4,
    ensures
        i32_be(be_i32(b)) == b,
{
    lemma_unsigned_bytes_round_trip(b);
    let u = be_u32(b);
    let v = be_i32(b);
    let back = (if v < 0 {
        v as int + 0x1_0000_0000
    } else {
        v as int
    }) as u32;
    assert(back == u);
}

/// The chunk of another application that was read is written as the bytes
/// it was read from, pad byte and all, where the pad byte was zero.
pub proof fn lemma_unknown_rewritten(s: Stream, v: AppView, behind: Stream)
    requires
        4 <= s.pos,
        s.data.subrange(s.pos - 4, s.pos as int) == APPLICATION@,
        get_app(s) == Ok::<(AppView, Stream), Failed>((v, behind)),
        v is UnknownApplication,
        app_data(v).len() % 2 == 1 ==> s.data[behind.pos - 1] == 0,
    ensures
        app_bytes(v) == s.data.subrange(s.pos - 4, behind.pos as int),
{
    let size = get_i32(s)->Ok_0.0;
    let s1 = s.advance(4);
    let id = get_id(s1)->Ok_0.0;
    let s2 = s1.advance(4);
    let data = get_bytes(s2, size - 4)->Ok_0.0;
    let s3 = s2.advance(size - 4);
    let size_bytes = s.data.subrange(s.pos, s.pos + 4);
    lemma_bytes_round_trip(size_bytes);
    assert(behind == s3.advance(size as int % 2));
    assert(data.len() == size - 4);
    assert(i32_be((data.len() + 4) as i32) == size_bytes);
    assert(id@ =~= s.data.subrange(s1.pos, s1.pos + 4));
    let written = APPLICATION@ + (size_bytes + (id@ + (data + padding(data.len() as int))));
    assert(app_bytes(v) == written);
    assert(behind.pos == s.pos + 8 + data.len() + data.len() % 2);
    assert(behind.pos <= s.data.len());
    assert(written =~= s.data.subrange(s.pos - 4, behind.pos as int));
}

} // verus!
