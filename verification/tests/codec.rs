use op1_patch::chunks::{
    kind_of, read_aif, same_id, text_kind_of, ApplicationSpecificChunk, AudioRecordingChunk,
    Chunk, ChunkError, ChunkKind, Comment, CommentsChunk, CommonChunk, FormChunk, InstrumentChunk,
    Loop, MIDIDataChunk, Marker, MarkerChunk, SoundDataChunk, TextChunk, TextChunkType, AIFF,
    AIFF_C, ANNOTATION, APPLICATION, AUTHOR, COMMENTS, COMMON, COPYRIGHT, FORM, FORMAT_VER,
    INSTRUMENT, MARKER, MIDI, NAME, OP_1, RATE_44100, RECORDING, SOUND,
};
use op1_patch::util::{
    put_i16_be, put_i32_be, put_i8_be, put_pstring, put_text, put_u16_be, put_u32_be, put_u8,
    read_chunk_id, read_i16_be, read_i32_be, read_i8_be, read_pstring, read_text, read_u16_be,
    read_u32_be, read_u8, read_utf8, Cursor,
};

fn cat(parts: &[&[u8]]) -> Vec<u8> {
    let mut out = Vec::new();
    for part in parts {
        out.extend_from_slice(part);
    }
    out
}

fn common_wire(frames: u32) -> Vec<u8> {
    cat(&[
        b"COMM",
        &18i32.to_be_bytes(),
        &1i16.to_be_bytes(),
        &frames.to_be_bytes(),
        &16i16.to_be_bytes(),
        &RATE_44100,
    ])
}

fn form_wire(children: &[&[u8]]) -> Vec<u8> {
    let body = cat(children);
    cat(&[b"FORM", &(body.len() as i32 + 4).to_be_bytes(), b"AIFF", &body])
}

fn written<T: Chunk>(chunk: &T) -> Vec<u8> {
    assert!(chunk.writable());
    let mut out = vec![0xee];
    let n = chunk.write(&mut out);
    assert_eq!(n, out.len() - 1);
    assert_eq!(n, chunk.byte_len());
    out.remove(0);
    out
}

#[test]
fn identifiers_are_their_four_letters() {
    assert_eq!(&FORM, b"FORM");
    assert_eq!(&AIFF, b"AIFF");
    assert_eq!(&AIFF_C, b"AIFC");
    assert_eq!(&COMMON, b"COMM");
    assert_eq!(&SOUND, b"SSND");
    assert_eq!(&MARKER, b"MARK");
    assert_eq!(&INSTRUMENT, b"INST");
    assert_eq!(&MIDI, b"MIDI");
    assert_eq!(&RECORDING, b"AESD");
    assert_eq!(&APPLICATION, b"APPL");
    assert_eq!(&COMMENTS, b"COMT");
    assert_eq!(&NAME, b"NAME");
    assert_eq!(&AUTHOR, b"AUTH");
    assert_eq!(&COPYRIGHT, b"(c) ");
    assert_eq!(&ANNOTATION, b"ANNO");
    assert_eq!(&FORMAT_VER, b"FVER");
    assert_eq!(&OP_1, b"op-1");
}

#[test]
fn identifiers_name_their_kinds() {
    assert_eq!(kind_of(b"COMM"), Some(ChunkKind::Common));
    assert_eq!(kind_of(b"SSND"), Some(ChunkKind::Sound));
    assert_eq!(kind_of(b"MARK"), Some(ChunkKind::Marker));
    assert_eq!(kind_of(b"INST"), Some(ChunkKind::Instrument));
    assert_eq!(kind_of(b"MIDI"), Some(ChunkKind::Midi));
    assert_eq!(kind_of(b"AESD"), Some(ChunkKind::Recording));
    assert_eq!(kind_of(b"APPL"), Some(ChunkKind::Application));
    assert_eq!(kind_of(b"COMT"), Some(ChunkKind::Comments));
    assert_eq!(kind_of(b"NAME"), Some(ChunkKind::Text));
    assert_eq!(kind_of(b"AUTH"), Some(ChunkKind::Text));
    assert_eq!(kind_of(b"(c) "), Some(ChunkKind::Text));
    assert_eq!(kind_of(b"ANNO"), Some(ChunkKind::Text));
    assert_eq!(kind_of(b"FVER"), Some(ChunkKind::FormatVersion));
    assert_eq!(kind_of(b"FORM"), None);
    assert_eq!(kind_of(b"comm"), None);
    assert_eq!(text_kind_of(b"NAME"), Some(TextChunkType::Name));
    assert_eq!(text_kind_of(b"AUTH"), Some(TextChunkType::Author));
    assert_eq!(text_kind_of(b"(c) "), Some(TextChunkType::Copyright));
    assert_eq!(text_kind_of(b"ANNO"), Some(TextChunkType::Annotation));
    assert_eq!(text_kind_of(b"COMT"), None);
    assert!(same_id(b"abcd", b"abcd"));
    assert!(!same_id(b"abcd", b"abce"));
    assert!(!same_id(b"abcd", b"bbcd"));
}

#[test]
fn numbers_are_read_high_byte_first() {
    let mut r = Cursor::new(vec![
        0xfe, 0x12, 0x34, 0x89, 0xab, 0xcd, 0xef, 0x80, 0xff, 0xfe, 0xff, 0xff, 0xff, 0xfd, 0x7f,
        0x41, 0x42, 0x43, 0x44,
    ]);
    assert_eq!(r.remaining(), 19);
    assert_eq!(read_u8(&mut r), Ok(0xfe));
    assert_eq!(read_u16_be(&mut r), Ok(0x1234));
    assert_eq!(read_u32_be(&mut r), Ok(0x89ab_cdef));
    assert_eq!(read_i8_be(&mut r), Ok(-128));
    assert_eq!(read_i16_be(&mut r), Ok(-2));
    assert_eq!(read_i32_be(&mut r), Ok(-3));
    assert_eq!(read_i8_be(&mut r), Ok(127));
    assert_eq!(r.position(), 15);
    assert_eq!(read_chunk_id(&mut r), Ok(*b"ABCD"));
    assert_eq!(r.remaining(), 0);
}

#[test]
fn reading_past_the_end_is_refused() {
    assert_eq!(read_u8(&mut Cursor::new(vec![])), Err(ChunkError::UnexpectedEof));
    assert_eq!(read_i8_be(&mut Cursor::new(vec![])), Err(ChunkError::UnexpectedEof));
    assert_eq!(read_u16_be(&mut Cursor::new(vec![1])), Err(ChunkError::UnexpectedEof));
    assert_eq!(read_i16_be(&mut Cursor::new(vec![1])), Err(ChunkError::UnexpectedEof));
    assert_eq!(read_u32_be(&mut Cursor::new(vec![1, 2, 3])), Err(ChunkError::UnexpectedEof));
    assert_eq!(read_i32_be(&mut Cursor::new(vec![1, 2, 3])), Err(ChunkError::UnexpectedEof));
    assert_eq!(read_chunk_id(&mut Cursor::new(vec![1, 2, 3])), Err(ChunkError::UnexpectedEof));
    assert_eq!(read_pstring(&mut Cursor::new(vec![3, b'a', b'b'])), Err(ChunkError::UnexpectedEof));
    assert_eq!(Cursor::new(vec![1, 2]).read_bytes(3), Err(ChunkError::UnexpectedEof));
    let mut r = Cursor::new(vec![1, 2]);
    assert_eq!(r.seek(3), Err(ChunkError::UnexpectedEof));
    assert_eq!(r.seek(2), Ok(()));
    assert_eq!(r.remaining(), 0);
    assert_eq!(r.read_bytes(0), Ok(vec![]));
}

#[test]
fn numbers_are_written_high_byte_first() {
    let mut out = Vec::new();
    put_u8(&mut out, 0xfe);
    put_u16_be(&mut out, 0x1234);
    put_u32_be(&mut out, 0x89ab_cdef);
    put_i8_be(&mut out, -128);
    put_i16_be(&mut out, -2);
    put_i32_be(&mut out, -3);
    put_i8_be(&mut out, 127);
    put_i16_be(&mut out, 0x0102);
    put_i32_be(&mut out, i32::MIN);
    assert_eq!(
        out,
        vec![
            0xfe, 0x12, 0x34, 0x89, 0xab, 0xcd, 0xef, 0x80, 0xff, 0xfe, 0xff, 0xff, 0xff, 0xfd,
            0x7f, 0x01, 0x02, 0x80, 0, 0, 0
        ]
    );
}

#[test]
fn a_string_of_odd_length_is_followed_by_a_pad_byte() {
    let mut r = Cursor::new(vec![3, b'a', b'b', b'c', 0x55, 2, b'd', b'e', 0, 9]);
    assert_eq!(read_pstring(&mut r), Ok("abc".to_string()));
    assert_eq!(r.position(), 5);
    assert_eq!(read_pstring(&mut r), Ok("de".to_string()));
    assert_eq!(r.position(), 8);
    assert_eq!(read_pstring(&mut r), Ok(String::new()));
    assert_eq!(r.position(), 9);
    assert_eq!(read_pstring(&mut Cursor::new(vec![1, b'a'])), Err(ChunkError::UnexpectedEof));
}

#[test]
fn text_is_read_as_utf8() {
    let mut r = Cursor::new(vec![0xc3, 0xa9, b'x', 0, b'y']);
    assert_eq!(read_text(&mut r, 3), Ok("\u{e9}x".to_string()));
    assert_eq!(r.position(), 4);
    let mut r = Cursor::new(vec![0xc3, 0xa9, b'x', 0, b'y']);
    assert_eq!(read_utf8(&mut r, 3), Ok("\u{e9}x".to_string()));
    assert_eq!(r.position(), 3);
    assert_eq!(read_utf8(&mut Cursor::new(vec![0xc3, 0x28]), 2), Err(ChunkError::InvalidText));
    assert_eq!(read_text(&mut Cursor::new(vec![0xff, 0]), 1), Err(ChunkError::InvalidText));
    assert_eq!(read_pstring(&mut Cursor::new(vec![2, 0xc3, 0x28])), Err(ChunkError::InvalidText));
    assert_eq!(read_text(&mut Cursor::new(vec![0xff]), 1), Err(ChunkError::UnexpectedEof));
}

#[test]
fn text_is_written_with_its_pad() {
    let mut out = Vec::new();
    put_text(&mut out, &"abc".to_string());
    put_text(&mut out, &"\u{e9}".to_string());
    put_pstring(&mut out, &"xyz".to_string());
    put_pstring(&mut out, &"".to_string());
    put_pstring(&mut out, &"hi".to_string());
    assert_eq!(
        out,
        vec![b'a', b'b', b'c', 0, 0xc3, 0xa9, 3, b'x', b'y', b'z', 0, 0, 2, b'h', b'i']
    );
}

#[test]
fn a_small_container_is_read() {
    let data = form_wire(&[
        &common_wire(77),
        b"SSND",
        &12i32.to_be_bytes(),
        &5u32.to_be_bytes(),
        &6u32.to_be_bytes(),
        &[1, 2, 3, 4],
    ]);
    let form = read_aif(data).unwrap();
    assert_eq!(form.size, 50);
    assert_eq!(form.form_type, AIFF);
    assert_eq!(form.common.num_channels, 1);
    assert_eq!(form.common.bit_rate, 16);
    assert_eq!(form.common.sample_rate, RATE_44100);
    assert_eq!(form.common.num_sample_frames, 2);
    let sound = form.sound.unwrap();
    assert_eq!(sound.size, 12);
    assert_eq!(sound.offset, 5);
    assert_eq!(sound.block_size, 6);
    assert_eq!(sound.sound_data, vec![1, 2, 3, 4]);
    assert_eq!(sound.sample_frames(), 2);
    assert!(form.comments.is_none());
    assert!(form.instrument.is_none());
    assert!(form.recording.is_none());
    assert!(form.markers.is_none());
    assert!(form.texts.is_empty());
    assert!(form.midi.is_empty());
    assert!(form.app.is_empty());
}

#[test]
fn a_container_without_sound_has_no_frames() {
    let form = read_aif(form_wire(&[&common_wire(77)])).unwrap();
    assert_eq!(form.common.num_sample_frames, 0);
    assert!(form.sound.is_none());
}

#[test]
fn the_later_form_type_is_accepted_too() {
    let mut data = form_wire(&[&common_wire(0)]);
    data[8..12].copy_from_slice(b"AIFC");
    assert_eq!(read_aif(data).unwrap().form_type, AIFF_C);
}

#[test]
fn another_form_type_is_refused_and_reported() {
    let mut data = form_wire(&[&common_wire(0)]);
    data[8..12].copy_from_slice(b"WAVE");
    assert_eq!(read_aif(data).unwrap_err(), ChunkError::InvalidFormType(*b"WAVE"));
    let mut data = form_wire(&[&common_wire(0)]);
    data[8..12].copy_from_slice(b"aiff");
    assert_eq!(read_aif(data).unwrap_err(), ChunkError::InvalidFormType(*b"aiff"));
}

#[test]
fn a_file_that_is_no_container_is_refused() {
    let mut data = form_wire(&[&common_wire(0)]);
    data[0..4].copy_from_slice(b"RIFF");
    assert_eq!(read_aif(data).unwrap_err(), ChunkError::InvalidID(*b"RIFF"));
    assert_eq!(read_aif(vec![]).unwrap_err(), ChunkError::UnexpectedEof);
    assert_eq!(read_aif(b"FORM\0\0".to_vec()).unwrap_err(), ChunkError::UnexpectedEof);
    assert_eq!(read_aif(b"FORM\0\0\0\x04AI".to_vec()).unwrap_err(), ChunkError::UnexpectedEof);
}

#[test]
fn an_unknown_chunk_is_refused() {
    let data = form_wire(&[&common_wire(0), b"JUNK", &0i32.to_be_bytes()]);
    assert_eq!(read_aif(data).unwrap_err(), ChunkError::InvalidID(*b"JUNK"));
}

#[test]
fn the_format_version_is_not_supported() {
    let data = form_wire(&[&common_wire(0), b"FVER", &4i32.to_be_bytes(), &[0, 0, 0, 1]]);
    assert_eq!(read_aif(data).unwrap_err(), ChunkError::Unsupported);
}

#[test]
fn a_container_without_a_common_chunk_is_refused() {
    let data = form_wire(&[b"MIDI", &2i32.to_be_bytes(), &[1, 2]]);
    assert_eq!(read_aif(data).unwrap_err(), ChunkError::MissingCommon);
    assert_eq!(read_aif(form_wire(&[])).unwrap_err(), ChunkError::MissingCommon);
}

#[test]
fn a_chunk_that_ends_early_is_refused() {
    let mut data = form_wire(&[&common_wire(0)]);
    data.truncate(data.len() - 1);
    assert_eq!(read_aif(data).unwrap_err(), ChunkError::UnexpectedEof);
    let data = form_wire(&[&common_wire(0), b"MIDI", &3i32.to_be_bytes(), &[1, 2]]);
    assert_eq!(read_aif(data).unwrap_err(), ChunkError::UnexpectedEof);
    let data = form_wire(&[&common_wire(0), b"MIDI", &3i32.to_be_bytes(), &[1, 2, 3]]);
    assert_eq!(read_aif(data).unwrap_err(), ChunkError::UnexpectedEof);
}

#[test]
fn fewer_than_four_bytes_at_the_end_are_not_looked_at() {
    let data = form_wire(&[&common_wire(0), b"XY"]);
    assert!(read_aif(data).is_ok());
}

#[test]
fn sound_data_cut_short_is_kept() {
    let data = form_wire(&[
        &common_wire(0),
        b"SSND",
        &108i32.to_be_bytes(),
        &0u32.to_be_bytes(),
        &0u32.to_be_bytes(),
        &[9, 8, 7, 6, 5, 4],
    ]);
    let form = read_aif(data).unwrap();
    let sound = form.sound.unwrap();
    assert_eq!(sound.size, 14);
    assert_eq!(sound.sound_data, vec![9, 8, 7, 6, 5, 4]);
    assert_eq!(form.common.num_sample_frames, 3);
}

#[test]
fn sound_data_of_odd_length_is_followed_by_a_pad_byte() {
    let data = form_wire(&[
        b"SSND",
        &11i32.to_be_bytes(),
        &0u32.to_be_bytes(),
        &0u32.to_be_bytes(),
        &[9, 8, 7],
        &[0],
        &common_wire(0),
    ]);
    let form = read_aif(data).unwrap();
    assert_eq!(form.sound.unwrap().sound_data, vec![9, 8, 7]);
    assert_eq!(form.common.num_sample_frames, 1);
}

#[test]
fn sound_data_at_the_end_needs_no_pad_byte() {
    let data = form_wire(&[
        &common_wire(0),
        b"SSND",
        &11i32.to_be_bytes(),
        &0u32.to_be_bytes(),
        &0u32.to_be_bytes(),
        &[9, 8, 7],
    ]);
    let form = read_aif(data).unwrap();
    let sound = form.sound.as_ref().unwrap();
    assert_eq!(sound.size, 11);
    assert_eq!(sound.sound_data, vec![9, 8, 7]);
    assert_eq!(form.common.num_sample_frames, 1);
    let wire = written(&form);
    assert_eq!(&wire[wire.len() - 4..], &[9, 8, 7, 0]);
    assert_eq!(read_aif(wire).unwrap().sound.unwrap().sound_data, vec![9, 8, 7]);
}

#[test]
fn a_pad_byte_is_written_as_zero() {
    let file = form_wire(&[b"APPL", &5i32.to_be_bytes(), b"abcd", &[1, 0x77], &common_wire(0)]);
    let form = read_aif(file.clone()).unwrap();
    let wire = written(&form);
    assert_eq!(wire.len(), file.len());
    assert_eq!(file[25], 0x77);
    assert_eq!(wire[25], 0);
    assert_eq!(&wire[..25], &file[..25]);
    assert_eq!(&wire[26..], &file[26..]);
}

#[test]
fn a_sound_size_below_its_header_is_refused() {
    let data = form_wire(&[
        &common_wire(0),
        b"SSND",
        &7i32.to_be_bytes(),
        &0u32.to_be_bytes(),
        &0u32.to_be_bytes(),
    ]);
    assert_eq!(read_aif(data).unwrap_err(), ChunkError::InvalidSize(8, 7));
    let data = form_wire(&[
        &common_wire(0),
        b"SSND",
        &(-1i32).to_be_bytes(),
        &0u32.to_be_bytes(),
        &0u32.to_be_bytes(),
    ]);
    assert_eq!(read_aif(data).unwrap_err(), ChunkError::InvalidSize(8, -1));
}

#[test]
fn a_recording_chunk_must_declare_24_bytes() {
    let data = form_wire(&[&common_wire(0), b"AESD", &23i32.to_be_bytes(), &[0; 24]]);
    assert_eq!(read_aif(data).unwrap_err(), ChunkError::InvalidSize(24, 23));
    let status: Vec<u8> = (1..=24).collect();
    let data = form_wire(&[&common_wire(0), b"AESD", &24i32.to_be_bytes(), &status]);
    let recording = read_aif(data).unwrap().recording.unwrap();
    assert_eq!(recording.size, 24);
    assert_eq!(recording.data.to_vec(), status);
}

#[test]
fn negative_sizes_are_refused() {
    let data = form_wire(&[&common_wire(0), b"MIDI", &(-5i32).to_be_bytes()]);
    assert_eq!(read_aif(data).unwrap_err(), ChunkError::InvalidSize(0, -5));
    let data = form_wire(&[&common_wire(0), b"NAME", &(-1i32).to_be_bytes()]);
    assert_eq!(read_aif(data).unwrap_err(), ChunkError::InvalidSize(0, -1));
    let data = form_wire(&[&common_wire(0), b"APPL", &3i32.to_be_bytes(), b"op-1"]);
    assert_eq!(read_aif(data).unwrap_err(), ChunkError::InvalidSize(4, 3));
}

#[test]
fn texts_are_told_by_their_identifiers() {
    let data = form_wire(&[
        b"NAME",
        &3i32.to_be_bytes(),
        b"abc\0",
        b"AUTH",
        &2i32.to_be_bytes(),
        b"me",
        &common_wire(0),
        b"(c) ",
        &0i32.to_be_bytes(),
        b"ANNO",
        &5i32.to_be_bytes(),
        b"hello\0",
    ]);
    let form = read_aif(data).unwrap();
    let texts: Vec<(TextChunkType, i32, &str)> =
        form.texts.iter().map(|t| (t.chunk_type, t.size, t.text.as_str())).collect();
    assert_eq!(
        texts,
        vec![
            (TextChunkType::Name, 3, "abc"),
            (TextChunkType::Author, 2, "me"),
            (TextChunkType::Copyright, 0, ""),
            (TextChunkType::Annotation, 5, "hello"),
        ]
    );
}

#[test]
fn a_text_chunk_reads_its_identifier_again() {
    let mut r = Cursor::new(cat(&[b"AUTH", &2i32.to_be_bytes(), b"me"]));
    assert_eq!(read_chunk_id(&mut r), Ok(*b"AUTH"));
    let text = TextChunk::parse(&mut r).unwrap();
    assert_eq!(text.chunk_type, TextChunkType::Author);
    assert_eq!(text.text, "me");
    let mut r = Cursor::new(cat(&[b"MIDI", &2i32.to_be_bytes(), b"me"]));
    r.seek(4).unwrap();
    assert_eq!(TextChunk::parse(&mut r).unwrap_err(), ChunkError::InvalidID(*b"MIDI"));
    let mut r = Cursor::new(cat(&[b"AUTH", &2i32.to_be_bytes(), b"me"]));
    r.seek(3).unwrap();
    assert_eq!(TextChunk::parse(&mut r).unwrap_err(), ChunkError::UnexpectedEof);
}

#[test]
fn text_that_is_not_utf8_is_refused() {
    let data = form_wire(&[&common_wire(0), b"NAME", &2i32.to_be_bytes(), &[0xff, 0xfe]]);
    assert_eq!(read_aif(data).unwrap_err(), ChunkError::InvalidText);
}

#[test]
fn markers_and_comments_are_read() {
    let data = form_wire(&[
        &common_wire(0),
        b"MARK",
        &18i32.to_be_bytes(),
        &2u16.to_be_bytes(),
        &7i16.to_be_bytes(),
        &1000u32.to_be_bytes(),
        &[3, b'o', b'n', b'e', 0],
        &(-8i16).to_be_bytes(),
        &2000u32.to_be_bytes(),
        &[2, b't', b'o'],
        b"COMT",
        &21i32.to_be_bytes(),
        &2u16.to_be_bytes(),
        &11u32.to_be_bytes(),
        &7i16.to_be_bytes(),
        &3u16.to_be_bytes(),
        b"abc",
        &12u32.to_be_bytes(),
        &0i16.to_be_bytes(),
        &0u16.to_be_bytes(),
        &[0],
    ]);
    let form = read_aif(data).unwrap();
    let markers = form.markers.unwrap();
    assert_eq!(markers.size, 18);
    assert_eq!(markers.num_markers, 2);
    assert_eq!(markers.markers.len(), 2);
    assert_eq!(markers.markers[0].id, 7);
    assert_eq!(markers.markers[0].position, 1000);
    assert_eq!(markers.markers[0].marker_name, "one");
    assert_eq!(markers.markers[1].id, -8);
    assert_eq!(markers.markers[1].position, 2000);
    assert_eq!(markers.markers[1].marker_name, "to");
    let comments = form.comments.unwrap();
    assert_eq!(comments.size, 21);
    assert_eq!(comments.num_comments, 2);
    assert_eq!(comments.comments[0].timestamp, 11);
    assert_eq!(comments.comments[0].marker_id, 7);
    assert_eq!(comments.comments[0].count, 3);
    assert_eq!(comments.comments[0].text, "abc");
    assert_eq!(comments.comments[1].timestamp, 12);
    assert_eq!(comments.comments[1].text, "");
}

#[test]
fn markers_and_comments_are_read_one_by_one() {
    let mut r = Cursor::new(cat(&[&7i16.to_be_bytes(), &9u32.to_be_bytes(), &[1, b'x', 0]]));
    let marker = Marker::from_reader(&mut r).unwrap();
    assert_eq!((marker.id, marker.position, marker.marker_name.as_str()), (7, 9, "x"));
    assert_eq!(r.remaining(), 0);
    let mut r = Cursor::new(cat(&[&1u32.to_be_bytes(), &2i16.to_be_bytes(), &1u16.to_be_bytes(), b"yz"]));
    let comment = Comment::from_reader(&mut r).unwrap();
    assert_eq!(comment.text, "y");
    assert_eq!(r.remaining(), 1);
    let mut r = Cursor::new(vec![0, 1, 0xff, 0xff, 0x80, 0]);
    let l = Loop::from_reader(&mut r).unwrap();
    assert_eq!((l.play_mode, l.begin_loop, l.end_loop), (1, -1, -32768));
    assert_eq!(Loop::from_reader(&mut Cursor::new(vec![0; 5])).unwrap_err(), ChunkError::UnexpectedEof);
}

#[test]
fn the_instrument_chunk_is_read_and_written() {
    let wire = cat(&[
        b"INST",
        &20i32.to_be_bytes(),
        &[60, 0xce, 0, 127, 1, 0x80],
        &(-6i16).to_be_bytes(),
        &[0, 1, 0, 2, 0, 3],
        &[0, 2, 0xff, 0xfe, 0, 5],
    ]);
    let form = read_aif(form_wire(&[&common_wire(0), &wire])).unwrap();
    let inst = form.instrument.unwrap();
    assert_eq!(inst.size, 20);
    assert_eq!(inst.base_note, 60);
    assert_eq!(inst.detune, -50);
    assert_eq!(inst.low_note, 0);
    assert_eq!(inst.high_note, 127);
    assert_eq!(inst.low_velocity, 1);
    assert_eq!(inst.high_velocity, -128);
    assert_eq!(inst.gain, -6);
    assert_eq!(inst.sustain_loop.play_mode, 1);
    assert_eq!(inst.sustain_loop.begin_loop, 2);
    assert_eq!(inst.sustain_loop.end_loop, 3);
    assert_eq!(inst.release_loop.play_mode, 2);
    assert_eq!(inst.release_loop.begin_loop, -2);
    assert_eq!(inst.release_loop.end_loop, 5);
    assert_eq!(written(&inst), wire);
}

#[test]
fn patch_metadata_ends_at_the_first_zero_byte() {
    let chunk = |text: &[u8]| {
        form_wire(&[b"APPL", &(text.len() as i32 + 4).to_be_bytes(), b"op-1", text, &common_wire(0)])
    };
    let form = read_aif(chunk(b"{\"a\":1}\0")).unwrap();
    assert_eq!(form.patch_text(), Some(&b"{\"a\":1}".to_vec()));
    let form = read_aif(chunk(b"{\"a\":1}\0\0\0")).unwrap();
    assert_eq!(form.patch_text(), Some(&b"{\"a\":1}".to_vec()));
    let form = read_aif(chunk(b"{}")).unwrap();
    assert_eq!(form.patch_text(), Some(&b"{}".to_vec()));
    let form = read_aif(chunk(b"\0{}\0")).unwrap();
    assert_eq!(form.patch_text(), Some(&vec![]));
    let form = read_aif(chunk(b"ab\0cd\0")).unwrap();
    assert!(matches!(&form.app[0], ApplicationSpecificChunk::OP1 { data } if data == b"ab"));
}

#[test]
fn patch_metadata_is_written_with_an_even_length() {
    let odd = ApplicationSpecificChunk::OP1 { data: b"{\"a\":1}".to_vec() };
    assert_eq!(written(&odd), cat(&[b"APPL", &12i32.to_be_bytes(), b"op-1", b"{\"a\":1}\0"]));
    let even = ApplicationSpecificChunk::OP1 { data: b"{}".to_vec() };
    assert_eq!(written(&even), cat(&[b"APPL", &6i32.to_be_bytes(), b"op-1", b"{}"]));
    let with_zero = ApplicationSpecificChunk::OP1 { data: b"{\0}".to_vec() };
    assert!(!with_zero.writable());
}

#[test]
fn the_chunk_of_another_application_keeps_its_bytes() {
    for data in [vec![], vec![1], vec![1, 2], vec![0, 0, 9], vec![7; 255]] {
        let chunk = ApplicationSpecificChunk::UnknownApplication {
            size: 0,
            application_signature: *b"stoc",
            data: data.clone(),
        };
        let wire = written(&chunk);
        let pad: &[u8] = if data.len() % 2 == 1 { &[0] } else { &[] };
        assert_eq!(wire, cat(&[b"APPL", &(data.len() as i32 + 4).to_be_bytes(), b"stoc", &data, pad]));
        let mut r = Cursor::new(wire.clone());
        r.seek(4).unwrap();
        match ApplicationSpecificChunk::parse(&mut r).unwrap() {
            ApplicationSpecificChunk::UnknownApplication { size, application_signature, data: got } => {
                assert_eq!(size, data.len() as i32 + 4);
                assert_eq!(application_signature, *b"stoc");
                assert_eq!(got, data);
            }
            ApplicationSpecificChunk::OP1 { .. } => panic!("not patch metadata"),
        }
        assert_eq!(r.remaining(), 0);
        let file = form_wire(&[&wire, &common_wire(0)]);
        let form = read_aif(file.clone()).unwrap();
        assert_eq!(written(&form), file);
    }
}

#[test]
fn another_application_cannot_bear_the_patch_signature() {
    let chunk = ApplicationSpecificChunk::UnknownApplication {
        size: 6,
        application_signature: OP_1,
        data: vec![1, 2],
    };
    assert!(!chunk.writable());
}

#[test]
fn chunks_are_written_in_a_fixed_order() {
    let name = cat(&[b"NAME", &3i32.to_be_bytes(), b"abc\0"]);
    let midi = cat(&[b"MIDI", &1i32.to_be_bytes(), &[0x90, 0]]);
    let appl = cat(&[b"APPL", &6i32.to_be_bytes(), b"op-1", b"{}"]);
    let other = cat(&[b"APPL", &5i32.to_be_bytes(), b"abcd", &[1, 0]]);
    let comt = cat(&[b"COMT", &10i32.to_be_bytes(), &1u16.to_be_bytes(), &[0, 0, 0, 1, 0, 2, 0, 0]]);
    let inst = cat(&[b"INST", &20i32.to_be_bytes(), &[0; 20]]);
    let aesd = cat(&[b"AESD", &24i32.to_be_bytes(), &[3; 24]]);
    let mark = cat(&[b"MARK", &9i32.to_be_bytes(), &1u16.to_be_bytes(), &[0, 1, 0, 0, 0, 5, 0], &[0]]);
    let ssnd = cat(&[b"SSND", &10i32.to_be_bytes(), &[0; 8], &[5, 6]]);
    let comm = common_wire(1);
    let shuffled = form_wire(&[&ssnd, &mark, &comm, &name, &aesd, &other, &inst, &midi, &comt, &appl]);
    let form = read_aif(shuffled).unwrap();
    assert_eq!(form.app.len(), 2);
    assert!(matches!(form.app[0], ApplicationSpecificChunk::UnknownApplication { .. }));
    let ordered = form_wire(&[&other, &appl, &midi, &name, &comt, &inst, &aesd, &mark, &comm, &ssnd]);
    assert_eq!(written(&form), ordered);
}

#[test]
fn writing_and_reading_again_gives_the_same_container() {
    let form = FormChunk {
        size: -1,
        form_type: AIFF_C,
        common: CommonChunk {
            num_channels: 2,
            num_sample_frames: 3,
            bit_rate: 24,
            sample_rate: [1, 2, 3, 4, 5, 6, 7, 8, 9, 10],
        },
        sound: Some(SoundDataChunk { size: 0, offset: 1, block_size: 2, sound_data: vec![1, 2, 3, 4, 5, 6, 7] }),
        comments: Some(CommentsChunk {
            size: 0,
            num_comments: 2,
            comments: vec![
                Comment { timestamp: 1, marker_id: 2, count: 6, text: "h\u{e9}llo".to_string() },
                Comment { timestamp: 3, marker_id: -4, count: 0, text: String::new() },
            ],
        }),
        instrument: Some(InstrumentChunk {
            size: 99,
            base_note: 1,
            detune: -2,
            low_note: 3,
            high_note: -4,
            low_velocity: 5,
            high_velocity: -6,
            gain: -7,
            sustain_loop: Loop { play_mode: 1, begin_loop: 2, end_loop: 3 },
            release_loop: Loop { play_mode: 0, begin_loop: -1, end_loop: -2 },
        }),
        recording: Some(AudioRecordingChunk { size: 0, data: [9; 24] }),
        markers: Some(MarkerChunk {
            size: 0,
            num_markers: 3,
            markers: vec![
                Marker { id: 1, position: 10, marker_name: "a".to_string() },
                Marker { id: 2, position: 20, marker_name: "bc".to_string() },
                Marker { id: 3, position: 30, marker_name: String::new() },
            ],
        }),
        texts: vec![
            TextChunk { chunk_type: TextChunkType::Copyright, size: 0, text: "2020 me".to_string() },
            TextChunk { chunk_type: TextChunkType::Name, size: 0, text: "kit".to_string() },
        ],
        midi: vec![MIDIDataChunk { size: 0, data: vec![1, 2, 3] }, MIDIDataChunk { size: 0, data: vec![] }],
        app: vec![
            ApplicationSpecificChunk::OP1 { data: b"{\"type\":\"drum\"}".to_vec() },
            ApplicationSpecificChunk::UnknownApplication { size: 0, application_signature: *b"abcd", data: vec![1] },
        ],
    };
    assert!(form.writable());
    let wire = written(&form);
    let again = read_aif(wire.clone()).unwrap();
    assert_eq!(again.size as usize, wire.len() - 8);
    assert_eq!(again.form_type, AIFF_C);
    assert_eq!(again.common.num_channels, 2);
    assert_eq!(again.common.num_sample_frames, 3);
    assert_eq!(again.common.bit_rate, 24);
    assert_eq!(again.common.sample_rate, [1, 2, 3, 4, 5, 6, 7, 8, 9, 10]);
    let sound = again.sound.as_ref().unwrap();
    assert_eq!((sound.size, sound.offset, sound.block_size), (15, 1, 2));
    assert_eq!(sound.sound_data, vec![1, 2, 3, 4, 5, 6, 7]);
    let comments = again.comments.as_ref().unwrap();
    assert_eq!((comments.size, comments.num_comments), (24, 2));
    assert_eq!(comments.comments[0].text, "h\u{e9}llo");
    assert_eq!(comments.comments[0].count, 6);
    assert_eq!(comments.comments[1].marker_id, -4);
    let inst = again.instrument.as_ref().unwrap();
    assert_eq!((inst.size, inst.detune, inst.gain, inst.release_loop.end_loop), (20, -2, -7, -2));
    assert_eq!(again.recording.as_ref().unwrap().size, 24);
    assert_eq!(again.recording.as_ref().unwrap().data, [9; 24]);
    let markers = again.markers.as_ref().unwrap();
    assert_eq!((markers.size, markers.num_markers), (27, 3));
    assert_eq!(markers.markers[1].marker_name, "bc");
    assert_eq!(markers.markers[2].position, 30);
    assert_eq!(again.texts.len(), 2);
    assert_eq!(again.texts[0].chunk_type, TextChunkType::Copyright);
    assert_eq!((again.texts[0].size, again.texts[0].text.as_str()), (7, "2020 me"));
    assert_eq!((again.texts[1].size, again.texts[1].text.as_str()), (3, "kit"));
    assert_eq!(again.midi.len(), 2);
    assert_eq!((again.midi[0].size, again.midi[0].data.clone()), (3, vec![1, 2, 3]));
    assert_eq!(again.midi[1].size, 0);
    assert_eq!(again.patch_text(), Some(&b"{\"type\":\"drum\"}".to_vec()));
    assert!(matches!(
        &again.app[1],
        ApplicationSpecificChunk::UnknownApplication { size: 5, application_signature, data }
            if application_signature == b"abcd" && data == &[1]
    ));
    assert!(again.writable());
    assert_eq!(written(&again), wire);
}

#[test]
fn a_container_that_cannot_be_read_back_is_not_writable() {
    let mut form = FormChunk::default();
    assert!(form.writable());
    form.common.num_sample_frames = 1;
    assert!(!form.writable());
    form.common.num_sample_frames = 0;
    form.form_type = *b"WAVE";
    assert!(!form.writable());
    form.form_type = AIFF;
    form.markers = Some(MarkerChunk { size: 0, num_markers: 1, markers: vec![] });
    assert!(!form.writable());
    form.markers = Some(MarkerChunk {
        size: 0,
        num_markers: 1,
        markers: vec![Marker { id: 0, position: 0, marker_name: "x".repeat(256) }],
    });
    assert!(!form.writable());
    form.markers = None;
    form.comments = Some(CommentsChunk {
        size: 0,
        num_comments: 1,
        comments: vec![Comment { timestamp: 0, marker_id: 0, count: 2, text: "abc".to_string() }],
    });
    assert!(!form.writable());
    form.comments = None;
    form.app.push(ApplicationSpecificChunk::OP1 { data: vec![b'{', 0] });
    assert!(!form.writable());
    form.app.clear();
    assert!(form.writable());
}

#[test]
fn the_default_container_is_empty_and_mono() {
    let form = FormChunk::default();
    assert_eq!(form.form_type, AIFF);
    assert_eq!(form.common.num_channels, 1);
    assert_eq!(form.common.num_sample_frames, 0);
    assert_eq!(form.common.bit_rate, 16);
    assert_eq!(form.common.sample_rate, [0x40, 0x0e, 0xac, 0x44, 0, 0, 0, 0, 0, 0]);
    assert_eq!(written(&form), form_wire(&[&common_wire(0)]));
    assert_eq!(written(&form).len(), 38);
}

#[test]
fn the_text_of_the_patch_can_be_replaced() {
    let mut form = FormChunk::default();
    assert_eq!(form.patch_text(), None);
    assert!(!form.set_patch_text(b"{}".to_vec()));
    assert!(form.app.is_empty());
    form.add_patch_text(b"{\"a\":1}".to_vec());
    assert_eq!(form.patch_text(), Some(&b"{\"a\":1}".to_vec()));
    assert!(form.set_patch_text(b"{}".to_vec()));
    assert_eq!(form.patch_text(), Some(&b"{}".to_vec()));
    assert_eq!(form.app.len(), 1);
    let mut form = FormChunk::default();
    form.app.push(ApplicationSpecificChunk::UnknownApplication {
        size: 4,
        application_signature: *b"abcd",
        data: vec![],
    });
    form.add_patch_text(b"{}".to_vec());
    assert_eq!(form.patch_text(), None);
    assert!(!form.set_patch_text(b"[]".to_vec()));
    assert_eq!(form.app.len(), 2);
}
