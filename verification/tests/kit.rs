use op1_patch::chunks::{Chunk, AIFF};
use op1_patch::drum::{
    check_kit, drop_channels, drum, synth, wav_data_to_i16, wav_i16_to_bytes, wav_to_bytes,
    DrumError, Samples, WavError, DRUM_BYTES, SYNTH_BYTES,
};
use op1_patch::op1::OP1Data;

fn drum_tables(patch: &OP1Data) -> (u8, [u32; 24], [u32; 24], [i16; 24]) {
    match patch {
        OP1Data::Drum { octave, start, end, pitch, .. } => (*octave, *start, *end, *pitch),
        OP1Data::Sampler { .. } => panic!("not a drum patch"),
    }
}

#[test]
fn samples_are_brought_to_16_bits() {
    assert_eq!(
        wav_data_to_i16(&Samples::Eight(vec![0, 1, 127, 128, 255])),
        vec![0, 256, 32512, -32768, -256]
    );
    assert_eq!(wav_data_to_i16(&Samples::Sixteen(vec![-5, 0, 7])), vec![-5, 0, 7]);
    assert_eq!(
        wav_data_to_i16(&Samples::TwentyFour(vec![0, 65535, 65536, -1, -65536, -65537, i32::MAX, i32::MIN])),
        vec![0, 0, 1, -1, -1, -2, 32767, -32768]
    );
    assert_eq!(wav_data_to_i16(&Samples::ThirtyTwo(vec![131072, -3])), vec![2, -1]);
    assert_eq!(wav_data_to_i16(&Samples::Empty), Vec::<i16>::new());
}

#[test]
fn samples_are_written_high_byte_first() {
    assert_eq!(wav_i16_to_bytes(&[0x0102, -2, 0, i16::MIN]), vec![1, 2, 0xff, 0xfe, 0, 0, 0x80, 0]);
    assert_eq!(wav_i16_to_bytes(&[]), Vec::<u8>::new());
}

#[test]
fn the_first_channel_is_kept() {
    assert_eq!(drop_channels(&[1, 2, 3, 4, 5, 6], 2), vec![1, 3, 5]);
    assert_eq!(drop_channels(&[1, 2, 3, 4, 5, 6, 7], 3), vec![1, 4, 7]);
    assert_eq!(drop_channels(&[1, 2, 3, 4, 5], 3), vec![1, 4]);
    assert_eq!(drop_channels(&[1, 2, 3], 1), vec![1, 2, 3]);
    assert_eq!(drop_channels(&[1, 2, 3], 7), vec![1]);
    assert_eq!(drop_channels(&[], 2), Vec::<i16>::new());
    assert_eq!(drop_channels(&[9], usize::MAX), vec![9]);
}

#[test]
fn only_pcm_at_44100_hz_is_taken() {
    let data = Samples::Sixteen(vec![1, 2, 3, 4]);
    assert_eq!(wav_to_bytes(44100, 1, 1, &data), Ok(vec![0, 1, 0, 2, 0, 3, 0, 4]));
    assert_eq!(wav_to_bytes(44100, 1, 2, &data), Ok(vec![0, 1, 0, 3]));
    assert_eq!(wav_to_bytes(48000, 1, 1, &data), Err(WavError::SampleRate(48000)));
    assert_eq!(wav_to_bytes(48000, 3, 0, &data), Err(WavError::SampleRate(48000)));
    assert_eq!(wav_to_bytes(44100, 3, 1, &data), Err(WavError::NotPcm(3)));
    assert_eq!(wav_to_bytes(44100, 3, 0, &data), Err(WavError::NotPcm(3)));
    assert_eq!(wav_to_bytes(44100, 1, 0, &data), Err(WavError::NoChannels));
}

#[test]
fn a_sampler_keeps_six_seconds() {
    let (form, patch) = synth(vec![7; 10], 262);
    assert_eq!(form.form_type, AIFF);
    assert_eq!(form.common.num_sample_frames, 5);
    let sound = form.sound.as_ref().unwrap();
    assert_eq!((sound.size, sound.offset, sound.block_size), (18, 0, 0));
    assert_eq!(sound.sound_data, vec![7; 10]);
    assert!(form.app.is_empty());
    assert!(form.writable());
    assert!(matches!(patch, OP1Data::Sampler { base_freq: 262, .. }));
    let (form, _) = synth(vec![1; SYNTH_BYTES + 3], 440);
    assert_eq!(SYNTH_BYTES, 529_200);
    assert_eq!(form.sound.as_ref().unwrap().sound_data.len(), 529_200);
    assert_eq!(form.sound.as_ref().unwrap().size, 529_208);
    assert_eq!(form.common.num_sample_frames, 264_600);
    let (form, _) = synth(vec![], 440);
    assert_eq!(form.common.num_sample_frames, 0);
    assert_eq!(form.sound.unwrap().size, 8);
}

#[test]
fn a_kit_gives_each_sample_its_key() {
    let samples = vec![vec![1; 4], vec![2; 6], vec![]];
    let (form, patch) = drum(&samples, 2, 5, false, false).unwrap();
    assert_eq!(form.sound.as_ref().unwrap().sound_data, vec![1, 1, 1, 1, 2, 2, 2, 2, 2, 2]);
    assert_eq!(form.sound.as_ref().unwrap().size, 18);
    assert_eq!(form.common.num_sample_frames, 5);
    assert!(form.writable());
    let (octave, start, end, pitch) = drum_tables(&patch);
    assert_eq!(octave, 0);
    let mut starts = [0u32; 24];
    let mut ends = [0u32; 24];
    starts[3] = 4 * 2029;
    starts[4] = 10 * 2029;
    ends[2] = 4 * 2029;
    ends[3] = 10 * 2029;
    ends[4] = 10 * 2029;
    assert_eq!(start, starts);
    assert_eq!(end, ends);
    assert_eq!(pitch, [0i16; 24]);
    match patch {
        OP1Data::Drum { name, drum_version, reverse, volume, playmode, .. } => {
            assert_eq!(name, "user");
            assert_eq!(drum_version, 1);
            assert_eq!(reverse, [8192u16; 24]);
            assert_eq!(volume, [8192u16; 24]);
            assert_eq!(playmode, [8192u16; 24]);
        }
        OP1Data::Sampler { .. } => panic!("not a drum patch"),
    }
}

#[test]
fn the_keys_around_a_kit_can_be_filled() {
    let samples = vec![vec![1; 4], vec![2; 6]];
    let (_, patch) = drum(&samples, 2, 5, true, false).unwrap();
    let (_, start, end, pitch) = drum_tables(&patch);
    assert_eq!(&start[0..5], &[0, 0, 0, 8116, 8116]);
    assert_eq!(&end[0..5], &[8116, 8116, 8116, 20290, 20290]);
    assert_eq!(start[23], 8116);
    assert_eq!(end[23], 20290);
    assert_eq!(pitch, [0i16; 24]);
}

#[test]
fn filled_keys_can_be_detuned_by_their_distance() {
    let samples = vec![vec![1; 4], vec![2; 6]];
    let (_, patch) = drum(&samples, 2, 5, false, true).unwrap();
    let (_, start, end, pitch) = drum_tables(&patch);
    assert_eq!(&start[0..5], &[0, 0, 0, 8116, 8116]);
    assert_eq!(&end[0..5], &[8116, 8116, 8116, 20290, 20290]);
    assert_eq!(&pitch[0..6], &[-1024, -512, 0, 0, 512, 1024]);
    assert_eq!(pitch[23], 20 * 512);
    let (_, patch) = drum(&vec![vec![0; 2]], 23, 5, true, true).unwrap();
    let (_, start, end, pitch) = drum_tables(&patch);
    assert_eq!(pitch[0], -23 * 512);
    assert_eq!(pitch[22], -512);
    assert_eq!(pitch[23], 0);
    assert_eq!(start, [0u32; 24]);
    assert_eq!(end, [4058u32; 24]);
}

#[test]
fn a_kit_of_no_samples_is_silent() {
    let (form, patch) = drum(&vec![], 3, 5, true, true).unwrap();
    assert_eq!(form.sound.unwrap().sound_data, Vec::<u8>::new());
    let (_, start, end, pitch) = drum_tables(&patch);
    assert_eq!(start, [0u32; 24]);
    assert_eq!(end, [0u32; 24]);
    assert_eq!(pitch, [0i16; 24]);
}

#[test]
fn the_octave_is_counted_from_the_fifth() {
    for (octave, setting) in [(5u8, 0u8), (6, 1), (10, 5), (4, 255), (1, 252)] {
        let (_, patch) = drum(&vec![vec![0; 2]], 0, octave, false, false).unwrap();
        assert_eq!(drum_tables(&patch).0, setting);
    }
}

#[test]
fn a_kit_that_cannot_be_laid_out_is_refused() {
    let one = vec![vec![0u8; 2]];
    assert_eq!(drum(&one, 0, 0, false, false).unwrap_err(), DrumError::Octave(0));
    assert_eq!(drum(&one, 0, 11, false, false).unwrap_err(), DrumError::Octave(11));
    assert_eq!(drum(&one, 24, 11, false, false).unwrap_err(), DrumError::Octave(11));
    assert_eq!(drum(&one, 24, 5, false, false).unwrap_err(), DrumError::TooManyKeys);
    assert_eq!(drum(&one, usize::MAX, 5, false, false).unwrap_err(), DrumError::TooManyKeys);
    assert_eq!(drum(&vec![vec![]; 25], 0, 5, false, false).unwrap_err(), DrumError::TooManyKeys);
    assert!(drum(&vec![vec![]; 24], 0, 5, false, false).is_ok());
    assert!(drum(&one, 23, 1, false, false).is_ok());
    assert_eq!(check_kit(5, 20, 4), Ok(()));
    assert_eq!(check_kit(5, 20, 5), Err(DrumError::TooManyKeys));
    assert_eq!(check_kit(0, 20, 5), Err(DrumError::Octave(0)));
}

#[test]
fn a_kit_holds_twelve_seconds_at_most() {
    assert_eq!(DRUM_BYTES, 44100 * 12 * 2);
    let full = vec![vec![0u8; DRUM_BYTES / 2], vec![0u8; DRUM_BYTES / 2]];
    let (form, patch) = drum(&full, 0, 5, false, false).unwrap();
    assert_eq!(form.common.num_sample_frames, 529_200);
    assert!(form.writable());
    let (_, start, end, _) = drum_tables(&patch);
    assert_eq!(start[1], 529_200 * 2029);
    assert_eq!(end[1], 2_147_493_600);
    let over = vec![vec![0u8; DRUM_BYTES / 2], vec![0u8; DRUM_BYTES / 2 + 1]];
    assert_eq!(drum(&over, 0, 5, false, false).unwrap_err(), DrumError::TooLong);
    let over = vec![vec![0u8; DRUM_BYTES + 1], vec![]];
    assert_eq!(drum(&over, 0, 5, true, true).unwrap_err(), DrumError::TooLong);
}
