use op1_patch::op1::{key_range, semitone_range, EditError, FXType, LFOType, OP1Data};

fn tables(patch: &OP1Data) -> ([u32; 24], [u32; 24], [i16; 24], [u16; 24], [u16; 24], [u16; 24]) {
    match patch {
        OP1Data::Drum { start, end, pitch, reverse, volume, playmode, .. } => {
            (*start, *end, *pitch, *reverse, *volume, *playmode)
        }
        OP1Data::Sampler { .. } => panic!("not a drum patch"),
    }
}

fn numbered() -> OP1Data {
    let mut patch = OP1Data::default_drum();
    if let OP1Data::Drum { start, end, pitch, reverse, volume, playmode, .. } = &mut patch {
        for i in 0..24 {
            start[i] = 100 + i as u32;
            end[i] = 200 + i as u32;
            pitch[i] = i as i16 - 12;
            reverse[i] = if i % 2 == 0 { 8192 } else { 16384 };
            volume[i] = 1000 + i as u16;
            playmode[i] = 2000 + i as u16;
        }
    }
    patch
}

fn bits(x: f32) -> u32 {
    x.to_bits()
}

#[test]
fn default_drum_has_nominal_values() {
    match OP1Data::default_drum() {
        OP1Data::Drum {
            name,
            drum_version,
            octave,
            start,
            end,
            pitch,
            reverse,
            volume,
            playmode,
            dyna_env,
            lfo_active,
            lfo_type,
            lfo_params,
            fx_active,
            fx_type,
            fx_params,
        } => {
            assert_eq!(name, "user");
            assert_eq!(drum_version, 1);
            assert_eq!(octave, 0);
            assert_eq!(start, [0u32; 24]);
            assert_eq!(end, [0u32; 24]);
            assert_eq!(pitch, [0i16; 24]);
            assert_eq!(reverse, [8192u16; 24]);
            assert_eq!(volume, [8192u16; 24]);
            assert_eq!(playmode, [8192u16; 24]);
            assert_eq!(dyna_env, [0, 8192, 0, 8192, 0, 0, 0, 0]);
            assert!(!lfo_active);
            assert_eq!(lfo_type, LFOType::Tremolo);
            assert_eq!(lfo_params, [16000, 16000, 16000, 16000, 0, 0, 0, 0]);
            assert!(!fx_active);
            assert_eq!(fx_type, FXType::Delay);
            assert_eq!(fx_params, [8000u16; 8]);
        }
        OP1Data::Sampler { .. } => panic!("not a drum patch"),
    }
}

#[test]
fn default_sampler_has_nominal_values() {
    match OP1Data::default_sampler() {
        OP1Data::Sampler {
            name,
            synth_version,
            octave,
            base_freq,
            adsr,
            knobs,
            lfo_active,
            lfo_type,
            lfo_params,
            fx_active,
            fx_type,
            fx_params,
        } => {
            assert_eq!(name, "user");
            assert_eq!(synth_version, 2);
            assert_eq!(octave, 0);
            assert_eq!(base_freq, 440);
            assert_eq!(adsr, [64, 10746, 32767, 10000, 4000, 64, 4000, 4000]);
            assert_eq!(knobs, [0, 0, 22501, 22501, 8192, 0, 6183, 8192]);
            assert!(!lfo_active);
            assert_eq!(lfo_type, LFOType::Tremolo);
            assert_eq!(lfo_params, [16000, 16000, 16000, 16000, 0, 0, 0, 0]);
            assert!(!fx_active);
            assert_eq!(fx_type, FXType::Delay);
            assert_eq!(fx_params, [8000u16; 8]);
        }
        OP1Data::Drum { .. } => panic!("not a sampler patch"),
    }
}

#[test]
fn the_default_patch_is_a_drum_patch() {
    assert!(matches!(OP1Data::default(), OP1Data::Drum { .. }));
}

#[test]
fn new_sampler_takes_the_base_frequency() {
    match OP1Data::new_sampler(523) {
        OP1Data::Sampler { base_freq, synth_version, .. } => {
            assert_eq!(base_freq, 523);
            assert_eq!(synth_version, 2);
        }
        OP1Data::Drum { .. } => panic!("not a sampler patch"),
    }
}

#[test]
fn shift_up_moves_samples_to_higher_keys() {
    let mut patch = numbered();
    assert_eq!(patch.shift_samples(3), Ok(()));
    let (start, end, pitch, reverse, volume, playmode) = tables(&patch);
    assert_eq!(start[3], 100);
    assert_eq!(start[23], 120);
    assert_eq!(start[0], 121);
    assert_eq!(start[2], 123);
    assert_eq!(end[3], 200);
    assert_eq!(pitch[3], -12);
    assert_eq!(reverse[3], 8192);
    assert_eq!(reverse[4], 16384);
    assert_eq!(volume[0], 1021);
    assert_eq!(playmode[5], 2002);
}

#[test]
fn shift_down_moves_samples_to_lower_keys() {
    let mut patch = numbered();
    assert_eq!(patch.shift_samples(-2), Ok(()));
    let (start, _, _, _, volume, _) = tables(&patch);
    assert_eq!(start[0], 102);
    assert_eq!(start[21], 123);
    assert_eq!(start[22], 100);
    assert_eq!(start[23], 101);
    assert_eq!(volume[22], 1000);
}

#[test]
fn shift_by_zero_changes_nothing() {
    let mut patch = numbered();
    assert_eq!(patch.shift_samples(0), Ok(()));
    assert_eq!(tables(&patch), tables(&numbered()));
}

#[test]
fn shift_and_shift_back_restores_the_tables() {
    for n in -23i8..=23 {
        let mut patch = numbered();
        assert_eq!(patch.shift_samples(n), Ok(()));
        assert_eq!(patch.shift_samples(-n), Ok(()));
        assert_eq!(tables(&patch), tables(&numbered()));
    }
}

#[test]
fn shift_by_the_whole_keyboard_is_refused() {
    let mut patch = numbered();
    assert_eq!(patch.shift_samples(24), Err(EditError::ShiftOutOfRange(24)));
    assert_eq!(patch.shift_samples(-24), Err(EditError::ShiftOutOfRange(-24)));
    assert_eq!(patch.shift_samples(i8::MIN), Err(EditError::ShiftOutOfRange(i8::MIN)));
    assert_eq!(tables(&patch), tables(&numbered()));
}

#[test]
fn shift_judges_the_distance_before_the_kind_of_patch() {
    let mut patch = OP1Data::default_sampler();
    assert_eq!(patch.shift_samples(24), Err(EditError::ShiftOutOfRange(24)));
    assert_eq!(patch.shift_samples(1), Err(EditError::Sampler));
}

#[test]
fn gain_of_one_is_full_volume() {
    let mut patch = OP1Data::default_drum();
    assert_eq!(patch.gain(&[1], &[bits(1.0)]), Ok(()));
    assert_eq!(tables(&patch).4[0], 16384);
}

#[test]
fn gain_of_minus_one_is_silence() {
    let mut patch = OP1Data::default_drum();
    assert_eq!(patch.gain(&[1], &[bits(-1.0)]), Ok(()));
    assert_eq!(tables(&patch).4[0], 0);
}

#[test]
fn gain_of_zero_is_unity() {
    let mut patch = OP1Data::default_drum();
    patch.gain(&[1], &[bits(1.0)]).unwrap();
    assert_eq!(patch.gain(&[1], &[bits(0.0)]), Ok(()));
    assert_eq!(tables(&patch).4[0], 8192);
}

#[test]
fn gain_rounds_to_the_nearest_unit() {
    let mut patch = OP1Data::default_drum();
    // 8192 * 1.5 = 12288; 8192 * (1 + 1/16384) = 8192.5, which goes up;
    // 8192 * (1 - 1/16384) = 8191.5, which goes up too; 8192 * 0.75 = 6144.
    let gains = [bits(0.5), bits(1.0 / 16384.0), bits(-1.0 / 16384.0), bits(-0.25)];
    assert_eq!(patch.gain(&[1, 2, 3, 4], &gains), Ok(()));
    let volume = tables(&patch).4;
    assert_eq!(&volume[0..4], &[12288, 8193, 8192, 6144]);
}

#[test]
fn gain_out_of_range_is_refused() {
    let mut patch = OP1Data::default_drum();
    for x in [1.0001f32, -1.5, f32::INFINITY, f32::NEG_INFINITY, f32::NAN, f32::MAX] {
        assert_eq!(patch.gain(&[7], &[bits(x)]), Err(EditError::GainOutOfRange(bits(x))));
    }
    assert_eq!(tables(&patch).4, [8192u16; 24]);
}

#[test]
fn gain_takes_the_smallest_numbers() {
    let mut patch = OP1Data::default_drum();
    let tiny = f32::from_bits(1);
    assert_eq!(patch.gain(&[1, 2, 3], &[bits(tiny), bits(-tiny), bits(-0.0)]), Ok(()));
    assert_eq!(&tables(&patch).4[0..3], &[8192, 8192, 8192]);
}

#[test]
fn pitch_of_an_octave() {
    let mut patch = OP1Data::default_drum();
    assert_eq!(patch.pitch(&[5], &[bits(12.0)]), Ok(()));
    assert_eq!(tables(&patch).2[4], 6144);
}

#[test]
fn pitch_of_the_lowest_value() {
    let mut patch = OP1Data::default_drum();
    assert_eq!(patch.pitch(&[24], &[bits(-48.0)]), Ok(()));
    assert_eq!(tables(&patch).2[23], -24576);
    assert_eq!(patch.pitch(&[1], &[bits(48.0)]), Ok(()));
    assert_eq!(tables(&patch).2[0], 24576);
}

#[test]
fn pitch_rounds_to_the_nearest_unit() {
    let mut patch = OP1Data::default_drum();
    // 0.5 semitones are 256 units; 1/1024 of a semitone is half a unit, which
    // goes away from zero; 1/2048 is a quarter, which goes to zero.
    let pitches = [
        bits(0.5),
        bits(1.0 / 1024.0),
        bits(-1.0 / 1024.0),
        bits(1.0 / 2048.0),
        bits(-7.25),
        bits(f32::from_bits(1)),
        bits(-0.0),
    ];
    assert_eq!(patch.pitch(&[1, 2, 3, 4, 5, 6, 7], &pitches), Ok(()));
    assert_eq!(&tables(&patch).2[0..7], &[256, 1, -1, 0, -3712, 0, 0]);
}

#[test]
fn pitch_out_of_range_is_refused() {
    let mut patch = OP1Data::default_drum();
    for x in [48.000004f32, -48.5, 64.0, 1e30, f32::INFINITY, f32::NAN] {
        assert_eq!(patch.pitch(&[5], &[bits(x)]), Err(EditError::PitchOutOfRange(bits(x))));
    }
    assert_eq!(tables(&patch).2, [0i16; 24]);
}

#[test]
fn the_last_pitch_serves_the_remaining_keys() {
    let mut patch = OP1Data::default_drum();
    assert_eq!(patch.pitch(&[1, 3], &[bits(2.0)]), Ok(()));
    let pitch = tables(&patch).2;
    assert_eq!(pitch[0], 1024);
    assert_eq!(pitch[1], 0);
    assert_eq!(pitch[2], 1024);
}

#[test]
fn pitches_pair_with_keys_in_order() {
    let mut patch = OP1Data::default_drum();
    assert_eq!(patch.pitch(&[1, 2, 3], &[bits(5.0), bits(7.0)]), Ok(()));
    assert_eq!(&tables(&patch).2[0..4], &[2560, 3584, 3584, 0]);
}

#[test]
fn pitches_beyond_the_keys_are_not_looked_at() {
    let mut patch = OP1Data::default_drum();
    assert_eq!(patch.pitch(&[2], &[bits(1.0), bits(99.0)]), Ok(()));
    assert_eq!(tables(&patch).2[1], 512);
}

#[test]
fn a_later_assignment_to_a_key_wins() {
    let mut patch = OP1Data::default_drum();
    assert_eq!(patch.pitch(&[4, 4], &[bits(1.0), bits(2.0)]), Ok(()));
    assert_eq!(tables(&patch).2[3], 1024);
}

#[test]
fn an_edit_without_values_is_refused() {
    let mut drum = OP1Data::default_drum();
    assert_eq!(drum.pitch(&[1], &[]), Err(EditError::NoValues));
    assert_eq!(drum.gain(&[1], &[]), Err(EditError::NoValues));
    assert_eq!(drum.copy(&[1], &[]), Err(EditError::NoValues));
    let mut sampler = OP1Data::default_sampler();
    assert_eq!(sampler.pitch(&[1], &[]), Err(EditError::NoValues));
}

#[test]
fn edits_do_not_apply_to_a_sampler() {
    let mut patch = OP1Data::default_sampler();
    assert_eq!(patch.pitch(&[1], &[bits(1.0)]), Err(EditError::Sampler));
    assert_eq!(patch.gain(&[1], &[bits(1.0)]), Err(EditError::Sampler));
    assert_eq!(patch.reverse(&[1], true), Err(EditError::Sampler));
    assert_eq!(patch.copy(&[1], &[2]), Err(EditError::Sampler));
    assert_eq!(patch.reverse(&[0], true), Err(EditError::Sampler));
}

#[test]
fn a_key_out_of_range_is_refused_and_nothing_is_changed() {
    let mut patch = numbered();
    assert_eq!(patch.pitch(&[1, 25, 0], &[bits(1.0)]), Err(EditError::KeyOutOfRange(25)));
    assert_eq!(patch.gain(&[2, 0], &[bits(1.0)]), Err(EditError::KeyOutOfRange(0)));
    assert_eq!(patch.reverse(&[3, 255], true), Err(EditError::KeyOutOfRange(255)));
    assert_eq!(patch.copy(&[4, 30], &[5]), Err(EditError::KeyOutOfRange(30)));
    assert_eq!(patch.copy(&[4, 6], &[5, 0]), Err(EditError::KeyOutOfRange(0)));
    assert_eq!(tables(&patch), tables(&numbered()));
}

#[test]
fn the_first_violation_is_the_one_reported() {
    let mut patch = OP1Data::default_drum();
    let bad = bits(50.0);
    assert_eq!(patch.pitch(&[1, 2], &[bad, bits(1.0)]), Err(EditError::PitchOutOfRange(bad)));
    assert_eq!(patch.pitch(&[0, 2], &[bad]), Err(EditError::KeyOutOfRange(0)));
    assert_eq!(patch.pitch(&[1, 0], &[bits(1.0), bad]), Err(EditError::KeyOutOfRange(0)));
    assert_eq!(patch.copy(&[0], &[25]), Err(EditError::KeyOutOfRange(0)));
}

#[test]
fn an_edit_of_no_keys_changes_nothing() {
    let mut patch = numbered();
    assert_eq!(patch.pitch(&[], &[bits(99.0)]), Ok(()));
    assert_eq!(patch.gain(&[], &[bits(9.0)]), Ok(()));
    assert_eq!(patch.reverse(&[], true), Ok(()));
    assert_eq!(patch.copy(&[], &[0]), Ok(()));
    assert_eq!(tables(&patch), tables(&numbered()));
}

#[test]
fn reverse_sets_the_direction() {
    let mut patch = OP1Data::default_drum();
    assert_eq!(patch.reverse(&[1, 24], true), Ok(()));
    let reverse = tables(&patch).3;
    assert_eq!(reverse[0], 16384);
    assert_eq!(reverse[1], 8192);
    assert_eq!(reverse[23], 16384);
    assert_eq!(patch.reverse(&[24], false), Ok(()));
    assert_eq!(tables(&patch).3[23], 8192);
    assert_eq!(tables(&patch).3[0], 16384);
}

#[test]
fn copy_takes_all_six_entries() {
    let mut patch = numbered();
    assert_eq!(patch.copy(&[1], &[10]), Ok(()));
    let (start, end, pitch, reverse, volume, playmode) = tables(&patch);
    assert_eq!(start[0], 109);
    assert_eq!(end[0], 209);
    assert_eq!(pitch[0], -3);
    assert_eq!(reverse[0], 16384);
    assert_eq!(volume[0], 1009);
    assert_eq!(playmode[0], 2009);
    assert_eq!(start[9], 109);
    assert_eq!(start[1], 101);
}

#[test]
fn the_last_source_serves_the_remaining_keys() {
    let mut patch = numbered();
    assert_eq!(patch.copy(&[1, 2, 3], &[10, 20]), Ok(()));
    let start = tables(&patch).0;
    assert_eq!(&start[0..4], &[109, 119, 119, 103]);
}

#[test]
fn a_copy_sees_what_earlier_copies_wrote() {
    let mut patch = numbered();
    assert_eq!(patch.copy(&[2, 3], &[1, 2]), Ok(()));
    let start = tables(&patch).0;
    assert_eq!(&start[0..3], &[100, 100, 100]);
}

#[test]
fn key_ranges_count_up_and_down() {
    assert_eq!(key_range(1, 7), vec![1, 2, 3, 4, 5, 6, 7]);
    assert_eq!(key_range(7, 4), vec![7, 6, 5, 4]);
    assert_eq!(key_range(9, 9), vec![9]);
    assert_eq!(key_range(0, 255).len(), 256);
    assert_eq!(key_range(255, 253), vec![255, 254, 253]);
}

#[test]
fn semitone_ranges_count_up_and_down() {
    assert_eq!(semitone_range(-7, -1), vec![-7, -6, -5, -4, -3, -2, -1]);
    assert_eq!(semitone_range(2, -2), vec![2, 1, 0, -1, -2]);
    assert_eq!(semitone_range(-128, 127).len(), 256);
    assert_eq!(semitone_range(127, 125), vec![127, 126, 125]);
}
