use crate::binary32::{
    fields, lemma_nearest_bound, lemma_nearest_small, lemma_nearest_whole, lemma_small_enough,
    lemma_too_large, lemma_within_magnitude, nearest, nearest_quotient, power_of_two, scaled,
    within,
};
use vstd::arithmetic::power2::{
    lemma2_to64, lemma2_to64_rest, lemma_pow2_pos, lemma_pow2_strictly_increases, pow2,
};
use vstd::prelude::*;

verus! {

/// Number of keys on the device; every per-key table has this many slots.
pub const KEYS: usize = 24;

/// Reverse-table entry of a key that plays forward.
pub const FORWARD: u16 = 8192;

/// Reverse-table entry of a key that plays backward.
pub const REVERSED: u16 = 16384;

/// Volume-table entry for unity gain.
pub const UNITY_VOLUME: u16 = 8192;

/// Effect slot of a patch.
#[derive(Debug, Clone, Copy, PartialEq, Eq, Structural)]
pub enum FXType {
    Delay,
}

/// Low-frequency oscillator slot of a patch.
#[derive(Debug, Clone, Copy, PartialEq, Eq, Structural)]
pub enum LFOType {
    Tremolo,
}

/// Patch metadata: either a drum kit, which maps a region of the audio to each
/// of the 24 keys, or a sampler, which plays one region across all keys.
///
/// Slot `k - 1` of every per-key table belongs to key `k`.
#[derive(Debug, Clone)]
pub enum OP1Data {
    Drum {
        name: String,
        drum_version: u8,
        octave: u8,
        start: [u32; 24],
        end: [u32; 24],
        /// 512 units per semitone.
        pitch: [i16; 24],
        /// `FORWARD` or `REVERSED`.
        reverse: [u16; 24],
        /// 0 is silence, 8192 unity, 16384 the maximum.
        volume: [u16; 24],
        playmode: [u16; 24],
        dyna_env: [u16; 8],
        lfo_active: bool,
        lfo_type: LFOType,
        lfo_params: [u16; 8],
        fx_active: bool,
        fx_type: FXType,
        fx_params: [u16; 8],
    },
    Sampler {
        name: String,
        synth_version: u8,
        octave: u8,
        base_freq: u16,
        adsr: [u16; 8],
        knobs: [u16; 8],
        lfo_active: bool,
        lfo_type: LFOType,
        lfo_params: [u16; 8],
        fx_active: bool,
        fx_type: FXType,
        fx_params: [u16; 8],
    },
}

/// Why an edit of a patch was refused.
#[derive(Debug, Clone, Copy, PartialEq, Eq, Structural)]
pub enum EditError {
    /// The patch is a sampler; per-key edits apply to drum patches only.
    Sampler,
    /// A shift by more than 23 keys in either direction.
    ShiftOutOfRange(i8),
    /// A key outside 1..=24.
    KeyOutOfRange(u8),
    /// A pitch outside -48..=48 semitones, given by its bit pattern.
    PitchOutOfRange(u32),
    /// A gain outside -1..=1, given by its bit pattern.
    GainOutOfRange(u32),
    /// An empty list of values or of source keys.
    NoValues,
}

/// The six per-key tables of a drum patch.
pub ghost struct Tables {
    pub start: Seq<u32>,
    pub end: Seq<u32>,
    pub pitch: Seq<i16>,
    pub reverse: Seq<u16>,
    pub volume: Seq<u16>,
    pub playmode: Seq<u16>,
}

/// A table turned by `n` places toward the higher keys: what stood in slot
/// `i` stands in slot `i + n`, and what would pass the last slot comes back in
/// at the first. A negative `n` turns toward the lower keys.
pub open spec fn rotated<T>(table: Seq<T>, n: int) -> Seq<T> {
    Seq::new(table.len(), |i: int| table[(i - n) % (table.len() as int)])
}

/// Whether `key` names one of the 24 keys.
pub open spec fn key_ok(key: u8) -> bool {
    1 <= key <= 24
}

/// Index of the value that goes with the `i`-th key: the `i`-th value while
/// the values last, the last value from then on.
pub open spec fn paired(i: int, values: int) -> int {
    if i < values {
        i
    } else {
        values - 1
    }
}

/// `table` after the first `count` keys were given their values in order, a
/// later assignment to a key replacing an earlier one.
pub open spec fn assigned<T>(table: Seq<T>, keys: Seq<u8>, values: Seq<T>, count: nat) -> Seq<T>
    decreases count,
{
    if count == 0 {
        table
    } else {
        let i = count - 1;
        assigned(table, keys, values, i as nat).update(
            keys[i] - 1,
            values[paired(i, values.len() as int)],
        )
    }
}

impl Tables {
    /// All six tables hold one slot per key.
    pub open spec fn wf(self) -> bool {
        &&& self.start.len() == 24
        &&& self.end.len() == 24
        &&& self.pitch.len() == 24
        &&& self.reverse.len() == 24
        &&& self.volume.len() == 24
        &&& self.playmode.len() == 24
    }

    /// Every table turned by `n` places.
    pub open spec fn rotated(self, n: int) -> Tables {
        Tables {
            start: rotated(self.start, n),
            end: rotated(self.end, n),
            pitch: rotated(self.pitch, n),
            reverse: rotated(self.reverse, n),
            volume: rotated(self.volume, n),
            playmode: rotated(self.playmode, n),
        }
    }

    /// Slot `dst` of every table overwritten with slot `src`.
    pub open spec fn slot_copied(self, dst: int, src: int) -> Tables {
        Tables {
            start: self.start.update(dst, self.start[src]),
            end: self.end.update(dst, self.end[src]),
            pitch: self.pitch.update(dst, self.pitch[src]),
            reverse: self.reverse.update(dst, self.reverse[src]),
            volume: self.volume.update(dst, self.volume[src]),
            playmode: self.playmode.update(dst, self.playmode[src]),
        }
    }

    /// The tables after the first `count` keys each took the six entries of
    /// its source key, in order: a copy sees what earlier copies wrote.
    pub open spec fn copied(self, keys: Seq<u8>, srcs: Seq<u8>, count: nat) -> Tables
        decreases count,
    {
        if count == 0 {
            self
        } else {
            let i = count - 1;
            self.copied(keys, srcs, i as nat).slot_copied(
                keys[i] - 1,
                srcs[paired(i, srcs.len() as int)] - 1,
            )
        }
    }
}

/// The first refusal in a list of per-key verdicts, if there is one.
pub open spec fn first_error(verdicts: Seq<Option<EditError>>) -> Option<EditError>
    decreases verdicts.len(),
{
    if verdicts.len() == 0 {
        None
    } else if verdicts[0] is Some {
        verdicts[0]
    } else {
        first_error(verdicts.skip(1))
    }
}

/// The verdict on each key of a list of keys alone.
pub open spec fn key_verdicts(keys: Seq<u8>) -> Seq<Option<EditError>> {
    Seq::new(
        keys.len(),
        |i: int|
            if key_ok(keys[i]) {
                None
            } else {
                Some(EditError::KeyOutOfRange(keys[i]))
            },
    )
}

/// The verdict on each destination key and the source key that goes with
/// it, the destination judged first.
pub open spec fn copy_verdicts(keys: Seq<u8>, srcs: Seq<u8>) -> Seq<Option<EditError>> {
    Seq::new(
        keys.len(),
        |i: int|
            {
                let src = srcs[paired(i, srcs.len() as int)];
                if !key_ok(keys[i]) {
                    Some(EditError::KeyOutOfRange(keys[i]))
                } else if !key_ok(src) {
                    Some(EditError::KeyOutOfRange(src))
                } else {
                    None
                }
            },
    )
}

/// Skipping past a verdict that refuses nothing does not change the first refusal.
pub proof fn lemma_first_error_step(verdicts: Seq<Option<EditError>>, i: int)
    requires
        0 <= i < verdicts.len(),
    ensures
        verdicts[i] is Some ==> first_error(verdicts.skip(i)) == verdicts[i],
        verdicts[i] is None ==> first_error(verdicts.skip(i)) == first_error(verdicts.skip(i + 1)),
{
    assert(verdicts.skip(i)[0] == verdicts[i]);
    assert(verdicts.skip(i).skip(1) =~= verdicts.skip(i + 1));
}

/// Where no verdict refuses, every position passes.
pub proof fn lemma_first_error_none(verdicts: Seq<Option<EditError>>)
    requires
        first_error(verdicts) is None,
    ensures
        forall|i: int| 0 <= i < verdicts.len() ==> verdicts[i] is None,
    decreases verdicts.len(),
{
    if verdicts.len() > 0 {
        lemma_first_error_none(verdicts.skip(1));
        assert forall|i: int| 0 <= i < verdicts.len() implies verdicts[i] is None by {
            if i > 0 {
                assert(verdicts.skip(1)[i - 1] == verdicts[i]);
            }
        }
    }
}

/// Turns one per-key table by `n` places, `n` between -23 and 23.
fn rotate_table<T: Copy>(table: &mut [T; 24], n: i8)
    requires
        -24 < n < 24,
    ensures
        final(table)@ == rotated(old(table)@, n as int),
{
    let before = *table;
    let back: usize = if n >= 0 {
        24 - (n as usize)
    } else {
        (-n) as usize
    };
    let mut i: usize = 0;
    while i < 24
        invariant
            i <= 24,
            -24 < n < 24,
            back == (if n >= 0 {
                24 - n
            } else {
                -n
            }),
            forall|j: int| 0 <= j < i ==> table@[j] == before@[(j - n) % 24],
        decreases 24 - i,
    {
        table[i] = before[(i + back) % 24];
        i += 1;
    }
    assert(table@ =~= rotated(before@, n as int));
}

/// Gives each key its value in order, the last value serving the keys that
/// outnumber the values.
fn assign_keys<T: Copy>(table: &mut [T; 24], keys: &[u8], values: &[T])
    requires
        values@.len() > 0,
        forall|i: int| 0 <= i < keys@.len() ==> key_ok(#[trigger] keys@[i]),
    ensures
        final(table)@ == assigned(old(table)@, keys@, values@, keys@.len()),
{
    let mut i: usize = 0;
    while i < keys.len()
        invariant
            i <= keys@.len(),
            values@.len() > 0,
            forall|i: int| 0 <= i < keys@.len() ==> key_ok(#[trigger] keys@[i]),
            table@ == assigned(old(table)@, keys@, values@, i as nat),
        decreases keys@.len() - i,
    {
        let j: usize = if i < values.len() {
            i
        } else {
            values.len() - 1
        };
        let slot: usize = (keys[i] - 1) as usize;
        table[slot] = values[j];
        i += 1;
    }
}

/// Finds the first key outside 1..=24.
fn check_keys(keys: &[u8]) -> (out: Result<(), EditError>)
    ensures
        out == match first_error(key_verdicts(keys@)) {
            Some(e) => Err::<(), EditError>(e),
            None => Ok(()),
        },
{
    let ghost verdicts = key_verdicts(keys@);
    assert(verdicts.skip(0) =~= verdicts);
    let mut i: usize = 0;
    while i < keys.len()
        invariant
            i <= keys@.len(),
            verdicts == key_verdicts(keys@),
            first_error(verdicts) == first_error(verdicts.skip(i as int)),
        decreases keys@.len() - i,
    {
        proof {
            lemma_first_error_step(verdicts, i as int);
        }
        let key = keys[i];
        if key < 1 || key > 24 {
            return Err(EditError::KeyOutOfRange(key));
        }
        i += 1;
    }
    Ok(())
}

/// Finds the first destination or source key outside 1..=24.
fn check_copy(keys: &[u8], srcs: &[u8]) -> (out: Result<(), EditError>)
    requires
        srcs@.len() > 0,
    ensures
        out == match first_error(copy_verdicts(keys@, srcs@)) {
            Some(e) => Err::<(), EditError>(e),
            None => Ok(()),
        },
{
    let ghost verdicts = copy_verdicts(keys@, srcs@);
    assert(verdicts.skip(0) =~= verdicts);
    let mut i: usize = 0;
    while i < keys.len()
        invariant
            i <= keys@.len(),
            srcs@.len() > 0,
            verdicts == copy_verdicts(keys@, srcs@),
            first_error(verdicts) == first_error(verdicts.skip(i as int)),
        decreases keys@.len() - i,
    {
        proof {
            lemma_first_error_step(verdicts, i as int);
        }
        let key = keys[i];
        if key < 1 || key > 24 {
            return Err(EditError::KeyOutOfRange(key));
        }
        let j: usize = if i < srcs.len() {
            i
        } else {
            srcs.len() - 1
        };
        let src = srcs[j];
        if src < 1 || src > 24 {
            return Err(EditError::KeyOutOfRange(src));
        }
        i += 1;
    }
    Ok(())
}

/// The six tables as one value.
pub open spec fn tables_of(
    start: [u32; 24],
    end: [u32; 24],
    pitch: [i16; 24],
    reverse: [u16; 24],
    volume: [u16; 24],
    playmode: [u16; 24],
) -> Tables {
    Tables {
        start: start@,
        end: end@,
        pitch: pitch@,
        reverse: reverse@,
        volume: volume@,
        playmode: playmode@,
    }
}

/// Copies, for each key in order, the six entries of its source key.
fn copy_slots(
    start: &mut [u32; 24],
    end: &mut [u32; 24],
    pitch: &mut [i16; 24],
    reverse: &mut [u16; 24],
    volume: &mut [u16; 24],
    playmode: &mut [u16; 24],
    keys: &[u8],
    srcs: &[u8],
)
    requires
        srcs@.len() > 0,
        first_error(copy_verdicts(keys@, srcs@)) is None,
    ensures
        tables_of(
            *final(start),
            *final(end),
            *final(pitch),
            *final(reverse),
            *final(volume),
            *final(playmode),
        ) == tables_of(
            *old(start),
            *old(end),
            *old(pitch),
            *old(reverse),
            *old(volume),
            *old(playmode),
        ).copied(keys@, srcs@, keys@.len()),
{
    let ghost before = tables_of(*start, *end, *pitch, *reverse, *volume, *playmode);
    proof {
        lemma_first_error_none(copy_verdicts(keys@, srcs@));
    }
    let mut i: usize = 0;
    while i < keys.len()
        invariant
            i <= keys@.len(),
            srcs@.len() > 0,
            forall|k: int| 0 <= k < keys@.len() ==> copy_verdicts(keys@, srcs@)[k] is None,
            tables_of(*start, *end, *pitch, *reverse, *volume, *playmode) == before.copied(
                keys@,
                srcs@,
                i as nat,
            ),
        decreases keys@.len() - i,
    {
        let j: usize = if i < srcs.len() {
            i
        } else {
            srcs.len() - 1
        };
        assert(copy_verdicts(keys@, srcs@)[i as int] is None);
        let dst: usize = (keys[i] - 1) as usize;
        let src: usize = (srcs[j] - 1) as usize;
        start[dst] = start[src];
        end[dst] = end[src];
        pitch[dst] = pitch[src];
        reverse[dst] = reverse[src];
        volume[dst] = volume[src];
        playmode[dst] = playmode[src];
        i += 1;
    }
}

impl OP1Data {
    /// The six per-key tables of a drum patch; a sampler has none.
    pub open spec fn tables(self) -> Tables {
        match self {
            OP1Data::Drum { start, end, pitch, reverse, volume, playmode, .. } => tables_of(
                start,
                end,
                pitch,
                reverse,
                volume,
                playmode,
            ),
            OP1Data::Sampler { .. } => Tables {
                start: Seq::empty(),
                end: Seq::empty(),
                pitch: Seq::empty(),
                reverse: Seq::empty(),
                volume: Seq::empty(),
                playmode: Seq::empty(),
            },
        }
    }

    /// Both are drum patches that agree in everything but the six per-key
    /// tables.
    pub open spec fn same_settings(self, other: OP1Data) -> bool {
        &&& self is Drum
        &&& other is Drum
        &&& self->Drum_name == other->Drum_name
        &&& self->drum_version == other->drum_version
        &&& self->Drum_octave == other->Drum_octave
        &&& self->dyna_env == other->dyna_env
        &&& self->Drum_lfo_active == other->Drum_lfo_active
        &&& self->Drum_lfo_type == other->Drum_lfo_type
        &&& self->Drum_lfo_params == other->Drum_lfo_params
        &&& self->Drum_fx_active == other->Drum_fx_active
        &&& self->Drum_fx_type == other->Drum_fx_type
        &&& self->Drum_fx_params == other->Drum_fx_params
    }

    /// What a shift by `n` keys makes of the patch: the tables it leaves, or
    /// the refusal. The size of the shift is judged before the kind of patch.
    pub open spec fn shifted(self, n: i8) -> Result<Tables, EditError> {
        if n > 23 || n < -23 {
            Err(EditError::ShiftOutOfRange(n))
        } else if self is Sampler {
            Err(EditError::Sampler)
        } else {
            Ok(self.tables().rotated(n as int))
        }
    }

    /// What setting the direction of `keys` makes of the patch.
    pub open spec fn reversed(self, keys: Seq<u8>, rev: bool) -> Result<Tables, EditError> {
        if self is Sampler {
            Err(EditError::Sampler)
        } else {
            match first_error(key_verdicts(keys)) {
                Some(e) => Err(e),
                None => Ok(
                    Tables {
                        reverse: assigned(
                            self.tables().reverse,
                            keys,
                            seq![if rev { REVERSED } else { FORWARD }],
                            keys.len(),
                        ),
                        ..self.tables()
                    },
                ),
            }
        }
    }

    /// What copying `srcs` onto `keys` makes of the patch. An empty list of
    /// sources is refused first, then a sampler, then the first key out of
    /// range.
    pub open spec fn copy_result(self, keys: Seq<u8>, srcs: Seq<u8>) -> Result<Tables, EditError> {
        if srcs.len() == 0 {
            Err(EditError::NoValues)
        } else if self is Sampler {
            Err(EditError::Sampler)
        } else {
            match first_error(copy_verdicts(keys, srcs)) {
                Some(e) => Err(e),
                None => Ok(self.tables().copied(keys, srcs, keys.len())),
            }
        }
    }

    /// The outcome of an edit: on refusal the patch is as it was; otherwise it
    /// is the same drum patch with the tables that `want` names.
    pub open spec fn edited(
        before: OP1Data,
        after: OP1Data,
        want: Result<Tables, EditError>,
        out: Result<(), EditError>,
    ) -> bool {
        match want {
            Err(e) => out == Err::<(), EditError>(e) && after == before,
            Ok(tables) => out is Ok && after.same_settings(before) && after.tables() == tables,
        }
    }

    /// Moves every sample `n` keys up, or `-n` keys down, the samples that
    /// pass one end of the keyboard coming back in at the other. A shift by
    /// 24 or more in either direction is refused.
    pub fn shift_samples(&mut self, n: i8) -> (out: Result<(), EditError>)
        ensures
            OP1Data::edited(*old(self), *final(self), old(self).shifted(n), out),
    {
        if n > 23 || n < -23 {
            return Err(EditError::ShiftOutOfRange(n));
        }
        match self {
            OP1Data::Sampler { .. } => Err(EditError::Sampler),
            OP1Data::Drum { start, end, pitch, reverse, volume, playmode, .. } => {
                rotate_table(start, n);
                rotate_table(end, n);
                rotate_table(pitch, n);
                rotate_table(reverse, n);
                rotate_table(volume, n);
                rotate_table(playmode, n);
                Ok(())
            },
        }
    }

    /// Sets each of `keys` to play backward (`rev`) or forward. Nothing is
    /// changed unless every key is in range.
    pub fn reverse(&mut self, keys: &[u8], rev: bool) -> (out: Result<(), EditError>)
        ensures
            OP1Data::edited(*old(self), *final(self), old(self).reversed(keys@, rev), out),
    {
        match self {
            OP1Data::Sampler { .. } => Err(EditError::Sampler),
            OP1Data::Drum { reverse, .. } => {
                match check_keys(keys) {
                    Err(e) => Err(e),
                    Ok(()) => {
                        proof {
                            lemma_first_error_none(key_verdicts(keys@));
                            assert forall|i: int| 0 <= i < keys@.len() implies key_ok(
                                #[trigger] keys@[i],
                            ) by {
                                assert(key_verdicts(keys@)[i] is None);
                            }
                        }
                        let value: [u16; 1] = [if rev { REVERSED } else { FORWARD }];
                        assert(value@ =~= seq![if rev { REVERSED } else { FORWARD }]);
                        assign_keys(reverse, keys, value.as_slice());
                        Ok(())
                    },
                }
            },
        }
    }

    /// Copies, for each of `keys` in order, the six table entries of the
    /// source key that goes with it, the last source serving the keys that
    /// outnumber the sources. Nothing is changed unless every key and every
    /// source used is in range.
    pub fn copy(&mut self, keys: &[u8], srcs: &[u8]) -> (out: Result<(), EditError>)
        ensures
            OP1Data::edited(*old(self), *final(self), old(self).copy_result(keys@, srcs@), out),
    {
        if srcs.len() == 0 {
            return Err(EditError::NoValues);
        }
        match self {
            OP1Data::Sampler { .. } => Err(EditError::Sampler),
            OP1Data::Drum { start, end, pitch, reverse, volume, playmode, .. } => {
                match check_copy(keys, srcs) {
                    Err(e) => Err(e),
                    Ok(()) => {
                        copy_slots(start, end, pitch, reverse, volume, playmode, keys, srcs);
                        Ok(())
                    },
                }
            },
        }
    }
}

/// A table that holds `value` in all of its `len` slots.
pub open spec fn filled<T>(len: nat, value: T) -> Seq<T> {
    Seq::new(len, |i: int| value)
}

/// The low-frequency oscillator and effect settings that both kinds of new
/// patch start from.
pub open spec fn default_modulation(
    lfo_active: bool,
    lfo_type: LFOType,
    lfo_params: [u16; 8],
    fx_active: bool,
    fx_type: FXType,
    fx_params: [u16; 8],
) -> bool {
    &&& !lfo_active
    &&& lfo_type == LFOType::Tremolo
    &&& lfo_params@ == seq![16000u16, 16000, 16000, 16000, 0, 0, 0, 0]
    &&& !fx_active
    &&& fx_type == FXType::Delay
    &&& fx_params@ == filled(8, 8000u16)
}

/// A drum patch with its nominal settings but for the octave, the regions
/// and the detuning, which are as given: every key forward at unity volume.
pub open spec fn is_new_drum(
    patch: OP1Data,
    octave: u8,
    start: Seq<u32>,
    end: Seq<u32>,
    pitch: Seq<i16>,
) -> bool {
    &&& patch is Drum
    &&& patch->Drum_name@ == "user"@
    &&& patch->drum_version == 1
    &&& patch->Drum_octave == octave
    &&& patch->dyna_env@ == seq![0u16, 8192, 0, 8192, 0, 0, 0, 0]
    &&& default_modulation(
        patch->Drum_lfo_active,
        patch->Drum_lfo_type,
        patch->Drum_lfo_params,
        patch->Drum_fx_active,
        patch->Drum_fx_type,
        patch->Drum_fx_params,
    )
    &&& patch.tables() == Tables {
        start,
        end,
        pitch,
        reverse: filled(24, FORWARD),
        volume: filled(24, UNITY_VOLUME),
        playmode: filled(24, 8192u16),
    }
}

/// The drum patch that new kits start from: no regions, no detuning.
pub open spec fn is_default_drum(patch: OP1Data) -> bool {
    is_new_drum(patch, 0, filled(24, 0u32), filled(24, 0u32), filled(24, 0i16))
}

/// A sampler patch with its nominal settings but for the base frequency.
pub open spec fn is_new_sampler(patch: OP1Data, base_freq: u16) -> bool {
    &&& patch is Sampler
    &&& patch->Sampler_name@ == "user"@
    &&& patch->synth_version == 2
    &&& patch->Sampler_octave == 0
    &&& patch->base_freq == base_freq
    &&& patch->adsr@ == seq![64u16, 10746, 32767, 10000, 4000, 64, 4000, 4000]
    &&& patch->knobs@ == seq![0u16, 0, 22501, 22501, 8192, 0, 6183, 8192]
    &&& default_modulation(
        patch->Sampler_lfo_active,
        patch->Sampler_lfo_type,
        patch->Sampler_lfo_params,
        patch->Sampler_fx_active,
        patch->Sampler_fx_type,
        patch->Sampler_fx_params,
    )
}

/// The sampler patch that new samplers start from, tuned to 440 Hz.
pub open spec fn is_default_sampler(patch: OP1Data) -> bool {
    is_new_sampler(patch, 440)
}

impl OP1Data {
    /// A drum patch with its nominal settings.
    pub fn default_drum() -> (patch: OP1Data)
        ensures
            is_default_drum(patch),
    {
        let patch = OP1Data::Drum {
            name: "user".to_owned(),
            drum_version: 1,
            octave: 0,
            start: [0;24],
            end: [0;24],
            pitch: [0;24],
            reverse: [FORWARD;24],
            volume: [UNITY_VOLUME;24],
            playmode: [8192;24],
            dyna_env: [0, 8192, 0, 8192, 0, 0, 0, 0],
            fx_active: false,
            fx_type: FXType::Delay,
            fx_params: [8000;8],
            lfo_active: false,
            lfo_type: LFOType::Tremolo,
            lfo_params: [16000, 16000, 16000, 16000, 0, 0, 0, 0],
        };
        assert(patch->Drum_lfo_params@ =~= seq![16000u16, 16000, 16000, 16000, 0, 0, 0, 0]);
        assert(patch->Drum_fx_params@ =~= filled(8, 8000u16));
        assert(patch->dyna_env@ =~= seq![0u16, 8192, 0, 8192, 0, 0, 0, 0]);
        assert(patch.tables().start =~= filled(24, 0u32));
        assert(patch.tables().end =~= filled(24, 0u32));
        assert(patch.tables().pitch =~= filled(24, 0i16));
        assert(patch.tables().reverse =~= filled(24, FORWARD));
        assert(patch.tables().volume =~= filled(24, UNITY_VOLUME));
        assert(patch.tables().playmode =~= filled(24, 8192u16));
        patch
    }

    /// A sampler patch with its nominal settings.
    pub fn default_sampler() -> (patch: OP1Data)
        ensures
            is_default_sampler(patch),
    {
        let patch = OP1Data::Sampler {
            name: "user".to_owned(),
            synth_version: 2,
            octave: 0,
            base_freq: 440,
            adsr: [64, 10746, 32767, 10000, 4000, 64, 4000, 4000],
            knobs: [0, 0, 22501, 22501, 8192, 0, 6183, 8192],
            fx_active: false,
            fx_type: FXType::Delay,
            fx_params: [8000;8],
            lfo_active: false,
            lfo_type: LFOType::Tremolo,
            lfo_params: [16000, 16000, 16000, 16000, 0, 0, 0, 0],
        };
        assert(patch->Sampler_lfo_params@ =~= seq![16000u16, 16000, 16000, 16000, 0, 0, 0, 0]);
        assert(patch->Sampler_fx_params@ =~= filled(8, 8000u16));
        assert(patch->adsr@ =~= seq![64u16, 10746, 32767, 10000, 4000, 64, 4000, 4000]);
        assert(patch->knobs@ =~= seq![0u16, 0, 22501, 22501, 8192, 0, 6183, 8192]);
        patch
    }
}

impl OP1Data {
    /// A drum patch with the given octave, regions and detuning and every
    /// other setting nominal.
    pub fn new_drum(octave: u8, start: [u32; 24], end: [u32; 24], pitch: [i16; 24]) -> (patch:
        OP1Data)
        ensures
            is_new_drum(patch, octave, start@, end@, pitch@),
    {
        let mut patch = OP1Data::default_drum();
        match &mut patch {
            OP1Data::Drum { octave: o, start: s, end: e, pitch: p, .. } => {
                *o = octave;
                *s = start;
                *e = end;
                *p = pitch;
            },
            OP1Data::Sampler { .. } => {},
        }
        patch
    }

    /// A sampler patch with the given base frequency and every other
    /// setting nominal.
    pub fn new_sampler(base_freq: u16) -> (patch: OP1Data)
        ensures
            is_new_sampler(patch, base_freq),
    {
        let mut patch = OP1Data::default_sampler();
        match &mut patch {
            OP1Data::Sampler { base_freq: f, .. } => {
                *f = base_freq;
            },
            OP1Data::Drum { .. } => {},
        }
        patch
    }
}

impl Default for OP1Data {
    /// The default patch is the default drum patch.
    fn default() -> (patch: OP1Data)
        ensures
            is_default_drum(patch),
    {
        OP1Data::default_drum()
    }
}

/// Turning a table by `n` places and then by `-n` places restores it.
pub proof fn lemma_rotated_back<T>(table: Seq<T>, n: int)
    requires
        table.len() == 24,
        -23 <= n <= 23,
    ensures
        rotated(rotated(table, n), -n) == table,
{
    assert forall|i: int| 0 <= i < 24 implies rotated(rotated(table, n), -n)[i] == table[i] by {
        let j = (i + n) % 24;
        assert((j - n) % 24 == i);
    }
    assert(rotated(rotated(table, n), -n) =~= table);
}

/// A shift by `n` keys is undone by a shift by `-n` keys: for every `n` from
/// -23 to 23, a drum patch shifted by `n` and then by `-n` has the six tables
/// it started with.
pub proof fn lemma_shift_undone(patch: OP1Data, there: OP1Data, n: i8)
    requires
        patch is Drum,
        there is Drum,
        -23 <= n <= 23,
        patch.shifted(n) == Ok::<Tables, EditError>(there.tables()),
    ensures
        there.shifted((-n) as i8) == Ok::<Tables, EditError>(patch.tables()),
{
    let t = patch.tables();
    lemma_rotated_back(t.start, n as int);
    lemma_rotated_back(t.end, n as int);
    lemma_rotated_back(t.pitch, n as int);
    lemma_rotated_back(t.reverse, n as int);
    lemma_rotated_back(t.volume, n as int);
    lemma_rotated_back(t.playmode, n as int);
}

/// The pitch-table entry for a detuning in semitones, a single-precision
/// number given by its bit pattern: 512 units per semitone, rounded to the
/// nearest unit. Only -48 to 48 semitones have one.
pub open spec fn pitch_units(bits: u32) -> Option<i16> {
    if within(bits, 48) {
        Some(scaled(bits, 512, 0) as i16)
    } else {
        None
    }
}

/// The volume-table entry for a gain, a single-precision number given by
/// its bit pattern: 8192 times the gain plus one, rounded to the nearest
/// unit. Only gains from -1 to 1 have one.
pub open spec fn volume_units(bits: u32) -> Option<u16> {
    if within(bits, 1) {
        Some(scaled(bits, 8192, 1) as u16)
    } else {
        None
    }
}

/// Computes the pitch-table entry for a detuning in semitones.
pub fn pitch_from_semitones(bits: u32) -> (out: Option<i16>)
    ensures
        out == pitch_units(bits),
        out matches Some(units) ==> -24576 <= units <= 24576 && units == scaled(bits, 512, 0),
{
    let (neg, exp, m) = fields(bits);
    if exp == 255 {
        return None;
    }
    let e: u32 = if exp == 0 {
        1
    } else {
        exp
    };
    proof {
        lemma2_to64();
        lemma2_to64_rest();
        lemma_within_magnitude(bits, 48);
    }
    if e > 132 {
        proof {
            lemma_too_large(bits, 48, 17);
        }
        return None;
    }
    if e == 132 && m > 12582912 {
        return None;
    }
    let k: u32 = 150 - e;
    let ghost d = pow2(k as nat) as int;
    proof {
        if e < 132 {
            lemma_small_enough(bits, 48, 19);
        }
        assert(m <= 48 * d);
        lemma_pow2_pos(k as nat);
        lemma_nearest_bound(512 * m, d, 24576);
    }
    let q: u64 = if k > 40 {
        proof {
            lemma_pow2_strictly_increases(40, k as nat);
            lemma_nearest_small(512 * m, d);
        }
        0
    } else {
        proof {
            if k < 40 {
                lemma_pow2_strictly_increases(k as nat, 40);
            }
        }
        nearest_quotient(512 * (m as u64), power_of_two(k))
    };
    assert(q == nearest(512 * m, d));
    if neg {
        Some(-(q as i16))
    } else {
        Some(q as i16)
    }
}

/// Computes the volume-table entry for a gain.
pub fn volume_from_gain(bits: u32) -> (out: Option<u16>)
    ensures
        out == volume_units(bits),
        out matches Some(units) ==> units <= 16384 && units == scaled(bits, 8192, 1),
{
    let (neg, exp, m) = fields(bits);
    if exp == 255 {
        return None;
    }
    let e: u32 = if exp == 0 {
        1
    } else {
        exp
    };
    proof {
        lemma2_to64();
        lemma2_to64_rest();
        lemma_within_magnitude(bits, 1);
    }
    if e > 127 {
        proof {
            lemma_too_large(bits, 1, 22);
        }
        return None;
    }
    if e == 127 && m > 0x80_0000 {
        return None;
    }
    let k: u32 = 150 - e;
    let ghost d = pow2(k as nat) as int;
    let ghost x: int = if neg {
        -(m as int)
    } else {
        m as int
    };
    proof {
        if e < 127 {
            lemma_small_enough(bits, 1, 24);
        }
        assert(m <= d);
        lemma_pow2_pos(k as nat);
        assert(8192 * (x + 1 * d) == 8192 * d + 8192 * x);
        lemma_nearest_bound(8192 * (x + d), d, 16384);
    }
    let q: u64 = if k > 40 {
        proof {
            lemma_pow2_strictly_increases(40, k as nat);
            lemma_nearest_whole(8192, 8192 * x, d);
        }
        8192
    } else {
        proof {
            if k < 40 {
                lemma_pow2_strictly_increases(k as nat, 40);
            }
        }
        let den = power_of_two(k);
        let p: u64 = if neg {
            8192 * (den - m as u64)
        } else {
            8192 * (den + m as u64)
        };
        nearest_quotient(p, den)
    };
    assert(q == nearest(8192 * (x + d), d));
    Some(q as u16)
}

/// The verdict on each key and the pitch that goes with it, the key judged
/// first.
pub open spec fn pitch_verdicts(keys: Seq<u8>, pitches: Seq<u32>) -> Seq<Option<EditError>> {
    Seq::new(
        keys.len(),
        |i: int|
            {
                let bits = pitches[paired(i, pitches.len() as int)];
                if !key_ok(keys[i]) {
                    Some(EditError::KeyOutOfRange(keys[i]))
                } else if pitch_units(bits) is None {
                    Some(EditError::PitchOutOfRange(bits))
                } else {
                    None
                }
            },
    )
}

/// The verdict on each key and the gain that goes with it, the key judged
/// first.
pub open spec fn gain_verdicts(keys: Seq<u8>, gains: Seq<u32>) -> Seq<Option<EditError>> {
    Seq::new(
        keys.len(),
        |i: int|
            {
                let bits = gains[paired(i, gains.len() as int)];
                if !key_ok(keys[i]) {
                    Some(EditError::KeyOutOfRange(keys[i]))
                } else if volume_units(bits) is None {
                    Some(EditError::GainOutOfRange(bits))
                } else {
                    None
                }
            },
    )
}

/// The pitch-table entries for a list of detunings.
pub open spec fn pitch_entries(pitches: Seq<u32>) -> Seq<i16> {
    Seq::new(pitches.len(), |i: int| scaled(pitches[i], 512, 0) as i16)
}

/// The volume-table entries for a list of gains.
pub open spec fn volume_entries(gains: Seq<u32>) -> Seq<u16> {
    Seq::new(gains.len(), |i: int| scaled(gains[i], 8192, 1) as u16)
}

/// Two lists of values that pair the same value with each of the first
/// `count` keys give the same table.
pub proof fn lemma_assigned_agree<T>(
    table: Seq<T>,
    keys: Seq<u8>,
    a: Seq<T>,
    b: Seq<T>,
    count: nat,
)
    requires
        forall|i: int|
            0 <= i < count ==> a[paired(i, a.len() as int)] == b[paired(i, b.len() as int)],
    ensures
        assigned(table, keys, a, count) == assigned(table, keys, b, count),
    decreases count,
{
    if count > 0 {
        lemma_assigned_agree(table, keys, a, b, (count - 1) as nat);
    }
}

/// Judges each key and its pitch in order and, where none is refused, gives
/// the table entry for each key.
fn pitches_for_keys(keys: &[u8], pitches: &[u32]) -> (out: Result<Vec<i16>, EditError>)
    requires
        pitches@.len() > 0,
    ensures
        match first_error(pitch_verdicts(keys@, pitches@)) {
            Some(e) => out == Err::<Vec<i16>, EditError>(e),
            None => {
                &&& out matches Ok(entries)
                &&& entries@.len() == keys@.len()
                &&& forall|i: int|
                    0 <= i < keys@.len() ==> key_ok(#[trigger] keys@[i]) && entries@[i]
                        == pitch_entries(pitches@)[paired(i, pitches@.len() as int)]
            },
        },
{
    let ghost verdicts = pitch_verdicts(keys@, pitches@);
    assert(verdicts.skip(0) =~= verdicts);
    let mut entries: Vec<i16> = Vec::new();
    let mut i: usize = 0;
    while i < keys.len()
        invariant
            i <= keys@.len(),
            pitches@.len() > 0,
            verdicts == pitch_verdicts(keys@, pitches@),
            first_error(verdicts) == first_error(verdicts.skip(i as int)),
            entries@.len() == i,
            forall|k: int|
                0 <= k < i ==> key_ok(#[trigger] keys@[k]) && entries@[k] == pitch_entries(
                    pitches@,
                )[paired(k, pitches@.len() as int)],
        decreases keys@.len() - i,
    {
        proof {
            lemma_first_error_step(verdicts, i as int);
        }
        let key = keys[i];
        if key < 1 || key > 24 {
            return Err(EditError::KeyOutOfRange(key));
        }
        let j: usize = if i < pitches.len() {
            i
        } else {
            pitches.len() - 1
        };
        match pitch_from_semitones(pitches[j]) {
            None => {
                return Err(EditError::PitchOutOfRange(pitches[j]));
            },
            Some(units) => {
                entries.push(units);
            },
        }
        i += 1;
    }
    Ok(entries)
}

/// Judges each key and its gain in order and, where none is refused, gives
/// the table entry for each key.
fn gains_for_keys(keys: &[u8], gains: &[u32]) -> (out: Result<Vec<u16>, EditError>)
    requires
        gains@.len() > 0,
    ensures
        match first_error(gain_verdicts(keys@, gains@)) {
            Some(e) => out == Err::<Vec<u16>, EditError>(e),
            None => {
                &&& out matches Ok(entries)
                &&& entries@.len() == keys@.len()
                &&& forall|i: int|
                    0 <= i < keys@.len() ==> key_ok(#[trigger] keys@[i]) && entries@[i]
                        == volume_entries(gains@)[paired(i, gains@.len() as int)]
            },
        },
{
    let ghost verdicts = gain_verdicts(keys@, gains@);
    assert(verdicts.skip(0) =~= verdicts);
    let mut entries: Vec<u16> = Vec::new();
    let mut i: usize = 0;
    while i < keys.len()
        invariant
            i <= keys@.len(),
            gains@.len() > 0,
            verdicts == gain_verdicts(keys@, gains@),
            first_error(verdicts) == first_error(verdicts.skip(i as int)),
            entries@.len() == i,
            forall|k: int|
                0 <= k < i ==> key_ok(#[trigger] keys@[k]) && entries@[k] == volume_entries(
                    gains@,
                )[paired(k, gains@.len() as int)],
        decreases keys@.len() - i,
    {
        proof {
            lemma_first_error_step(verdicts, i as int);
        }
        let key = keys[i];
        if key < 1 || key > 24 {
            return Err(EditError::KeyOutOfRange(key));
        }
        let j: usize = if i < gains.len() {
            i
        } else {
            gains.len() - 1
        };
        match volume_from_gain(gains[j]) {
            None => {
                return Err(EditError::GainOutOfRange(gains[j]));
            },
            Some(units) => {
                assert(volume_entries(gains@)[j as int] == units);
                entries.push(units);
            },
        }
        i += 1;
    }
    Ok(entries)
}

impl OP1Data {
    /// What detuning `keys` by `pitches` makes of the patch. An empty list of
    /// pitches is refused first, then a sampler, then the first key or pitch
    /// out of range.
    pub open spec fn pitched(self, keys: Seq<u8>, pitches: Seq<u32>) -> Result<Tables, EditError> {
        if pitches.len() == 0 {
            Err(EditError::NoValues)
        } else if self is Sampler {
            Err(EditError::Sampler)
        } else {
            match first_error(pitch_verdicts(keys, pitches)) {
                Some(e) => Err(e),
                None => Ok(
                    Tables {
                        pitch: assigned(
                            self.tables().pitch,
                            keys,
                            pitch_entries(pitches),
                            keys.len(),
                        ),
                        ..self.tables()
                    },
                ),
            }
        }
    }

    /// What setting the gain of `keys` to `gains` makes of the patch, with
    /// the refusals in the order of `pitched`.
    pub open spec fn gained(self, keys: Seq<u8>, gains: Seq<u32>) -> Result<Tables, EditError> {
        if gains.len() == 0 {
            Err(EditError::NoValues)
        } else if self is Sampler {
            Err(EditError::Sampler)
        } else {
            match first_error(gain_verdicts(keys, gains)) {
                Some(e) => Err(e),
                None => Ok(
                    Tables {
                        volume: assigned(
                            self.tables().volume,
                            keys,
                            volume_entries(gains),
                            keys.len(),
                        ),
                        ..self.tables()
                    },
                ),
            }
        }
    }

    /// Detunes each of `keys` by the number of semitones that goes with it,
    /// the last pitch serving the keys that outnumber the pitches. A pitch is
    /// a single-precision number, given by its bit pattern, from -48 to 48.
    /// Nothing is changed unless every key and every pitch used is in range.
    pub fn pitch(&mut self, keys: &[u8], pitches: &[u32]) -> (out: Result<(), EditError>)
        ensures
            OP1Data::edited(*old(self), *final(self), old(self).pitched(keys@, pitches@), out),
    {
        if pitches.len() == 0 {
            return Err(EditError::NoValues);
        }
        match self {
            OP1Data::Sampler { .. } => Err(EditError::Sampler),
            OP1Data::Drum { pitch, .. } => {
                match pitches_for_keys(keys, pitches) {
                    Err(e) => Err(e),
                    Ok(entries) => {
                        if keys.len() > 0 {
                            proof {
                                assert forall|i: int| 0 <= i < keys@.len() implies entries@[paired(
                                    i,
                                    entries@.len() as int,
                                )] == pitch_entries(pitches@)[paired(i, pitches@.len() as int)] by {
                                    assert(key_ok(keys@[i]));
                                }
                                lemma_assigned_agree(
                                    pitch@,
                                    keys@,
                                    entries@,
                                    pitch_entries(pitches@),
                                    keys@.len(),
                                );
                            }
                            assign_keys(pitch, keys, entries.as_slice());
                        }
                        Ok(())
                    },
                }
            },
        }
    }

    /// Sets the volume of each of `keys` from the gain that goes with it, the
    /// last gain serving the keys that outnumber the gains. A gain is a
    /// single-precision number, given by its bit pattern, from -1 (silence)
    /// to 1. Nothing is changed unless every key and every gain used is in
    /// range.
    pub fn gain(&mut self, keys: &[u8], gains: &[u32]) -> (out: Result<(), EditError>)
        ensures
            OP1Data::edited(*old(self), *final(self), old(self).gained(keys@, gains@), out),
    {
        if gains.len() == 0 {
            return Err(EditError::NoValues);
        }
        match self {
            OP1Data::Sampler { .. } => Err(EditError::Sampler),
            OP1Data::Drum { volume, .. } => {
                match gains_for_keys(keys, gains) {
                    Err(e) => Err(e),
                    Ok(entries) => {
                        if keys.len() > 0 {
                            proof {
                                assert forall|i: int| 0 <= i < keys@.len() implies entries@[paired(
                                    i,
                                    entries@.len() as int,
                                )] == volume_entries(gains@)[paired(i, gains@.len() as int)] by {
                                    assert(key_ok(keys@[i]));
                                }
                                lemma_assigned_agree(
                                    volume@,
                                    keys@,
                                    entries@,
                                    volume_entries(gains@),
                                    keys@.len(),
                                );
                            }
                            assign_keys(volume, keys, entries.as_slice());
                        }
                        Ok(())
                    },
                }
            },
        }
    }
}

/// A shift by the whole keyboard, 24 keys up or down, is refused, though it
/// would leave every sample on its key.
pub proof fn lemma_full_turn_refused(patch: OP1Data, n: i8)
    requires
        n == 24 || n == -24,
    ensures
        patch.shifted(n) == Err::<Tables, EditError>(EditError::ShiftOutOfRange(n)),
{
}

/// A pitch that is no number from -48 to 48 is refused for any key of a
/// drum patch.
pub proof fn lemma_pitch_refused(patch: OP1Data, key: u8, bits: u32)
    requires
        patch is Drum,
        key_ok(key),
        !within(bits, 48),
    ensures
        patch.pitched(seq![key], seq![bits]) == Err::<Tables, EditError>(
            EditError::PitchOutOfRange(bits),
        ),
{
    let verdicts = pitch_verdicts(seq![key], seq![bits]);
    assert(verdicts[0] == Some(EditError::PitchOutOfRange(bits)));
}

/// The keys from `first` to `last`, counted up or down as the two stand.
pub open spec fn key_span(first: int, last: int) -> Seq<int> {
    if first < last {
        Seq::new((last - first + 1) as nat, |i: int| first + i)
    } else {
        Seq::new((first - last + 1) as nat, |i: int| first - i)
    }
}

/// Keys as whole numbers.
pub open spec fn key_numbers(keys: Seq<u8>) -> Seq<int> {
    keys.map_values(|k: u8| k as int)
}

/// Semitones as whole numbers.
pub open spec fn step_numbers(steps: Seq<i8>) -> Seq<int> {
    steps.map_values(|k: i8| k as int)
}

/// Lists the keys from `first` to `last`, both included, counting down
/// where `first` is the higher.
pub fn key_range(first: u8, last: u8) -> (keys: Vec<u8>)
    ensures
        key_numbers(keys@) == key_span(first as int, last as int),
{
    let mut keys: Vec<u8> = Vec::new();
    let count: usize = if first < last {
        (last - first) as usize + 1
    } else {
        (first - last) as usize + 1
    };
    let mut i: usize = 0;
    while i < count
        invariant
            i <= count <= 256,
            count == (if first < last {
                last - first + 1
            } else {
                first - last + 1
            }),
            keys@.len() == i,
            forall|j: int| 0 <= j < i ==> keys@[j] as int == key_span(first as int, last as int)[j],
        decreases count - i,
    {
        let key: u8 = if first < last {
            first + i as u8
        } else {
            first - i as u8
        };
        keys.push(key);
        i += 1;
    }
    assert(key_numbers(keys@) =~= key_span(first as int, last as int));
    keys
}

/// Lists the whole semitones from `first` to `last`, both included,
/// counting down where `first` is the higher.
pub fn semitone_range(first: i8, last: i8) -> (steps: Vec<i8>)
    ensures
        step_numbers(steps@) == key_span(first as int, last as int),
{
    let mut steps: Vec<i8> = Vec::new();
    let count: usize = if first < last {
        (last as i16 - first as i16) as usize + 1
    } else {
        (first as i16 - last as i16) as usize + 1
    };
    let mut i: usize = 0;
    while i < count
        invariant
            i <= count <= 256,
            count == (if first < last {
                last - first + 1
            } else {
                first - last + 1
            }),
            steps@.len() == i,
            forall|j: int|
                0 <= j < i ==> steps@[j] as int == key_span(first as int, last as int)[j],
        decreases count - i,
    {
        let step: i16 = if first < last {
            first as i16 + i as i16
        } else {
            first as i16 - i as i16
        };
        steps.push(step as i8);
        i += 1;
    }
    assert(step_numbers(steps@) =~= key_span(first as int, last as int));
    steps
}

/// The place in the list of the last of the first `count` keys that names
/// the slot `slot`, or -1 where none of them does.
pub open spec fn last_naming(keys: Seq<u8>, count: nat, slot: int) -> int
    decreases count,
{
    if count == 0 {
        -1
    } else if keys[count - 1] - 1 == slot {
        count - 1
    } else {
        last_naming(keys, (count - 1) as nat, slot)
    }
}

/// After keys were given their values, a slot that no key names holds what
/// it held, and a slot that keys name holds the value that goes with the
/// last of them: its own value while the values last, the last value from
/// then on.
pub proof fn lemma_assigned_slot<T>(
    table: Seq<T>,
    keys: Seq<u8>,
    values: Seq<T>,
    count: nat,
    slot: int,
)
    requires
        table.len() == 24,
        0 <= slot < 24,
        count <= keys.len(),
        forall|i: int| 0 <= i < count ==> key_ok(#[trigger] keys[i]),
    ensures
        assigned(table, keys, values, count).len() == 24,
        assigned(table, keys, values, count)[slot] == (if last_naming(keys, count, slot) < 0 {
            table[slot]
        } else {
            values[paired(last_naming(keys, count, slot), values.len() as int)]
        }),
    decreases count,
{
    if count > 0 {
        lemma_assigned_slot(table, keys, values, (count - 1) as nat, slot);
        assert(key_ok(keys[count - 1]));
    }
}

} // verus!
