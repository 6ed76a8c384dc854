//! Songs of format version 22.

use crate::song::song_memory::SongMemory;
use vstd::prelude::*;

verus! {

/// The format version of these songs.
pub const FORMAT_VERSION: u8 = 22;

/// The number of wave frames in a song.
pub const WAVE_COUNT: usize = 256;

/// The number of values in a wave frame.
pub const WAVE_VALUES: usize = 32;

/// One value of a wave frame: four bits, where 0 is fully negative, 8 is
/// silence and 15 is fully positive.
#[derive(Debug, Clone, Copy, PartialEq, Eq, PartialOrd, Ord)]
pub struct WaveValue(u8);

impl WaveValue {
    /// The value has four bits.
    #[verifier::type_invariant]
    pub closed spec fn wf(self) -> bool {
        self.0 < 16
    }

    /// The value as a number.
    pub closed spec fn value(self) -> u8 {
        self.0
    }

    /// The wave value `value`, if it has four bits.
    pub fn new(value: u8) -> (wave: Option<Self>)
        ensures
            value < 16 ==> wave.is_some() && wave.unwrap().value() == value,
            value >= 16 ==> wave.is_none(),
    {
        if value < 16 {
            Some(WaveValue(value))
        } else {
            None
        }
    }

    /// The lowest wave value.
    pub fn min_value() -> (wave: Self)
        ensures
            wave.value() == 0x0,
    {
        WaveValue(0x0)
    }

    /// The wave value that stands for silence.
    pub fn silence() -> (wave: Self)
        ensures
            wave.value() == 0x8,
    {
        WaveValue(0x8)
    }

    /// The highest wave value.
    pub fn max_value() -> (wave: Self)
        ensures
            wave.value() == 0xF,
    {
        WaveValue(0xF)
    }

    /// The value as a number.
    pub fn get(self) -> (value: u8)
        ensures
            value == self.value(),
            value < 16,
    {
        proof {
            use_type_invariant(self);
        }
        self.0
    }
}

/// A song of format version 22.
pub struct Song {
    /// The frames of the wave table.
    pub waves: Vec<Vec<WaveValue>>,
}

impl Song {
    /// All 256 frames have 32 values.
    pub open spec fn wf(&self) -> bool {
        &&& self.waves@.len() == WAVE_COUNT
        &&& forall|i: int| 0 <= i < WAVE_COUNT ==> (#[trigger] self.waves@[i])@.len() == WAVE_VALUES
    }

    /// Every value of every frame is silence.
    pub open spec fn is_silent(&self) -> bool {
        forall|i: int, j: int|
            0 <= i < self.waves@.len() && 0 <= j < self.waves@[i]@.len()
                ==> (#[trigger] self.waves@[i]@[j]).value() == 0x8
    }

    /// The song in `memory`, which is of format version 22. The wave
    /// frames are not read yet: each of them is silent.
    pub fn from_memory(memory: &SongMemory) -> (song: Self)
        requires
            memory.wf(),
            memory@[0x7FFF] == FORMAT_VERSION,
        ensures
            song.wf(),
            song.is_silent(),
    {
        let mut waves: Vec<Vec<WaveValue>> = Vec::new();
        let mut i: usize = 0;
        while i < WAVE_COUNT
            invariant
                i <= WAVE_COUNT,
                waves@.len() == i,
                forall|k: int| 0 <= k < i ==> (#[trigger] waves@[k])@.len() == WAVE_VALUES,
                forall|k: int, j: int|
                    0 <= k < i && 0 <= j < waves@[k]@.len() ==> (#[trigger] waves@[k]@[j]).value()
                        == 0x8,
            decreases WAVE_COUNT - i,
        {
            let mut frame: Vec<WaveValue> = Vec::new();
            let mut j: usize = 0;
            while j < WAVE_VALUES
                invariant
                    j <= WAVE_VALUES,
                    frame@.len() == j,
                    forall|k: int| 0 <= k < j ==> (#[trigger] frame@[k]).value() == 0x8,
                decreases WAVE_VALUES - j,
            {
                frame.push(WaveValue::silence());
                j = j + 1;
            }
            waves.push(frame);
            i = i + 1;
        }
        Song { waves }
    }
}

} // verus!
