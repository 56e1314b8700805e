//! The source of the generator's choices: the thread's random generator, or
//! a recorded tape of words that makes a run repeatable.

use vstd::prelude::*;
use rand::seq::SliceRandom;
use rand::{Rng, SeedableRng};

verus! {

/// The words that the seeded standard generator of `rand` yields: `count`
/// words, the same for the same seed and count.  The generator's algorithm
/// belongs to the version of `rand` that is linked: another version may
/// yield other words.
pub uninterp spec fn seeded_stream(seed: u64, count: nat) -> Seq<u32>;

/// Calls `rand::thread_rng` and `SliceRandom::choose` on the options.  The
/// choice depends on chance; all that is claimed is that it is one of the
/// options, which `choose` guarantees for a slice that is not empty.  The
/// thread's generator is seeded by the system when it is first used and
/// again from time to time; it panics where the system's source of entropy
/// fails, which no argument decides.
#[verifier::external_body]
fn choose_cell(options: &Vec<(usize, usize)>) -> (chosen: (usize, usize))
    requires
        options@.len() > 0,
    ensures
        options@.contains(chosen),
{
    *options.choose(&mut rand::thread_rng()).unwrap()
}

/// Seeds `rand::rngs::StdRng` with `SeedableRng::seed_from_u64` and fills a
/// vector of `count` words with `Rng::fill`.  Seeding and filling compute on
/// the seed alone, so the words are a function of seed and count; `fill`
/// writes every element and leaves the length as it is.  The vector cannot
/// be made where its four bytes a word come to more than a vector can hold.
#[verifier::external_body]
fn seeded_words(seed: u64, count: usize) -> (words: Vec<u32>)
    requires
        4 * count <= isize::MAX,
    ensures
        words@ == seeded_stream(seed, count as nat),
        words@.len() == count,
{
    let mut words = vec![0u32; count];
    rand::rngs::StdRng::seed_from_u64(seed).fill(&mut words[..]);
    words
}

/// The word at place `used` of a tape, and zero past its end.
pub open spec fn word_at(tape: Seq<u32>, used: nat) -> u32 {
    if used < tape.len() {
        tape[used as int]
    } else {
        0u32
    }
}

/// Which of `count` options a tape selects at place `used`.
pub open spec fn pick_index(tape: Seq<u32>, used: nat, count: nat) -> int {
    word_at(tape, used) as int % count as int
}

/// Where the cursor of a tape stands after one more pick.
pub open spec fn advance(tape: Seq<u32>, used: nat) -> nat {
    if used < tape.len() {
        used + 1
    } else {
        used
    }
}

/// What a picker is, to contracts: its tape, if it has one, and how many
/// words of it are spent.
pub struct PickerView {
    pub tape: Option<Seq<u32>>,
    pub used: nat,
}

/// Picks one of several cells.  A fresh picker asks the thread's random
/// generator; a picker with a tape reads its next word and takes the option
/// at that word modulo the number of options, so that equal tapes give equal
/// picks.  Past the end of the tape every word reads as zero.
pub struct Picker {
    tape: Option<Vec<u32>>,
    used: usize,
}

impl View for Picker {
    type V = PickerView;

    closed spec fn view(&self) -> PickerView {
        PickerView {
            tape: match self.tape {
                Some(words) => Some(words@),
                None => None,
            },
            used: self.used as nat,
        }
    }
}

impl Picker {
    /// The cursor does not lie past the end of the tape.
    pub open spec fn wf(&self) -> bool {
        self@.tape matches Some(tape) ==> self@.used <= tape.len()
    }

    /// A picker that draws from the thread's random generator.
    pub fn fresh() -> (picker: Picker)
        ensures
            picker.wf(),
            picker@ == (PickerView { tape: None, used: 0 }),
    {
        Picker { tape: None, used: 0 }
    }

    /// A picker that replays the given words.
    pub fn replay(words: Vec<u32>) -> (picker: Picker)
        ensures
            picker.wf(),
            picker@ == (PickerView { tape: Some(words@), used: 0 }),
    {
        Picker { tape: Some(words), used: 0 }
    }

    /// A picker that replays `count` words of the generator seeded with
    /// `seed`.  The words must fit a vector: four bytes each.
    pub fn seeded(seed: u64, count: usize) -> (picker: Picker)
        requires
            4 * count <= isize::MAX,
        ensures
            picker.wf(),
            picker@ == (PickerView { tape: Some(seeded_stream(seed, count as nat)), used: 0 }),
    {
        Picker { tape: Some(seeded_words(seed, count)), used: 0 }
    }

    /// Picks one of the options.
    pub fn pick(&mut self, options: &Vec<(usize, usize)>) -> (chosen: (usize, usize))
        requires
            old(self).wf(),
            options@.len() > 0,
        ensures
            final(self).wf(),
            options@.contains(chosen),
            final(self)@.tape == old(self)@.tape,
            match old(self)@.tape {
                Some(tape) => {
                    &&& chosen == options@[pick_index(tape, old(self)@.used, options@.len())]
                    &&& final(self)@.used == advance(tape, old(self)@.used)
                },
                None => final(self)@.used == old(self)@.used,
            },
    {
        match &self.tape {
            Some(words) => {
                let word = if self.used < words.len() {
                    let word = words[self.used];
                    self.used = self.used + 1;
                    word
                } else {
                    0
                };
                let index = (word as usize) % options.len();
                options[index]
            },
            None => choose_cell(options),
        }
    }
}

} // verus!
