//! The codec between a Cove scalar and the eight bytes a word holds.
use vstd::prelude::*;

verus! {

/// The word an integer is: itself where it is not negative, and counted down
/// from the top of the range where it is.
pub open spec fn int_word(n: int) -> int {
    if n < 0 {
        n + 0x1_0000_0000_0000_0000
    } else {
        n
    }
}

/// The integer a word is.
pub open spec fn word_int(word: u64) -> int {
    if word >= 0x8000_0000_0000_0000u64 {
        word - 0x1_0000_0000_0000_0000
    } else {
        word as int
    }
}

/// The word a boolean is.
pub open spec fn bool_word(b: bool) -> u64 {
    if b {
        1
    } else {
        0
    }
}

/// The codec between a Cove scalar and the eight bytes a word holds.
///
/// Every conversion here is a reinterpretation. Nothing is truncated and
/// nothing is tagged.
pub struct Word;

impl Word {
    /// An `Int` is the full signed 64-bit value.
    pub fn of_int(value: i64) -> (word: u64)
        ensures
            word == int_word(value as int),
    {
        proof {
            assert(value >= 0 ==> value as u64 == value) by (bit_vector);
            assert(value < 0 ==> value as u64 == value + 0x1_0000_0000_0000_0000) by (bit_vector);
        }
        value as u64
    }

    /// And back, losslessly, for every one of the 2^64 patterns.
    pub fn to_int(word: u64) -> (value: i64)
        ensures
            value == word_int(word),
    {
        proof {
            assert(word < 0x8000_0000_0000_0000u64 ==> word as i64 == word) by (bit_vector);
            assert(word >= 0x8000_0000_0000_0000u64 ==> word as i64 == word
                - 0x1_0000_0000_0000_0000) by (bit_vector);
        }
        word as i64
    }

    /// A `Bool` is canonical: 0 or 1 and nothing else.
    pub fn of_bool(value: bool) -> (word: u64)
        ensures
            word == bool_word(value),
    {
        if value {
            1
        } else {
            0
        }
    }

    /// The `Bool` a canonical word stands for.
    pub fn canonical_bool(word: u64) -> (value: bool)
        requires
            word <= 1,
        ensures
            word == bool_word(value),
    {
        word == 1
    }
}

/// Every integer survives a word.
pub proof fn an_int_survives_a_word(n: i64)
    ensures
        0 <= int_word(n as int) <= u64::MAX,
        word_int(int_word(n as int) as u64) == n,
{
}

/// Every word survives being read as an integer.
pub proof fn a_word_survives_an_int(word: u64)
    ensures
        i64::MIN <= word_int(word) <= i64::MAX,
        int_word(word_int(word)) == word,
{
}

/// A word and the integer it is are the same but for whole turns of the range,
/// and the integer is one of 64 bits; 0 is no and 1 is yes.
pub proof fn a_word_is_its_integer_up_to_whole_turns(word: u64, n: i64)
    ensures
        word_int(word) == word || word_int(word) == word - 0x1_0000_0000_0000_0000,
        -0x8000_0000_0000_0000 <= word_int(word) <= 0x7fff_ffff_ffff_ffff,
        int_word(n as int) == n || int_word(n as int) == n + 0x1_0000_0000_0000_0000,
        0 <= int_word(n as int) <= 0xffff_ffff_ffff_ffff,
        bool_word(true) == 1,
        bool_word(false) == 0,
{
}

} // verus!
