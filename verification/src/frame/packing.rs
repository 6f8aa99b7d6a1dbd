//! A text as words: its length in bytes, and then its bytes eight to a word,
//! the first byte of each eight the least significant.
use vstd::prelude::*;

verus! {

/// The number a run of bytes is, the first byte the least significant.
pub open spec fn number(bytes: Seq<u8>) -> nat
    decreases bytes.len(),
{
    if bytes.len() == 0 {
        0
    } else {
        bytes[0] as nat + 256 * number(bytes.skip(1))
    }
}

/// How many words it takes to hold `count` bytes.
pub open spec fn chunks(count: int) -> int {
    (count + 7) / 8
}

/// The bytes of chunk `k`.
pub open spec fn chunk(bytes: Seq<u8>, k: int) -> Seq<u8> {
    bytes.subrange(
        8 * k,
        if 8 * k + 8 <= bytes.len() {
            8 * k + 8
        } else {
            bytes.len() as int
        },
    )
}

/// A text's bytes as words.
pub open spec fn packed(bytes: Seq<u8>) -> Seq<u64> {
    Seq::new(
        (1 + chunks(bytes.len() as int)) as nat,
        |i: int|
            if i == 0 {
                bytes.len() as u64
            } else {
                number(chunk(bytes, i - 1)) as u64
            },
    )
}

/// The byte `at` of the text a run of words packs.
pub open spec fn byte_at(words: Seq<u64>, at: int) -> u8 {
    digit(words[1 + at / 8] as nat, at % 8)
}

/// Digit `j` of a number in base 256.
pub open spec fn digit(n: nat, j: int) -> u8
    decreases j,
{
    if j <= 0 {
        (n % 256) as u8
    } else {
        digit(n / 256, j - 1)
    }
}

/// The bytes a run of words packs.
pub open spec fn unpacked(words: Seq<u64>) -> Seq<u8> {
    Seq::new(words[0] as nat, |at: int| byte_at(words, at))
}

spec fn power(k: int) -> nat
    decreases k,
{
    if k <= 0 {
        1
    } else {
        256 * power(k - 1)
    }
}

/// A run of bytes is a number below the power of its length.
proof fn lemma_number_fits(bytes: Seq<u8>)
    ensures
        number(bytes) < power(bytes.len() as int),
    decreases bytes.len(),
{
    if bytes.len() > 0 {
        lemma_number_fits(bytes.skip(1));
    }
}

proof fn lemma_eight_bytes_fit(bytes: Seq<u8>)
    requires
        bytes.len() <= 8,
    ensures
        number(bytes) <= u64::MAX,
{
    lemma_number_fits(bytes);
    lemma_power_grows(bytes.len() as int, 8);
    assert(power(8) == 0x1_0000_0000_0000_0000) by {
        reveal_with_fuel(power, 9);
    }
}

proof fn lemma_power_grows(a: int, b: int)
    requires
        0 <= a <= b,
    ensures
        power(a) <= power(b),
    decreases b,
{
    if a < b {
        lemma_power_grows(a, b - 1);
    }
}

/// The digits of a run's number are its bytes.
proof fn lemma_digits_are_the_bytes(bytes: Seq<u8>, j: int)
    requires
        0 <= j < bytes.len(),
    ensures
        digit(number(bytes), j) == bytes[j],
    decreases j,
{
    let rest = number(bytes.skip(1));
    assert(number(bytes) == bytes[0] as nat + 256 * rest);
    if j > 0 {
        assert(number(bytes) / 256 == rest);
        lemma_digits_are_the_bytes(bytes.skip(1), j - 1);
    } else {
        assert(number(bytes) % 256 == bytes[0] as nat);
    }
}

/// Unpacking what was packed gives the bytes back.
pub proof fn packing_loses_nothing(bytes: Seq<u8>)
    requires
        bytes.len() <= u64::MAX,
    ensures
        unpacked(packed(bytes)) == bytes,
{
    let words = packed(bytes);
    assert forall|at: int| 0 <= at < bytes.len() implies #[trigger] unpacked(words)[at]
        == bytes[at] by {
        let k = at / 8;
        let part = chunk(bytes, k);
        assert(0 <= 1 + k < words.len());
        assert(part[at % 8] == bytes[at]);
        lemma_eight_bytes_fit(part);
        lemma_digits_are_the_bytes(part, at % 8);
        assert(words[1 + k] == number(part) as u64);
    }
    assert(unpacked(words) =~= bytes);
}

/// The number the bytes from `from` to `to` are.
fn read_number(bytes: &[u8], from: usize, to: usize) -> (n: u64)
    requires
        from <= to <= bytes@.len(),
        to - from <= 8,
    ensures
        n == number(bytes@.subrange(from as int, to as int)),
{
    let mut n: u64 = 0;
    let mut at: usize = to;
    proof {
        assert(bytes@.subrange(to as int, to as int) =~= Seq::<u8>::empty());
    }
    while at > from
        invariant
            from <= at <= to <= bytes@.len(),
            to - from <= 8,
            n == number(bytes@.subrange(at as int, to as int)),
        decreases at,
    {
        at = at - 1;
        proof {
            let longer = bytes@.subrange(at as int, to as int);
            assert(longer.skip(1) =~= bytes@.subrange(at + 1, to as int));
            assert(longer[0] == bytes@[at as int]);
            lemma_eight_bytes_fit(longer);
        }
        n = bytes[at] as u64 + 256 * n;
    }
    n
}

/// Packs a text's bytes: one word holding how many there are, and then eight
/// to a word, the last filled up with zeros.
pub fn pack_string_words(bytes: &[u8]) -> (words: Vec<u64>)
    ensures
        words@ == packed(bytes@),
{
    let total: usize = bytes.len();
    let mut words: Vec<u64> = Vec::new();
    words.push(total as u64);
    let mut at: usize = 0;
    let mut k: usize = 0;
    proof {
        assert(words@ =~= packed(bytes@).take(1));
    }
    while at < total
        invariant
            total == bytes@.len(),
            at <= total,
            k == chunks(at as int),
            at == total || at == 8 * k,
            words@ == packed(bytes@).take(1 + k),
            k <= chunks(total as int),
        decreases total - at,
    {
        let to: usize = if total - at >= 8 {
            at + 8
        } else {
            total
        };
        let n: u64 = read_number(bytes, at, to);
        words.push(n);
        proof {
            assert(chunk(bytes@, k as int) =~= bytes@.subrange(at as int, to as int));
            assert(packed(bytes@)[1 + k] == n);
            assert(words@ =~= packed(bytes@).take(2 + k));
        }
        at = to;
        k = k + 1;
    }
    proof {
        assert(packed(bytes@).take(1 + k) =~= packed(bytes@));
    }
    words
}

/// Digit `j` of a word in base 256.
pub fn word_byte(word: u64, j: usize) -> (byte: u8)
    ensures
        byte == digit(word as nat, j as int),
    decreases j,
{
    if j == 0 {
        (word % 256) as u8
    } else {
        word_byte(word / 256, j - 1)
    }
}

/// A text's words are its length in bytes and then its bytes eight to a word,
/// as many words as that takes; and of the bytes of a word the first counts
/// ones, the next 256s, and so on.
pub proof fn bytes_stand_eight_to_a_word_the_least_first(bytes: Seq<u8>, k: int)
    requires
        bytes.len() <= u64::MAX,
        0 <= k,
        8 * k < bytes.len(),
    ensures
        packed(bytes).len() == 1 + (bytes.len() + 7) / 8,
        packed(bytes)[0] == bytes.len(),
        8 * k + 8 <= bytes.len() ==> packed(bytes)[1 + k] == bytes[8 * k] + 0x100 * bytes[8 * k + 1]
            + 0x1_0000 * bytes[8 * k + 2] + 0x100_0000 * bytes[8 * k + 3] + 0x1_0000_0000
            * bytes[8 * k + 4] + 0x100_0000_0000 * bytes[8 * k + 5] + 0x1_0000_0000_0000 * bytes[8
            * k + 6] + 0x100_0000_0000_0000 * bytes[8 * k + 7],
        bytes.len() == 8 * k + 1 ==> packed(bytes)[1 + k] == bytes[8 * k],
        bytes.len() == 8 * k + 2 ==> packed(bytes)[1 + k] == bytes[8 * k] + 0x100 * bytes[8 * k + 1],
{
    let part = chunk(bytes, k);
    lemma_eight_bytes_fit(part);
    reveal_with_fuel(number, 9);
    assert(packed(bytes)[1 + k] == number(part) as u64);
    if 8 * k + 8 <= bytes.len() {
        let b1 = part.skip(1);
        let b2 = b1.skip(1);
        let b3 = b2.skip(1);
        let b4 = b3.skip(1);
        let b5 = b4.skip(1);
        let b6 = b5.skip(1);
        let b7 = b6.skip(1);
        let b8 = b7.skip(1);
        assert(number(b8) == 0);
        assert(number(b7) == bytes[8 * k + 7]);
        assert(number(b6) == bytes[8 * k + 6] + 256 * number(b7));
        assert(number(b5) == bytes[8 * k + 5] + 256 * number(b6));
        assert(number(b4) == bytes[8 * k + 4] + 256 * number(b5));
        assert(number(b3) == bytes[8 * k + 3] + 256 * number(b4));
        assert(number(b2) == bytes[8 * k + 2] + 256 * number(b3));
        assert(number(b1) == bytes[8 * k + 1] + 256 * number(b2));
        assert(number(part) == bytes[8 * k] + 256 * number(b1));
    }
}

} // verus!
