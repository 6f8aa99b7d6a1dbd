//! The float operations whose answers are fixed here, on the bits a float is.
use vstd::prelude::*;

verus! {

/// The lesser or the greater of two.
#[derive(Clone, Copy, Debug, PartialEq, Eq, Structural)]
pub enum MinMax {
    Min,
    Max,
}

/// The bit that makes a float negative.
pub const SIGN: u64 = 0x8000_0000_0000_0000;

/// The bits of the positive infinity. A float with greater bits below its sign
/// is not a number.
pub const INFINITY: u64 = 0x7ff0_0000_0000_0000;

/// The first exponent above nothing, which is one more than the greatest
/// fraction.
pub const EXPONENT: u64 = 0x0010_0000_0000_0000;

/// A float's bits below its sign.
pub open spec fn below_sign(bits: u64) -> int {
    if bits >= SIGN {
        bits - SIGN
    } else {
        bits as int
    }
}

/// The bits are those of no number.
pub open spec fn is_nan(bits: u64) -> bool {
    below_sign(bits) > INFINITY
}

/// What the bits below a sign stand for, in units of the least float above
/// nothing. The infinity is more than every number.
pub open spec fn magnitude(low: int) -> int {
    let exponent = low / EXPONENT as int;
    let fraction = low % EXPONENT as int;
    if exponent <= 0 {
        fraction
    } else {
        (EXPONENT + fraction) * vstd::arithmetic::power2::pow2((exponent - 1) as nat)
    }
}

/// The number a float is, in units of the least float above nothing.
pub open spec fn number(bits: u64) -> int {
    if bits >= SIGN {
        -magnitude(below_sign(bits))
    } else {
        magnitude(below_sign(bits))
    }
}

/// The lesser or the greater of two floats. What is not a number gives way to
/// what is, and of two equal numbers, such as the two zeros, the second stands.
pub open spec fn extreme(x: u64, y: u64, op: MinMax) -> u64 {
    if is_nan(y) {
        x
    } else if is_nan(x) {
        y
    } else {
        let first = match op {
            MinMax::Min => number(x) < number(y),
            MinMax::Max => number(x) > number(y),
        };
        if first {
            x
        } else {
            y
        }
    }
}

proof fn lemma_magnitude_of_more(low: int, high: int)
    requires
        0 <= low < high,
    ensures
        0 <= magnitude(low) < magnitude(high),
{
    let unit = EXPONENT as int;
    let e = low / unit;
    let f = low % unit;
    let g = high / unit;
    let h = high % unit;
    assert(low == e * unit + f && high == g * unit + h) by {
        vstd::arithmetic::div_mod::lemma_fundamental_div_mod(low, unit);
        vstd::arithmetic::div_mod::lemma_fundamental_div_mod(high, unit);
    }
    assert(0 <= f < unit && 0 <= h < unit);
    assert(e <= g);
    assert(0 <= e);
    if e == g {
        assert(f < h);
        if e > 0 {
            let p = vstd::arithmetic::power2::pow2((e - 1) as nat) as int;
            vstd::arithmetic::power2::lemma_pow2_pos((e - 1) as nat);
            assert(0 <= (unit + f) * p < (unit + h) * p) by (nonlinear_arith)
                requires
                    0 < p,
                    0 <= f < h,
                    0 < unit,
            ;
        }
    } else {
        let q = vstd::arithmetic::power2::pow2((g - 1) as nat) as int;
        vstd::arithmetic::power2::lemma_pow2_pos((g - 1) as nat);
        if e == 0 {
            assert(f < (unit + h) * q) by (nonlinear_arith)
                requires
                    1 <= q,
                    0 <= f < unit,
                    0 <= h,
            ;
        } else {
            let p = vstd::arithmetic::power2::pow2((e - 1) as nat) as int;
            vstd::arithmetic::power2::lemma_pow2_pos((e - 1) as nat);
            vstd::arithmetic::power2::lemma_pow2_unfold(e as nat);
            if e < g - 1 {
                vstd::arithmetic::power2::lemma_pow2_strictly_increases(
                    e as nat,
                    (g - 1) as nat,
                );
            }
            assert(2 * p <= q);
            assert(0 <= (unit + f) * p < (unit + h) * q) by (nonlinear_arith)
                requires
                    1 <= p,
                    2 * p <= q,
                    0 <= f < unit,
                    0 <= h,
            ;
        }
    }
}

proof fn lemma_magnitude_of_none()
    ensures
        magnitude(0) == 0,
{
}

/// What orders floats as numbers: the bits below the sign, negative where the
/// sign is set.
spec fn place(bits: u64) -> int {
    if bits >= SIGN {
        -below_sign(bits)
    } else {
        below_sign(bits)
    }
}

proof fn lemma_place(x: u64, y: u64)
    ensures
        place(x) < place(y) <==> number(x) < number(y),
{
    let a = below_sign(x);
    let b = below_sign(y);
    lemma_magnitude_of_none();
    if a < b {
        lemma_magnitude_of_more(a, b);
    }
    if b < a {
        lemma_magnitude_of_more(b, a);
    }
    if a > 0 {
        lemma_magnitude_of_more(0, a);
    }
    if b > 0 {
        lemma_magnitude_of_more(0, b);
    }
}

/// Whether one float is a lesser number than another.
fn less(x: u64, y: u64) -> (yes: bool)
    ensures
        yes == (number(x) < number(y)),
{
    proof {
        lemma_place(x, y);
    }
    if x >= SIGN {
        if y >= SIGN {
            x - SIGN > y - SIGN
        } else {
            x - SIGN > 0 || y > 0
        }
    } else if y >= SIGN {
        false
    } else {
        x < y
    }
}

/// Whether the bits are those of no number.
fn not_a_number(bits: u64) -> (yes: bool)
    ensures
        yes == is_nan(bits),
{
    if bits >= SIGN {
        bits - SIGN > INFINITY
    } else {
        bits > INFINITY
    }
}

/// The lesser or the greater of two floats, bit for bit as it was given.
pub fn extremum(x: u64, y: u64, op: MinMax) -> (bits: u64)
    ensures
        bits == extreme(x, y, op),
{
    if not_a_number(y) {
        x
    } else if not_a_number(x) {
        y
    } else {
        let first: bool = match op {
            MinMax::Min => less(x, y),
            MinMax::Max => less(y, x),
        };
        if first {
            x
        } else {
            y
        }
    }
}

/// Of two floats that are no less than nothing the one of lesser bits is the
/// lesser, whichever is given first.
pub proof fn floats_above_nothing_are_ordered_by_their_bits(x: u64, y: u64)
    requires
        x < y <= 0x7ff0_0000_0000_0000,
    ensures
        extreme(x, y, MinMax::Min) == x,
        extreme(y, x, MinMax::Min) == x,
        extreme(x, y, MinMax::Max) == y,
        extreme(y, x, MinMax::Max) == y,
{
    lemma_place(x, y);
    lemma_place(y, x);
}

/// Of two floats with a sign the one of greater bits is the lesser, whichever
/// is given first.
pub proof fn floats_below_nothing_are_ordered_the_other_way(x: u64, y: u64)
    requires
        0x8000_0000_0000_0000 <= x < y <= 0xfff0_0000_0000_0000,
    ensures
        extreme(x, y, MinMax::Min) == y,
        extreme(y, x, MinMax::Min) == y,
        extreme(x, y, MinMax::Max) == x,
        extreme(y, x, MinMax::Max) == x,
{
    lemma_place(x, y);
    lemma_place(y, x);
}

/// A float with a sign is less than one without, whichever is given first,
/// unless both are zero.
pub proof fn a_float_with_a_sign_is_the_lesser(x: u64, y: u64)
    requires
        0x8000_0000_0000_0000 <= x <= 0xfff0_0000_0000_0000,
        y <= 0x7ff0_0000_0000_0000,
        x != 0x8000_0000_0000_0000 || y != 0,
    ensures
        extreme(x, y, MinMax::Min) == x,
        extreme(y, x, MinMax::Min) == x,
        extreme(x, y, MinMax::Max) == y,
        extreme(y, x, MinMax::Max) == y,
{
    lemma_place(x, y);
    lemma_place(y, x);
}

/// Of two floats that are the same number, which only the two zeros are
/// without being the same bits, the second stands.
pub proof fn of_equal_floats_the_second_stands(x: u64, y: u64, op: MinMax)
    requires
        x == y || (x == 0 && y == 0x8000_0000_0000_0000) || (x == 0x8000_0000_0000_0000 && y == 0),
    ensures
        extreme(x, y, op) == y,
{
    lemma_place(x, y);
    lemma_place(y, x);
}

/// What is not a number gives way to the other float, whichever is given first;
/// of two that are not numbers the first stands.
pub proof fn what_is_not_a_number_gives_way(x: u64, y: u64, op: MinMax)
    requires
        0x7ff0_0000_0000_0000 < y < 0x8000_0000_0000_0000 || 0xfff0_0000_0000_0000 < y,
    ensures
        extreme(x, y, op) == x,
        x <= 0x7ff0_0000_0000_0000 || 0x8000_0000_0000_0000 <= x <= 0xfff0_0000_0000_0000
            ==> extreme(y, x, op) == x,
{
}

} // verus!
