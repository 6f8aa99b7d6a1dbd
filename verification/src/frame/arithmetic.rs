//! The operators over settled integers, and the order of runs of bytes.
use crate::ir::{BinaryOp, IntOp};
use vstd::prelude::*;

verus! {

/// How far an integer is from zero.
fn magnitude_of(n: i64) -> (m: u64)
    ensures
        m == crate::frame::machine::magnitude(n as int),
{
    if n >= 0 {
        n as u64
    } else if n == i64::MIN {
        0x8000_0000_0000_0000u64
    } else {
        (-n) as u64
    }
}

/// The quotient, towards zero, where it is an integer of 64 bits.
fn divide(a: i64, b: i64) -> (q: Option<i64>)
    requires
        b != 0,
    ensures
        match q {
            Some(n) => n == crate::frame::machine::quotient(a as int, b as int),
            None => crate::frame::machine::quotient(a as int, b as int) > i64::MAX,
        },
{
    let x: u64 = magnitude_of(a);
    let y: u64 = magnitude_of(b);
    let q: u64 = x / y;
    proof {
        assert(q <= x) by (nonlinear_arith)
            requires
                q == x / y,
                y >= 1,
        ;
    }
    if (a < 0) == (b < 0) {
        if q > 0x7FFF_FFFF_FFFF_FFFFu64 {
            None
        } else {
            Some(q as i64)
        }
    } else if q == 0x8000_0000_0000_0000u64 {
        Some(i64::MIN)
    } else {
        Some(-(q as i64))
    }
}

/// What the quotient leaves, with the sign of what is divided.
fn leave(a: i64, b: i64) -> (r: i64)
    requires
        b != 0,
    ensures
        r == crate::frame::machine::remainder(a as int, b as int),
{
    let x: u64 = magnitude_of(a);
    let y: u64 = magnitude_of(b);
    let r: u64 = x % y;
    if a < 0 {
        -(r as i64)
    } else {
        r as i64
    }
}

/// A flag as an integer.
fn flag(yes: bool) -> (n: i64)
    ensures
        n == crate::frame::word::bool_word(yes),
{
    if yes {
        1
    } else {
        0
    }
}

/// The answer of an integer operator, or what it raises.
pub fn int_binary(op: IntOp, a: i64, b: i64) -> (result: Result<i64, &'static str>)
    ensures
        match crate::frame::machine::int_binary(op, a as int, b as int) {
            Ok(n) => result matches Ok(m) && m == n,
            Err(message) => result matches Err(text) && text@ == message,
        },
{
    match op {
        IntOp::Add => match a.checked_add(b) {
            Some(n) => Ok(n),
            None => Err("integer overflow in addition"),
        },
        IntOp::Sub => match a.checked_sub(b) {
            Some(n) => Ok(n),
            None => Err("integer overflow in subtraction"),
        },
        IntOp::Mul => match a.checked_mul(b) {
            Some(n) => Ok(n),
            None => Err("integer overflow in multiplication"),
        },
        IntOp::Div => if b == 0 {
            Err("division by zero")
        } else {
            proof {
                lemma_quotient_fits(a, b);
            }
            match divide(a, b) {
                Some(n) => Ok(n),
                None => Err("integer overflow in division"),
            }
        },
        IntOp::Rem => if b == 0 {
            Err("remainder by zero")
        } else {
            match divide(a, b) {
                Some(_) => Ok(leave(a, b)),
                None => Err("integer overflow in remainder"),
            }
        },
        IntOp::Eq => Ok(flag(a == b)),
        IntOp::Ne => Ok(flag(a != b)),
        IntOp::Lt => Ok(flag(a < b)),
        IntOp::Le => Ok(flag(a <= b)),
        IntOp::Gt => Ok(flag(a > b)),
        IntOp::Ge => Ok(flag(a >= b)),
    }
}

/// A quotient never falls below the least integer.
proof fn lemma_quotient_fits(a: i64, b: i64)
    requires
        b != 0,
    ensures
        crate::frame::machine::quotient(a as int, b as int) >= i64::MIN,
{
    let x = crate::frame::machine::magnitude(a as int);
    let y = crate::frame::machine::magnitude(b as int);
    assert(x / y <= x) by (nonlinear_arith)
        requires
            y >= 1,
    ;
    assert(0 <= x / y) by (nonlinear_arith)
        requires
            y >= 1,
    ;
}

/// How two runs of bytes are ordered.
pub fn order_bytes(a: &Vec<u8>, b: &Vec<u8>) -> (order: i32)
    ensures
        order == crate::frame::machine::byte_order(a@, b@),
{
    let mut i: usize = 0;
    proof {
        assert(a@.skip(0) =~= a@);
        assert(b@.skip(0) =~= b@);
    }
    while i < a.len() && i < b.len()
        invariant
            i <= a@.len(),
            i <= b@.len(),
            crate::frame::machine::byte_order(a@.skip(i as int), b@.skip(i as int))
                == crate::frame::machine::byte_order(a@, b@),
        decreases a@.len() - i,
    {
        proof {
            assert(a@.skip(i as int).skip(1) =~= a@.skip(i + 1));
            assert(b@.skip(i as int).skip(1) =~= b@.skip(i + 1));
        }
        if a[i] < b[i] {
            return -1;
        }
        if a[i] > b[i] {
            return 1;
        }
        i = i + 1;
    }
    if i < b.len() {
        -1
    } else if i < a.len() {
        1
    } else {
        0
    }
}

/// What a comparison answers for an order.
pub fn answers(op: BinaryOp, order: i32) -> (yes: bool)
    ensures
        yes == crate::frame::machine::compared(op, order as int),
{
    match op {
        BinaryOp::Eq => order == 0,
        BinaryOp::Ne => order != 0,
        BinaryOp::Lt => order < 0,
        BinaryOp::Le => order <= 0,
        BinaryOp::Gt => order > 0,
        _ => order >= 0,
    }
}

proof fn lemma_the_parts_of_a_division(a: int, b: int)
    requires
        b != 0,
    ensures
        ({
            let q = crate::frame::machine::quotient(a, b);
            let r = crate::frame::machine::remainder(a, b);
            &&& a == q * b + r
            &&& -crate::frame::machine::magnitude(b) < r < crate::frame::machine::magnitude(b)
            &&& r != 0 ==> (r < 0) == (a < 0)
        }),
{
    let x = crate::frame::machine::magnitude(a) as int;
    let y = crate::frame::machine::magnitude(b) as int;
    let q = x / y;
    let r = x % y;
    vstd::arithmetic::div_mod::lemma_fundamental_div_mod(x, y);
    assert(0 <= r < y);
    assert(q * y == y * q) by (nonlinear_arith);
    assert((-q) * y == -(q * y)) by (nonlinear_arith);
    assert(q * (-y) == -(q * y)) by (nonlinear_arith);
    assert((-q) * (-y) == q * y) by (nonlinear_arith);
}

proof fn lemma_the_quotient_that_is_too_great(a: i64, b: i64)
    requires
        b != 0,
    ensures
        crate::frame::machine::quotient(a as int, b as int) > i64::MAX <==> a == i64::MIN && b
            == -1,
        crate::frame::machine::quotient(a as int, b as int) >= i64::MIN,
{
    lemma_quotient_fits(a, b);
    let x = crate::frame::machine::magnitude(a as int) as int;
    let y = crate::frame::machine::magnitude(b as int) as int;
    let q = x / y;
    assert(q <= x) by (nonlinear_arith)
        requires
            q == x / y,
            y >= 1,
            x >= 0,
    ;
    assert(y >= 2 ==> 2 * q <= x) by (nonlinear_arith)
        requires
            q == x / y,
            y >= 1,
            x >= 0,
    ;
    assert(y == 1 ==> q == x) by (nonlinear_arith)
        requires
            q == x / y,
            y >= 1,
    ;
}

/// Dividing leaves what it says it leaves: the quotient times the divisor and
/// the remainder make up what was divided, and the remainder is nearer zero
/// than the divisor and on the side of what was divided. Both are answered for
/// every divisor but zero, except that the least integer has no quotient by -1.
pub proof fn a_quotient_and_its_remainder_make_up_the_whole(a: i64, b: i64)
    requires
        b != 0,
        a != i64::MIN || b != -1,
    ensures
        crate::frame::machine::int_binary(IntOp::Div, a as int, b as int) is Ok,
        crate::frame::machine::int_binary(IntOp::Rem, a as int, b as int) is Ok,
        ({
            let q = crate::frame::machine::int_binary(IntOp::Div, a as int, b as int)->Ok_0;
            let r = crate::frame::machine::int_binary(IntOp::Rem, a as int, b as int)->Ok_0;
            &&& a == q * b + r
            &&& b > 0 ==> -b < r < b
            &&& b < 0 ==> b < r < -b
            &&& a >= 0 ==> r >= 0
            &&& a <= 0 ==> r <= 0
            &&& i64::MIN <= q <= i64::MAX
            &&& i64::MIN <= r <= i64::MAX
        }),
{
    lemma_the_parts_of_a_division(a as int, b as int);
    lemma_the_quotient_that_is_too_great(a, b);
}

/// Nothing is divided by zero, and the least integer not by -1.
pub proof fn what_cannot_be_divided_is_raised(a: i64)
    ensures
        crate::frame::machine::int_binary(IntOp::Div, a as int, 0) == Err::<int, Seq<char>>(
            "division by zero"@,
        ),
        crate::frame::machine::int_binary(IntOp::Rem, a as int, 0) == Err::<int, Seq<char>>(
            "remainder by zero"@,
        ),
        crate::frame::machine::int_binary(IntOp::Div, i64::MIN as int, -1) == Err::<int, Seq<char>>(
            "integer overflow in division"@,
        ),
        crate::frame::machine::int_binary(IntOp::Rem, i64::MIN as int, -1) == Err::<int, Seq<char>>(
            "integer overflow in remainder"@,
        ),
{
    lemma_the_quotient_that_is_too_great(i64::MIN, -1i64);
}

/// A sum, a difference and a product are exact, and are raised only where no
/// integer of 64 bits is the answer.
pub proof fn sums_differences_and_products_are_exact(a: i64, b: i64)
    ensures
        match crate::frame::machine::int_binary(IntOp::Add, a as int, b as int) {
            Ok(n) => n == a + b,
            Err(message) => (a + b < -0x8000_0000_0000_0000 || a + b > 0x7fff_ffff_ffff_ffff)
                && message == "integer overflow in addition"@,
        },
        match crate::frame::machine::int_binary(IntOp::Sub, a as int, b as int) {
            Ok(n) => n == a - b,
            Err(message) => (a - b < -0x8000_0000_0000_0000 || a - b > 0x7fff_ffff_ffff_ffff)
                && message == "integer overflow in subtraction"@,
        },
        match crate::frame::machine::int_binary(IntOp::Mul, a as int, b as int) {
            Ok(n) => n == a * b,
            Err(message) => (a * b < -0x8000_0000_0000_0000 || a * b > 0x7fff_ffff_ffff_ffff)
                && message == "integer overflow in multiplication"@,
        },
        crate::frame::machine::int_binary(IntOp::Add, a as int, b as int) matches Ok(n) ==>
            i64::MIN <= n <= i64::MAX,
        crate::frame::machine::int_binary(IntOp::Sub, a as int, b as int) matches Ok(n) ==>
            i64::MIN <= n <= i64::MAX,
        crate::frame::machine::int_binary(IntOp::Mul, a as int, b as int) matches Ok(n) ==>
            i64::MIN <= n <= i64::MAX,
{
}

/// Two integers in ascending order are told apart by every comparison, given
/// either way.
pub proof fn integers_are_told_apart(a: i64, b: i64)
    requires
        a < b,
    ensures
        crate::frame::machine::int_binary(IntOp::Eq, a as int, b as int) == Ok::<int, Seq<char>>(0),
        crate::frame::machine::int_binary(IntOp::Ne, a as int, b as int) == Ok::<int, Seq<char>>(1),
        crate::frame::machine::int_binary(IntOp::Lt, a as int, b as int) == Ok::<int, Seq<char>>(1),
        crate::frame::machine::int_binary(IntOp::Le, a as int, b as int) == Ok::<int, Seq<char>>(1),
        crate::frame::machine::int_binary(IntOp::Gt, a as int, b as int) == Ok::<int, Seq<char>>(0),
        crate::frame::machine::int_binary(IntOp::Ge, a as int, b as int) == Ok::<int, Seq<char>>(0),
        crate::frame::machine::int_binary(IntOp::Eq, b as int, a as int) == Ok::<int, Seq<char>>(0),
        crate::frame::machine::int_binary(IntOp::Ne, b as int, a as int) == Ok::<int, Seq<char>>(1),
        crate::frame::machine::int_binary(IntOp::Lt, b as int, a as int) == Ok::<int, Seq<char>>(0),
        crate::frame::machine::int_binary(IntOp::Le, b as int, a as int) == Ok::<int, Seq<char>>(0),
        crate::frame::machine::int_binary(IntOp::Gt, b as int, a as int) == Ok::<int, Seq<char>>(1),
        crate::frame::machine::int_binary(IntOp::Ge, b as int, a as int) == Ok::<int, Seq<char>>(1),
{
}

/// An integer and itself are told equal by every comparison.
pub proof fn an_integer_equals_itself(a: i64)
    ensures
        crate::frame::machine::int_binary(IntOp::Eq, a as int, a as int) == Ok::<int, Seq<char>>(1),
        crate::frame::machine::int_binary(IntOp::Ne, a as int, a as int) == Ok::<int, Seq<char>>(0),
        crate::frame::machine::int_binary(IntOp::Lt, a as int, a as int) == Ok::<int, Seq<char>>(0),
        crate::frame::machine::int_binary(IntOp::Le, a as int, a as int) == Ok::<int, Seq<char>>(1),
        crate::frame::machine::int_binary(IntOp::Gt, a as int, a as int) == Ok::<int, Seq<char>>(0),
        crate::frame::machine::int_binary(IntOp::Ge, a as int, a as int) == Ok::<int, Seq<char>>(1),
{
}

/// The order of two runs is that of what follows what they have in common.
proof fn lemma_order_past_what_is_shared(a: Seq<u8>, b: Seq<u8>, at: int)
    requires
        0 <= at <= a.len(),
        at <= b.len(),
        a.take(at) == b.take(at),
    ensures
        crate::frame::machine::byte_order(a, b) == crate::frame::machine::byte_order(
            a.skip(at),
            b.skip(at),
        ),
    decreases at,
{
    if at == 0 {
        assert(a.skip(0) =~= a);
        assert(b.skip(0) =~= b);
    } else {
        assert(a[0] == a.take(at)[0] && b[0] == b.take(at)[0]);
        assert(a.skip(1).take(at - 1) =~= a.take(at).skip(1));
        assert(b.skip(1).take(at - 1) =~= b.take(at).skip(1));
        lemma_order_past_what_is_shared(a.skip(1), b.skip(1), at - 1);
        assert(a.skip(1).skip(at - 1) =~= a.skip(at));
        assert(b.skip(1).skip(at - 1) =~= b.skip(at));
    }
}

/// Two texts are ordered by the first byte in which they differ: every
/// comparison, given either way, answers as the comparison of those two bytes.
pub proof fn texts_are_ordered_by_the_first_byte_that_differs(a: Seq<u8>, b: Seq<u8>, at: int)
    requires
        0 <= at < a.len(),
        at < b.len(),
        a.take(at) == b.take(at),
        a[at] < b[at],
    ensures
        ({
            let order = crate::frame::machine::byte_order(a, b);
            &&& crate::frame::machine::compared(BinaryOp::Lt, order)
            &&& crate::frame::machine::compared(BinaryOp::Le, order)
            &&& crate::frame::machine::compared(BinaryOp::Ne, order)
            &&& !crate::frame::machine::compared(BinaryOp::Eq, order)
            &&& !crate::frame::machine::compared(BinaryOp::Gt, order)
            &&& !crate::frame::machine::compared(BinaryOp::Ge, order)
        }),
        ({
            let order = crate::frame::machine::byte_order(b, a);
            &&& crate::frame::machine::compared(BinaryOp::Gt, order)
            &&& crate::frame::machine::compared(BinaryOp::Ge, order)
            &&& crate::frame::machine::compared(BinaryOp::Ne, order)
            &&& !crate::frame::machine::compared(BinaryOp::Eq, order)
            &&& !crate::frame::machine::compared(BinaryOp::Lt, order)
            &&& !crate::frame::machine::compared(BinaryOp::Le, order)
        }),
{
    lemma_order_past_what_is_shared(a, b, at);
    lemma_order_past_what_is_shared(b, a, at);
}

/// A text comes before every longer one that begins with it, and every
/// comparison, given either way, answers so.
pub proof fn a_text_comes_before_what_begins_with_it(a: Seq<u8>, b: Seq<u8>)
    requires
        a.len() < b.len(),
        b.take(a.len() as int) == a,
    ensures
        ({
            let order = crate::frame::machine::byte_order(a, b);
            &&& crate::frame::machine::compared(BinaryOp::Lt, order)
            &&& crate::frame::machine::compared(BinaryOp::Le, order)
            &&& crate::frame::machine::compared(BinaryOp::Ne, order)
            &&& !crate::frame::machine::compared(BinaryOp::Eq, order)
            &&& !crate::frame::machine::compared(BinaryOp::Gt, order)
            &&& !crate::frame::machine::compared(BinaryOp::Ge, order)
        }),
        ({
            let order = crate::frame::machine::byte_order(b, a);
            &&& crate::frame::machine::compared(BinaryOp::Gt, order)
            &&& crate::frame::machine::compared(BinaryOp::Ge, order)
            &&& crate::frame::machine::compared(BinaryOp::Ne, order)
            &&& !crate::frame::machine::compared(BinaryOp::Eq, order)
            &&& !crate::frame::machine::compared(BinaryOp::Lt, order)
            &&& !crate::frame::machine::compared(BinaryOp::Le, order)
        }),
{
    let at = a.len() as int;
    assert(a.take(at) =~= a);
    lemma_order_past_what_is_shared(a, b, at);
    lemma_order_past_what_is_shared(b, a, at);
}

/// A text and itself are told equal by every comparison.
pub proof fn a_text_equals_itself(a: Seq<u8>)
    ensures
        ({
            let order = crate::frame::machine::byte_order(a, a);
            &&& crate::frame::machine::compared(BinaryOp::Eq, order)
            &&& crate::frame::machine::compared(BinaryOp::Le, order)
            &&& crate::frame::machine::compared(BinaryOp::Ge, order)
            &&& !crate::frame::machine::compared(BinaryOp::Ne, order)
            &&& !crate::frame::machine::compared(BinaryOp::Lt, order)
            &&& !crate::frame::machine::compared(BinaryOp::Gt, order)
        }),
{
    lemma_order_past_what_is_shared(a, a, a.len() as int);
}

} // verus!
