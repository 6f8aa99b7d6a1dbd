//! Text, built and read a piece at a time.
use vstd::prelude::*;
use vstd::string::*;

verus! {

/// Whether two texts are the same.
pub fn same(a: &str, b: &str) -> (yes: bool)
    ensures
        yes == (a@ == b@),
{
    a.to_owned() == b.to_owned()
}

/// The digits of a number, most significant first.
pub open spec fn digits(n: nat) -> Seq<char>
    decreases n,
{
    if n < 10 {
        seq![digit(n)]
    } else {
        digits(n / 10).push(digit(n % 10))
    }
}

/// One decimal digit.
pub open spec fn digit(n: nat) -> char {
    if n == 0 {
        '0'
    } else if n == 1 {
        '1'
    } else if n == 2 {
        '2'
    } else if n == 3 {
        '3'
    } else if n == 4 {
        '4'
    } else if n == 5 {
        '5'
    } else if n == 6 {
        '6'
    } else if n == 7 {
        '7'
    } else if n == 8 {
        '8'
    } else {
        '9'
    }
}

/// A signed number as Cove shows it.
pub open spec fn shown_int(n: int) -> Seq<char> {
    if n < 0 {
        seq!['-'] + digits((-n) as nat)
    } else {
        digits(n as nat)
    }
}

/// One decimal digit, as text.
fn digit_text(n: u64) -> (text: &'static str)
    requires
        n < 10,
    ensures
        text@ == seq![digit(n as nat)],
{
    proof {
        reveal_strlit("0");
        reveal_strlit("1");
        reveal_strlit("2");
        reveal_strlit("3");
        reveal_strlit("4");
        reveal_strlit("5");
        reveal_strlit("6");
        reveal_strlit("7");
        reveal_strlit("8");
        reveal_strlit("9");
    }
    if n == 0 {
        "0"
    } else if n == 1 {
        "1"
    } else if n == 2 {
        "2"
    } else if n == 3 {
        "3"
    } else if n == 4 {
        "4"
    } else if n == 5 {
        "5"
    } else if n == 6 {
        "6"
    } else if n == 7 {
        "7"
    } else if n == 8 {
        "8"
    } else {
        "9"
    }
}

/// A number in decimal.
pub fn decimal(n: u64) -> (text: String)
    ensures
        text@ == digits(n as nat),
    decreases n,
{
    if n < 10 {
        digit_text(n).to_owned()
    } else {
        let mut text: String = decimal(n / 10);
        text.append(digit_text(n % 10));
        proof {
            assert(text@ =~= digits(n as nat));
        }
        text
    }
}

/// A signed number in decimal.
pub fn signed_decimal(n: i64) -> (text: String)
    ensures
        text@ == shown_int(n as int),
{
    if n < 0 {
        let magnitude: u64 = if n == i64::MIN {
            9_223_372_036_854_775_808u64
        } else {
            (-n) as u64
        };
        let mut text: String = "-".to_owned();
        proof {
            reveal_strlit("-");
        }
        text.append(decimal(magnitude).as_str());
        text
    } else {
        decimal(n as u64)
    }
}

/// Three texts, one after another.
pub fn joined(a: &str, b: &str, c: &str) -> (text: String)
    ensures
        text@ == a@ + b@ + c@,
{
    let mut text: String = a.to_owned();
    text.append(b);
    text.append(c);
    text
}

/// A text between two backquotes.
pub open spec fn quoted(text: Seq<char>) -> Seq<char> {
    seq!['`'] + text + seq!['`']
}

/// A text between two backquotes.
pub fn quote(text: &str) -> (r: String)
    ensures
        r@ == quoted(text@),
{
    proof {
        reveal_strlit("`");
    }
    joined("`", text, "`")
}

/// The text some bytes encode, if they encode one.
///
/// This is `String::from_utf8`, of which it is taken on trust that it answers
/// exactly the valid encodings, each with the text it encodes.
#[verifier::external_body]
pub(crate) fn text_of_bytes(bytes: Vec<u8>) -> (text: Option<String>)
    ensures
        match text {
            Some(t) => vstd::utf8::valid_utf8(bytes@) && t@ == vstd::utf8::decode_utf8(bytes@),
            None => !vstd::utf8::valid_utf8(bytes@),
        },
{
    String::from_utf8(bytes).ok()
}

/// The number a run of decimal digits stands for.
pub open spec fn number_of(text: Seq<char>) -> int
    decreases text.len(),
{
    if text.len() == 0 {
        0
    } else {
        10 * number_of(text.drop_last()) + (text.last() as int - '0' as int)
    }
}

/// A number is read back from its digits, which are decimal digits and begin
/// with a zero only where they are a single one.
pub proof fn a_number_is_read_back_from_its_digits(n: nat)
    ensures
        number_of(digits(n)) == n,
        digits(n).len() >= 1,
        forall|i: int| 0 <= i < digits(n).len() ==> '0' <= #[trigger] digits(n)[i] <= '9',
        digits(n)[0] == '0' ==> n == 0 && digits(n).len() == 1,
    decreases n,
{
    reveal_with_fuel(number_of, 2);
    if n < 10 {
        let text = digits(n);
        assert(text.drop_last() =~= Seq::empty());
        assert(text.last() == digit(n));
    } else {
        a_number_is_read_back_from_its_digits(n / 10);
        let before = digits(n / 10);
        let text = digits(n);
        assert(text.drop_last() =~= before);
        assert(text.last() == digit(n % 10));
        assert(text[0] == before[0]);
        assert forall|i: int| 0 <= i < text.len() implies '0' <= #[trigger] text[i] <= '9' by {
            if i < before.len() {
                assert(text[i] == before[i]);
            }
        }
    }
}

/// A signed number is its digits, with a minus before them just where it is
/// below zero.
pub proof fn a_signed_number_is_read_back(n: int)
    ensures
        n >= 0 ==> number_of(shown_int(n)) == n && shown_int(n)[0] != '-',
        n < 0 ==> shown_int(n).len() >= 2 && shown_int(n)[0] == '-' && number_of(
            shown_int(n).skip(1),
        ) == -n,
{
    if n >= 0 {
        a_number_is_read_back_from_its_digits(n as nat);
        let first = digits(n as nat)[0];
        assert('0' <= first <= '9');
    } else {
        a_number_is_read_back_from_its_digits((-n) as nat);
        assert(shown_int(n).skip(1) =~= digits((-n) as nat));
    }
}

/// Two numbers show alike only where they are the same.
pub proof fn numbers_that_show_alike_are_the_same(a: int, b: int)
    requires
        shown_int(a) == shown_int(b),
    ensures
        a == b,
{
    a_signed_number_is_read_back(a);
    a_signed_number_is_read_back(b);
}

/// A quoted text is the text itself between two backquotes.
pub proof fn a_quoted_text_stands_between_two_backquotes(text: Seq<char>)
    ensures
        quoted(text).len() == text.len() + 2,
        quoted(text).first() == '`',
        quoted(text).last() == '`',
        quoted(text).subrange(1, text.len() as int + 1) == text,
{
    assert(quoted(text).subrange(1, text.len() as int + 1) =~= text);
}

} // verus!
