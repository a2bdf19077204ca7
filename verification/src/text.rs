//! Small pieces of text handling: appending to a string, and writing a
//! port number in decimal.

use vstd::prelude::*;

verus! {

/// `String::push` of the standard library appends the given character to
/// the end of the string and changes nothing else.
pub assume_specification[ String::push ](text: &mut String, ch: char)
    ensures
        final(text)@ == old(text)@.push(ch),
;

/// The character that writes the digit `d`, for `d` below ten.
pub open spec fn digit_char(d: nat) -> char {
    (('0' as u8) + d) as u8 as char
}

/// `n` in decimal, without sign or leading zeros; zero is "0".
pub open spec fn decimal_digits(n: nat) -> Seq<char>
    decreases n,
{
    if n < 10 {
        seq![digit_char(n)]
    } else {
        decimal_digits(n / 10).push(digit_char(n % 10))
    }
}

/// The number that `digits` writes in base ten, most significant digit
/// first.
pub open spec fn decimal_value(digits: Seq<char>) -> nat
    decreases digits.len(),
{
    if digits.len() == 0 {
        0
    } else {
        (10 * decimal_value(digits.drop_last()) + (digits.last() as u8 - '0' as u8)) as nat
    }
}

/// The decimal text of a number is made of digits, starts with a zero only
/// for zero itself, and reads back as the number.
pub proof fn lemma_decimal_digits(n: nat)
    ensures
        decimal_digits(n).len() >= 1,
        forall|i: int|
            0 <= i < decimal_digits(n).len() ==> '0' <= #[trigger] decimal_digits(n)[i] <= '9',
        decimal_digits(n)[0] == '0' <==> n == 0,
        decimal_value(decimal_digits(n)) == n,
    decreases n,
{
    let text = decimal_digits(n);
    if n < 10 {
        assert(text.drop_last() =~= Seq::<char>::empty());
        assert(decimal_value(text.drop_last()) == 0);
        assert(text.last() as u8 - '0' as u8 == n);
    } else {
        let front = decimal_digits(n / 10);
        lemma_decimal_digits(n / 10);
        assert(text.drop_last() =~= front);
        assert(text[0] == front[0]);
        assert(text.last() as u8 - '0' as u8 == n % 10);
        assert forall|i: int| 0 <= i < text.len() implies '0' <= #[trigger] text[i] <= '9' by {
            if i < front.len() {
                assert(text[i] == front[i]);
            }
        }
    }
}

/// Appends `n` in decimal to `text`.
pub fn push_decimal(text: &mut String, n: u16)
    ensures
        final(text)@ == old(text)@ + decimal_digits(n as nat),
    decreases n,
{
    if n >= 10 {
        push_decimal(text, n / 10);
    }
    let d: u8 = (n % 10) as u8;
    text.push((('0' as u8) + d) as char);
    proof {
        let before = old(text)@;
        if n >= 10 {
            assert(before + decimal_digits(n as nat) =~= (before + decimal_digits(
                (n / 10) as nat,
            )).push(digit_char((n % 10) as nat)));
        } else {
            assert(before + decimal_digits(n as nat) =~= before.push(digit_char(n as nat)));
        }
    }
}

} // verus!
