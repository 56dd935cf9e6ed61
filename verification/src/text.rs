//! Numbers as decimal text.

use crate::types::{two_256, U256};
use vstd::prelude::*;

verus! {

/// Whether a character is a decimal digit.
pub open spec fn is_digit(c: char) -> bool {
    '0' <= c && c <= '9'
}

/// The value of a decimal digit.
pub open spec fn digit_value(c: char) -> nat {
    (c as u32 - '0' as u32) as nat
}

/// The digit of a value below ten.
pub open spec fn digit_char(value: nat) -> char {
    (value + '0' as u32) as char
}

/// The decimal digits of a number, without leading zeros.
pub open spec fn decimal(value: nat) -> Seq<char>
    decreases value,
{
    if value < 10 {
        seq![digit_char(value)]
    } else {
        decimal(value / 10).push(digit_char(value % 10))
    }
}

/// The number that digits spell, underscores between them being passed over.
pub open spec fn digits_value(digits: Seq<char>) -> Option<nat>
    decreases digits.len(),
{
    if digits.len() == 0 {
        Some(0)
    } else {
        match digits_value(digits.drop_last()) {
            Some(value) => if is_digit(digits.last()) {
                Some(value * 10 + digit_value(digits.last()))
            } else if digits.last() == '_' {
                Some(value)
            } else {
                None
            },
            None => None,
        }
    }
}

/// Text without a plus sign in front of it. Of two plus signs none is taken off.
pub open spec fn without_plus(text: Seq<char>) -> Seq<char> {
    if text.len() > 0 && text[0] == '+' && !(text.len() > 1 && text[1] == '+') {
        text.skip(1)
    } else {
        text
    }
}

/// The number that text spells, one plus sign being allowed in front. The first character
/// after it has to be a digit.
pub open spec fn decimal_value(text: Seq<char>) -> Option<nat> {
    let digits = without_plus(text);
    if digits.len() == 0 || digits[0] == '_' {
        None
    } else {
        digits_value(digits)
    }
}

/// A number is recovered from its decimal digits.
pub proof fn law_decimal_round_trip(value: nat)
    ensures
        digits_value(decimal(value)) == Some(value),
        decimal_value(decimal(value)) == Some(value),
{
    lemma_digits_of_decimal(value);
}

/// The same, with what the first digit is.
proof fn lemma_digits_of_decimal(value: nat)
    ensures
        digits_value(decimal(value)) == Some(value),
        decimal(value).len() > 0,
        is_digit(decimal(value)[0]),
    decreases value,
{
    let low = digit_char(value % 10);
    assert(is_digit(low) && digit_value(low) == value % 10);
    if value < 10 {
        assert(decimal(value).drop_last() =~= Seq::empty());
        assert(digits_value(decimal(value).drop_last()) == Some(0nat));
    } else {
        lemma_digits_of_decimal(value / 10);
        assert(decimal(value).drop_last() =~= decimal(value / 10));
    }
}

/// `alloy_primitives::U256`'s `Display`: the decimal digits of the value.
#[verifier::external_body]
pub(crate) fn u256_to_text(value: &U256) -> (r: String)
    ensures
        r@ == decimal(value@),
{
    alloy_primitives::U256::from_limbs([value.l0, value.l1, value.l2, value.l3]).to_string()
}

/// `alloy_primitives::U256::from_str_radix` in base ten: the number that digits spell,
/// where they spell one and it fits in 256 bits.
#[verifier::external_body]
pub(crate) fn u256_from_text(text: &str) -> (r: Option<U256>)
    ensures
        r is Some <==> (digits_value(text@) is Some && digits_value(text@)->0 < two_256()),
        r matches Some(v) ==> digits_value(text@) == Some(v@),
{
    let [l0, l1, l2, l3] = alloy_primitives::U256::from_str_radix(text, 10).ok()?.into_limbs();
    Some(U256 { l0, l1, l2, l3 })
}

/// Whether two texts are the same.
pub fn same_text(a: &str, b: &str) -> (r: bool)
    ensures
        r == (a@ == b@),
{
    let len: usize = a.unicode_len();
    if len != b.unicode_len() {
        return false;
    }
    let mut i: usize = 0;
    while i < len
        invariant
            i <= len,
            len == a@.len(),
            len == b@.len(),
            forall|k: int| 0 <= k < i ==> a@[k] == b@[k],
        decreases len - i,
    {
        if a.get_char(i) != b.get_char(i) {
            return false;
        }
        i += 1;
    }
    assert(a@ =~= b@);
    true
}

} // verus!
