//! Musical keys: from open-key notation (a number and `m` or `d`) to wheel
//! notation (a number and `A` or `B`), seven steps further round a circle of
//! twelve.

use vstd::prelude::*;
use crate::digits::{all_digits, decimal_digits, digits_value, is_digit, lemma_decimal_digits_value};

verus! {

/// The digits of the number in front of the key's letter: everything but the
/// last character, without a leading `+`.
pub open spec fn key_number_text(key: Seq<char>) -> Seq<char> {
    let prefix = key.drop_last();
    if prefix.len() > 0 && prefix[0] == '+' {
        prefix.skip(1)
    } else {
        prefix
    }
}

/// A key in open-key notation: a number written in digits, then `m` (minor)
/// or `d` (major).
pub open spec fn is_open_key(key: Seq<char>) -> bool {
    &&& key.len() >= 2
    &&& key_number_text(key).len() > 0
    &&& all_digits(key_number_text(key))
    &&& (key.last() == 'm' || key.last() == 'd')
}

/// The number of the key on the wheel: seven steps on from its open-key
/// number, counted modulo twelve.
pub open spec fn camelot_number(key: Seq<char>) -> nat {
    (digits_value(key_number_text(key)) + 7) % 12
}

/// `A` for minor, `B` for major.
pub open spec fn camelot_letter(quality: char) -> char {
    if quality == 'm' {
        'A'
    } else {
        'B'
    }
}

/// The key in wheel notation. Anything that is not an open key stands for
/// itself.
pub open spec fn camelot_key(key: Seq<char>) -> Seq<char> {
    if is_open_key(key) {
        decimal_digits(camelot_number(key)).push(camelot_letter(key.last()))
    } else {
        key
    }
}

/// Reading one more digit: the remainder modulo twelve of the longer number
/// follows from that of the shorter one.
pub proof fn lemma_modulo_twelve_step(shorter: nat, digit: nat)
    ensures
        (shorter * 10 + digit) % 12 == ((shorter % 12) * 10 + digit) % 12,
{
}

/// Turning by seven can be done on the remainder modulo twelve.
pub proof fn lemma_modulo_twelve_turn(number: nat)
    ensures
        (number + 7) % 12 == ((number % 12) + 7) % 12,
{
}

/// The open key number `n`, minor or major, becomes number `(n + 7) mod 12`
/// with `A` for minor and `B` for major.
pub proof fn lemma_open_key_turns_seven_steps(n: nat, minor: bool)
    ensures
        is_open_key(decimal_digits(n).push(if minor { 'm' } else { 'd' })),
        camelot_key(decimal_digits(n).push(if minor { 'm' } else { 'd' }))
            == decimal_digits((n + 7) % 12).push(if minor { 'A' } else { 'B' }),
{
    let key = decimal_digits(n).push(if minor { 'm' } else { 'd' });
    lemma_decimal_digits_value(n);
    assert(key.drop_last() =~= decimal_digits(n));
    assert(is_digit(decimal_digits(n)[0]));
    assert(key_number_text(key) == decimal_digits(n));
}

/// A string that is no open key is left as it is: one too short, one without
/// a number in front, one with something else than digits there, one with
/// another letter at the end.
pub proof fn lemma_other_keys_unchanged(key: Seq<char>)
    requires
        key.len() < 2 || key_number_text(key).len() == 0 || !all_digits(key_number_text(key)) || (
        key.last() != 'm' && key.last() != 'd'),
    ensures
        !is_open_key(key),
        camelot_key(key) == key,
{
}

} // verus!
