//! Decimal numerals: the characters `0` to `9`, the number that a run of them
//! writes, the shortest run that writes a given number, and the powers of
//! ten.

use vstd::prelude::*;
use vstd::arithmetic::mul::lemma_mul_inequality;

verus! {

/// `String::push` of the standard library appends one character to the end of
/// the string and leaves what was there before unchanged. This is assumed, not
/// proved.
pub assume_specification[ String::push ](s: &mut String, c: char)
    ensures
        final(s)@ == old(s)@.push(c),
;

/// One of the ten ASCII digits.
pub open spec fn is_digit(c: char) -> bool {
    '0' <= c && c <= '9'
}

/// The number that the digit `c` stands for.
pub open spec fn digit_value(c: char) -> nat {
    (c as int - '0' as int) as nat
}

/// The digit that stands for `d`, for `d` below ten.
pub open spec fn digit_char(d: nat) -> char {
    ('0' as int + d) as char
}

/// Every character of `s` is a digit.
pub open spec fn all_digits(s: Seq<char>) -> bool {
    forall|i: int| 0 <= i < s.len() ==> is_digit(#[trigger] s[i])
}

/// Every character of `s` is the digit `0`.
pub open spec fn all_zeros(s: Seq<char>) -> bool {
    forall|i: int| 0 <= i < s.len() ==> #[trigger] s[i] == '0'
}

/// The number written by the digits `s`, most significant first. The empty
/// run writes zero and leading zeros do not count.
pub open spec fn digits_value(s: Seq<char>) -> nat
    decreases s.len(),
{
    if s.len() == 0 {
        0
    } else {
        digits_value(s.drop_last()) * 10 + digit_value(s.last())
    }
}

/// The decimal numeral of `n`: no sign, no padding, `"0"` for zero.
pub open spec fn decimal_digits(n: nat) -> Seq<char>
    decreases n,
{
    if n < 10 {
        seq![digit_char(n)]
    } else {
        decimal_digits(n / 10).push(digit_char(n % 10))
    }
}

/// Ten to the power `n`.
pub open spec fn pow10(n: nat) -> nat
    decreases n,
{
    if n == 0 {
        1
    } else {
        10 * pow10((n - 1) as nat)
    }
}

/// A numeral is made of digits, is never empty, and writes the number it was
/// made from.
pub proof fn lemma_decimal_digits_value(n: nat)
    ensures
        decimal_digits(n).len() >= 1,
        all_digits(decimal_digits(n)),
        digits_value(decimal_digits(n)) == n,
    decreases n,
{
    if n < 10 {
        let s = decimal_digits(n);
        assert(s.drop_last() =~= Seq::<char>::empty());
        assert(digits_value(s.drop_last()) == 0);
    } else {
        lemma_decimal_digits_value(n / 10);
        let s = decimal_digits(n);
        assert(s.drop_last() =~= decimal_digits(n / 10));
    }
}

/// Ten to any power is at least one.
pub proof fn lemma_pow10_positive(n: nat)
    ensures
        pow10(n) >= 1,
    decreases n,
{
    if n > 0 {
        lemma_pow10_positive((n - 1) as nat);
    }
}

/// A larger power of ten is a larger number.
pub proof fn lemma_pow10_increases(a: nat, b: nat)
    requires
        a <= b,
    ensures
        pow10(a) <= pow10(b),
    decreases b,
{
    if a < b {
        lemma_pow10_increases(a, (b - 1) as nat);
        lemma_pow10_positive((b - 1) as nat);
    }
}

/// Ten to the power 39 does not fit in 128 bits.
pub proof fn lemma_pow10_beyond_u128()
    ensures
        pow10(39) > u128::MAX,
{
    reveal_with_fuel(pow10, 40);
}

/// Two runs of digits, one after the other, are a run of digits.
pub proof fn lemma_all_digits_concat(front: Seq<char>, back: Seq<char>)
    requires
        all_digits(front),
        all_digits(back),
    ensures
        all_digits(front + back),
{
    let whole = front + back;
    assert forall|i: int| 0 <= i < whole.len() implies is_digit(#[trigger] whole[i]) by {
        if i < front.len() {
            assert(whole[i] == front[i]);
        } else {
            assert(whole[i] == back[i - front.len()]);
        }
    }
}

/// The number written by `front` followed by `back`.
pub proof fn lemma_digits_value_concat(front: Seq<char>, back: Seq<char>)
    ensures
        digits_value(front + back) == digits_value(front) * pow10(back.len()) + digits_value(back),
    decreases back.len(),
{
    let whole = front + back;
    if back.len() == 0 {
        assert(whole =~= front);
        assert(digits_value(front) * 1 == digits_value(front)) by (nonlinear_arith);
    } else {
        let shorter = back.drop_last();
        lemma_digits_value_concat(front, shorter);
        assert(whole.drop_last() =~= front + shorter);
        assert(whole.last() == back.last());
        let f = digits_value(front) as int;
        let p = pow10(shorter.len()) as int;
        let s = digits_value(shorter) as int;
        assert((f * p + s) * 10 == f * (10 * p) + s * 10) by (nonlinear_arith);
    }
}

/// A run of `n` digits writes a number below ten to the power `n`.
pub proof fn lemma_digits_value_bound(digits: Seq<char>)
    requires
        all_digits(digits),
    ensures
        digits_value(digits) < pow10(digits.len()),
    decreases digits.len(),
{
    if digits.len() > 0 {
        let shorter = digits.drop_last();
        assert(all_digits(shorter)) by {
            assert forall|i: int| 0 <= i < shorter.len() implies is_digit(#[trigger] shorter[i]) by {
                assert(shorter[i] == digits[i]);
            }
        }
        lemma_digits_value_bound(shorter);
        assert(is_digit(digits[digits.len() - 1]));
    }
}

/// A run of digits writes zero exactly when all of them are `0`.
pub proof fn lemma_digits_value_zero(digits: Seq<char>)
    requires
        all_digits(digits),
    ensures
        digits_value(digits) == 0 <==> all_zeros(digits),
    decreases digits.len(),
{
    if digits.len() > 0 {
        let shorter = digits.drop_last();
        assert(all_digits(shorter)) by {
            assert forall|i: int| 0 <= i < shorter.len() implies is_digit(#[trigger] shorter[i]) by {
                assert(shorter[i] == digits[i]);
            }
        }
        lemma_digits_value_zero(shorter);
        assert(is_digit(digits[digits.len() - 1]));
        if all_zeros(digits) {
            assert(all_zeros(shorter)) by {
                assert forall|i: int| 0 <= i < shorter.len() implies #[trigger] shorter[i]
                    == '0' by {
                    assert(shorter[i] == digits[i]);
                }
            }
            assert(digits[digits.len() - 1] == '0');
        }
        if digits_value(digits) == 0 {
            assert(all_zeros(shorter));
            assert(digits.last() == '0');
            assert forall|i: int| 0 <= i < digits.len() implies #[trigger] digits[i] == '0' by {
                if i < shorter.len() {
                    assert(shorter[i] == digits[i]);
                }
            }
        }
    }
}

/// The first digits of a run write no more than the whole run.
pub proof fn lemma_digits_value_prefix(digits: Seq<char>, n: int)
    requires
        0 <= n <= digits.len(),
    ensures
        digits_value(digits.take(n)) <= digits_value(digits),
{
    let front = digits.take(n);
    let back = digits.skip(n);
    assert(digits =~= front + back);
    lemma_digits_value_concat(front, back);
    lemma_pow10_positive(back.len());
    lemma_mul_inequality(1, pow10(back.len()) as int, digits_value(front) as int);
    assert(1 * digits_value(front) == digits_value(front));
    assert(pow10(back.len()) * digits_value(front) == digits_value(front) * pow10(back.len()))
        by (nonlinear_arith);
}

/// The characters of `s`, in order.
pub(crate) fn chars_of(s: &str) -> (chars: Vec<char>)
    ensures
        chars@ == s@,
{
    let mut chars: Vec<char> = Vec::new();
    for c in it: s.chars()
        invariant
            it.seq() == s@,
            chars@ == it.seq().take(it.index() as int),
    {
        chars.push(c);
    }
    chars
}

/// Whether `c` is one of the ten ASCII digits.
pub(crate) fn is_digit_char(c: char) -> (yes: bool)
    ensures
        yes == is_digit(c),
{
    '0' <= c && c <= '9'
}

/// The number that the digit `c` stands for.
pub(crate) fn digit_of(c: char) -> (d: u8)
    requires
        is_digit(c),
    ensures
        d == digit_value(c),
        d < 10,
{
    (c as u32 - '0' as u32) as u8
}

/// The digit that stands for `d`.
pub(crate) fn char_of_digit(d: u8) -> (c: char)
    requires
        d < 10,
    ensures
        c == digit_char(d as nat),
        is_digit(c),
        digit_value(c) == d,
{
    (48u8 + d) as char
}

/// Appends the decimal numeral of `n` to `out`.
pub(crate) fn push_decimal(out: &mut String, n: u128)
    ensures
        final(out)@ == old(out)@ + decimal_digits(n as nat),
    decreases n,
{
    if n >= 10 {
        push_decimal(out, n / 10);
    }
    out.push(char_of_digit((n % 10) as u8));
}

/// Whether `chars[from..to]` are all digits.
pub(crate) fn all_digits_in(chars: &Vec<char>, from: usize, to: usize) -> (yes: bool)
    requires
        from <= to <= chars.len(),
    ensures
        yes == all_digits(chars@.subrange(from as int, to as int)),
{
    let ghost text = chars@.subrange(from as int, to as int);
    let mut i: usize = from;
    while i < to
        invariant
            from <= i <= to <= chars.len(),
            text == chars@.subrange(from as int, to as int),
            forall|j: int| from <= j < i ==> is_digit(#[trigger] chars@[j]),
        decreases to - i,
    {
        if !is_digit_char(chars[i]) {
            assert(text[i - from] == chars@[i as int]);
            return false;
        }
        i += 1;
    }
    assert forall|j: int| 0 <= j < text.len() implies is_digit(#[trigger] text[j]) by {
        assert(text[j] == chars@[from + j]);
    }
    true
}

/// Whether `chars[from..to]` are all the digit `0`.
pub(crate) fn all_zeros_in(chars: &Vec<char>, from: usize, to: usize) -> (yes: bool)
    requires
        from <= to <= chars.len(),
    ensures
        yes == all_zeros(chars@.subrange(from as int, to as int)),
{
    let ghost text = chars@.subrange(from as int, to as int);
    let mut i: usize = from;
    while i < to
        invariant
            from <= i <= to <= chars.len(),
            text == chars@.subrange(from as int, to as int),
            forall|j: int| from <= j < i ==> #[trigger] chars@[j] == '0',
        decreases to - i,
    {
        if chars[i] != '0' {
            assert(text[i - from] == chars@[i as int]);
            return false;
        }
        i += 1;
    }
    assert forall|j: int| 0 <= j < text.len() implies #[trigger] text[j] == '0' by {
        assert(text[j] == chars@[from + j]);
    }
    true
}

/// The number written by the digits `chars[from..to]`, or `None` where it
/// does not fit in 128 bits.
pub(crate) fn value_of(chars: &Vec<char>, from: usize, to: usize) -> (value: Option<u128>)
    requires
        from <= to <= chars.len(),
        all_digits(chars@.subrange(from as int, to as int)),
    ensures
        value is Some <==> digits_value(chars@.subrange(from as int, to as int)) <= u128::MAX,
        value is Some ==> value->0 == digits_value(chars@.subrange(from as int, to as int)),
{
    let ghost text = chars@.subrange(from as int, to as int);
    let mut acc: u128 = 0;
    let mut i: usize = from;
    while i < to
        invariant
            from <= i <= to <= chars.len(),
            text == chars@.subrange(from as int, to as int),
            all_digits(text),
            acc == digits_value(chars@.subrange(from as int, i as int)),
        decreases to - i,
    {
        let c = chars[i];
        assert(text[i - from] == c);
        let d = digit_of(c) as u128;
        proof {
            let longer = chars@.subrange(from as int, i + 1);
            assert(longer.drop_last() =~= chars@.subrange(from as int, i as int));
            assert(longer.last() == c);
            assert(digits_value(longer) == acc * 10 + d);
        }
        if acc > (u128::MAX - d) / 10 {
            proof {
                assert(text.take(i + 1 - from) =~= chars@.subrange(from as int, i + 1));
                lemma_digits_value_prefix(text, i + 1 - from);
            }
            return None;
        }
        acc = acc * 10 + d;
        i += 1;
    }
    Some(acc)
}

} // verus!
